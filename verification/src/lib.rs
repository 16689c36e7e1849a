//! Scans a source tree for TODO/FIXME-style comment markers and builds a
//! prioritized report.
//!
//! The crate is organized as a pipeline: `pattern` recognizes a marker on a
//! single line, `source::file` scans the lines of one file, `source::tree`
//! walks a directory tree (driven by an outside loop that performs the
//! directory reads), and `report` aggregates and sorts the records.

use vstd::prelude::*;

pub mod cli;
pub mod ignore;
pub mod pattern;
pub mod report;
pub mod source;

verus! {

/// The ways a scan can fail before any I/O error: the ignore pattern does
/// not compile, or a scanned path has no base name to report under.
#[derive(Clone, Copy, Debug, PartialEq, Eq, Structural)]
pub enum ScanError {
    /// The ignore pattern is not a valid regular expression.
    InvalidPattern,
    /// A scanned path has no resolvable base-name component.
    MissingFileName,
}

} // verus!
