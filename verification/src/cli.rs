//! The configuration handed to the core by the command-line layer.

use vstd::prelude::*;

verus! {

/// Scan configuration, delivered by the command-line layer as plain values.
///
/// `skip_regex` is accepted but not yet wired into the core behavior.
pub struct Args {
    /// Verbosity level (count of occurrences of the verbose flag).
    pub verbose: usize,
    /// Pattern for entry base names to leave out of the walk.
    pub ignore_regex: Option<String>,
    /// Reserved: pattern for source files to skip.
    pub skip_regex: Option<String>,
    /// Root of the tree to scan.
    pub path: String,
}

} // verus!
