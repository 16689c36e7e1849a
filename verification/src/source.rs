//! The two halves of discovery and scanning: `tree` finds the candidate
//! files, `file` extracts the marker records of one file.

pub mod file;
pub mod tree;

pub use file::Comment;
pub use file::File;
pub use tree::Tree;
