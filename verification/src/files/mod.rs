//! Files as the document pipeline sees them: decoded, with universal newlines.

pub mod git;
pub mod ignore_file;
pub mod io;

pub use io::{FileError, FileText, FixStatus};
