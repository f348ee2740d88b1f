//! The commands of the tool, over a repository found from a working
//! directory.
pub mod readwrite;
pub mod createonly;
pub mod readonly;
pub mod status;
