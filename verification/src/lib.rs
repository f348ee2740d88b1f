//! A small distributed version-control system whose repository logic runs
//! over an in-memory model of the file system.
pub mod strs;
pub mod path;
pub mod ui;
pub mod strmap;
pub mod vc;
pub mod json;
pub mod outside;
pub mod dsr;
pub mod cmd_function;
pub mod cmd_interface;
pub mod test_help;
pub mod laws;
pub use cmd_interface::{readwrite, createonly, readonly};
