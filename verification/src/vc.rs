//! The version-control core: tracked items, revisions and the repository.
pub mod file;
pub mod revision;
pub mod repository;
