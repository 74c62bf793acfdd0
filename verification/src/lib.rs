//! A tag-based index over files: tags are named sets of files, each file
//! recorded under its filename together with its canonical absolute path.
//!
//! The store never touches the filesystem itself. Callers resolve a path to
//! its canonical form and hand the outcome in as a plain value.

pub mod error;
pub mod laws;
pub mod names;
pub mod path;
pub mod store;
pub mod tag;

pub use error::StoreError;
pub use store::Filesystem;
pub use tag::Tag;
