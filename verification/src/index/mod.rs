//! The phrase index: what is read from the files of a repository and how it is laid out.

pub mod cache;
pub mod changes;
pub mod contexts;
pub mod digest;
pub mod extract;
pub mod files;
pub mod incremental;
pub mod merged;
pub mod occurrences;
pub mod rows;
pub mod schema;
