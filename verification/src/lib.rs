//! A phrase index of source code: what is read from the files of a repository, how it is stored, how
//! it is searched, and what it tells about the reach of a change.

pub mod index;
pub mod json;
pub mod lcep;
pub mod number;
pub mod order;
pub mod search;
pub mod server;
pub mod setup;
pub mod structural_risk;
pub mod text;
pub mod text_map;
pub mod zone;
