//! Searching the index: what a query looks for, and how what is found is weighed and ranked.

pub mod grouping;
pub mod hits;
pub mod paths;
pub mod proximity;
pub mod rerank;
pub mod terms;
