//! A disjoint-set (union-find) structure over `u64` elements, with path
//! compression and union by height, verified against a model that maps each
//! registered element to the representative of its set.
pub mod disjoint_set;
pub mod laws;

pub use disjoint_set::DisjointSet;
