//! An in-memory index for approximate lookup under a metric distance:
//! a BK-tree map paired with a weighted edit-distance metric.

pub mod levenshtein;
pub mod metric;
pub mod search;
pub mod tree;
pub mod laws;
