//! Weakly connected components through a union-find forest.

pub mod algorithm;
pub mod laws;
pub mod union_find;
