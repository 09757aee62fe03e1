//! Tarjan's strongly connected components algorithm.

pub mod algorithm;
pub mod laws;
pub mod order;
pub mod run;
pub mod stack;
