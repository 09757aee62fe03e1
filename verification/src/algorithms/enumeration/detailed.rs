//! Depth-first traversals that report every step as an event: the begin and
//! end of each vertex and of each edge.

pub mod events;
pub mod graph;
pub mod laws;
pub mod path;
pub mod tree;
