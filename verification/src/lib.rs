//! Graph-analysis primitives over immutable directed graphs.
//!
//! The crate offers an immutable directed multigraph with dense vertex ids,
//! event-driven depth-first traversals over one tree or over the whole graph,
//! Tarjan's strongly connected components on top of the traversal, plain
//! breadth-first and depth-first vertex enumerations, and weakly connected
//! components through a union-find forest.

pub mod algorithms;
pub mod graph;

pub use crate::algorithms::component::Component;
pub use crate::algorithms::enumeration::detailed::graph::DepthFirst as DetailedDepthFirstOnGraph;
pub use crate::algorithms::enumeration::detailed::tree::{
    DFSEntry, DepthFirst as DetailedDepthFirstOnTree,
};
pub use crate::algorithms::enumeration::graph::GraphBreadthFirst as BreadthFirstOnGraph;
pub use crate::algorithms::enumeration::graph::GraphDepthFirst as DepthFirstOnGraph;
pub use crate::algorithms::enumeration::tree::BreadthFirst as BreadthFirstOnTree;
pub use crate::algorithms::enumeration::tree::DepthFirst as DepthFirstOnTree;
pub use crate::algorithms::scc::algorithm::SCC;
pub use crate::algorithms::wcc::algorithm::WCC;
pub use crate::graph::{is_closed, is_path, reaches, vertex_set, Edge, Graph, GraphView, VertexId};
