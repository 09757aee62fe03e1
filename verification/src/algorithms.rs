//! The algorithms that work on a [`crate::Graph`].

pub mod component;
pub mod enumeration;
pub mod scc;
pub mod wcc;
