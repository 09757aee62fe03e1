//! A component: a set of vertices that an algorithm found to belong together.

use crate::graph::{vertex_set, VertexId};
use std::collections::HashSet;
use vstd::prelude::*;

verus! {

broadcast use vstd::std_specs::hash::group_hash_axioms;

/// A set of vertices. Two components are equal if they hold the same
/// vertices.
#[derive(Debug, PartialEq, Eq)]
pub struct Component(HashSet<usize>);

impl View for Component {
    type V = Set<VertexId>;

    closed spec fn view(&self) -> Set<VertexId> {
        vertex_set(self.0@)
    }
}

impl Component {
    /// The empty component.
    pub fn new() -> (component: Self)
        ensures
            component@ == Set::<VertexId>::empty(),
    {
        let component = Self(HashSet::new());
        assert(component@ =~= Set::<VertexId>::empty());
        component
    }

    /// The component that holds exactly the given vertices.
    pub fn from(vertices: Vec<VertexId>) -> (component: Self)
        ensures
            component@ == vertices@.to_set(),
    {
        let mut ids: HashSet<usize> = HashSet::new();
        let mut i: usize = 0;
        while i < vertices.len()
            invariant
                i <= vertices@.len(),
                vertex_set(ids@) == vertices@.take(i as int).to_set(),
            decreases vertices@.len() - i,
        {
            let ghost before = ids@;
            ids.insert(vertices[i].0);
            proof {
                let prefix = vertices@.take(i as int);
                let longer = vertices@.take(i as int + 1);
                assert(longer == prefix.push(vertices@[i as int]));
                assert forall|v: VertexId| #[trigger]
                    vertex_set(ids@).contains(v) <==> longer.to_set().contains(v) by {
                    assert(vertex_set(before).contains(v) <==> prefix.to_set().contains(v));
                    if prefix.contains(v) {
                        let k = choose|k: int| 0 <= k < prefix.len() && prefix[k] == v;
                        assert(longer[k] == v);
                    }
                    if v == vertices@[i as int] {
                        assert(longer[i as int] == v);
                    }
                    if longer.contains(v) {
                        let k = choose|k: int| 0 <= k < longer.len() && longer[k] == v;
                        if k < i {
                            assert(prefix[k] == v);
                        }
                    }
                }
                assert(vertex_set(ids@) =~= longer.to_set());
            }
            i += 1;
        }
        proof {
            assert(vertices@.take(vertices@.len() as int) == vertices@);
        }
        Self(ids)
    }

    /// Adds `vertex` to the component.
    pub fn add(&mut self, vertex: VertexId)
        ensures
            final(self)@ == old(self)@.insert(vertex),
    {
        self.0.insert(vertex.0);
        assert(final(self)@ =~= old(self)@.insert(vertex));
    }
}

} // verus!
