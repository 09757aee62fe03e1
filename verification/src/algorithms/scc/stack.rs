//! The stack of vertices whose strongly connected component is not complete
//! yet, with the discovery index and the low link of each.

use crate::algorithms::component::Component;
use crate::algorithms::enumeration::detailed::tree::DFSEntry;
use crate::graph::VertexId;
use std::collections::HashMap;
use vstd::prelude::*;

verus! {

broadcast use vstd::std_specs::hash::group_hash_axioms;

/// The position of a vertex in the order of discovery.
#[derive(Debug, PartialEq, Eq, Clone, Copy, PartialOrd, Ord)]
struct VertexIndex(usize);

/// The discovery index and the low link of a vertex on the stack.
#[derive(Debug, PartialEq)]
struct Vertex {
    index: VertexIndex,
    low_link: VertexIndex,
}

impl Vertex {
    fn from(index: VertexIndex, low_link: VertexIndex) -> (vertex: Self)
        ensures
            vertex.index == index,
            vertex.low_link == low_link,
    {
        Self { index, low_link }
    }

    fn is_root(&self) -> (root: bool)
        ensures
            root == (self.index.0 == self.low_link.0),
    {
        self.index.0 == self.low_link.0
    }
}

/// What the stack knows of a vertex.
pub struct Links {
    /// The discovery index of the vertex.
    pub index: nat,
    /// The smallest discovery index that the vertex is known to reach
    /// among the vertices on the stack.
    pub low_link: nat,
}

/// The stack as a mathematical value.
pub struct StackView {
    /// The vertices in the order in which they were pushed.
    pub stack: Seq<VertexId>,
    /// The links of the vertices that have an entry.
    pub links: Map<VertexId, Links>,
    /// The discovery index that the next vertex gets.
    pub next_index: nat,
}

/// The highest position at which `vertex` stands in `stack`, or -1 if it
/// does not occur.
pub open spec fn top_position(stack: Seq<VertexId>, vertex: VertexId) -> int
    decreases stack.len(),
{
    if stack.len() == 0 {
        -1
    } else if stack.last() == vertex {
        stack.len() - 1
    } else {
        top_position(stack.drop_last(), vertex)
    }
}

/// The highest position of a vertex that occurs in a stack holds that vertex,
/// and no higher position does.
pub proof fn lemma_top_position(stack: Seq<VertexId>, vertex: VertexId)
    ensures
        -1 <= top_position(stack, vertex) < stack.len(),
        stack.contains(vertex) <==> top_position(stack, vertex) >= 0,
        top_position(stack, vertex) >= 0 ==> stack[top_position(stack, vertex)] == vertex,
        forall|i: int| top_position(stack, vertex) < i < stack.len() ==> stack[i] != vertex,
    decreases stack.len(),
{
    if stack.len() > 0 {
        let init = stack.drop_last();
        lemma_top_position(init, vertex);
        if stack.last() == vertex {
            assert(stack[stack.len() - 1] == vertex);
        } else {
            assert forall|i: int| top_position(stack, vertex) < i < stack.len() implies stack[i]
                != vertex by {
                if i < init.len() {
                    assert(init[i] == stack[i]);
                }
            }
            if stack.contains(vertex) {
                let i = choose|i: int| 0 <= i < stack.len() && stack[i] == vertex;
                assert(init[i] == vertex);
            }
            if top_position(stack, vertex) >= 0 {
                assert(stack[top_position(stack, vertex)] == init[top_position(init, vertex)]);
            }
        }
    }
}

impl StackView {
    /// The stack without vertices; the first vertex will get index 0.
    pub open spec fn empty() -> StackView {
        StackView { stack: Seq::empty(), links: Map::empty(), next_index: 0 }
    }

    /// The stack after `vertex` was pushed: it gets the next index, as
    /// its index and as its low link.
    pub open spec fn push(self, vertex: VertexId) -> StackView {
        StackView {
            stack: self.stack.push(vertex),
            links: self.links.insert(
                vertex,
                Links { index: self.next_index, low_link: self.next_index },
            ),
            next_index: self.next_index + 1,
        }
    }

    /// The stack after the low link of `vertex` was lowered to that of
    /// `update`; nothing changes if `update` has no entry.
    pub open spec fn update_with_minimum(self, vertex: VertexId, update: VertexId) -> StackView {
        if self.links.contains_key(update) {
            let low_link = if self.links[vertex].low_link <= self.links[update].low_link {
                self.links[vertex].low_link
            } else {
                self.links[update].low_link
            };
            StackView {
                links: self.links.insert(
                    vertex,
                    Links { index: self.links[vertex].index, low_link },
                ),
                ..self
            }
        } else {
            self
        }
    }

    /// Whether `vertex` is the root of its component: its low link is its
    /// own index.
    pub open spec fn is_root(self, vertex: VertexId) -> bool {
        self.links[vertex].index == self.links[vertex].low_link
    }

    /// The vertices from the topmost `vertex` upwards.
    pub open spec fn above(self, vertex: VertexId) -> Set<VertexId> {
        self.stack.skip(top_position(self.stack, vertex)).to_set()
    }

    /// The stack after an event of the traversal was taken in, and the
    /// component that the event completes, if it completes one.
    ///
    /// A vertex that begins is pushed with the next index. An edge that
    /// ends lowers the low link of its start to the low link of its target,
    /// if the target has an entry; a target without entry belongs to a
    /// component that is complete, and the edge is ignored. A vertex that
    /// ends and is the root of its component completes it: everything from
    /// it upwards is popped. The begin of an edge changes nothing.
    pub open spec fn take_in(self, entry: DFSEntry) -> (StackView, Option<Set<VertexId>>) {
        match entry {
            DFSEntry::BeginVertex(vertex) => (self.push(vertex), None),
            DFSEntry::EndEdge(edge) => (self.update_with_minimum(edge.0, edge.1), None),
            DFSEntry::EndVertex(vertex) => if self.is_root(vertex) {
                (self.pop_until(vertex), Some(self.above(vertex)))
            } else {
                (self, None)
            },
            DFSEntry::BeginEdge(_) => (self, None),
        }
    }

    /// The stack after everything from the topmost `vertex` upwards was
    /// popped and lost its entry.
    pub open spec fn pop_until(self, vertex: VertexId) -> StackView {
        StackView {
            stack: self.stack.take(top_position(self.stack, vertex)),
            links: self.links.remove_keys(self.above(vertex)),
            ..self
        }
    }
}

/// The stack of the vertices whose component is not complete.
pub struct Stack {
    stack: Vec<VertexId>,
    vertices: HashMap<usize, Vertex>,
    next_vertex_index: VertexIndex,
}

impl View for Stack {
    type V = StackView;

    closed spec fn view(&self) -> StackView {
        StackView {
            stack: self.stack@,
            links: Map::new(
                |vertex: VertexId| self.vertices@.contains_key(vertex.0),
                |vertex: VertexId|
                    Links {
                        index: self.vertices@[vertex.0].index.0 as nat,
                        low_link: self.vertices@[vertex.0].low_link.0 as nat,
                    },
            ),
            next_index: self.next_vertex_index.0 as nat,
        }
    }
}

impl Stack {
    /// The stack without vertices.
    pub fn new() -> (stack: Self)
        ensures
            stack@ == StackView::empty(),
    {
        let stack = Self {
            vertices: HashMap::new(),
            stack: Vec::new(),
            next_vertex_index: VertexIndex(0),
        };
        proof {
            assert(stack@.links =~= Map::<VertexId, Links>::empty());
        }
        stack
    }

    /// Pushes `vertex` and gives it the next discovery index. Meant for a
    /// vertex that has no entry.
    pub fn push(&mut self, vertex: VertexId)
        requires
            old(self)@.next_index < usize::MAX,
        ensures
            final(self)@ == old(self)@.push(vertex),
    {
        self.vertices.insert(
            vertex.0,
            Vertex::from(self.next_vertex_index, self.next_vertex_index),
        );
        self.next_vertex_index = VertexIndex(self.next_vertex_index.0 + 1);
        self.stack.push(vertex);
        proof {
            assert(self@.links =~= old(self)@.push(vertex).links);
        }
    }

    /// Lowers the low link of `vertex_id` to the low link of `update_id` if
    /// that is smaller. Does nothing if `update_id` has no entry, which is the
    /// case once its component is complete.
    pub fn update_with_minimum(&mut self, vertex_id: VertexId, update_id: VertexId)
        requires
            old(self)@.links.contains_key(update_id) ==> old(self)@.links.contains_key(vertex_id),
        ensures
            final(self)@ == old(self)@.update_with_minimum(vertex_id, update_id),
    {
        let low_link = match self.vertices.get(&update_id.0) {
            Some(update) => Some(update.low_link),
            None => None,
        };
        if let Some(update_low_link) = low_link {
            let vertex = self.vertices.get(&vertex_id.0).unwrap();
            let smaller = if vertex.low_link.0 <= update_low_link.0 {
                vertex.low_link
            } else {
                update_low_link
            };
            let index = vertex.index;
            self.vertices.insert(vertex_id.0, Vertex::from(index, smaller));
            proof {
                assert(self@.links =~= old(self)@.update_with_minimum(vertex_id, update_id).links);
            }
        } else {
            proof {
                assert(self@.links =~= old(self)@.links);
            }
        }
    }

    /// Whether `vertex_id` is the root of its component.
    pub fn is_root(&self, vertex_id: &VertexId) -> (root: bool)
        requires
            self@.links.contains_key(*vertex_id),
        ensures
            root == self@.is_root(*vertex_id),
    {
        self.vertices.get(&vertex_id.0).unwrap().is_root()
    }

    /// Pops the vertices down to and including the topmost `vertex`, removes
    /// their entries and returns them as one component.
    pub fn pop_until(&mut self, vertex: VertexId) -> (component: Component)
        requires
            old(self)@.stack.contains(vertex),
        ensures
            final(self)@ == old(self)@.pop_until(vertex),
            component@ == old(self)@.above(vertex),
    {
        let ghost start = self@;
        let ghost position = top_position(start.stack, vertex);
        proof {
            lemma_top_position(start.stack, vertex);
        }
        let mut component = Component::new();
        loop
            invariant
                start == old(self)@,
                position == top_position(start.stack, vertex),
                0 <= position < self.stack@.len() <= start.stack.len(),
                start.stack[position] == vertex,
                forall|i: int| position < i < start.stack.len() ==> start.stack[i] != vertex,
                self.stack@ == start.stack.take(self.stack@.len() as int),
                self@.next_index == start.next_index,
                component@ == start.stack.skip(self.stack@.len() as int).to_set(),
                self@.links == start.links.remove_keys(component@),
            decreases self.stack@.len(),
        {
            let ghost before = self@;
            let ghost popped = component@;
            let ghost entries = self.vertices@;
            let v = self.stack.pop().unwrap();
            self.vertices.remove(&v.0);
            component.add(v);
            proof {
                let length = self.stack@.len() as int;
                assert(v == start.stack[length]);
                assert(self.stack@ =~= start.stack.take(length));
                let longer = start.stack.skip(length);
                let shorter = start.stack.skip(length + 1);
                assert forall|x: VertexId| component@.contains(x) <==> longer.to_set().contains(
                    x,
                ) by {
                    if shorter.contains(x) {
                        let i = choose|i: int| 0 <= i < shorter.len() && shorter[i] == x;
                        assert(longer[i + 1] == x);
                    }
                    if longer.contains(x) {
                        let i = choose|i: int| 0 <= i < longer.len() && longer[i] == x;
                        if i > 0 {
                            assert(shorter[i - 1] == x);
                        }
                    }
                    if x == v {
                        assert(longer[0] == x);
                    }
                }
                assert(component@ =~= longer.to_set());
                assert(self.vertices@ == entries.remove(v.0));
                let expected = start.links.remove_keys(component@);
                assert forall|x: VertexId|
                    self@.links.contains_key(x) <==> expected.contains_key(x) by {
                    assert(before.links.contains_key(x) <==> entries.contains_key(x.0));
                    assert(component@.contains(x) <==> popped.contains(x) || x == v);
                }
                assert forall|x: VertexId| self@.links.contains_key(x) implies self@.links[x]
                    == expected[x] by {
                    assert(before.links.contains_key(x));
                    assert(before.links[x] == start.links[x]);
                }
                assert(self@.links =~= expected);
            }
            if v == vertex {
                proof {
                    assert(self.stack@.len() == position);
                }
                return component;
            }
        }
    }
}

} // verus!
