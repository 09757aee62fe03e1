//! Enumeration of all vertices of a graph, each vertex once, tree by tree,
//! breadth first or depth first within each tree.

use super::buffer::{Buffer, Queue, Stack};
use super::tree::{lemma_enumeration_step, EnumerationView, TreeEnumeration};
use crate::algorithms::enumeration::extend;
use crate::graph::{vertex_set, Graph, GraphView, VertexId};
use std::collections::HashSet;
use vstd::prelude::*;

verus! {

broadcast use vstd::std_specs::hash::group_hash_axioms;

/// The state of an enumeration of a whole graph as a mathematical value.
pub struct GraphEnumerationView {
    /// The state of the tree enumeration that is running.
    pub tree: EnumerationView,
    /// The vertices that the trees before the running one have explored.
    pub explored: Set<VertexId>,
    /// The id of the vertex at which the next tree starts.
    pub next_root: nat,
}

impl GraphEnumerationView {
    /// The graph whose vertices are enumerated.
    pub open spec fn graph(self) -> GraphView {
        self.tree.graph
    }

    /// The state of an enumeration that is about to start: the first tree
    /// starts at vertex 0; in a graph without vertices it finds nothing.
    pub open spec fn start(graph: GraphView, newest: bool) -> GraphEnumerationView {
        GraphEnumerationView {
            tree: EnumerationView::start(graph, VertexId(0), newest),
            explored: Set::empty(),
            next_root: if graph.vertex_count == 0 {
                0
            } else {
                1
            },
        }
    }

    /// The invariant of an enumeration.
    pub open spec fn wf(self) -> bool {
        &&& self.tree.wf()
        &&& self.next_root <= self.graph().vertex_count
        &&& forall|vertex: VertexId| #[trigger]
            self.explored.contains(vertex) ==> self.graph().contains(vertex)
    }

    /// How many vertices are left to start a tree at.
    pub open spec fn roots_left(self) -> nat {
        (self.graph().vertex_count - self.next_root) as nat
    }

    /// The vertices that were found, in this tree or in an earlier one.
    pub open spec fn visited(self) -> Set<VertexId> {
        self.explored.union(self.tree.explored)
    }

    /// The state after the running tree, which is over, was replaced by a
    /// tree at the next root: what the old tree explored joins the explored
    /// vertices.
    pub open spec fn restart(self) -> GraphEnumerationView {
        GraphEnumerationView {
            tree: EnumerationView::start(
                self.graph(),
                VertexId(self.next_root as usize),
                self.tree.newest,
            ),
            explored: self.explored.union(self.tree.explored),
            next_root: self.next_root + 1,
        }
    }

    /// One pull: the state afterwards and the vertex handed out, `None`
    /// when the enumeration is over.
    ///
    /// The running tree is pulled. A vertex that an earlier tree has
    /// explored is not handed out, and the pull goes on. When the tree is
    /// over, the next tree starts at the next root and the pull goes on;
    /// when no root is left, the enumeration is over.
    pub open spec fn step(self) -> (GraphEnumerationView, Option<VertexId>)
        decreases self.roots_left(), self.tree.work(),
        when self.wf()
    {
        let (tree, pulled) = self.tree.step();
        proof {
            lemma_enumeration_step(self.tree);
        }
        match pulled {
            Some(vertex) => {
                if self.explored.contains(vertex) {
                    GraphEnumerationView { tree, ..self }.step()
                } else {
                    (GraphEnumerationView { tree, ..self }, Some(vertex))
                }
            },
            None => {
                if self.next_root < self.graph().vertex_count {
                    GraphEnumerationView { tree, ..self }.restart().step()
                } else {
                    (GraphEnumerationView { tree, ..self }, None)
                }
            },
        }
    }
}

/// What a pull from a well-formed state does.
///
/// The state afterwards is well formed, over the same graph and in the
/// same order. A vertex that is handed out is a vertex of the graph that
/// was not visited and is visited afterwards, and nothing else is. When
/// the enumeration is over, no root is left and the visited vertices are
/// as before.
pub proof fn lemma_graph_enumeration_step(state: GraphEnumerationView)
    requires
        state.wf(),
    ensures
        ({
            let (next, pulled) = state.step();
            &&& next.wf()
            &&& next.graph() == state.graph()
            &&& next.tree.newest == state.tree.newest
            &&& next.roots_left() <= state.roots_left()
            &&& match pulled {
                Some(vertex) => {
                    &&& next.roots_left() < state.roots_left() || next.tree.work()
                        < state.tree.work()
                    &&& state.graph().contains(vertex)
                    &&& !state.visited().contains(vertex)
                    &&& next.visited() == state.visited().insert(vertex)
                },
                None => {
                    &&& next.roots_left() == 0
                    &&& next.visited() == state.visited()
                },
            }
        }),
    decreases state.roots_left(), state.tree.work(),
{
    let (tree, pulled) = state.tree.step();
    lemma_enumeration_step(state.tree);
    let moved = GraphEnumerationView { tree, ..state };
    match pulled {
        Some(vertex) => {
            if state.explored.contains(vertex) {
                assert(moved.visited() =~= state.visited());
                lemma_graph_enumeration_step(moved);
            } else {
                assert(moved.visited() =~= state.visited().insert(vertex));
            }
        },
        None => {
            assert(moved.visited() =~= state.visited());
            if state.next_root < state.graph().vertex_count {
                assert(moved.restart().visited() =~= state.visited());
                assert(moved.restart().tree.wf());
                lemma_graph_enumeration_step(moved.restart());
            }
        },
    }
}

impl GraphEnumerationView {
    /// The vertices that are still to come, in the order in which they are
    /// handed out.
    pub open spec fn pending(self) -> Seq<VertexId>
        decreases self.roots_left(), self.tree.work(),
        when self.wf()
    {
        let (next, pulled) = self.step();
        proof {
            lemma_graph_enumeration_step(self);
        }
        match pulled {
            Some(vertex) => seq![vertex] + next.pending(),
            None => Seq::empty(),
        }
    }
}

/// An enumeration of all vertices of a graph. The buffer `N` decides the
/// order within each tree.
pub struct GraphEnumeration<'a, N> {
    graph: &'a Graph,
    enumeration: TreeEnumeration<'a, N>,
    next_root: usize,
    explored: HashSet<usize>,
}

impl<'a, N: Buffer<'a>> View for GraphEnumeration<'a, N> {
    type V = GraphEnumerationView;

    closed spec fn view(&self) -> GraphEnumerationView {
        GraphEnumerationView {
            tree: self.enumeration@,
            explored: vertex_set(self.explored@),
            next_root: self.next_root as nat,
        }
    }
}

impl<'a, N> GraphEnumeration<'a, N> where N: Buffer<'a> {
    /// The invariant of an enumeration: its graph is well formed, the
    /// running tree is well formed and runs on the same graph, and the
    /// state satisfies [`GraphEnumerationView::wf`].
    pub closed spec fn wf(&self) -> bool {
        &&& self.graph.wf()
        &&& self.enumeration.wf()
        &&& self.enumeration.graph() == self.graph
        &&& self@.wf()
    }

    /// The graph whose vertices are enumerated.
    pub closed spec fn graph(&self) -> &'a Graph {
        self.graph
    }

    /// An enumeration with a well-formed state runs on a well-formed graph
    /// whose view is the graph of the state, in the order of its buffer.
    pub proof fn lemma_wf(&self)
        requires
            self.wf(),
        ensures
            self@.wf(),
            self.graph().wf(),
            self@.graph() == self.graph()@,
            self@.tree.newest == N::takes_newest(),
    {
        self.enumeration.lemma_wf();
    }

    /// An enumeration of all vertices of `graph`.
    pub fn on(graph: &'a Graph) -> (enumeration: Self)
        requires
            graph.wf(),
        ensures
            enumeration.wf(),
            enumeration.graph() == graph,
            enumeration@ == GraphEnumerationView::start(graph@, N::takes_newest()),
    {
        let vertices = graph.vertices();
        let enumeration = if vertices.len() == 0 {
            Self {
                graph,
                enumeration: TreeEnumeration::idle(graph),
                next_root: 0,
                explored: HashSet::new(),
            }
        } else {
            Self {
                graph,
                enumeration: TreeEnumeration::on(graph, &vertices[0]),
                next_root: 1,
                explored: HashSet::new(),
            }
        };
        proof {
            graph.lemma_view_wf();
            enumeration.enumeration.lemma_wf();
            assert(enumeration@.explored =~= Set::<VertexId>::empty());
        }
        enumeration
    }

    /// Replaces the running tree by a tree at `vertex`; what the old tree
    /// explored joins the explored vertices.
    fn start_new_tree(&mut self, vertex: &'a VertexId)
        requires
            old(self).graph.wf(),
        ensures
            final(self).graph == old(self).graph,
            final(self).next_root == old(self).next_root,
            final(self).enumeration.wf(),
            final(self).enumeration.graph() == old(self).graph,
            final(self).enumeration@ == EnumerationView::start(
                old(self).graph@,
                *vertex,
                N::takes_newest(),
            ),
            final(self)@.explored == old(self)@.explored.union(old(self).enumeration@.explored),
    {
        let mut old_enumeration = TreeEnumeration::on(self.graph, vertex);
        std::mem::swap(&mut self.enumeration, &mut old_enumeration);
        let found = old_enumeration.explored();
        extend(&mut self.explored, &found);
        proof {
            assert(self@.explored =~= old(self)@.explored.union(old(self).enumeration@.explored));
        }
    }

    /// Runs the enumeration to its end and returns the vertices in the order
    /// in which `next` would have handed them out.
    pub fn collect(self) -> (vertices: Vec<&'a VertexId>)
        requires
            self.wf(),
        ensures
            vertices@.len() == self@.pending().len(),
            forall|i: int|
                0 <= i < vertices@.len() ==> *(#[trigger] vertices@[i]) == self@.pending()[i],
    {
        let mut enumeration = self;
        let mut vertices: Vec<&'a VertexId> = Vec::new();
        let ghost all = self@.pending();
        loop
            invariant
                enumeration.wf(),
                all == self@.pending(),
                vertices@.len() + enumeration@.pending().len() == all.len(),
                forall|i: int| 0 <= i < vertices@.len() ==> *(#[trigger] vertices@[i]) == all[i],
                forall|i: int|
                    0 <= i < enumeration@.pending().len() ==> all[vertices@.len() + i]
                        == #[trigger] enumeration@.pending()[i],
            decreases enumeration@.roots_left(), enumeration@.tree.work(),
        {
            let ghost before = enumeration@.pending();
            proof {
                enumeration.lemma_wf();
                lemma_graph_enumeration_step(enumeration@);
            }
            match enumeration.next() {
                Some(vertex) => {
                    proof {
                        assert(before[0] == *vertex);
                        assert forall|i: int|
                            0 <= i < enumeration@.pending().len() implies all[vertices@.len() + 1
                            + i] == #[trigger] enumeration@.pending()[i] by {
                            assert(before[i + 1] == enumeration@.pending()[i]);
                        }
                    }
                    vertices.push(vertex);
                },
                None => {
                    return vertices;
                },
            }
        }
    }

    /// Hands out the next vertex, or `None` when the enumeration is over.
    ///
    /// The vertices are those of the trees, one tree after the other, each
    /// tree starting at the first vertex in ascending order that was not
    /// handed out. No vertex is handed out twice.
    pub fn next(&mut self) -> (vertex: Option<&'a VertexId>)
        requires
            old(self).wf(),
        ensures
            final(self).wf(),
            final(self).graph() == old(self).graph(),
            final(self)@ == old(self)@.step().0,
            match vertex {
                Some(found) => old(self)@.step().1 == Some(*found) && old(self)@.pending()
                    == seq![*found] + final(self)@.pending(),
                None => old(self)@.step().1 is None && old(self)@.pending() == Seq::<
                    VertexId,
                >::empty(),
            },
    {
        loop
            invariant
                old(self)@.wf(),
                self.wf(),
                self.graph == old(self).graph,
                self@.step() == old(self)@.step(),
            decreases self@.roots_left(), self@.tree.work(),
        {
            proof {
                lemma_graph_enumeration_step(old(self)@);
                self.enumeration.lemma_wf();
                lemma_enumeration_step(self@.tree);
            }
            let ghost before = self@;
            match self.enumeration.next() {
                Some(v) => {
                    proof {
                        self.enumeration.lemma_wf();
                    }
                    if !self.explored.contains(&v.0) {
                        return Some(v);
                    }
                },
                None => {
                    let vertices = self.graph.vertices();
                    proof {
                        self.enumeration.lemma_wf();
                    }
                    if self.next_root < vertices.len() {
                        let vertex = &vertices[self.next_root];
                        self.next_root = self.next_root + 1;
                        self.start_new_tree(vertex);
                        proof {
                            self.enumeration.lemma_wf();
                            assert(self@ == (GraphEnumerationView {
                                tree: before.tree.step().0,
                                ..before
                            }).restart());
                        }
                    } else {
                        return None;
                    }
                },
            }
        }
    }
}

/// Enumeration of all vertices of a graph, breadth first within each tree.
pub type GraphBreadthFirst<'a> = GraphEnumeration<'a, Queue<'a>>;

/// Enumeration of all vertices of a graph, depth first within each tree.
pub type GraphDepthFirst<'a> = GraphEnumeration<'a, Stack<'a>>;

} // verus!
