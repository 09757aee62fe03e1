//! Enumeration of the vertices that one start vertex reaches, each vertex
//! once, breadth first or depth first.

use super::buffer::{next_of, rest_of, Buffer, Queue, Stack};
use crate::algorithms::enumeration::detailed::tree::{
    lemma_unexplored_cost_insert, unexplored_cost,
};
use crate::graph::{vertex_set, Graph, GraphView, VertexId};
use std::collections::HashSet;
use vstd::prelude::*;

verus! {

broadcast use vstd::std_specs::hash::group_hash_axioms;

/// The state of an enumeration as a mathematical value.
pub struct EnumerationView {
    /// The graph whose vertices are enumerated.
    pub graph: GraphView,
    /// The vertices that wait for their visit, in the order in which they
    /// were found.
    pub buffer: Seq<VertexId>,
    /// Whether the vertex that was found last is visited next (depth
    /// first), or the one that was found first (breadth first).
    pub newest: bool,
    /// The vertices that were handed out.
    pub explored: Set<VertexId>,
}

impl EnumerationView {
    /// The state of an enumeration that is about to start at `start`. A
    /// start vertex that the graph does not have gives an enumeration
    /// without vertices.
    pub open spec fn start(graph: GraphView, start: VertexId, newest: bool) -> EnumerationView {
        EnumerationView {
            graph,
            buffer: if graph.contains(start) {
                seq![start]
            } else {
                seq![]
            },
            newest,
            explored: Set::empty(),
        }
    }

    /// The state of an enumeration that finds nothing.
    pub open spec fn idle(graph: GraphView, newest: bool) -> EnumerationView {
        EnumerationView { graph, buffer: seq![], newest, explored: Set::empty() }
    }

    /// The invariant of an enumeration: the graph is well formed, and what
    /// waits and what is explored are vertices of the graph.
    pub open spec fn wf(self) -> bool {
        &&& self.graph.wf()
        &&& forall|i: int|
            0 <= i < self.buffer.len() ==> self.graph.contains(#[trigger] self.buffer[i])
        &&& forall|vertex: VertexId| #[trigger]
            self.explored.contains(vertex) ==> self.graph.contains(vertex)
    }

    /// One pull: the state afterwards and the vertex handed out, `None`
    /// when the enumeration is over.
    ///
    /// The next vertex leaves the buffer. If it was handed out before, the
    /// pull goes on with the next one. Otherwise it is explored, its
    /// out-neighbours join the buffer, and it is handed out.
    pub open spec fn step(self) -> (EnumerationView, Option<VertexId>)
        decreases self.buffer.len(),
    {
        match next_of(self.buffer, self.newest) {
            None => (self, None),
            Some(vertex) => {
                let rest = rest_of(self.buffer, self.newest);
                if self.explored.contains(*vertex) {
                    EnumerationView { buffer: rest, ..self }.step()
                } else {
                    (
                        EnumerationView {
                            buffer: rest + self.graph.out_neighbors(*vertex),
                            explored: self.explored.insert(*vertex),
                            ..self
                        },
                        Some(*vertex),
                    )
                }
            },
        }
    }

    /// An upper bound on the number of pops that are still to come.
    pub open spec fn work(self) -> nat {
        self.buffer.len() + unexplored_cost(self.graph, self.graph.vertex_count, self.explored)
    }
}

/// A pull from a well-formed state leaves a well-formed state over the same
/// graph. A vertex that is handed out is a vertex of the graph that was not
/// explored and is explored afterwards, and nothing else changes what is
/// explored. Each vertex that is handed out takes from the work that is
/// left; when the enumeration is over, the buffer is empty.
pub proof fn lemma_enumeration_step(state: EnumerationView)
    requires
        state.wf(),
    ensures
        ({
            let (next, pulled) = state.step();
            &&& next.wf()
            &&& next.graph == state.graph
            &&& next.newest == state.newest
            &&& match pulled {
                Some(vertex) => {
                    &&& state.graph.contains(vertex)
                    &&& !state.explored.contains(vertex)
                    &&& next.explored == state.explored.insert(vertex)
                    &&& next.work() < state.work()
                },
                None => {
                    &&& next.buffer.len() == 0
                    &&& next.explored == state.explored
                    &&& next.work() <= state.work()
                },
            }
        }),
    decreases state.buffer.len(),
{
    match next_of(state.buffer, state.newest) {
        None => {},
        Some(vertex) => {
            let rest = rest_of(state.buffer, state.newest);
            assert(state.graph.contains(*vertex)) by {
                if state.newest {
                    assert(*vertex == state.buffer[state.buffer.len() - 1]);
                } else {
                    assert(*vertex == state.buffer[0]);
                }
            }
            assert forall|i: int| 0 <= i < rest.len() implies state.graph.contains(
                #[trigger] rest[i],
            ) by {
                if state.newest {
                    assert(rest[i] == state.buffer[i]);
                } else {
                    assert(rest[i] == state.buffer[i + 1]);
                }
            }
            if state.explored.contains(*vertex) {
                lemma_enumeration_step(EnumerationView { buffer: rest, ..state });
            } else {
                let next = state.step().0;
                let neighbours = state.graph.out_neighbors(*vertex);
                lemma_unexplored_cost_insert(
                    state.graph,
                    state.graph.vertex_count,
                    state.explored,
                    *vertex,
                );
                assert forall|i: int| 0 <= i < next.buffer.len() implies state.graph.contains(
                    #[trigger] next.buffer[i],
                ) by {
                    if i < rest.len() {
                        assert(next.buffer[i] == rest[i]);
                    } else {
                        assert(next.buffer[i] == neighbours[i - rest.len()]);
                        crate::algorithms::enumeration::detailed::tree::lemma_targets_in_graph(
                            state.graph,
                            *vertex,
                            i - rest.len(),
                        );
                    }
                }
            }
        },
    }
}

impl EnumerationView {
    /// The vertices that are still to come, in the order in which they are
    /// handed out.
    pub open spec fn pending(self) -> Seq<VertexId>
        decreases self.work(),
        when self.wf()
    {
        let (next, pulled) = self.step();
        proof {
            lemma_enumeration_step(self);
        }
        match pulled {
            Some(vertex) => seq![vertex] + next.pending(),
            None => Seq::empty(),
        }
    }
}

/// An enumeration of the vertices that one start vertex reaches. The
/// buffer `E` decides the order.
pub struct TreeEnumeration<'a, E> {
    graph: &'a Graph,
    next: E,
    explored: HashSet<usize>,
}

impl<'a, E: Buffer<'a>> View for TreeEnumeration<'a, E> {
    type V = EnumerationView;

    closed spec fn view(&self) -> EnumerationView {
        EnumerationView {
            graph: self.graph@,
            buffer: self.next.items(),
            newest: E::takes_newest(),
            explored: vertex_set(self.explored@),
        }
    }
}

impl<'a, E> TreeEnumeration<'a, E> where E: Buffer<'a> {
    /// The invariant of an enumeration: its graph is well formed and its
    /// state satisfies [`EnumerationView::wf`].
    pub closed spec fn wf(&self) -> bool {
        &&& self.graph.wf()
        &&& self@.wf()
    }

    /// The graph whose vertices are enumerated.
    pub closed spec fn graph(&self) -> &'a Graph {
        self.graph
    }

    /// An enumeration with a well-formed state runs on a well-formed graph
    /// whose view is the graph of the state, in the order of its buffer.
    pub proof fn lemma_wf(&self)
        requires
            self.wf(),
        ensures
            self@.wf(),
            self.graph().wf(),
            self@.graph == self.graph()@,
            self@.newest == E::takes_newest(),
    {
    }

    /// An enumeration that starts at `start`. If the graph does not contain
    /// `start`, the enumeration has no vertices.
    pub fn on(graph: &'a Graph, start: &'a VertexId) -> (enumeration: Self)
        requires
            graph.wf(),
        ensures
            enumeration.wf(),
            enumeration.graph() == graph,
            enumeration@ == EnumerationView::start(graph@, *start, E::takes_newest()),
    {
        let enumeration = if graph.contains(start) {
            Self { graph, next: E::start(start), explored: HashSet::new() }
        } else {
            Self { graph, next: E::new(), explored: HashSet::new() }
        };
        proof {
            graph.lemma_view_wf();
            assert(enumeration@.explored =~= Set::<VertexId>::empty());
        }
        enumeration
    }

    /// An enumeration without vertices.
    pub fn idle(graph: &'a Graph) -> (enumeration: Self)
        requires
            graph.wf(),
        ensures
            enumeration.wf(),
            enumeration.graph() == graph,
            enumeration@ == EnumerationView::idle(graph@, E::takes_newest()),
    {
        let enumeration = Self { graph, next: E::new(), explored: HashSet::new() };
        proof {
            graph.lemma_view_wf();
            assert(enumeration@.explored =~= Set::<VertexId>::empty());
        }
        enumeration
    }

    /// Hands over the ids of the vertices that were handed out.
    pub fn explored(self) -> (explored: HashSet<usize>)
        ensures
            vertex_set(explored@) == self@.explored,
    {
        self.explored
    }

    /// Runs the enumeration to its end and returns the vertices in the order
    /// in which `next` would have handed them out.
    pub fn collect(self) -> (vertices: Vec<&'a VertexId>)
        requires
            self.wf(),
        ensures
            vertices@.len() == self@.pending().len(),
            forall|i: int|
                0 <= i < vertices@.len() ==> *(#[trigger] vertices@[i]) == self@.pending()[i],
    {
        let mut enumeration = self;
        let mut vertices: Vec<&'a VertexId> = Vec::new();
        let ghost all = self@.pending();
        loop
            invariant
                enumeration.wf(),
                all == self@.pending(),
                vertices@.len() + enumeration@.pending().len() == all.len(),
                forall|i: int| 0 <= i < vertices@.len() ==> *(#[trigger] vertices@[i]) == all[i],
                forall|i: int|
                    0 <= i < enumeration@.pending().len() ==> all[vertices@.len() + i]
                        == #[trigger] enumeration@.pending()[i],
            decreases enumeration@.work(),
        {
            let ghost before = enumeration@.pending();
            proof {
                enumeration.lemma_wf();
                lemma_enumeration_step(enumeration@);
            }
            match enumeration.next() {
                Some(vertex) => {
                    proof {
                        assert(before[0] == *vertex);
                        assert forall|i: int|
                            0 <= i < enumeration@.pending().len() implies all[vertices@.len() + 1
                            + i] == #[trigger] enumeration@.pending()[i] by {
                            assert(before[i + 1] == enumeration@.pending()[i]);
                        }
                    }
                    vertices.push(vertex);
                },
                None => {
                    return vertices;
                },
            }
        }
    }

    /// Hands out the next vertex, or `None` when the enumeration is over.
    ///
    /// Each vertex that the start vertex reaches is handed out once: the
    /// start vertex first, and then, again and again, the vertex that the
    /// buffer gives next among the out-neighbours of the vertices handed
    /// out so far.
    pub fn next(&mut self) -> (vertex: Option<&'a VertexId>)
        requires
            old(self).wf(),
        ensures
            final(self).wf(),
            final(self).graph() == old(self).graph(),
            final(self)@ == old(self)@.step().0,
            match vertex {
                Some(found) => old(self)@.step().1 == Some(*found) && old(self)@.pending()
                    == seq![*found] + final(self)@.pending(),
                None => old(self)@.step().1 is None && old(self)@.pending() == Seq::<
                    VertexId,
                >::empty(),
            },
    {
        loop
            invariant
                old(self)@.wf(),
                self.wf(),
                self.graph == old(self).graph,
                self@.step() == old(self)@.step(),
            decreases self@.buffer.len(),
        {
            proof {
                lemma_enumeration_step(old(self)@);
                lemma_enumeration_step(self@);
            }
            let ghost before = self@;
            match self.next.pop() {
                Some(next) => {
                    if !self.explored.contains(&next.0) {
                        self.explored.insert(next.0);
                        let neighbours = self.graph.out_neighbors_ref(next);
                        let ghost rest = self.next.items();
                        let mut i: usize = 0;
                        while i < neighbours.len()
                            invariant
                                i <= neighbours@.len(),
                                self.graph == old(self).graph,
                                vertex_set(self.explored@) =~= before.explored.insert(*next),
                                self.next.items() == rest + neighbours@.take(i as int),
                            decreases neighbours@.len() - i,
                        {
                            self.next.push(&neighbours[i]);
                            proof {
                                assert(neighbours@.take(i as int + 1) == neighbours@.take(
                                    i as int,
                                ).push(neighbours@[i as int]));
                            }
                            i += 1;
                        }
                        proof {
                            assert(neighbours@.take(neighbours@.len() as int) == neighbours@);
                        }
                        return Some(next);
                    }
                    proof {
                        assert(self@.explored =~= before.explored);
                    }
                },
                None => {
                    return None;
                },
            }
        }
    }
}

/// Enumeration of the vertices that a start vertex reaches, nearest first.
pub type BreadthFirst<'a> = TreeEnumeration<'a, Queue<'a>>;

/// Enumeration of the vertices that a start vertex reaches, deepest first.
pub type DepthFirst<'a> = TreeEnumeration<'a, Stack<'a>>;

} // verus!
