//! The open path of a traversal: the vertices that have begun and have not
//! ended, as a caller knows them from the events that were handed out.

use super::tree::{lemma_advance, DFSEntry, TreeView, Vertex};
use crate::graph::{Edge, VertexId};
use vstd::prelude::*;

verus! {

/// The vertices of a stack that have begun and were not dropped, the
/// innermost last.
pub open spec fn open_vertices(stack: Seq<Vertex>, explored: Set<VertexId>) -> Seq<VertexId>
    decreases stack.len(),
{
    if stack.len() == 0 {
        Seq::empty()
    } else {
        let below = open_vertices(stack.drop_last(), explored);
        if explored.contains(stack.last().id) && !stack.last().dropped {
            below.push(stack.last().id)
        } else {
            below
        }
    }
}

/// The vertex whose end waits at the end of the queue, if there is one: it
/// has left the stack, but its end was not handed out.
pub open spec fn ending(queue: Seq<DFSEntry>) -> Seq<VertexId> {
    if queue.len() > 0 {
        match queue.last() {
            DFSEntry::EndVertex(vertex) => seq![vertex],
            _ => seq![],
        }
    } else {
        seq![]
    }
}

/// The vertex that an event is about: the vertex itself, or the start of the
/// edge.
pub open spec fn subject(entry: DFSEntry) -> VertexId {
    match entry {
        DFSEntry::BeginVertex(vertex) => vertex,
        DFSEntry::EndVertex(vertex) => vertex,
        DFSEntry::BeginEdge(edge) => edge.0,
        DFSEntry::EndEdge(edge) => edge.0,
    }
}

/// How an event changes the open path: a vertex that begins joins it as the
/// innermost, the vertex that ends is the innermost and leaves it, and an
/// edge begins and ends at the innermost while the path stays as it is.
pub open spec fn observes(before: Seq<VertexId>, entry: DFSEntry, after: Seq<VertexId>) -> bool {
    match entry {
        DFSEntry::BeginVertex(vertex) => after == before.push(vertex),
        DFSEntry::EndVertex(vertex) => before == after.push(vertex),
        DFSEntry::BeginEdge(edge) => after == before && before.len() > 0 && before.last()
            == edge.0,
        DFSEntry::EndEdge(edge) => after == before && before.len() > 0 && before.last() == edge.0,
    }
}

impl TreeView {
    /// The vertices that have begun and whose end was not handed out,
    /// without the dropped ones.
    pub open spec fn open_path(self) -> Seq<VertexId> {
        open_vertices(self.stack, self.explored) + ending(self.queue)
    }

    /// The innermost vertex of the stack that has begun.
    pub open spec fn innermost_begun(self) -> Option<Vertex> {
        if self.stack.len() == 0 {
            None
        } else if !self.top_is_fresh() {
            Some(self.stack.last())
        } else if self.stack.len() >= 2 {
            Some(self.stack[self.stack.len() - 2])
        } else {
            None
        }
    }

    /// No vertex on the stack is dropped.
    pub open spec fn settled(self) -> bool {
        forall|i: int| 0 <= i < self.stack.len() ==> !(#[trigger] self.stack[i]).dropped
    }

    /// The state of a traversal in which a vertex is dropped only right
    /// after it has begun: at most the innermost vertex is dropped, and it
    /// has not followed an edge; the queue holds at most the end of an edge
    /// and, after it, the begin of the next edge or the end of the vertex.
    pub open spec fn calm(self) -> bool {
        &&& forall|i: int| 0 <= i < self.stack.len() - 1 ==> !(#[trigger] self.stack[i]).dropped
        &&& self.stack.len() > 0 && self.stack.last().dropped ==> {
            &&& self.explored.contains(self.stack.last().id)
            &&& self.stack.last().current_neighbour is None
            &&& self.stack.last().cursor == 0
            &&& self.queue.len() == 0
        }
        &&& self.queue.len() <= 2
        &&& self.queue.len() == 2 ==> self.queue[0] is EndEdge && subject(self.queue[0])
            == subject(self.queue[1])
        &&& self.queue.len() > 0 ==> match self.queue.last() {
            DFSEntry::BeginEdge(edge) => {
                &&& self.innermost_begun() is Some
                &&& self.innermost_begun()->0.id == edge.0
                &&& self.innermost_begun()->0.current_neighbour == Some(edge.1)
            },
            DFSEntry::EndVertex(vertex) => {
                &&& self.explored.contains(vertex)
                &&& forall|i: int|
                    0 <= i < self.stack.len() ==> (#[trigger] self.stack[i]).id != vertex
            },
            _ => false,
        }
    }
}

/// The open vertices of a stack with one more vertex.
pub proof fn lemma_open_vertices_push(stack: Seq<Vertex>, vertex: Vertex, explored: Set<VertexId>)
    ensures
        open_vertices(stack.push(vertex), explored) == if explored.contains(vertex.id)
            && !vertex.dropped {
            open_vertices(stack, explored).push(vertex.id)
        } else {
            open_vertices(stack, explored)
        },
{
    assert(stack.push(vertex).drop_last() == stack);
}

/// A vertex that is not on the stack can begin without a change to the
/// open vertices of the stack.
pub proof fn lemma_open_vertices_insert(
    stack: Seq<Vertex>,
    explored: Set<VertexId>,
    vertex: VertexId,
)
    requires
        forall|i: int| 0 <= i < stack.len() ==> (#[trigger] stack[i]).id != vertex,
    ensures
        open_vertices(stack, explored.insert(vertex)) == open_vertices(stack, explored),
    decreases stack.len(),
{
    if stack.len() > 0 {
        let below = stack.drop_last();
        assert forall|i: int| 0 <= i < below.len() implies (#[trigger] below[i]).id != vertex by {
            assert(below[i] == stack[i]);
        }
        lemma_open_vertices_insert(below, explored, vertex);
        assert(stack[stack.len() - 1].id != vertex);
    }
}

/// In a calm state with a vertex that has begun, the innermost such vertex
/// is the innermost of the open vertices of the stack, unless the innermost
/// vertex of the stack is dropped.
pub proof fn lemma_innermost_begun(state: TreeView)
    requires
        state.wf(),
        state.calm(),
        state.innermost_begun() is Some,
        !state.stack.last().dropped,
    ensures
        open_vertices(state.stack, state.explored).len() > 0,
        open_vertices(state.stack, state.explored).last() == state.innermost_begun()->0.id,
{
    let below = state.stack.drop_last();
    let top = state.stack.last();
    assert(state.stack == below.push(top));
    lemma_open_vertices_push(below, top, state.explored);
    if state.top_is_fresh() {
        let inner = below.last();
        assert(inner == state.stack[state.stack.len() - 2]);
        assert(state.explored.contains(inner.id));
        assert(!inner.dropped);
        assert(below == below.drop_last().push(inner));
        lemma_open_vertices_push(below.drop_last(), inner, state.explored);
    }
}

/// What a pull from a calm state does to the open path.
///
/// The state afterwards is calm and has no dropped vertex. An event that is
/// handed out changes the open path as [`observes`] says, and only the
/// begin of a vertex adds to the explored vertices: the vertex that begins
/// is new, is the innermost of the stack and has followed no edge. When the
/// traversal is over, the open path is empty.
pub proof fn lemma_step_path(state: TreeView)
    requires
        state.wf(),
        state.calm(),
    ensures
        ({
            let (next, pulled) = state.step();
            &&& next.calm()
            &&& next.settled()
            &&& match pulled {
                Some(entry) => {
                    &&& observes(state.open_path(), entry, next.open_path())
                    &&& match entry {
                        DFSEntry::BeginVertex(vertex) => {
                            &&& !state.explored.contains(vertex)
                            &&& state.graph.contains(vertex)
                            &&& next.explored == state.explored.insert(vertex)
                            &&& next.queue.len() == 0
                            &&& next.stack.len() > 0
                            &&& next.stack.last() == Vertex::fresh(vertex)
                        },
                        _ => next.explored == state.explored,
                    }
                },
                None => {
                    &&& state.open_path().len() == 0
                    &&& next.open_path().len() == 0
                    &&& next.explored == state.explored
                },
            }
        }),
    decreases state.distance(),
{
    let (next, pulled) = state.step();
    let explored = state.explored;
    if state.queue.len() > 0 {
        let entry = state.queue[0];
        assert(!state.stack.last().dropped || state.stack.len() == 0);
        assert(next.settled()) by {
            assert forall|i: int| 0 <= i < next.stack.len() implies !(
            #[trigger] next.stack[i]).dropped by {
                if i == next.stack.len() - 1 {
                    assert(next.stack[i] == state.stack.last());
                }
            }
        }
        if state.queue.len() == 2 {
            assert(next.queue.last() == state.queue.last());
            assert(next.queue.len() == 1);
            assert(ending(next.queue) == ending(state.queue));
            assert(next.innermost_begun() == state.innermost_begun());
            match state.queue.last() {
                DFSEntry::BeginEdge(edge) => {
                    lemma_innermost_begun(state);
                },
                DFSEntry::EndVertex(vertex) => {
                    assert(state.open_path().last() == vertex);
                },
                _ => {},
            }
            assert(next.calm());
        } else {
            assert(next.queue.len() == 0);
            match entry {
                DFSEntry::BeginEdge(edge) => {
                    lemma_innermost_begun(state);
                },
                DFSEntry::EndVertex(vertex) => {
                    assert(state.open_path() =~= next.open_path().push(vertex));
                },
                _ => {},
            }
            assert(next.calm());
        }
    } else if state.stack.len() == 0 {
    } else if state.top_is_fresh() {
        let top = state.stack.last();
        let below = state.stack.drop_last();
        assert(state.stack == below.push(top));
        assert(top.fits(state.graph));
        assert forall|i: int| 0 <= i < below.len() implies (#[trigger] below[i]).id != top.id by {
            assert(below[i] == state.stack[i]);
        }
        lemma_open_vertices_insert(below, explored, top.id);
        lemma_open_vertices_push(below, top, explored);
        lemma_open_vertices_push(below, top, explored.insert(top.id));
        assert(next.open_path() =~= state.open_path().push(top.id));
        assert(next.settled()) by {
            assert forall|i: int| 0 <= i < next.stack.len() implies !(
            #[trigger] next.stack[i]).dropped by {
                if i == next.stack.len() - 1 {
                    assert(next.stack[i] == top);
                }
            }
        }
        assert(top == Vertex::fresh(top.id));
        assert(next.calm());
    } else {
        let top = state.stack.last();
        let below = state.stack.drop_last();
        let moved = state.advance();
        let neighbours = state.graph.out_neighbors(top.id);
        lemma_advance(state);
        assert(state.stack == below.push(top));
        lemma_open_vertices_push(below, top, explored);
        assert forall|i: int| 0 <= i < below.len() implies !(#[trigger] below[i]).dropped
            && below[i].id != top.id && explored.contains(below[i].id) by {
            assert(below[i] == state.stack[i]);
        }
        if top.dropped {
            assert(top.closing() =~= Seq::<DFSEntry>::empty());
            assert(moved.queue =~= Seq::<DFSEntry>::empty());
            assert(moved.open_path() =~= state.open_path());
            assert(moved.calm());
        } else if top.cursor >= neighbours.len() {
            assert(moved.queue.last() == DFSEntry::EndVertex(top.id));
            assert(moved.open_path() =~= state.open_path());
            assert(moved.calm());
        } else {
            let neighbour = neighbours[top.cursor as int];
            let turned = top.advanced(state.graph);
            let kept = below.push(turned);
            lemma_open_vertices_push(below, turned, explored);
            lemma_open_vertices_push(kept, Vertex::fresh(neighbour), explored);
            assert(moved.queue.last() == DFSEntry::BeginEdge(Edge(top.id, neighbour)));
            assert(moved.open_path() =~= state.open_path());
            assert forall|i: int| 0 <= i < kept.len() implies !(#[trigger] kept[i]).dropped by {
                if i < below.len() {
                    assert(kept[i] == below[i]);
                }
            }
            if explored.contains(neighbour) {
                assert(moved.stack == kept);
                assert(moved.innermost_begun() == Some(turned));
            } else {
                assert(moved.stack == kept.push(Vertex::fresh(neighbour)));
                assert(moved.stack[moved.stack.len() - 2] == turned);
                assert(moved.innermost_begun() == Some(turned));
                assert forall|i: int| 0 <= i < moved.stack.len() - 1 implies !(
                #[trigger] moved.stack[i]).dropped by {
                    assert(moved.stack[i] == kept[i]);
                }
            }
            assert(moved.calm());
        }
        lemma_step_path(moved);
    }
}

/// Dropping a vertex right after it has begun takes it from the open path
/// and leaves a calm state.
pub proof fn lemma_drop_path(state: TreeView, vertex: VertexId)
    requires
        state.wf(),
        state.calm(),
        state.queue.len() == 0,
        state.stack.len() > 0,
        state.stack.last() == Vertex::fresh(vertex),
        state.explored.contains(vertex),
    ensures
        state.drop_top().calm(),
        state.open_path() == state.drop_top().open_path().push(vertex),
{
    let below = state.stack.drop_last();
    let top = state.stack.last();
    let marked = Vertex { dropped: true, ..top };
    let next = state.drop_top();
    assert(state.stack == below.push(top));
    lemma_open_vertices_push(below, top, state.explored);
    lemma_open_vertices_push(below, marked, state.explored);
    assert(state.open_path() =~= next.open_path().push(vertex));
    assert forall|i: int| 0 <= i < next.stack.len() - 1 implies !(
    #[trigger] next.stack[i]).dropped by {
        assert(next.stack[i] == state.stack[i]);
    }
}

} // verus!
