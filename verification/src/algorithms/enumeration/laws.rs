//! What holds of every enumeration: which vertices it hands out, and that
//! it hands out none of them twice.

use super::graph::{lemma_graph_enumeration_step, GraphEnumerationView};
use super::tree::{lemma_enumeration_step, EnumerationView};
use crate::algorithms::enumeration::buffer::{next_of, rest_of};
use crate::algorithms::enumeration::detailed::tree::lemma_targets_in_graph;
use crate::graph::{
    is_closed, lemma_closed_reaches, lemma_reaches_first, lemma_reaches_self,
    lemma_reaches_trans, lemma_targets_from, reaches, GraphView, VertexId,
};
use vstd::prelude::*;

verus! {

/// Whether an enumeration that started at `start` is under way: what is
/// explored and what waits is reached from `start`, and each edge from an
/// explored vertex leads to a vertex that is explored or waits.
pub open spec fn under_way(state: EnumerationView, start: VertexId) -> bool {
    &&& state.wf()
    &&& forall|x: VertexId| #[trigger]
        state.explored.contains(x) ==> reaches(state.graph, start, x)
    &&& forall|i: int|
        0 <= i < state.buffer.len() ==> reaches(state.graph, start, #[trigger] state.buffer[i])
    &&& forall|x: VertexId, y: VertexId|
        state.explored.contains(x) && #[trigger] state.graph.has_edge(x, y)
            ==> state.explored.contains(y) || state.buffer.contains(y)
}

/// A pull of an enumeration that is under way leaves it under way; when it
/// is over, no edge leads out of the explored vertices.
pub proof fn lemma_under_way_step(state: EnumerationView, start: VertexId)
    requires
        under_way(state, start),
    ensures
        under_way(state.step().0, start),
        state.step().1 is None ==> is_closed(state.graph, state.explored),
    decreases state.buffer.len(),
{
    let graph = state.graph;
    match next_of(state.buffer, state.newest) {
        None => {
            assert forall|x: VertexId, y: VertexId|
                state.explored.contains(x) && #[trigger] graph.has_edge(
                    x,
                    y,
                ) implies state.explored.contains(y) by {
                if state.buffer.contains(y) {
                    let i = choose|i: int| 0 <= i < state.buffer.len() && state.buffer[i] == y;
                }
            }
        },
        Some(taken) => {
            let vertex = *taken;
            let rest = rest_of(state.buffer, state.newest);
            let at = if state.newest {
                state.buffer.len() - 1
            } else {
                0
            };
            assert(state.buffer[at] == vertex);
            assert forall|y: VertexId| state.buffer.contains(y) implies y == vertex || rest.contains(
                y,
            ) by {
                let i = choose|i: int| 0 <= i < state.buffer.len() && state.buffer[i] == y;
                if i != at {
                    if state.newest {
                        assert(rest[i] == y);
                    } else {
                        assert(rest[i - 1] == y);
                    }
                }
            }
            assert forall|i: int| 0 <= i < rest.len() implies reaches(
                graph,
                start,
                #[trigger] rest[i],
            ) && graph.contains(rest[i]) by {
                if state.newest {
                    assert(rest[i] == state.buffer[i]);
                } else {
                    assert(rest[i] == state.buffer[i + 1]);
                }
            }
            lemma_enumeration_step(state);
            if state.explored.contains(vertex) {
                let next = EnumerationView { buffer: rest, ..state };
                assert(under_way(next, start));
                lemma_under_way_step(next, start);
            } else {
                let next = state.step().0;
                let neighbours = graph.out_neighbors(vertex);
                assert(reaches(graph, start, state.buffer[at]));
                assert forall|i: int| 0 <= i < next.buffer.len() implies reaches(
                    graph,
                    start,
                    #[trigger] next.buffer[i],
                ) by {
                    if i < rest.len() {
                        assert(next.buffer[i] == rest[i]);
                    } else {
                        let j = i - rest.len();
                        assert(next.buffer[i] == neighbours[j]);
                        lemma_targets_in_graph(graph, vertex, j);
                        lemma_reaches_self(graph, neighbours[j]);
                        lemma_reaches_first(graph, vertex, neighbours[j], neighbours[j]);
                        lemma_reaches_trans(graph, start, vertex, neighbours[j]);
                    }
                }
                assert forall|x: VertexId, y: VertexId|
                    next.explored.contains(x) && #[trigger] graph.has_edge(
                        x,
                        y,
                    ) implies next.explored.contains(y) || next.buffer.contains(y) by {
                    if x == vertex {
                        lemma_targets_from(graph.edges, vertex);
                        assert(neighbours.contains(y));
                        let j = choose|j: int| 0 <= j < neighbours.len() && neighbours[j] == y;
                        assert(next.buffer[rest.len() + j] == y);
                    } else if !state.explored.contains(y) {
                        assert(state.explored.contains(x));
                        assert(state.buffer.contains(y));
                        if y != vertex {
                            assert(rest.contains(y));
                            let i = choose|i: int| 0 <= i < rest.len() && rest[i] == y;
                            assert(next.buffer[i] == y);
                        }
                    }
                }
            }
        },
    }
}

/// What an enumeration that is under way still hands out: vertices that
/// the start vertex reaches and that are not explored, none of them twice;
/// with them explored, no edge leads out of the explored vertices.
pub proof fn lemma_under_way_run(state: EnumerationView, start: VertexId)
    requires
        under_way(state, start),
    ensures
        state.pending().no_duplicates(),
        forall|x: VertexId| #[trigger]
            state.pending().contains(x) ==> reaches(state.graph, start, x)
                && !state.explored.contains(x),
        is_closed(state.graph, state.explored.union(state.pending().to_set())),
        forall|i: int|
            0 <= i < state.buffer.len() ==> state.explored.contains(#[trigger] state.buffer[i])
                || state.pending().contains(state.buffer[i]),
    decreases state.work(),
{
    let graph = state.graph;
    let (next, pulled) = state.step();
    let all = state.pending();
    lemma_enumeration_step(state);
    lemma_under_way_step(state, start);
    lemma_step_buffer(state);
    match pulled {
        None => {
            assert(all =~= Seq::<VertexId>::empty());
            assert(state.explored.union(all.to_set()) =~= state.explored);
        },
        Some(vertex) => {
            let rest = next.pending();
            lemma_under_way_run(next, start);
            assert(all == seq![vertex] + rest);
            assert(all[0] == vertex);
            assert forall|x: VertexId| all.contains(x) <==> x == vertex || rest.contains(x) by {
                if all.contains(x) {
                    let i = choose|i: int| 0 <= i < all.len() && all[i] == x;
                    if i > 0 {
                        assert(rest[i - 1] == x);
                    }
                }
                if rest.contains(x) {
                    let i = choose|i: int| 0 <= i < rest.len() && rest[i] == x;
                    assert(all[i + 1] == x);
                }
            }
            assert forall|i: int, j: int| 0 <= i < all.len() && 0 <= j < all.len() && i
                != j implies all[i] != all[j] by {
                if i > 0 {
                    assert(all[i] == rest[i - 1]);
                    assert(rest.contains(rest[i - 1]));
                }
                if j > 0 {
                    assert(all[j] == rest[j - 1]);
                    assert(rest.contains(rest[j - 1]));
                }
            }
            assert(state.explored.union(all.to_set()) =~= next.explored.union(rest.to_set()));
            assert forall|x: VertexId| #[trigger] all.contains(x) implies reaches(graph, start, x)
                && !state.explored.contains(x) by {
                if x == vertex {
                    assert(next.explored.contains(vertex));
                } else {
                    assert(rest.contains(x));
                }
            }
            assert forall|i: int| 0 <= i < state.buffer.len() implies state.explored.contains(
                #[trigger] state.buffer[i],
            ) || all.contains(state.buffer[i]) by {
                let y = state.buffer[i];
                if next.buffer.contains(y) {
                    let k = choose|k: int| 0 <= k < next.buffer.len() && next.buffer[k] == y;
                    assert(next.explored.contains(next.buffer[k]) || rest.contains(
                        next.buffer[k],
                    ));
                }
            }
        },
    }
}

/// After a pull, each vertex that waited is explored or still waits.
pub proof fn lemma_step_buffer(state: EnumerationView)
    requires
        state.wf(),
    ensures
        forall|i: int|
            0 <= i < state.buffer.len() ==> state.step().0.explored.contains(
                #[trigger] state.buffer[i],
            ) || state.step().0.buffer.contains(state.buffer[i]),
    decreases state.buffer.len(),
{
    match next_of(state.buffer, state.newest) {
        None => {},
        Some(taken) => {
            let vertex = *taken;
            let rest = rest_of(state.buffer, state.newest);
            let (next, pulled) = state.step();
            lemma_enumeration_step(state);
            assert forall|i: int| 0 <= i < state.buffer.len() implies state.buffer[i] == vertex
                || rest.contains(#[trigger] state.buffer[i]) by {
                if state.newest {
                    if i < rest.len() {
                        assert(rest[i] == state.buffer[i]);
                    }
                } else {
                    if i > 0 {
                        assert(rest[i - 1] == state.buffer[i]);
                    }
                }
            }
            if state.explored.contains(vertex) {
                let shorter = EnumerationView { buffer: rest, ..state };
                assert forall|k: int| 0 <= k < rest.len() implies state.graph.contains(
                    #[trigger] rest[k],
                ) by {
                    if state.newest {
                        assert(rest[k] == state.buffer[k]);
                    } else {
                        assert(rest[k] == state.buffer[k + 1]);
                    }
                }
                lemma_step_buffer(shorter);
                assert forall|i: int| 0 <= i < state.buffer.len() implies next.explored.contains(
                    #[trigger] state.buffer[i],
                ) || next.buffer.contains(state.buffer[i]) by {
                    if state.buffer[i] != vertex {
                        let k = choose|k: int| 0 <= k < rest.len() && rest[k] == state.buffer[i];
                        assert(next.explored.contains(rest[k]) || next.buffer.contains(rest[k]));
                    }
                }
            } else {
                assert forall|i: int| 0 <= i < state.buffer.len() implies next.explored.contains(
                    #[trigger] state.buffer[i],
                ) || next.buffer.contains(state.buffer[i]) by {
                    if state.buffer[i] != vertex {
                        let k = choose|k: int| 0 <= k < rest.len() && rest[k] == state.buffer[i];
                        assert(next.buffer[k] == state.buffer[i]);
                    }
                }
            }
        },
    }
}

/// An enumeration that starts at a vertex of the graph hands out exactly
/// the vertices that the start vertex reaches, each of them once, the
/// start vertex first.
pub proof fn lemma_tree_enumeration(graph: GraphView, start: VertexId, newest: bool)
    requires
        graph.wf(),
        graph.contains(start),
    ensures
        ({
            let found = EnumerationView::start(graph, start, newest).pending();
            &&& found.no_duplicates()
            &&& forall|x: VertexId| found.contains(x) <==> reaches(graph, start, x)
            &&& found.len() > 0 && found[0] == start
        }),
{
    let state = EnumerationView::start(graph, start, newest);
    let found = state.pending();
    lemma_reaches_self(graph, start);
    assert(state.buffer[0] == start);
    assert(under_way(state, start));
    lemma_under_way_run(state, start);
    let all = state.explored.union(found.to_set());
    assert(found.contains(state.buffer[0]));
    assert forall|x: VertexId| found.contains(x) <==> reaches(graph, start, x) by {
        if reaches(graph, start, x) {
            assert(all.contains(start));
            lemma_closed_reaches(graph, all, start, x);
        }
    }
    lemma_enumeration_step(state);
    assert(next_of(state.buffer, newest) == Some(&start));
}

/// Whether an enumeration of a whole graph covers the roots that it has
/// passed: each of them is visited or waits in the running tree.
pub open spec fn covering(state: GraphEnumerationView) -> bool {
    &&& state.wf()
    &&& forall|root: VertexId|
        root.0 < state.next_root ==> #[trigger] state.visited().contains(root)
            || state.tree.buffer.contains(root)
}

/// A pull of an enumeration that covers the roots that it has passed
/// leaves it so; when it is over, every vertex of the graph is visited.
pub proof fn lemma_covering_step(state: GraphEnumerationView)
    requires
        covering(state),
    ensures
        covering(state.step().0),
        state.step().1 is None ==> forall|x: VertexId|
            state.graph().contains(x) ==> #[trigger] state.step().0.visited().contains(x),
    decreases state.roots_left(), state.tree.work(),
{
    let (tree, pulled) = state.tree.step();
    let moved = GraphEnumerationView { tree, ..state };
    lemma_enumeration_step(state.tree);
    lemma_step_buffer(state.tree);
    lemma_graph_enumeration_step(state);
    assert(covering(moved)) by {
        assert forall|root: VertexId| root.0 < moved.next_root implies #[trigger]
            moved.visited().contains(root) || moved.tree.buffer.contains(root) by {
            if state.tree.buffer.contains(root) {
                let i = choose|i: int|
                    0 <= i < state.tree.buffer.len() && state.tree.buffer[i] == root;
                assert(tree.explored.contains(state.tree.buffer[i]) || tree.buffer.contains(
                    state.tree.buffer[i],
                ));
            } else {
                assert(state.visited().contains(root));
            }
        }
    }
    match pulled {
        Some(vertex) => {
            if state.explored.contains(vertex) {
                lemma_covering_step(moved);
            }
        },
        None => {
            assert forall|root: VertexId| root.0 < moved.next_root implies #[trigger]
                moved.visited().contains(root) by {
                if tree.buffer.contains(root) {
                    let i = choose|i: int| 0 <= i < tree.buffer.len() && tree.buffer[i] == root;
                }
            }
            if state.next_root < state.graph().vertex_count {
                let again = moved.restart();
                let first = VertexId(state.next_root as usize);
                assert(again.tree.wf());
                assert(again.tree.buffer[0] == first);
                assert(covering(again)) by {
                    assert forall|root: VertexId| root.0 < again.next_root implies #[trigger]
                        again.visited().contains(root) || again.tree.buffer.contains(root) by {
                        if root.0 < state.next_root {
                            assert(moved.visited().contains(root));
                        } else {
                            assert(root == first);
                        }
                    }
                }
                lemma_covering_step(again);
            }
        },
    }
}

/// What an enumeration of a whole graph that covers the roots that it has
/// passed still hands out: the vertices of the graph that are not visited,
/// each of them once.
pub proof fn lemma_covering_run(state: GraphEnumerationView)
    requires
        covering(state),
    ensures
        state.pending().no_duplicates(),
        forall|x: VertexId|
            state.pending().contains(x) <==> state.graph().contains(x) && !state.visited().contains(
                x,
            ),
    decreases state.roots_left(), state.tree.work(),
{
    let (next, pulled) = state.step();
    let all = state.pending();
    lemma_graph_enumeration_step(state);
    lemma_covering_step(state);
    match pulled {
        None => {
            assert(all =~= Seq::<VertexId>::empty());
        },
        Some(vertex) => {
            let rest = next.pending();
            lemma_covering_run(next);
            assert(all == seq![vertex] + rest);
            assert(all[0] == vertex);
            assert forall|x: VertexId| all.contains(x) <==> x == vertex || rest.contains(x) by {
                if all.contains(x) {
                    let i = choose|i: int| 0 <= i < all.len() && all[i] == x;
                    if i > 0 {
                        assert(rest[i - 1] == x);
                    }
                }
                if rest.contains(x) {
                    let i = choose|i: int| 0 <= i < rest.len() && rest[i] == x;
                    assert(all[i + 1] == x);
                }
            }
            assert forall|i: int, j: int| 0 <= i < all.len() && 0 <= j < all.len() && i
                != j implies all[i] != all[j] by {
                if i > 0 {
                    assert(all[i] == rest[i - 1]);
                    assert(rest.contains(rest[i - 1]));
                }
                if j > 0 {
                    assert(all[j] == rest[j - 1]);
                    assert(rest.contains(rest[j - 1]));
                }
            }
        },
    }
}

/// An enumeration of a whole graph hands out exactly the vertices of the
/// graph, each of them once.
pub proof fn lemma_graph_enumeration(graph: GraphView, newest: bool)
    requires
        graph.wf(),
    ensures
        GraphEnumerationView::start(graph, newest).pending().no_duplicates(),
        forall|x: VertexId|
            GraphEnumerationView::start(graph, newest).pending().contains(x) <==> graph.contains(
                x,
            ),
{
    let state = GraphEnumerationView::start(graph, newest);
    assert(state.tree.wf());
    if graph.vertex_count > 0 {
        assert(state.tree.buffer[0] == VertexId(0));
    }
    assert(covering(state));
    lemma_covering_run(state);
}

} // verus!
