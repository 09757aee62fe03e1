//! What holds of the events of every depth-first traversal: how often and in
//! which order vertices and edges begin and end, and which vertices a
//! traversal reaches.

use super::events::{
    begun, explore, forest, graph_events, lemma_begun_concat, lemma_begun_single, lemma_unexplored_cost_union, tree_events, unexplored, visit,
};
use super::tree::{lemma_targets_in_graph, lemma_unexplored_cost_insert, DFSEntry};
use crate::graph::{
    is_closed, lemma_closed_reaches, lemma_reaches_first, lemma_reaches_self, lemma_targets_from, reaches, Edge, GraphView, VertexId,
};
use vstd::prelude::*;

verus! {

/// How often `entry` occurs in `events`.
pub open spec fn count(events: Seq<DFSEntry>, entry: DFSEntry) -> nat
    decreases events.len(),
{
    if events.len() == 0 {
        0
    } else {
        count(events.drop_last(), entry) + if events.last() == entry {
            1nat
        } else {
            0nat
        }
    }
}

/// Whether each vertex begins at most once in `events` and ends as often as
/// it begins.
pub open spec fn each_once(events: Seq<DFSEntry>) -> bool {
    forall|vertex: VertexId|
        #![trigger begun(events).contains(vertex)]
        #![trigger count(events, DFSEntry::BeginVertex(vertex))]
        #![trigger count(events, DFSEntry::EndVertex(vertex))]
        {
            &&& count(events, DFSEntry::BeginVertex(vertex)) == if begun(events).contains(vertex) {
                1nat
            } else {
                0nat
            }
            &&& count(events, DFSEntry::EndVertex(vertex)) == count(
                events,
                DFSEntry::BeginVertex(vertex),
            )
        }
}

/// Whether each end of a vertex in `events` comes after a begin of that
/// vertex.
pub open spec fn ends_follow_begins(events: Seq<DFSEntry>) -> bool {
    forall|j: int|
        0 <= j < events.len() && (#[trigger] events[j]) is EndVertex ==> exists|k: int|
            0 <= k < j && #[trigger] events[k] == DFSEntry::BeginVertex(events[j]->EndVertex_0)
}

/// Whether the event at `end` closes the edge that begins at `begin`: it
/// comes later and is the end of that edge, and if the target of the edge
/// begins right after the edge, the target ends right before the end of the
/// edge.
pub open spec fn closes(events: Seq<DFSEntry>, begin: int, end: int) -> bool {
    let edge = events[begin]->BeginEdge_0;
    &&& 0 <= begin < end < events.len()
    &&& events[end] == DFSEntry::EndEdge(edge)
    &&& events[begin + 1] == DFSEntry::BeginVertex(edge.1) ==> begin + 1 < end - 1 && events[end
        - 1] == DFSEntry::EndVertex(edge.1)
}

/// Whether each edge that begins in `events` is closed later, and each end
/// of an edge comes after a begin of that edge.
pub open spec fn edges_paired(events: Seq<DFSEntry>) -> bool {
    &&& forall|i: int|
        0 <= i < events.len() && (#[trigger] events[i]) is BeginEdge ==> exists|j: int|
            closes(events, i, j)
    &&& forall|j: int|
        0 <= j < events.len() && (#[trigger] events[j]) is EndEdge ==> exists|i: int|
            0 <= i < j && #[trigger] events[i] == DFSEntry::BeginEdge(events[j]->EndEdge_0)
}

/// Whether the vertices that begin in `events` are vertices of the graph
/// that are not in `explored`, and each edge from one of them leads to a
/// vertex that is in `explored` or begins in `events`.
pub open spec fn explores(graph: GraphView, events: Seq<DFSEntry>, explored: Set<VertexId>) -> bool {
    &&& forall|vertex: VertexId| #[trigger]
        begun(events).contains(vertex) ==> graph.contains(vertex) && !explored.contains(vertex)
    &&& forall|from: VertexId, to: VertexId|
        begun(events).contains(from) && #[trigger] graph.has_edge(from, to) ==> explored.contains(
            to,
        ) || begun(events).contains(to)
}

/// Whether `events` are the events of a traversal that started when
/// `explored` was explored: the vertices begin and end once and in order,
/// the edges are paired, and what begins is new and leaves no edge
/// unfollowed.
#[verifier::opaque]
pub open spec fn is_run(graph: GraphView, events: Seq<DFSEntry>, explored: Set<VertexId>) -> bool {
    &&& each_once(events)
    &&& ends_follow_begins(events)
    &&& edges_paired(events)
    &&& explores(graph, events, explored)
}

/// An event occurs in two sequences of events, one after the other, as
/// often as in both together.
pub proof fn lemma_count_concat(first: Seq<DFSEntry>, second: Seq<DFSEntry>, entry: DFSEntry)
    ensures
        count(first + second, entry) == count(first, entry) + count(second, entry),
    decreases second.len(),
{
    if second.len() == 0 {
        assert(first + second =~= first);
    } else {
        lemma_count_concat(first, second.drop_last(), entry);
        assert((first + second).drop_last() =~= first + second.drop_last());
    }
}

/// An event occurs in a single event once if it is that event, and never in
/// no event.
pub proof fn lemma_count_single(single: DFSEntry, entry: DFSEntry)
    ensures
        count(seq![single], entry) == if single == entry {
            1nat
        } else {
            0nat
        },
        count(Seq::<DFSEntry>::empty(), entry) == 0,
{
    reveal_with_fuel(count, 2);
    assert(seq![single].drop_last() =~= Seq::<DFSEntry>::empty());
}

/// An event occurs in a sequence of events if and only if it occurs there
/// at least once.
pub proof fn lemma_count_contains(events: Seq<DFSEntry>, entry: DFSEntry)
    ensures
        events.contains(entry) <==> count(events, entry) > 0,
    decreases events.len(),
{
    if events.len() > 0 {
        let shorter = events.drop_last();
        lemma_count_contains(shorter, entry);
        if shorter.contains(entry) {
            let i = choose|i: int| 0 <= i < shorter.len() && shorter[i] == entry;
            assert(events[i] == entry);
        }
        if events.last() == entry {
            assert(events[events.len() - 1] == entry);
        }
        if events.contains(entry) {
            let i = choose|i: int| 0 <= i < events.len() && events[i] == entry;
            if i < shorter.len() {
                assert(shorter[i] == entry);
            }
        }
    }
}

/// No events are the events of a traversal.
pub proof fn lemma_run_empty(graph: GraphView, explored: Set<VertexId>)
    ensures
        is_run(graph, Seq::empty(), explored),
        begun(Seq::empty()) == Set::<VertexId>::empty(),
{
    reveal(is_run);
    lemma_begun_single(DFSEntry::BeginVertex(VertexId(0)));
}

/// The events of a traversal, followed by the events of a traversal that
/// started when also the vertices of the first one were explored, are the
/// events of a traversal.
pub proof fn lemma_run_concat(
    graph: GraphView,
    first: Seq<DFSEntry>,
    second: Seq<DFSEntry>,
    explored: Set<VertexId>,
)
    requires
        is_run(graph, first, explored),
        is_run(graph, second, explored.union(begun(first))),
    ensures
        is_run(graph, first + second, explored),
        begun(first + second) == begun(first).union(begun(second)),
{
    reveal(is_run);
    let both = first + second;
    lemma_begun_concat(first, second);
    assert forall|vertex: VertexId|
        #![trigger begun(both).contains(vertex)]
        #![trigger count(both, DFSEntry::BeginVertex(vertex))]
        #![trigger count(both, DFSEntry::EndVertex(vertex))]
        {
            &&& count(both, DFSEntry::BeginVertex(vertex)) == if begun(both).contains(vertex) {
                1nat
            } else {
                0nat
            }
            &&& count(both, DFSEntry::EndVertex(vertex)) == count(
                both,
                DFSEntry::BeginVertex(vertex),
            )
        } by {
        lemma_count_concat(first, second, DFSEntry::BeginVertex(vertex));
        lemma_count_concat(first, second, DFSEntry::EndVertex(vertex));
        assert(begun(first).contains(vertex) ==> !begun(second).contains(vertex));
    }
    assert forall|j: int| 0 <= j < both.len() && (#[trigger] both[j]) is EndVertex implies exists|
        k: int,
    |
        0 <= k < j && #[trigger] both[k] == DFSEntry::BeginVertex(both[j]->EndVertex_0) by {
        if j < first.len() {
            assert(first[j] is EndVertex);
            let k = choose|k: int|
                0 <= k < j && #[trigger] first[k] == DFSEntry::BeginVertex(first[j]->EndVertex_0);
            assert(both[k] == first[k]);
        } else {
            let at = j - first.len();
            assert(second[at] is EndVertex);
            let k = choose|k: int|
                0 <= k < at && #[trigger] second[k] == DFSEntry::BeginVertex(
                    second[at]->EndVertex_0,
                );
            assert(both[first.len() + k] == second[k]);
        }
    }
    lemma_paired_concat(first, second);
}

/// Paired edges, followed by paired edges, are paired edges.
pub proof fn lemma_paired_concat(first: Seq<DFSEntry>, second: Seq<DFSEntry>)
    requires
        edges_paired(first),
        edges_paired(second),
    ensures
        edges_paired(first + second),
{
    let both = first + second;
    assert forall|i: int| 0 <= i < both.len() && (#[trigger] both[i]) is BeginEdge implies exists|
        j: int,
    |
        closes(both, i, j) by {
        if i < first.len() {
            assert(first[i] is BeginEdge);
            let j = choose|j: int| closes(first, i, j);
            assert(both[i + 1] == first[i + 1]);
            assert(both[j] == first[j]);
            assert(both[j - 1] == first[j - 1]);
            assert(closes(both, i, j));
        } else {
            let at = i - first.len();
            assert(second[at] is BeginEdge);
            let j = choose|j: int| closes(second, at, j);
            assert(both[i + 1] == second[at + 1]);
            assert(both[first.len() + j] == second[j]);
            assert(both[first.len() + j - 1] == second[j - 1]);
            assert(closes(both, i, first.len() + j));
        }
    }
    assert forall|j: int| 0 <= j < both.len() && (#[trigger] both[j]) is EndEdge implies exists|
        i: int,
    |
        0 <= i < j && #[trigger] both[i] == DFSEntry::BeginEdge(both[j]->EndEdge_0) by {
        if j < first.len() {
            assert(first[j] is EndEdge);
            let i = choose|i: int|
                0 <= i < j && #[trigger] first[i] == DFSEntry::BeginEdge(first[j]->EndEdge_0);
            assert(both[i] == first[i]);
        } else {
            let at = j - first.len();
            assert(second[at] is EndEdge);
            let i = choose|i: int|
                0 <= i < at && #[trigger] second[i] == DFSEntry::BeginEdge(second[at]->EndEdge_0);
            assert(both[first.len() + i] == second[i]);
        }
    }
}

/// Events in which each vertex begins and ends once, between two events
/// that are about an edge, are events in which each vertex begins and ends
/// once, and the same vertices begin.
proof fn lemma_once_between(open: DFSEntry, inner: Seq<DFSEntry>, close: DFSEntry)
    requires
        each_once(inner),
        open is BeginEdge,
        close is EndEdge,
    ensures
        each_once(seq![open] + inner + seq![close]),
        begun(seq![open] + inner + seq![close]) == begun(inner),
{
    let whole = seq![open] + inner + seq![close];
    lemma_begun_concat(seq![open] + inner, seq![close]);
    lemma_begun_concat(seq![open], inner);
    lemma_begun_single(open);
    lemma_begun_single(close);
    assert(begun(whole) =~= begun(inner));
    assert forall|vertex: VertexId|
        #![trigger begun(whole).contains(vertex)]
        #![trigger count(whole, DFSEntry::BeginVertex(vertex))]
        #![trigger count(whole, DFSEntry::EndVertex(vertex))]
        {
            &&& count(whole, DFSEntry::BeginVertex(vertex)) == if begun(whole).contains(vertex) {
                1nat
            } else {
                0nat
            }
            &&& count(whole, DFSEntry::EndVertex(vertex)) == count(
                whole,
                DFSEntry::BeginVertex(vertex),
            )
        } by {
        let b = DFSEntry::BeginVertex(vertex);
        let e = DFSEntry::EndVertex(vertex);
        lemma_count_concat(seq![open] + inner, seq![close], b);
        lemma_count_concat(seq![open], inner, b);
        lemma_count_concat(seq![open] + inner, seq![close], e);
        lemma_count_concat(seq![open], inner, e);
        lemma_count_single(open, b);
        lemma_count_single(close, b);
        lemma_count_single(open, e);
        lemma_count_single(close, e);
        assert(begun(inner).contains(vertex) <==> begun(whole).contains(vertex));
    }
}

/// Events in which the ends of the vertices follow their begins, between
/// two events that are about an edge, are such events.
proof fn lemma_order_between(open: DFSEntry, inner: Seq<DFSEntry>, close: DFSEntry)
    requires
        ends_follow_begins(inner),
        open is BeginEdge,
        close is EndEdge,
    ensures
        ends_follow_begins(seq![open] + inner + seq![close]),
{
    let whole = seq![open] + inner + seq![close];
    assert forall|j: int| 0 <= j < whole.len() && (#[trigger] whole[j]) is EndVertex implies exists|
        k: int,
    |
        0 <= k < j && #[trigger] whole[k] == DFSEntry::BeginVertex(whole[j]->EndVertex_0) by {
        let at = j - 1;
        assert(whole[j] == inner[at]);
        let k = choose|k: int|
            0 <= k < at && #[trigger] inner[k] == DFSEntry::BeginVertex(inner[at]->EndVertex_0);
        assert(whole[k + 1] == inner[k]);
    }
}

/// Paired edges, between the begin and the end of an edge, are paired
/// edges, if what stands between is empty or begins with the begin of the
/// target of the edge and ends with the end of the target.
proof fn lemma_paired_between(edge: Edge, inner: Seq<DFSEntry>)
    requires
        edges_paired(inner),
        inner.len() == 0 || (inner.len() >= 2 && inner[0] == DFSEntry::BeginVertex(edge.1)
            && inner.last() == DFSEntry::EndVertex(edge.1)),
    ensures
        edges_paired(seq![DFSEntry::BeginEdge(edge)] + inner + seq![DFSEntry::EndEdge(edge)]),
{
    let whole = seq![DFSEntry::BeginEdge(edge)] + inner + seq![DFSEntry::EndEdge(edge)];
    assert forall|i: int| 0 <= i < whole.len() && (#[trigger] whole[i]) is BeginEdge implies exists|
        j: int,
    |
        closes(whole, i, j) by {
        if i == 0 {
            let j = whole.len() - 1;
            if inner.len() > 0 {
                assert(whole[1] == inner[0]);
                assert(whole[j - 1] == inner[inner.len() - 1]);
            } else {
                assert(whole[1] == DFSEntry::EndEdge(edge));
            }
            assert(closes(whole, 0, j));
        } else {
            let at = i - 1;
            assert(whole[i] == inner[at]);
            let j = choose|j: int| closes(inner, at, j);
            assert(whole[i + 1] == inner[at + 1]);
            assert(whole[j + 1] == inner[j]);
            assert(whole[j] == inner[j - 1]);
            assert(closes(whole, i, j + 1));
        }
    }
    assert forall|j: int| 0 <= j < whole.len() && (#[trigger] whole[j]) is EndEdge implies exists|
        i: int,
    |
        0 <= i < j && #[trigger] whole[i] == DFSEntry::BeginEdge(whole[j]->EndEdge_0) by {
        if j == whole.len() - 1 {
            assert(whole[0] == DFSEntry::BeginEdge(edge));
        } else {
            let at = j - 1;
            assert(whole[j] == inner[at]);
            let i = choose|i: int|
                0 <= i < at && #[trigger] inner[i] == DFSEntry::BeginEdge(inner[at]->EndEdge_0);
            assert(whole[i + 1] == inner[i]);
        }
    }
}

/// The events of the visit of the target of an edge, between the begin and
/// the end of the edge, are the events of a traversal in which the same
/// vertices begin. The visit is empty, or begins with the begin of the
/// target and ends with its end.
pub proof fn lemma_run_edge(
    graph: GraphView,
    edge: Edge,
    inner: Seq<DFSEntry>,
    explored: Set<VertexId>,
)
    requires
        is_run(graph, inner, explored),
        inner.len() == 0 || (inner.len() >= 2 && inner[0] == DFSEntry::BeginVertex(edge.1)
            && inner.last() == DFSEntry::EndVertex(edge.1)),
    ensures
        is_run(
            graph,
            seq![DFSEntry::BeginEdge(edge)] + inner + seq![DFSEntry::EndEdge(edge)],
            explored,
        ),
        begun(seq![DFSEntry::BeginEdge(edge)] + inner + seq![DFSEntry::EndEdge(edge)]) == begun(
            inner,
        ),
{
    reveal(is_run);
    lemma_once_between(DFSEntry::BeginEdge(edge), inner, DFSEntry::EndEdge(edge));
    lemma_order_between(DFSEntry::BeginEdge(edge), inner, DFSEntry::EndEdge(edge));
    lemma_paired_between(edge, inner);
}

/// The events of the edges of a vertex, between the begin and the end of
/// the vertex, are the events of a traversal in which also that vertex
/// begins, if the vertex is new and each of its edges leads to a vertex
/// that was explored or begins at the edges.
pub proof fn lemma_run_vertex(
    graph: GraphView,
    vertex: VertexId,
    rest: Seq<DFSEntry>,
    explored: Set<VertexId>,
)
    requires
        graph.contains(vertex),
        !explored.contains(vertex),
        is_run(graph, rest, explored.insert(vertex)),
        forall|to: VertexId| #[trigger]
            graph.has_edge(vertex, to) ==> explored.insert(vertex).contains(to) || begun(
                rest,
            ).contains(to),
    ensures
        is_run(
            graph,
            seq![DFSEntry::BeginVertex(vertex)] + rest + seq![DFSEntry::EndVertex(vertex)],
            explored,
        ),
        begun(seq![DFSEntry::BeginVertex(vertex)] + rest + seq![DFSEntry::EndVertex(vertex)])
            == begun(rest).insert(vertex),
{
    reveal(is_run);
    let head = seq![DFSEntry::BeginVertex(vertex)];
    let tail = seq![DFSEntry::EndVertex(vertex)];
    let whole = head + rest + tail;
    lemma_begun_concat(head + rest, tail);
    lemma_begun_concat(head, rest);
    lemma_begun_single(DFSEntry::BeginVertex(vertex));
    lemma_begun_single(DFSEntry::EndVertex(vertex));
    assert(begun(whole) =~= begun(rest).insert(vertex));
    assert(!begun(rest).contains(vertex));
    assert forall|x: VertexId|
        #![trigger begun(whole).contains(x)]
        #![trigger count(whole, DFSEntry::BeginVertex(x))]
        #![trigger count(whole, DFSEntry::EndVertex(x))]
        {
            &&& count(whole, DFSEntry::BeginVertex(x)) == if begun(whole).contains(x) {
                1nat
            } else {
                0nat
            }
            &&& count(whole, DFSEntry::EndVertex(x)) == count(whole, DFSEntry::BeginVertex(x))
        } by {
        let b = DFSEntry::BeginVertex(x);
        let e = DFSEntry::EndVertex(x);
        lemma_count_concat(head + rest, tail, b);
        lemma_count_concat(head, rest, b);
        lemma_count_concat(head + rest, tail, e);
        lemma_count_concat(head, rest, e);
        lemma_count_single(DFSEntry::BeginVertex(vertex), b);
        lemma_count_single(DFSEntry::EndVertex(vertex), b);
        lemma_count_single(DFSEntry::BeginVertex(vertex), e);
        lemma_count_single(DFSEntry::EndVertex(vertex), e);
        assert(begun(rest).contains(x) || x == vertex <==> begun(whole).contains(x));
    }
    assert forall|j: int| 0 <= j < whole.len() && (#[trigger] whole[j]) is EndVertex implies exists|
        k: int,
    |
        0 <= k < j && #[trigger] whole[k] == DFSEntry::BeginVertex(whole[j]->EndVertex_0) by {
        if j == whole.len() - 1 {
            assert(whole[0] == DFSEntry::BeginVertex(vertex));
        } else {
            let at = j - 1;
            assert(whole[j] == rest[at]);
            let k = choose|k: int|
                0 <= k < at && #[trigger] rest[k] == DFSEntry::BeginVertex(rest[at]->EndVertex_0);
            assert(whole[k + 1] == rest[k]);
        }
    }
    assert forall|i: int| 0 <= i < whole.len() && (#[trigger] whole[i]) is BeginEdge implies exists|
        j: int,
    |
        closes(whole, i, j) by {
        let at = i - 1;
        assert(whole[i] == rest[at]);
        let j = choose|j: int| closes(rest, at, j);
        assert(whole[i + 1] == rest[at + 1]);
        assert(whole[j + 1] == rest[j]);
        assert(whole[j] == rest[j - 1]);
        assert(closes(whole, i, j + 1));
    }
    assert forall|j: int| 0 <= j < whole.len() && (#[trigger] whole[j]) is EndEdge implies exists|
        i: int,
    |
        0 <= i < j && #[trigger] whole[i] == DFSEntry::BeginEdge(whole[j]->EndEdge_0) by {
        let at = j - 1;
        assert(whole[j] == rest[at]);
        let i = choose|i: int|
            0 <= i < at && #[trigger] rest[i] == DFSEntry::BeginEdge(rest[at]->EndEdge_0);
        assert(whole[i + 1] == rest[i]);
    }
}

/// The visit of a vertex is a traversal that reaches the vertex.
///
/// The events of the visit are the events of a traversal. They are none, or
/// they begin with the begin of the vertex and end with its end. Each
/// vertex that begins is reached from the vertex. A vertex of the graph is
/// explored before the visit or begins in it.
pub proof fn lemma_visit_run(graph: GraphView, vertex: VertexId, explored: Set<VertexId>)
    requires
        graph.wf(),
    ensures
        is_run(graph, visit(graph, vertex, explored), explored),
        forall|x: VertexId| #[trigger]
            begun(visit(graph, vertex, explored)).contains(x) ==> reaches(graph, vertex, x),
        graph.contains(vertex) ==> explored.contains(vertex) || begun(
            visit(graph, vertex, explored),
        ).contains(vertex),
        ({
            let events = visit(graph, vertex, explored);
            events.len() == 0 || (events.len() >= 2 && events[0] == DFSEntry::BeginVertex(vertex)
                && events.last() == DFSEntry::EndVertex(vertex))
        }),
    decreases unexplored(graph, explored), 0nat,
{
    if explored.contains(vertex) || !graph.contains(vertex) {
        lemma_run_empty(graph, explored);
    } else {
        let events = visit(graph, vertex, explored);
        let rest = explore(graph, vertex, 0, explored.insert(vertex));
        lemma_unexplored_cost_insert(graph, graph.vertex_count, explored, vertex);
        lemma_explore_run(graph, vertex, 0, explored.insert(vertex));
        assert forall|to: VertexId| #[trigger] graph.has_edge(vertex, to) implies explored.insert(
            vertex,
        ).contains(to) || begun(rest).contains(to) by {
            lemma_targets_from(graph.edges, vertex);
            let neighbours = graph.out_neighbors(vertex);
            assert(neighbours.contains(to));
            let j = choose|j: int| 0 <= j < neighbours.len() && neighbours[j] == to;
            assert(explored.insert(vertex).contains(neighbours[j]) || begun(rest).contains(
                neighbours[j],
            ));
        }
        lemma_run_vertex(graph, vertex, rest, explored);
        assert(events[0] == DFSEntry::BeginVertex(vertex));
        assert(events[events.len() - 1] == DFSEntry::EndVertex(vertex));
        assert forall|x: VertexId| #[trigger] begun(events).contains(x) implies reaches(
            graph,
            vertex,
            x,
        ) by {
            if x == vertex {
                lemma_reaches_self(graph, vertex);
            } else {
                assert(begun(rest).contains(x));
            }
        }
    }
}

/// The edges of a vertex are a traversal that follows each of them.
///
/// The events of the edges of a vertex from one edge on are the events of a
/// traversal. Each vertex that begins is reached from the vertex. The
/// target of each of the edges is explored before or begins.
pub proof fn lemma_explore_run(
    graph: GraphView,
    vertex: VertexId,
    from: nat,
    explored: Set<VertexId>,
)
    requires
        graph.wf(),
        graph.contains(vertex),
    ensures
        is_run(graph, explore(graph, vertex, from, explored), explored),
        forall|x: VertexId| #[trigger]
            begun(explore(graph, vertex, from, explored)).contains(x) ==> reaches(
                graph,
                vertex,
                x,
            ),
        forall|j: int|
            from <= j < graph.out_neighbors(vertex).len() ==> explored.contains(
                #[trigger] graph.out_neighbors(vertex)[j],
            ) || begun(explore(graph, vertex, from, explored)).contains(
                graph.out_neighbors(vertex)[j],
            ),
    decreases unexplored(graph, explored), graph.out_neighbors(vertex).len() - from + 1,
{
    let neighbours = graph.out_neighbors(vertex);
    if from >= neighbours.len() {
        lemma_run_empty(graph, explored);
    } else {
        let target = neighbours[from as int];
        let edge = Edge(vertex, target);
        let inner = visit(graph, target, explored);
        let wrapped = seq![DFSEntry::BeginEdge(edge)] + inner + seq![DFSEntry::EndEdge(edge)];
        let after = explored.union(begun(inner));
        let rest = explore(graph, vertex, from + 1, after);
        let whole = explore(graph, vertex, from, explored);
        lemma_targets_in_graph(graph, vertex, from as int);
        lemma_visit_run(graph, target, explored);
        lemma_run_edge(graph, edge, inner, explored);
        lemma_unexplored_cost_union(graph, graph.vertex_count, explored, begun(inner));
        lemma_explore_run(graph, vertex, from + 1, after);
        lemma_run_concat(graph, wrapped, rest, explored);
        assert(whole == wrapped + rest);
        assert forall|x: VertexId| #[trigger] begun(whole).contains(x) implies reaches(
            graph,
            vertex,
            x,
        ) by {
            if begun(inner).contains(x) {
                lemma_reaches_first(graph, vertex, target, x);
            } else {
                assert(begun(rest).contains(x));
            }
        }
        assert forall|j: int| from <= j < neighbours.len() implies explored.contains(
            #[trigger] neighbours[j],
        ) || begun(whole).contains(neighbours[j]) by {
            if j > from {
                assert(after.contains(neighbours[j]) || begun(rest).contains(neighbours[j]));
            }
        }
    }
}

/// The vertices that begin in a visit are vertices of the graph that were
/// not explored, and the vertex of the visit, if the graph has it, is
/// explored before the visit or begins in it.
pub proof fn lemma_visit_begun(graph: GraphView, vertex: VertexId, explored: Set<VertexId>)
    requires
        graph.wf(),
    ensures
        forall|x: VertexId| #[trigger]
            begun(visit(graph, vertex, explored)).contains(x) ==> graph.contains(x)
                && !explored.contains(x),
        graph.contains(vertex) ==> explored.contains(vertex) || begun(
            visit(graph, vertex, explored),
        ).contains(vertex),
{
    reveal(is_run);
    lemma_visit_run(graph, vertex, explored);
}

/// The vertices that begin at the edges of a vertex are vertices of the
/// graph that were not explored, and the target of each of the edges is
/// explored before or begins.
pub proof fn lemma_explore_begun(
    graph: GraphView,
    vertex: VertexId,
    from: nat,
    explored: Set<VertexId>,
)
    requires
        graph.wf(),
        graph.contains(vertex),
    ensures
        forall|x: VertexId| #[trigger]
            begun(explore(graph, vertex, from, explored)).contains(x) ==> graph.contains(x)
                && !explored.contains(x),
        forall|j: int|
            from <= j < graph.out_neighbors(vertex).len() ==> explored.contains(
                #[trigger] graph.out_neighbors(vertex)[j],
            ) || begun(explore(graph, vertex, from, explored)).contains(
                graph.out_neighbors(vertex)[j],
            ),
{
    reveal(is_run);
    lemma_explore_run(graph, vertex, from, explored);
}

/// In the traversal of what a start vertex reaches, a vertex begins once
/// and ends once if the start vertex reaches it, and neither begins nor
/// ends otherwise; no vertex ends before it has begun.
pub proof fn lemma_tree_vertices(graph: GraphView, start: VertexId, vertex: VertexId)
    requires
        graph.wf(),
        graph.contains(start),
    ensures
        ({
            let events = tree_events(graph, start);
            let times: nat = if reaches(graph, start, vertex) {
                1
            } else {
                0
            };
            &&& count(events, DFSEntry::BeginVertex(vertex)) == times
            &&& count(events, DFSEntry::EndVertex(vertex)) == times
            &&& ends_follow_begins(events)
        }),
{
    reveal(is_run);
    let nothing = Set::<VertexId>::empty();
    let events = tree_events(graph, start);
    lemma_visit_run(graph, start, nothing);
    assert(begun(events).contains(vertex) ==> reaches(graph, start, vertex));
    if reaches(graph, start, vertex) {
        assert(is_closed(graph, begun(events))) by {
            assert forall|from: VertexId, to: VertexId|
                begun(events).contains(from) && #[trigger] graph.has_edge(
                    from,
                    to,
                ) implies begun(events).contains(to) by {
                assert(nothing.contains(to) || begun(events).contains(to));
            }
        }
        lemma_closed_reaches(graph, begun(events), start, vertex);
    }
    assert(count(events, DFSEntry::BeginVertex(vertex)) == if begun(events).contains(vertex) {
        1nat
    } else {
        0nat
    });
}

/// However a traversal of what a start vertex reaches starts, with any
/// vertices explored before, each vertex begins at most once and ends as
/// often as it begins, and a vertex that was explored before neither begins
/// nor ends; no vertex ends before it has begun.
pub proof fn lemma_visit_vertices(
    graph: GraphView,
    start: VertexId,
    explored: Set<VertexId>,
    vertex: VertexId,
)
    requires
        graph.wf(),
    ensures
        ({
            let events = visit(graph, start, explored);
            &&& count(events, DFSEntry::BeginVertex(vertex)) <= 1
            &&& count(events, DFSEntry::EndVertex(vertex)) == count(
                events,
                DFSEntry::BeginVertex(vertex),
            )
            &&& explored.contains(vertex) ==> count(events, DFSEntry::BeginVertex(vertex)) == 0
            &&& ends_follow_begins(events)
        }),
{
    reveal(is_run);
    let events = visit(graph, start, explored);
    lemma_visit_run(graph, start, explored);
    assert(count(events, DFSEntry::BeginVertex(vertex)) == if begun(events).contains(vertex) {
        1nat
    } else {
        0nat
    });
    assert(begun(events).contains(vertex) ==> !explored.contains(vertex));
}

/// In every traversal of what a start vertex reaches, each edge that begins
/// ends later, and if the target of the edge begins right after the edge,
/// the target ends right before the edge ends; each end of an edge follows
/// a begin of that edge.
pub proof fn lemma_tree_edges(graph: GraphView, start: VertexId, explored: Set<VertexId>)
    requires
        graph.wf(),
    ensures
        edges_paired(visit(graph, start, explored)),
        edges_paired(tree_events(graph, start)),
{
    reveal(is_run);
    lemma_visit_run(graph, start, explored);
    lemma_visit_run(graph, start, Set::empty());
}

/// A tree of the traversal of a whole graph is as big as it can be: when
/// no edge leads out of the explored vertices, the visit of a vertex of the
/// graph begins exactly the vertices that the vertex reaches and that are
/// not explored, and afterwards again no edge leads out of the explored
/// vertices.
pub proof fn lemma_tree_is_maximal(graph: GraphView, root: VertexId, explored: Set<VertexId>)
    requires
        graph.wf(),
        graph.contains(root),
        is_closed(graph, explored),
    ensures
        forall|vertex: VertexId|
            begun(visit(graph, root, explored)).contains(vertex) <==> reaches(
                graph,
                root,
                vertex,
            ) && !explored.contains(vertex),
        is_closed(graph, explored.union(begun(visit(graph, root, explored)))),
{
    reveal(is_run);
    let events = visit(graph, root, explored);
    let after = explored.union(begun(events));
    lemma_visit_run(graph, root, explored);
    assert(is_closed(graph, after)) by {
        assert forall|from: VertexId, to: VertexId|
            after.contains(from) && #[trigger] graph.has_edge(from, to) implies after.contains(
            to,
        ) by {
            if begun(events).contains(from) {
                assert(explored.contains(to) || begun(events).contains(to));
            }
        }
    }
    assert forall|vertex: VertexId|
        begun(events).contains(vertex) <==> reaches(graph, root, vertex) && !explored.contains(
            vertex,
        ) by {
        if reaches(graph, root, vertex) && !explored.contains(vertex) {
            assert(after.contains(root));
            lemma_closed_reaches(graph, after, root, vertex);
        }
    }
}

/// The trees of the traversal of a whole graph from a root on: they are the
/// events of a traversal, every vertex from the root on is explored before
/// or begins, and, when no edge leads out of the explored vertices, none
/// leads out of them afterwards.
pub proof fn lemma_forest_run(graph: GraphView, root: nat, explored: Set<VertexId>)
    requires
        graph.wf(),
    ensures
        is_run(graph, forest(graph, root, explored), explored),
        forall|vertex: VertexId|
            root <= vertex.0 < graph.vertex_count ==> explored.contains(vertex) || #[trigger] begun(
                forest(graph, root, explored),
            ).contains(vertex),
        is_closed(graph, explored) ==> is_closed(
            graph,
            explored.union(begun(forest(graph, root, explored))),
        ),
    decreases graph.vertex_count - root,
{
    if root >= graph.vertex_count {
        lemma_run_empty(graph, explored);
        assert(explored.union(begun(forest(graph, root, explored))) =~= explored);
    } else {
        let vertex = VertexId(root as usize);
        let tree = visit(graph, vertex, explored);
        let after = explored.union(begun(tree));
        let rest = forest(graph, root + 1, after);
        let whole = forest(graph, root, explored);
        lemma_visit_run(graph, vertex, explored);
        lemma_forest_run(graph, root + 1, after);
        lemma_run_concat(graph, tree, rest, explored);
        assert(whole == tree + rest);
        assert(explored.union(begun(whole)) =~= after.union(begun(rest)));
        if is_closed(graph, explored) {
            lemma_tree_is_maximal(graph, vertex, explored);
        }
        assert forall|x: VertexId| root <= x.0 < graph.vertex_count implies explored.contains(x)
            || #[trigger] begun(whole).contains(x) by {
            if x.0 == root {
                assert(x == vertex);
            } else {
                assert(after.contains(x) || begun(rest).contains(x));
            }
        }
    }
}

/// In the traversal of a whole graph, each vertex of the graph begins once
/// and ends once, and nothing else begins or ends; no vertex ends before it
/// has begun, and the edges are paired.
pub proof fn lemma_graph_vertices(graph: GraphView, vertex: VertexId)
    requires
        graph.wf(),
    ensures
        ({
            let events = graph_events(graph);
            let times: nat = if graph.contains(vertex) {
                1
            } else {
                0
            };
            &&& count(events, DFSEntry::BeginVertex(vertex)) == times
            &&& count(events, DFSEntry::EndVertex(vertex)) == times
            &&& ends_follow_begins(events)
            &&& edges_paired(events)
        }),
{
    reveal(is_run);
    let nothing = Set::<VertexId>::empty();
    let events = graph_events(graph);
    lemma_forest_run(graph, 0, nothing);
    assert(count(events, DFSEntry::BeginVertex(vertex)) == if begun(events).contains(vertex) {
        1nat
    } else {
        0nat
    });
    if graph.contains(vertex) {
        assert(nothing.contains(vertex) || begun(events).contains(vertex));
    } else {
        assert(begun(events).contains(vertex) ==> graph.contains(vertex));
    }
}

/// How often `vertex` occurs in `targets`.
pub open spec fn times(targets: Seq<VertexId>, vertex: VertexId) -> nat
    decreases targets.len(),
{
    if targets.len() == 0 {
        0
    } else {
        times(targets.drop_last(), vertex) + if targets.last() == vertex {
            1nat
        } else {
            0nat
        }
    }
}

/// How often `edge` occurs in `edges`.
pub open spec fn edge_times(edges: Seq<Edge>, edge: Edge) -> nat
    decreases edges.len(),
{
    if edges.len() == 0 {
        0
    } else {
        edge_times(edges.drop_last(), edge) + if edges.last() == edge {
            1nat
        } else {
            0nat
        }
    }
}

/// A vertex is as often a target from a vertex as the edge between them
/// occurs.
pub proof fn lemma_times_targets(edges: Seq<Edge>, from: VertexId, to: VertexId)
    ensures
        times(crate::graph::targets_from(edges, from), to) == edge_times(edges, Edge(from, to)),
    decreases edges.len(),
{
    if edges.len() > 0 {
        lemma_times_targets(edges.drop_last(), from, to);
        let before = crate::graph::targets_from(edges.drop_last(), from);
        if edges.last().0 == from {
            assert(before.push(edges.last().1).drop_last() == before);
        }
    }
}

/// A vertex occurs in targets as often as it is the first of them and
/// occurs in the rest.
pub proof fn lemma_times_first(targets: Seq<VertexId>, vertex: VertexId)
    requires
        targets.len() > 0,
    ensures
        times(targets, vertex) == times(targets.drop_first(), vertex) + if targets[0] == vertex {
            1nat
        } else {
            0nat
        },
    decreases targets.len(),
{
    if targets.len() == 1 {
        assert(targets.drop_last() =~= targets.drop_first());
        reveal_with_fuel(times, 2);
    } else {
        lemma_times_first(targets.drop_last(), vertex);
        assert(targets.drop_last().drop_first() =~= targets.drop_first().drop_last());
        assert(targets.drop_first().last() == targets.last());
        assert(targets.drop_last()[0] == targets[0]);
    }
}

/// How often the begin and the end of the edge from `from` to `to` must
/// occur among events in which the vertices `news` begin: as often as `to`
/// is an out-neighbour of `from` if `from` begins, and never otherwise.
pub open spec fn due(graph: GraphView, news: Set<VertexId>, from: VertexId, to: VertexId) -> nat {
    if news.contains(from) {
        times(graph.out_neighbors(from), to)
    } else {
        0
    }
}

/// In the visit of a vertex, each edge from a vertex that begins begins
/// once and ends once for each time that it occurs in the graph, and no
/// other edge begins or ends.
pub proof fn lemma_visit_edges(
    graph: GraphView,
    vertex: VertexId,
    explored: Set<VertexId>,
    from: VertexId,
    to: VertexId,
)
    requires
        graph.wf(),
    ensures
        ({
            let events = visit(graph, vertex, explored);
            &&& count(events, DFSEntry::BeginEdge(Edge(from, to))) == due(
                graph,
                begun(events),
                from,
                to,
            )
            &&& count(events, DFSEntry::EndEdge(Edge(from, to))) == due(
                graph,
                begun(events),
                from,
                to,
            )
        }),
    decreases unexplored(graph, explored), 0nat,
{
    let events = visit(graph, vertex, explored);
    let begin = DFSEntry::BeginEdge(Edge(from, to));
    let end = DFSEntry::EndEdge(Edge(from, to));
    if explored.contains(vertex) || !graph.contains(vertex) {
        lemma_count_single(begin, begin);
        lemma_begun_single(begin);
    } else {
        let inside = explored.insert(vertex);
        let rest = explore(graph, vertex, 0, inside);
        let head = seq![DFSEntry::BeginVertex(vertex)];
        let tail = seq![DFSEntry::EndVertex(vertex)];
        lemma_unexplored_cost_insert(graph, graph.vertex_count, explored, vertex);
        lemma_explore_edges(graph, vertex, 0, inside, from, to);
        lemma_explore_begun(graph, vertex, 0, inside);
        super::events::lemma_begun_visit(graph, vertex, explored);
        lemma_count_concat(head + rest, tail, begin);
        lemma_count_concat(head, rest, begin);
        lemma_count_concat(head + rest, tail, end);
        lemma_count_concat(head, rest, end);
        lemma_count_single(DFSEntry::BeginVertex(vertex), begin);
        lemma_count_single(DFSEntry::EndVertex(vertex), begin);
        lemma_count_single(DFSEntry::BeginVertex(vertex), end);
        lemma_count_single(DFSEntry::EndVertex(vertex), end);
        assert(graph.out_neighbors(vertex).skip(0) =~= graph.out_neighbors(vertex));
        assert(!begun(rest).contains(vertex));
    }
}

/// At the edges of an explored vertex from one of them on, each edge from
/// a vertex that begins begins once and ends once for each time that it
/// occurs in the graph, each of those edges of the vertex itself does so
/// too, and no other edge begins or ends.
pub proof fn lemma_explore_edges(
    graph: GraphView,
    vertex: VertexId,
    at: nat,
    explored: Set<VertexId>,
    from: VertexId,
    to: VertexId,
)
    requires
        graph.wf(),
        graph.contains(vertex),
        explored.contains(vertex),
        at <= graph.out_neighbors(vertex).len(),
    ensures
        ({
            let events = explore(graph, vertex, at, explored);
            let own: nat = if from == vertex {
                times(graph.out_neighbors(vertex).skip(at as int), to)
            } else {
                0
            };
            &&& count(events, DFSEntry::BeginEdge(Edge(from, to))) == due(
                graph,
                begun(events),
                from,
                to,
            ) + own
            &&& count(events, DFSEntry::EndEdge(Edge(from, to))) == due(
                graph,
                begun(events),
                from,
                to,
            ) + own
        }),
    decreases unexplored(graph, explored), graph.out_neighbors(vertex).len() - at + 1,
{
    let neighbours = graph.out_neighbors(vertex);
    let events = explore(graph, vertex, at, explored);
    let begin = DFSEntry::BeginEdge(Edge(from, to));
    let end = DFSEntry::EndEdge(Edge(from, to));
    if at >= neighbours.len() {
        lemma_count_single(begin, begin);
        lemma_begun_single(begin);
        assert(neighbours.skip(at as int) =~= Seq::<VertexId>::empty());
    } else {
        let target = neighbours[at as int];
        let edge = Edge(vertex, target);
        let inner = visit(graph, target, explored);
        let after = explored.union(begun(inner));
        let rest = explore(graph, vertex, at + 1, after);
        let open = seq![DFSEntry::BeginEdge(edge)];
        let close = seq![DFSEntry::EndEdge(edge)];
        lemma_visit_edges(graph, target, explored, from, to);
        lemma_visit_begun(graph, target, explored);
        lemma_unexplored_cost_union(graph, graph.vertex_count, explored, begun(inner));
        lemma_explore_edges(graph, vertex, at + 1, after, from, to);
        lemma_explore_begun(graph, vertex, at + 1, after);
        super::events::lemma_begun_explore(graph, vertex, at, explored);
        assert(events == open + inner + close + rest);
        lemma_count_concat(open + inner + close, rest, begin);
        lemma_count_concat(open + inner, close, begin);
        lemma_count_concat(open, inner, begin);
        lemma_count_concat(open + inner + close, rest, end);
        lemma_count_concat(open + inner, close, end);
        lemma_count_concat(open, inner, end);
        lemma_count_single(DFSEntry::BeginEdge(edge), begin);
        lemma_count_single(DFSEntry::EndEdge(edge), begin);
        lemma_count_single(DFSEntry::BeginEdge(edge), end);
        lemma_count_single(DFSEntry::EndEdge(edge), end);
        lemma_times_first(neighbours.skip(at as int), to);
        assert(neighbours.skip(at as int).drop_first() =~= neighbours.skip(at as int + 1));
        assert(neighbours.skip(at as int)[0] == target);
        assert(begun(inner).contains(from) ==> !begun(rest).contains(from));
        assert(!begun(inner).contains(vertex) && !begun(rest).contains(vertex));
    }
}

/// In the trees of the traversal of a whole graph from a root on, each
/// edge from a vertex that begins begins once and ends once for each time
/// that it occurs in the graph, and no other edge begins or ends.
pub proof fn lemma_forest_edges(
    graph: GraphView,
    root: nat,
    explored: Set<VertexId>,
    from: VertexId,
    to: VertexId,
)
    requires
        graph.wf(),
    ensures
        ({
            let events = forest(graph, root, explored);
            &&& count(events, DFSEntry::BeginEdge(Edge(from, to))) == due(
                graph,
                begun(events),
                from,
                to,
            )
            &&& count(events, DFSEntry::EndEdge(Edge(from, to))) == due(
                graph,
                begun(events),
                from,
                to,
            )
        }),
    decreases graph.vertex_count - root,
{
    let begin = DFSEntry::BeginEdge(Edge(from, to));
    let end = DFSEntry::EndEdge(Edge(from, to));
    if root >= graph.vertex_count {
        lemma_count_single(begin, begin);
        lemma_begun_single(begin);
    } else {
        let tree = visit(graph, VertexId(root as usize), explored);
        let after = explored.union(begun(tree));
        let rest = forest(graph, root + 1, after);
        lemma_visit_edges(graph, VertexId(root as usize), explored, from, to);
        lemma_forest_edges(graph, root + 1, after, from, to);
        lemma_forest_run(graph, root + 1, after);
        lemma_begun_concat(tree, rest);
        lemma_count_concat(tree, rest, begin);
        lemma_count_concat(tree, rest, end);
        assert(begun(tree).contains(from) ==> !begun(rest).contains(from)) by {
            reveal(is_run);
        }
    }
}

/// In the traversal of a whole graph, each edge begins once and ends once
/// for each time that it occurs in the graph.
pub proof fn lemma_graph_edges(graph: GraphView, edge: Edge)
    requires
        graph.wf(),
    ensures
        count(graph_events(graph), DFSEntry::BeginEdge(edge)) == edge_times(graph.edges, edge),
        count(graph_events(graph), DFSEntry::EndEdge(edge)) == edge_times(graph.edges, edge),
{
    let nothing = Set::<VertexId>::empty();
    let events = graph_events(graph);
    lemma_forest_edges(graph, 0, nothing, edge.0, edge.1);
    lemma_forest_run(graph, 0, nothing);
    lemma_times_targets(graph.edges, edge.0, edge.1);
    if !graph.contains(edge.0) {
        lemma_edge_times_none(graph, graph.edges.len() as int, edge);
        assert(graph.edges.take(graph.edges.len() as int) == graph.edges);
        assert(!begun(events).contains(edge.0)) by {
            reveal(is_run);
        }
    } else {
        assert(nothing.contains(edge.0) || begun(events).contains(edge.0));
    }
}

/// An edge from a vertex that the graph does not have does not occur in
/// the graph.
pub proof fn lemma_edge_times_none(graph: GraphView, upto: int, edge: Edge)
    requires
        graph.wf(),
        !graph.contains(edge.0),
        0 <= upto <= graph.edges.len(),
    ensures
        edge_times(graph.edges.take(upto), edge) == 0,
    decreases upto,
{
    if upto > 0 {
        lemma_edge_times_none(graph, upto - 1, edge);
        assert(graph.edges.take(upto).drop_last() == graph.edges.take(upto - 1));
        assert(graph.contains(graph.edges[upto - 1].0));
    }
}

} // verus!
