//! What a depth-first traversal reports, said at once: the whole sequence of
//! events as a function of the graph, the start and the vertices that are
//! explored already.

use super::graph::{lemma_restart, ForestView};
use super::tree::{
    lemma_advance, lemma_targets_in_graph, lemma_unexplored_cost_insert, unexplored_cost, DFSEntry, TreeView, Vertex,
};
use crate::graph::{Edge, GraphView, VertexId};
use vstd::prelude::*;

verus! {

/// The vertices whose begin is among `events`.
pub open spec fn begun(events: Seq<DFSEntry>) -> Set<VertexId> {
    Set::new(|vertex: VertexId| events.contains(DFSEntry::BeginVertex(vertex)))
}

/// What is left to explore when `explored` is explored: a measure that goes
/// down whenever a vertex of the graph begins.
pub open spec fn unexplored(graph: GraphView, explored: Set<VertexId>) -> nat {
    unexplored_cost(graph, graph.vertex_count, explored)
}

/// The more is explored, the less is left to explore.
pub proof fn lemma_unexplored_cost_union(
    graph: GraphView,
    bound: nat,
    explored: Set<VertexId>,
    more: Set<VertexId>,
)
    ensures
        unexplored_cost(graph, bound, explored.union(more)) <= unexplored_cost(
            graph,
            bound,
            explored,
        ),
    decreases bound,
{
    if bound > 0 {
        lemma_unexplored_cost_union(graph, (bound - 1) as nat, explored, more);
    }
}

/// The events of the visit of `vertex` when `explored` is explored: none if
/// the vertex is explored or is no vertex of the graph; otherwise its begin,
/// the events of its edges, and its end.
pub open spec fn visit(graph: GraphView, vertex: VertexId, explored: Set<VertexId>) -> Seq<
    DFSEntry,
>
    decreases unexplored(graph, explored), 0nat,
{
    if explored.contains(vertex) || !graph.contains(vertex) || !graph.wf() {
        Seq::empty()
    } else {
        proof {
            lemma_unexplored_cost_insert(graph, graph.vertex_count, explored, vertex);
        }
        seq![DFSEntry::BeginVertex(vertex)] + explore(graph, vertex, 0, explored.insert(vertex))
            + seq![DFSEntry::EndVertex(vertex)]
    }
}

/// The events of the out-edges of `vertex` from the one at position `from`
/// on, when `explored` is explored: for each edge its begin, the visit of
/// its target, and its end; what a visit explores is explored for the edges
/// after it.
pub open spec fn explore(
    graph: GraphView,
    vertex: VertexId,
    from: nat,
    explored: Set<VertexId>,
) -> Seq<DFSEntry>
    decreases unexplored(graph, explored), graph.out_neighbors(vertex).len() - from + 1,
{
    let neighbours = graph.out_neighbors(vertex);
    if from >= neighbours.len() {
        Seq::empty()
    } else {
        let target = neighbours[from as int];
        let edge = Edge(vertex, target);
        let inner = visit(graph, target, explored);
        proof {
            lemma_unexplored_cost_union(graph, graph.vertex_count, explored, begun(inner));
        }
        seq![DFSEntry::BeginEdge(edge)] + inner + seq![DFSEntry::EndEdge(edge)] + explore(
            graph,
            vertex,
            from + 1,
            explored.union(begun(inner)),
        )
    }
}

/// The events of the traversal of what `start` reaches.
pub open spec fn tree_events(graph: GraphView, start: VertexId) -> Seq<DFSEntry> {
    visit(graph, start, Set::empty())
}

/// The events of the visits of the vertices from `root` on in ascending
/// order, when `explored` is explored; what a visit explores is explored
/// for the visits after it.
pub open spec fn forest(graph: GraphView, root: nat, explored: Set<VertexId>) -> Seq<DFSEntry>
    decreases graph.vertex_count - root,
{
    if root >= graph.vertex_count {
        Seq::empty()
    } else {
        let tree = visit(graph, VertexId(root as usize), explored);
        tree + forest(graph, root + 1, explored.union(begun(tree)))
    }
}

/// The events of the traversal of the whole graph.
pub open spec fn graph_events(graph: GraphView) -> Seq<DFSEntry> {
    forest(graph, 0, Set::empty())
}

/// What the vertices of a stack, which have all begun, still report when
/// `explored` is explored, from the innermost outwards: each closes its open
/// edge and then, unless it was dropped, explores the edges that are left
/// and ends.
pub open spec fn unwind(graph: GraphView, stack: Seq<Vertex>, explored: Set<VertexId>) -> Seq<
    DFSEntry,
>
    decreases stack.len(),
{
    if stack.len() == 0 {
        Seq::empty()
    } else {
        let top = stack.last();
        let below = stack.drop_last();
        if top.dropped {
            top.closing() + unwind(graph, below, explored)
        } else {
            let rest = explore(graph, top.id, top.cursor as nat, explored);
            top.closing() + rest + seq![DFSEntry::EndVertex(top.id)] + unwind(
                graph,
                below,
                explored.union(begun(rest)),
            )
        }
    }
}

impl TreeView {
    /// The events that are still to come, when the caller hides the begin
    /// of each vertex of `outer` and drops that vertex at once.
    ///
    /// These are the waiting events, then the visit of the innermost vertex
    /// if it has not begun, then what the vertices that have begun still
    /// report. A vertex of `outer` counts as explored.
    pub open spec fn pending(self, outer: Set<VertexId>) -> Seq<DFSEntry> {
        let all = self.explored.union(outer);
        if self.top_is_fresh() {
            let top = self.stack.last();
            let below = self.stack.drop_last();
            if outer.contains(top.id) {
                self.queue + unwind(self.graph, below, all)
            } else if top.dropped {
                self.queue + seq![DFSEntry::BeginVertex(top.id)] + unwind(
                    self.graph,
                    below,
                    all.insert(top.id),
                )
            } else {
                let inner = visit(self.graph, top.id, all);
                self.queue + inner + unwind(self.graph, below, all.union(begun(inner)))
            }
        } else {
            self.queue + unwind(self.graph, self.stack, all)
        }
    }

    /// The events that are still to come if the caller drops no vertex.
    pub open spec fn pending_events(self) -> Seq<DFSEntry> {
        self.pending(Set::empty())
    }
}

/// The vertices that begin in two sequences of events, one after the other,
/// are those that begin in one of them.
pub proof fn lemma_begun_concat(first: Seq<DFSEntry>, second: Seq<DFSEntry>)
    ensures
        begun(first + second) == begun(first).union(begun(second)),
{
    let both = first + second;
    assert forall|vertex: VertexId|
        begun(both).contains(vertex) <==> begun(first).union(begun(second)).contains(vertex) by {
        let entry = DFSEntry::BeginVertex(vertex);
        if both.contains(entry) {
            let i = choose|i: int| 0 <= i < both.len() && both[i] == entry;
            if i < first.len() {
                assert(first[i] == entry);
            } else {
                assert(second[i - first.len()] == entry);
            }
        }
        if first.contains(entry) {
            let i = choose|i: int| 0 <= i < first.len() && first[i] == entry;
            assert(both[i] == entry);
        }
        if second.contains(entry) {
            let i = choose|i: int| 0 <= i < second.len() && second[i] == entry;
            assert(both[first.len() + i] == entry);
        }
    }
    assert(begun(both) =~= begun(first).union(begun(second)));
}

/// In a single event, the vertex begins that the event is the begin of.
pub proof fn lemma_begun_single(entry: DFSEntry)
    ensures
        begun(seq![entry]) == match entry {
            DFSEntry::BeginVertex(vertex) => Set::<VertexId>::empty().insert(vertex),
            _ => Set::<VertexId>::empty(),
        },
        begun(Seq::<DFSEntry>::empty()) == Set::<VertexId>::empty(),
{
    let single = seq![entry];
    let expected = match entry {
        DFSEntry::BeginVertex(vertex) => Set::<VertexId>::empty().insert(vertex),
        _ => Set::<VertexId>::empty(),
    };
    assert forall|vertex: VertexId| begun(single).contains(vertex) <==> expected.contains(
        vertex,
    ) by {
        if single.contains(DFSEntry::BeginVertex(vertex)) {
            let i = choose|i: int|
                0 <= i < single.len() && single[i] == DFSEntry::BeginVertex(vertex);
            assert(single[0] == entry);
        }
        if entry == DFSEntry::BeginVertex(vertex) {
            assert(single[0] == DFSEntry::BeginVertex(vertex));
        }
    }
    assert(begun(single) =~= expected);
    assert(begun(Seq::<DFSEntry>::empty()) =~= Set::<VertexId>::empty());
}

/// The vertices that begin in the visit of a vertex that is not explored
/// are the vertex and those that begin at its edges.
pub proof fn lemma_begun_visit(graph: GraphView, vertex: VertexId, explored: Set<VertexId>)
    requires
        graph.wf(),
        graph.contains(vertex),
        !explored.contains(vertex),
    ensures
        begun(visit(graph, vertex, explored)) == begun(
            explore(graph, vertex, 0, explored.insert(vertex)),
        ).insert(vertex),
{
    let rest = explore(graph, vertex, 0, explored.insert(vertex));
    let head = seq![DFSEntry::BeginVertex(vertex)];
    let tail = seq![DFSEntry::EndVertex(vertex)];
    lemma_begun_concat(head + rest, tail);
    lemma_begun_concat(head, rest);
    lemma_begun_single(DFSEntry::BeginVertex(vertex));
    lemma_begun_single(DFSEntry::EndVertex(vertex));
    assert(begun(visit(graph, vertex, explored)) =~= begun(rest).insert(vertex));
}

/// The vertices that begin at the edges of a vertex from an edge on are
/// those that begin in the visit of the target of that edge and those that
/// begin at the edges after it.
pub proof fn lemma_begun_explore(
    graph: GraphView,
    vertex: VertexId,
    from: nat,
    explored: Set<VertexId>,
)
    requires
        from < graph.out_neighbors(vertex).len(),
    ensures
        ({
            let inner = visit(graph, graph.out_neighbors(vertex)[from as int], explored);
            begun(explore(graph, vertex, from, explored)) == begun(inner).union(
                begun(explore(graph, vertex, from + 1, explored.union(begun(inner)))),
            )
        }),
{
    let target = graph.out_neighbors(vertex)[from as int];
    let edge = Edge(vertex, target);
    let inner = visit(graph, target, explored);
    let rest = explore(graph, vertex, from + 1, explored.union(begun(inner)));
    let open = seq![DFSEntry::BeginEdge(edge)];
    let close = seq![DFSEntry::EndEdge(edge)];
    lemma_begun_concat(open + inner + close, rest);
    lemma_begun_concat(open + inner, close);
    lemma_begun_concat(open, inner);
    lemma_begun_single(DFSEntry::BeginEdge(edge));
    lemma_begun_single(DFSEntry::EndEdge(edge));
    assert(begun(explore(graph, vertex, from, explored)) =~= begun(inner).union(begun(rest)));
}

/// What a stack with one more vertex reports: what the new vertex reports,
/// then what the stack reports after it.
pub proof fn lemma_unwind_push(
    graph: GraphView,
    below: Seq<Vertex>,
    top: Vertex,
    explored: Set<VertexId>,
)
    ensures
        unwind(graph, below.push(top), explored) == if top.dropped {
            top.closing() + unwind(graph, below, explored)
        } else {
            let rest = explore(graph, top.id, top.cursor as nat, explored);
            top.closing() + rest + seq![DFSEntry::EndVertex(top.id)] + unwind(
                graph,
                below,
                explored.union(begun(rest)),
            )
        },
{
    assert(below.push(top).drop_last() == below);
    assert(below.push(top).last() == top);
}

/// The turn of an innermost vertex that leaves the stack, because it was
/// dropped or has no edge left, changes nothing about the events that are
/// still to come.
proof fn lemma_pending_leave(state: TreeView, outer: Set<VertexId>)
    requires
        state.wf(),
        state.queue.len() == 0,
        state.stack.len() > 0,
        !state.top_is_fresh(),
        state.stack.last().dropped || state.stack.last().cursor >= state.graph.out_neighbors(
            state.stack.last().id,
        ).len(),
    ensures
        state.advance().pending(outer) == state.pending(outer),
{
    let graph = state.graph;
    let top = state.stack.last();
    let below = state.stack.drop_last();
    let next = state.advance();
    let all = state.explored.union(outer);
    assert(state.queue =~= Seq::<DFSEntry>::empty());
    assert(state.stack == below.push(top));
    lemma_unwind_push(graph, below, top, all);
    assert(next.stack == below);
    assert(!next.top_is_fresh()) by {
        if below.len() > 0 {
            assert(below.last() == state.stack[state.stack.len() - 2]);
        }
    }
    if top.dropped {
        assert(next.pending(outer) =~= state.pending(outer));
    } else {
        let rest = explore(graph, top.id, top.cursor as nat, all);
        assert(rest =~= Seq::<DFSEntry>::empty());
        lemma_begun_single(DFSEntry::EndVertex(top.id));
        assert(all.union(begun(rest)) =~= all);
        assert(next.pending(outer) =~= state.pending(outer));
    }
}

/// The turn of an innermost vertex that opens its next edge changes
/// nothing about the events that are still to come.
proof fn lemma_pending_edge(state: TreeView, outer: Set<VertexId>)
    requires
        state.wf(),
        state.queue.len() == 0,
        state.stack.len() > 0,
        !state.top_is_fresh(),
        !state.stack.last().dropped,
        state.stack.last().cursor < state.graph.out_neighbors(state.stack.last().id).len(),
    ensures
        state.advance().pending(outer) == state.pending(outer),
{
    let graph = state.graph;
    let top = state.stack.last();
    let below = state.stack.drop_last();
    let next = state.advance();
    let all = state.explored.union(outer);
    let neighbours = graph.out_neighbors(top.id);
    let target = neighbours[top.cursor as int];
    let edge = Edge(top.id, target);
    let turned = top.advanced(graph);
    let kept = below.push(turned);
    let inner = visit(graph, target, all);
    let after = all.union(begun(inner));
    let rest = explore(graph, top.id, (top.cursor + 1) as nat, after);
    let whole = explore(graph, top.id, top.cursor as nat, all);
    let tail = unwind(graph, below, after.union(begun(rest)));
    let begin = seq![DFSEntry::BeginEdge(edge)];
    let end = seq![DFSEntry::EndEdge(edge)];
    let last = seq![DFSEntry::EndVertex(top.id)];
    assert(top.fits(graph));
    lemma_targets_in_graph(graph, top.id, top.cursor as int);
    assert(state.queue =~= Seq::<DFSEntry>::empty());
    assert(state.stack == below.push(top));
    assert(whole == begin + inner + end + rest);
    assert(state.pending(outer) == top.closing() + whole + last + tail) by {
        lemma_unwind_push(graph, below, top, all);
        lemma_begun_explore(graph, top.id, top.cursor as nat, all);
        assert(all.union(begun(whole)) =~= after.union(begun(rest)));
        assert(state.pending(outer) =~= unwind(graph, state.stack, all));
    }
    assert(turned.closing() =~= end);
    assert(turned.cursor == top.cursor + 1);
    assert(unwind(graph, kept, after) == end + rest + last + tail) by {
        lemma_unwind_push(graph, below, turned, after);
    }
    assert(next.queue =~= top.closing() + begin);
    let goal = top.closing() + whole + last + tail;
    if state.explored.contains(target) || outer.contains(target) {
        assert(inner =~= Seq::<DFSEntry>::empty());
        assert(after =~= all) by {
            lemma_begun_single(DFSEntry::EndVertex(top.id));
        }
        assert(next.pending(outer) == next.queue + unwind(graph, kept, all)) by {
            if state.explored.contains(target) {
                assert(next.stack == kept);
                assert(!next.top_is_fresh());
            } else {
                assert(next.stack == kept.push(Vertex::fresh(target)));
                assert(next.stack.drop_last() == kept);
                assert(next.top_is_fresh());
            }
        }
        assert(next.queue + (end + rest + last + tail) =~= goal);
    } else {
        assert(next.stack == kept.push(Vertex::fresh(target)));
        assert(next.stack.drop_last() == kept);
        assert(next.top_is_fresh());
        assert(next.pending(outer) == next.queue + inner + unwind(graph, kept, after));
        assert(next.queue + inner + (end + rest + last + tail) =~= goal);
    }
}

/// One turn of the innermost vertex changes nothing about the events that
/// are still to come.
pub proof fn lemma_pending_advance(state: TreeView, outer: Set<VertexId>)
    requires
        state.wf(),
        state.queue.len() == 0,
        state.stack.len() > 0,
        !state.top_is_fresh(),
    ensures
        state.advance().pending(outer) == state.pending(outer),
{
    let top = state.stack.last();
    if top.dropped || top.cursor >= state.graph.out_neighbors(top.id).len() {
        lemma_pending_leave(state, outer);
    } else {
        lemma_pending_edge(state, outer);
    }
}

/// What is still to come after a vertex that has begun was dropped: the
/// end of its open edge, if it has one, and then what the vertices below it
/// report, as if the dropped vertex had no edges left.
pub proof fn lemma_pending_drop(state: TreeView, outer: Set<VertexId>)
    requires
        state.wf(),
        state.stack.len() > 0,
        !state.top_is_fresh(),
    ensures
        state.drop_top().pending(outer) == state.queue + state.stack.last().closing() + unwind(
            state.graph,
            state.stack.drop_last(),
            state.explored.union(outer),
        ),
{
    let top = state.stack.last();
    let marked = Vertex { dropped: true, ..top };
    let below = state.stack.drop_last();
    let next = state.drop_top();
    assert(next.stack.drop_last() == below);
    assert(next.stack.last() == marked);
    assert(!next.top_is_fresh());
    lemma_unwind_push(state.graph, below, marked, state.explored.union(outer));
    assert(marked.closing() == top.closing());
    assert(next.pending(outer) =~= state.queue + top.closing() + unwind(
        state.graph,
        below,
        state.explored.union(outer),
    ));
}

/// What a pull does to the events that are still to come: the event that
/// is handed out is the first of them, and the rest is still to come.
///
/// This holds also when the caller hides the begin of each vertex of
/// `outer` and drops that vertex at once: such a begin is not among the
/// events to come, and after the drop the same events are still to come.
/// When the traversal is over, no event is to come.
pub proof fn lemma_pending_step(state: TreeView, outer: Set<VertexId>)
    requires
        state.wf(),
    ensures
        ({
            let (next, pulled) = state.step();
            match pulled {
                None => state.pending(outer) == Seq::<DFSEntry>::empty() && next.pending(outer)
                    == Seq::<DFSEntry>::empty(),
                Some(DFSEntry::BeginVertex(vertex)) => if outer.contains(vertex) {
                    next.drop_top().pending(outer) == state.pending(outer)
                } else {
                    state.pending(outer) == seq![DFSEntry::BeginVertex(vertex)] + next.pending(
                        outer,
                    )
                },
                Some(entry) => state.pending(outer) == seq![entry] + next.pending(outer),
            }
        }),
    decreases state.distance(),
{
    let graph = state.graph;
    let (next, pulled) = state.step();
    let all = state.explored.union(outer);
    if state.queue.len() > 0 {
        assert(!(state.queue[0] is BeginVertex));
        assert(state.queue =~= seq![state.queue[0]] + state.queue.drop_first());
        assert(state.pending(outer) =~= seq![state.queue[0]] + next.pending(outer));
    } else if state.stack.len() == 0 {
        assert(state.pending(outer) =~= Seq::<DFSEntry>::empty());
    } else if state.top_is_fresh() {
        let top = state.stack.last();
        let below = state.stack.drop_last();
        let vertex = top.id;
        assert(top.fits(graph));
        assert(state.queue =~= Seq::<DFSEntry>::empty());
        assert(top.closing() =~= Seq::<DFSEntry>::empty());
        assert(!next.top_is_fresh());
        assert(state.stack == below.push(top));
        if outer.contains(vertex) {
            let dropped = next.drop_top();
            let marked = Vertex { dropped: true, ..top };
            assert(dropped.stack.drop_last() == below);
            assert(dropped.stack.last() == marked);
            assert(!dropped.top_is_fresh());
            assert(dropped.explored.union(outer) =~= all);
            assert(marked.closing() =~= Seq::<DFSEntry>::empty());
            assert(dropped.pending(outer) =~= state.pending(outer));
        } else if top.dropped {
            assert(next.explored.union(outer) =~= all.insert(vertex));
            assert(state.pending(outer) =~= seq![DFSEntry::BeginVertex(vertex)] + next.pending(
                outer,
            ));
        } else {
            let inner = visit(graph, vertex, all);
            let rest = explore(graph, vertex, 0, all.insert(vertex));
            lemma_begun_visit(graph, vertex, all);
            assert(next.explored.union(outer) =~= all.insert(vertex));
            assert(all.union(begun(inner)) =~= all.insert(vertex).union(begun(rest)));
            assert(state.pending(outer) =~= seq![DFSEntry::BeginVertex(vertex)] + next.pending(
                outer,
            ));
        }
    } else {
        lemma_advance(state);
        lemma_pending_advance(state, outer);
        lemma_pending_step(state.advance(), outer);
    }
}

/// Before the first pull, the events to come are the events of the
/// traversal of what the start vertex reaches.
pub proof fn lemma_pending_start(graph: GraphView, start: VertexId)
    requires
        graph.wf(),
    ensures
        TreeView::start(graph, start).pending_events() == tree_events(graph, start),
{
    let state = TreeView::start(graph, start);
    let nothing = Set::<VertexId>::empty();
    assert(state.explored.union(nothing) =~= nothing);
    if graph.contains(start) {
        assert(state.stack.drop_last() =~= Seq::<Vertex>::empty());
        assert(state.top_is_fresh());
        assert(state.pending_events() =~= tree_events(graph, start));
    } else {
        assert(state.pending_events() =~= tree_events(graph, start));
    }
}

impl ForestView {
    /// The events that are still to come: those of the running tree, where
    /// what the earlier trees explored counts as explored, and then those of
    /// the trees at the roots that are left.
    pub open spec fn pending_events(self) -> Seq<DFSEntry> {
        let tree = self.tree.pending(self.explored);
        tree + forest(self.graph(), self.next_root, self.visited().union(begun(tree)))
    }
}

/// Before the first pull, the events to come are the events of the
/// traversal of the whole graph.
pub proof fn lemma_forest_pending_start(graph: GraphView)
    requires
        graph.wf(),
    ensures
        ForestView::start(graph).pending_events() == graph_events(graph),
{
    let state = ForestView::start(graph);
    let nothing = Set::<VertexId>::empty();
    let first = visit(graph, VertexId(0), nothing);
    assert(state.tree.explored.union(nothing) =~= nothing);
    assert(state.visited() =~= nothing);
    if graph.vertex_count == 0 {
        assert(state.tree.pending(nothing) =~= Seq::<DFSEntry>::empty());
        assert(state.pending_events() =~= graph_events(graph));
    } else {
        assert(state.tree.stack.drop_last() =~= Seq::<Vertex>::empty());
        assert(state.tree.top_is_fresh());
        assert(state.tree.pending(nothing) =~= first);
        assert(nothing.union(begun(first)) =~= state.visited().union(begun(first)));
        assert(state.pending_events() =~= graph_events(graph));
    }
}

/// What a pull of the traversal of a whole graph does to the events that
/// are still to come: the event that is handed out is the first of them,
/// and the rest is still to come. When the traversal is over, no event is
/// to come.
pub proof fn lemma_forest_pending_step(state: ForestView)
    requires
        state.wf(),
    ensures
        ({
            let (next, pulled) = state.step();
            match pulled {
                None => state.pending_events() == Seq::<DFSEntry>::empty()
                    && next.pending_events() == Seq::<DFSEntry>::empty(),
                Some(entry) => state.pending_events() == seq![entry] + next.pending_events(),
            }
        }),
    decreases state.roots_left(), state.tree.work(),
{
    let graph = state.graph();
    let outer = state.explored;
    let (tree, pulled) = state.tree.step();
    super::tree::lemma_step(state.tree);
    super::path::lemma_step_path(state.tree);
    super::tree::lemma_drop_top(tree);
    lemma_pending_step(state.tree, outer);
    match pulled {
        Some(entry) => {
            if state.is_repeated(entry) {
                let vertex = entry->BeginVertex_0;
                let dropped = ForestView { tree: tree.drop_top(), ..state };
                super::path::lemma_drop_path(tree, vertex);
                assert(dropped.visited() =~= state.visited());
                lemma_forest_pending_step(dropped);
            } else {
                let next = ForestView { tree, ..state };
                let rest = tree.pending(outer);
                lemma_begun_concat(seq![entry], rest);
                lemma_begun_single(entry);
                assert(state.visited().union(begun(seq![entry] + rest)) =~= next.visited().union(
                    begun(rest),
                ));
                assert(state.pending_events() =~= seq![entry] + next.pending_events());
            }
        },
        None => {
            let over = ForestView { tree, ..state };
            let nothing = Seq::<DFSEntry>::empty();
            lemma_begun_single(DFSEntry::BeginVertex(VertexId(0)));
            assert(over.visited() =~= state.visited());
            assert(state.visited().union(begun(nothing)) =~= state.visited());
            if state.next_root < graph.vertex_count {
                let root = VertexId(state.next_root as usize);
                let again = over.restart();
                let visited = state.visited();
                lemma_restart(over);
                assert(again.explored =~= visited);
                assert(again.tree.explored.union(again.explored) =~= visited);
                assert(again.visited() =~= visited);
                let first = visit(graph, root, visited);
                assert(again.tree.stack.drop_last() =~= Seq::<Vertex>::empty());
                assert(again.tree.top_is_fresh());
                assert(again.tree.pending(again.explored) =~= first);
                assert(state.pending_events() =~= again.pending_events());
                lemma_forest_pending_step(again);
            } else {
                assert(state.pending_events() =~= nothing);
                assert(over.pending_events() =~= nothing);
            }
        },
    }
}

} // verus!
