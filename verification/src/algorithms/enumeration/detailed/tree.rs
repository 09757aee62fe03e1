//! Depth-first traversal of the part of a graph that one start vertex
//! reaches, reported event by event.
//!
//! The traversal keeps an explicit stack of open vertices instead of
//! recursing, so a caller can pull one event at a time and act between two
//! events.

use super::events::{lemma_pending_start, lemma_pending_step, tree_events};
use crate::graph::{vertex_set, Edge, Graph, GraphView, VertexId};
use std::collections::HashSet;
use std::collections::VecDeque;
use vstd::prelude::*;

verus! {

broadcast use vstd::std_specs::hash::group_hash_axioms;

/// One step of a depth-first traversal.
#[derive(Debug, PartialEq, Eq, Structural, Clone, Copy)]
pub enum DFSEntry {
    /// The vertex was discovered.
    BeginVertex(VertexId),
    /// The edge was chosen as the next one to follow.
    BeginEdge(Edge),
    /// All edges of the vertex are done.
    EndVertex(VertexId),
    /// Everything behind the edge is done.
    EndEdge(Edge),
}

/// The working state of a vertex for as long as it is on the stack.
#[derive(Debug, Clone, Copy)]
pub struct Vertex {
    /// The vertex that this state belongs to.
    pub id: VertexId,
    /// The neighbour that was handed out last: the target of the edge that
    /// is open right now.
    pub current_neighbour: Option<VertexId>,
    /// How many out-neighbours have been handed out.
    pub cursor: usize,
    /// Whether the vertex was abandoned: it reports no end and follows no
    /// further edge.
    pub dropped: bool,
}

impl Vertex {
    /// The state of a vertex that was just put on the stack.
    pub open spec fn fresh(vertex: VertexId) -> Vertex {
        Vertex { id: vertex, current_neighbour: None, cursor: 0, dropped: false }
    }

    /// The state after the next out-neighbour, if there is one, was handed
    /// out.
    pub open spec fn advanced(self, graph: GraphView) -> Vertex {
        let neighbours = graph.out_neighbors(self.id);
        if self.cursor < neighbours.len() {
            Vertex {
                current_neighbour: Some(neighbours[self.cursor as int]),
                cursor: (self.cursor + 1) as usize,
                ..self
            }
        } else {
            Vertex { current_neighbour: None, ..self }
        }
    }

    /// The event that closes the open edge, if an edge is open.
    pub open spec fn closing(self) -> Seq<DFSEntry> {
        match self.current_neighbour {
            Some(neighbour) => seq![DFSEntry::EndEdge(Edge(self.id, neighbour))],
            None => seq![],
        }
    }

    /// What is left to do for a vertex that has begun: close the open edge,
    /// then, unless it was dropped, open and close each edge that is left.
    pub open spec fn cost(self, graph: GraphView) -> nat {
        let open_edge: nat = if self.current_neighbour is Some { 1 } else { 0 };
        let edges_left: nat = if self.dropped || self.cursor >= graph.out_neighbors(self.id).len() {
            0
        } else {
            (2 * (graph.out_neighbors(self.id).len() - self.cursor)) as nat
        };
        open_edge + 1 + edges_left
    }

    /// Whether the state fits the graph: the vertex exists, the cursor is
    /// within its out-neighbours, and the open edge is the one before the
    /// cursor.
    pub open spec fn fits(self, graph: GraphView) -> bool {
        &&& graph.contains(self.id)
        &&& self.cursor <= graph.out_neighbors(self.id).len()
        &&& match self.current_neighbour {
            Some(neighbour) => self.cursor >= 1 && neighbour == graph.out_neighbors(self.id)[
                self.cursor - 1
            ],
            None => true,
        }
    }

    /// The state of a vertex that is put on the stack.
    pub fn from(vertex: VertexId) -> (state: Self)
        ensures
            state == Vertex::fresh(vertex),
    {
        Self { id: vertex, current_neighbour: None, cursor: 0, dropped: false }
    }

    /// Hands out the next out-neighbour: it becomes the current one. When
    /// none is left, there is no current one.
    pub fn next_neighbour(self, graph: &Graph) -> (state: Self)
        requires
            graph.wf(),
            graph@.contains(self.id),
        ensures
            state == self.advanced(graph@),
    {
        let neighbours = graph.out_neighbors_ref(&self.id);
        if self.cursor < neighbours.len() {
            Self {
                id: self.id,
                current_neighbour: Some(neighbours[self.cursor]),
                cursor: self.cursor + 1,
                dropped: self.dropped,
            }
        } else {
            Self {
                id: self.id,
                current_neighbour: None,
                cursor: self.cursor,
                dropped: self.dropped,
            }
        }
    }

    /// Marks the vertex as dropped.
    pub fn drop(self) -> (state: Self)
        ensures
            state == (Vertex { dropped: true, ..self }),
    {
        Self {
            id: self.id,
            current_neighbour: self.current_neighbour,
            cursor: self.cursor,
            dropped: true,
        }
    }
}

/// The sum of the costs of the vertices of a stack.
pub open spec fn stack_cost(graph: GraphView, stack: Seq<Vertex>) -> nat
    decreases stack.len(),
{
    if stack.len() == 0 {
        0
    } else {
        stack_cost(graph, stack.drop_last()) + stack.last().cost(graph)
    }
}

/// What the vertices below `bound` that are not in `explored` will cost:
/// for each its begin, its end, and the begin and end of each of its edges.
pub open spec fn unexplored_cost(graph: GraphView, bound: nat, explored: Set<VertexId>) -> nat
    decreases bound,
{
    if bound == 0 {
        0
    } else {
        let vertex = VertexId((bound - 1) as usize);
        let here: nat = if explored.contains(vertex) {
            0
        } else {
            2 * graph.out_neighbors(vertex).len() + 2
        };
        unexplored_cost(graph, (bound - 1) as nat, explored) + here
    }
}

/// The state of a traversal as a mathematical value.
pub struct TreeView {
    /// The graph that is traversed.
    pub graph: GraphView,
    /// The open vertices, the innermost last.
    pub stack: Seq<Vertex>,
    /// The vertices that have begun.
    pub explored: Set<VertexId>,
    /// Events that are decided but not handed out yet, the next one first.
    pub queue: Seq<DFSEntry>,
}

impl TreeView {
    /// The state of a traversal that is about to start at `start`. A start
    /// vertex that the graph does not have gives a traversal without events.
    pub open spec fn start(graph: GraphView, start: VertexId) -> TreeView {
        TreeView {
            graph,
            stack: if graph.contains(start) {
                seq![Vertex::fresh(start)]
            } else {
                seq![]
            },
            explored: Set::empty(),
            queue: seq![],
        }
    }

    /// Whether the innermost vertex is on the stack but has not begun.
    pub open spec fn top_is_fresh(self) -> bool {
        self.stack.len() > 0 && !self.explored.contains(self.stack.last().id)
    }

    /// Nothing is left: a further step gives no event.
    pub open spec fn exhausted(self) -> bool {
        self.stack.len() == 0 && self.queue.len() == 0
    }

    /// The invariant of a traversal: the graph is well formed; every
    /// explored vertex is a vertex of the graph; every vertex on the stack
    /// fits the graph; all vertices on the stack but the innermost have
    /// begun; no vertex is on the stack twice; an innermost vertex that has
    /// not begun has followed no edge; no begin of a vertex waits in the
    /// queue.
    pub open spec fn wf(self) -> bool {
        &&& self.graph.wf()
        &&& forall|vertex: VertexId| #[trigger]
            self.explored.contains(vertex) ==> self.graph.contains(vertex)
        &&& forall|i: int| 0 <= i < self.stack.len() ==> (#[trigger] self.stack[i]).fits(self.graph)
        &&& forall|i: int|
            0 <= i < self.stack.len() - 1 ==> self.explored.contains((#[trigger] self.stack[i]).id)
        &&& forall|i: int, j: int|
            0 <= i < j < self.stack.len() ==> (#[trigger] self.stack[i]).id != (
            #[trigger] self.stack[j]).id
        &&& self.top_is_fresh() ==> self.stack.last().cursor == 0
            && self.stack.last().current_neighbour is None
        &&& forall|i: int|
            0 <= i < self.queue.len() ==> !(#[trigger] self.queue[i] is BeginVertex)
    }

    /// The state after `drop_current_vertex`: the innermost vertex is marked
    /// as dropped.
    pub open spec fn drop_top(self) -> TreeView {
        if self.stack.len() == 0 {
            self
        } else {
            TreeView {
                stack: self.stack.drop_last().push(Vertex { dropped: true, ..self.stack.last() }),
                ..self
            }
        }
    }

    /// The state after the innermost vertex, which has begun, took its turn:
    /// its open edge is closed; if it was dropped it leaves the stack;
    /// otherwise its next edge is opened, with the target put on the stack
    /// if it has not begun, or, when no edge is left, the vertex ends and
    /// leaves the stack.
    pub open spec fn advance(self) -> TreeView
        recommends
            self.stack.len() > 0,
    {
        let top = self.stack.last();
        let below = self.stack.drop_last();
        let neighbours = self.graph.out_neighbors(top.id);
        if top.dropped {
            TreeView { stack: below, queue: self.queue + top.closing(), ..self }
        } else if top.cursor >= neighbours.len() {
            TreeView {
                stack: below,
                queue: (self.queue + top.closing()).push(DFSEntry::EndVertex(top.id)),
                ..self
            }
        } else {
            let neighbour = neighbours[top.cursor as int];
            let kept = below.push(top.advanced(self.graph));
            TreeView {
                stack: if self.explored.contains(neighbour) {
                    kept
                } else {
                    kept.push(Vertex::fresh(neighbour))
                },
                queue: (self.queue + top.closing()).push(
                    DFSEntry::BeginEdge(Edge(top.id, neighbour)),
                ),
                ..self
            }
        }
    }

    /// How far a state is from handing out an event.
    pub open spec fn distance(self) -> nat {
        if self.queue.len() > 0 {
            0
        } else {
            self.stack.len() + 1
        }
    }

    /// One pull: the state afterwards and the event handed out, `None` when
    /// the traversal is over.
    ///
    /// A waiting event is handed out first. Otherwise the innermost vertex
    /// takes its turn: if it has not begun it begins, which is reported at
    /// once; if it has, it advances, and the pull goes on with the result.
    pub open spec fn step(self) -> (TreeView, Option<DFSEntry>)
        decreases self.distance(),
    {
        if self.queue.len() > 0 {
            (TreeView { queue: self.queue.drop_first(), ..self }, Some(self.queue[0]))
        } else if self.stack.len() == 0 {
            (self, None)
        } else if self.top_is_fresh() {
            (
                TreeView { explored: self.explored.insert(self.stack.last().id), ..self },
                Some(DFSEntry::BeginVertex(self.stack.last().id)),
            )
        } else {
            self.advance().step()
        }
    }

    /// An upper bound on the number of events that are still to come.
    pub open spec fn work(self) -> nat {
        let begun = if self.top_is_fresh() {
            self.stack.drop_last()
        } else {
            self.stack
        };
        self.queue.len() + unexplored_cost(self.graph, self.graph.vertex_count, self.explored)
            + stack_cost(self.graph, begun)
    }
}

/// Marking one more vertex as explored takes exactly its cost from what the
/// unexplored vertices will cost.
pub proof fn lemma_unexplored_cost_insert(
    graph: GraphView,
    bound: nat,
    explored: Set<VertexId>,
    vertex: VertexId,
)
    requires
        !explored.contains(vertex),
        bound <= usize::MAX,
    ensures
        vertex.0 < bound ==> unexplored_cost(graph, bound, explored) == unexplored_cost(
            graph,
            bound,
            explored.insert(vertex),
        ) + 2 * graph.out_neighbors(vertex).len() + 2,
        vertex.0 >= bound ==> unexplored_cost(graph, bound, explored) == unexplored_cost(
            graph,
            bound,
            explored.insert(vertex),
        ),
    decreases bound,
{
    if bound > 0 {
        lemma_unexplored_cost_insert(graph, (bound - 1) as nat, explored, vertex);
    }
}

/// A stack with one more vertex costs that vertex more.
pub proof fn lemma_stack_cost_push(graph: GraphView, stack: Seq<Vertex>, vertex: Vertex)
    ensures
        stack_cost(graph, stack.push(vertex)) == stack_cost(graph, stack) + vertex.cost(graph),
{
    assert(stack.push(vertex).drop_last() == stack);
}

/// One turn of the innermost vertex keeps the invariant of the traversal,
/// does not add to the work that is left, and leads to the same next event.
pub proof fn lemma_advance(state: TreeView)
    requires
        state.wf(),
        state.queue.len() == 0,
        state.stack.len() > 0,
        !state.top_is_fresh(),
    ensures
        state.advance().wf(),
        state.advance().graph == state.graph,
        state.advance().explored == state.explored,
        state.advance().work() <= state.work(),
        state.advance().distance() < state.distance(),
        state.advance().step() == state.step(),
        state.stack.last().dropped && state.stack.last().current_neighbour is None
            ==> state.advance().queue.len() == 0,
        !(state.stack.last().dropped && state.stack.last().current_neighbour is None)
            ==> state.advance().queue.len() > 0,
{
    let top = state.stack.last();
    let below = state.stack.drop_last();
    let next = state.advance();
    let neighbours = state.graph.out_neighbors(top.id);
    assert(top.fits(state.graph));
    assert(state.stack == below.push(top));
    lemma_stack_cost_push(state.graph, below, top);
    assert forall|i: int| 0 <= i < below.len() implies (#[trigger] below[i]).fits(state.graph)
        && state.explored.contains(below[i].id) && below[i].id != top.id by {
        assert(below[i] == state.stack[i]);
    }
    if top.dropped || top.cursor >= neighbours.len() {
        assert(next.stack == below);
        assert(!next.top_is_fresh()) by {
            if below.len() > 0 {
                assert(state.explored.contains(below[below.len() - 1].id));
            }
        }
        assert forall|i: int, j: int| 0 <= i < j < below.len() implies (#[trigger] below[i]).id != (
        #[trigger] below[j]).id by {
            assert(below[i] == state.stack[i]);
            assert(below[j] == state.stack[j]);
        }
        assert(next.wf());
    } else {
        let neighbour = neighbours[top.cursor as int];
        let moved = top.advanced(state.graph);
        let kept = below.push(moved);
        lemma_targets_in_graph(state.graph, top.id, top.cursor as int);
        lemma_stack_cost_push(state.graph, below, moved);
        assert(moved.fits(state.graph));
        assert(kept.drop_last() == below);
        assert forall|i: int| 0 <= i < kept.len() implies (#[trigger] kept[i]).fits(state.graph)
            && state.explored.contains(kept[i].id) by {
            if i < below.len() {
                assert(kept[i] == below[i]);
            }
        }
        assert forall|i: int, j: int| 0 <= i < j < kept.len() implies (#[trigger] kept[i]).id != (
        #[trigger] kept[j]).id by {
            assert(state.stack[i].id == kept[i].id);
            assert(state.stack[j].id == kept[j].id);
        }
        if state.explored.contains(neighbour) {
            assert(next.stack == kept);
            assert(!next.top_is_fresh());
            assert(next.wf());
        } else {
            let fresh = Vertex::fresh(neighbour);
            assert(next.stack == kept.push(fresh));
            assert(next.stack.drop_last() == kept);
            assert(next.top_is_fresh());
            assert(fresh.fits(state.graph));
            assert forall|i: int| 0 <= i < next.stack.len() implies (#[trigger] next.stack[i]).fits(
                state.graph,
            ) by {
                if i < kept.len() {
                    assert(next.stack[i] == kept[i]);
                }
            }
            assert forall|i: int| 0 <= i < next.stack.len() - 1 implies state.explored.contains(
                (#[trigger] next.stack[i]).id,
            ) by {
                assert(next.stack[i] == kept[i]);
            }
            assert forall|i: int, j: int| 0 <= i < j < next.stack.len() implies (
            #[trigger] next.stack[i]).id != (#[trigger] next.stack[j]).id by {
                assert(next.stack[i] == kept[i]);
                if j < kept.len() {
                    assert(next.stack[j] == kept[j]);
                }
            }
            assert(next.wf());
        }
    }
}

/// Every out-neighbour of a vertex of a well-formed graph is a vertex of the
/// graph and the target of an edge from that vertex.
pub proof fn lemma_targets_in_graph(graph: GraphView, vertex: VertexId, index: int)
    requires
        graph.wf(),
        0 <= index < graph.out_neighbors(vertex).len(),
    ensures
        graph.contains(graph.out_neighbors(vertex)[index]),
        graph.has_edge(vertex, graph.out_neighbors(vertex)[index]),
        graph.out_neighbors(vertex).len() <= usize::MAX,
{
    let target = graph.out_neighbors(vertex)[index];
    crate::graph::lemma_targets_from(graph.edges, vertex);
    assert(graph.out_neighbors(vertex).contains(target));
    assert(graph.edges.contains(Edge(vertex, target)));
    let k = choose|k: int| 0 <= k < graph.edges.len() && graph.edges[k] == Edge(vertex, target);
    assert(graph.contains(graph.edges[k].1));
}

/// A pull from a well-formed state leaves a well-formed state over the same
/// graph, never forgets an explored vertex, and each event that it hands out
/// takes at least one from the work that is left.
pub proof fn lemma_step(state: TreeView)
    requires
        state.wf(),
    ensures
        state.step().0.wf(),
        state.step().0.graph == state.graph,
        state.explored.subset_of(state.step().0.explored),
        state.step().1 is Some ==> state.step().0.work() < state.work(),
        state.step().1 is None ==> state.step().0.exhausted() && state.step().0.work()
            <= state.work(),
    decreases state.distance(),
{
    if state.queue.len() > 0 {
        let next = state.step().0;
        assert forall|i: int| 0 <= i < next.queue.len() implies !(
        #[trigger] next.queue[i] is BeginVertex) by {
            assert(next.queue[i] == state.queue[i + 1]);
        }
    } else if state.stack.len() == 0 {
    } else if state.top_is_fresh() {
        let top = state.stack.last();
        let next = state.step().0;
        let below = state.stack.drop_last();
        assert(top.fits(state.graph));
        lemma_unexplored_cost_insert(state.graph, state.graph.vertex_count, state.explored, top.id);
        assert(state.stack == below.push(top));
        lemma_stack_cost_push(state.graph, below, top);
        assert(!next.top_is_fresh());
        assert(next.wf());
    } else {
        lemma_advance(state);
        lemma_step(state.advance());
    }
}

/// Dropping the innermost vertex keeps the invariant of the traversal and
/// does not add to the work that is left.
pub proof fn lemma_drop_top(state: TreeView)
    requires
        state.wf(),
    ensures
        state.drop_top().wf(),
        state.drop_top().work() <= state.work(),
{
    if state.stack.len() > 0 {
        let top = state.stack.last();
        let marked = Vertex { dropped: true, ..top };
        let below = state.stack.drop_last();
        let next = state.drop_top();
        assert(top.fits(state.graph));
        assert(state.stack == below.push(top));
        assert(next.stack.drop_last() == below);
        lemma_stack_cost_push(state.graph, below, top);
        lemma_stack_cost_push(state.graph, below, marked);
        assert forall|i: int| 0 <= i < next.stack.len() implies (#[trigger] next.stack[i]).fits(
            state.graph,
        ) && next.stack[i].id == state.stack[i].id by {
            if i < below.len() {
                assert(next.stack[i] == state.stack[i]);
            }
        }
        assert forall|i: int, j: int| 0 <= i < j < next.stack.len() implies (
        #[trigger] next.stack[i]).id != (#[trigger] next.stack[j]).id by {
            assert(next.stack[i].id == state.stack[i].id);
            assert(next.stack[j].id == state.stack[j].id);
        }
        assert forall|i: int| 0 <= i < next.stack.len() - 1 implies next.explored.contains(
            (#[trigger] next.stack[i]).id,
        ) by {
            assert(next.stack[i].id == state.stack[i].id);
        }
        assert(next.wf());
    }
}

/// A depth-first traversal of what one start vertex reaches.
///
/// Generalising this to an enumeration that covers both depth first and
/// breadth first would need a vertex that has not ended to go back to the
/// place in the buffer that it was taken from.
pub struct DepthFirst<'a> {
    graph: &'a Graph,
    stack: Vec<Vertex>,
    explored: HashSet<usize>,
    output_queue: VecDeque<DFSEntry>,
}

impl<'a> View for DepthFirst<'a> {
    type V = TreeView;

    closed spec fn view(&self) -> TreeView {
        TreeView {
            graph: self.graph@,
            stack: self.stack@,
            explored: vertex_set(self.explored@),
            queue: self.output_queue@,
        }
    }
}

impl<'a> DepthFirst<'a> {
    /// The invariant of a traversal: its graph is well formed and its state
    /// satisfies [`TreeView::wf`].
    pub closed spec fn wf(&self) -> bool {
        &&& self.graph.wf()
        &&& self@.wf()
    }

    /// The graph that is traversed.
    pub closed spec fn graph(&self) -> &'a Graph {
        self.graph
    }

    /// A traversal with a well-formed state runs on a well-formed graph whose
    /// view is the graph of the state.
    pub proof fn lemma_wf(&self)
        requires
            self.wf(),
        ensures
            self@.wf(),
            self.graph().wf(),
            self@.graph == self.graph()@,
    {
    }

    /// A traversal that starts at `start`. If the graph does not contain
    /// `start`, the traversal has no events.
    pub fn on(graph: &'a Graph, start: VertexId) -> (traversal: Self)
        requires
            graph.wf(),
        ensures
            traversal.wf(),
            traversal.graph() == graph,
            traversal@ == TreeView::start(graph@, start),
            traversal@.pending_events() == tree_events(graph@, start),
    {
        let mut stack: Vec<Vertex> = Vec::new();
        if graph.contains(&start) {
            stack.push(Vertex::from(start));
        }
        let traversal = Self {
            graph,
            stack,
            explored: HashSet::new(),
            output_queue: VecDeque::new(),
        };
        proof {
            graph.lemma_view_wf();
            assert(traversal@.explored =~= Set::<VertexId>::empty());
            assert(traversal@.stack =~= TreeView::start(graph@, start).stack);
            assert(traversal@.queue =~= TreeView::start(graph@, start).queue);
            lemma_pending_start(graph@, start);
        }
        traversal
    }

    /// Hands over the ids of the vertices that have begun.
    pub fn explored(self) -> (explored: HashSet<usize>)
        ensures
            vertex_set(explored@) == self@.explored,
    {
        self.explored
    }

    /// Abandons the innermost vertex: it will report no end and follow no
    /// further edge, but still leaves the stack in its turn. Meant to be
    /// called right after the vertex has begun.
    pub fn drop_current_vertex(&mut self)
        ensures
            final(self)@ == old(self)@.drop_top(),
            final(self).graph() == old(self).graph(),
            old(self).wf() ==> final(self).wf(),
    {
        if let Some(v) = self.stack.pop() {
            self.stack.push(v.drop());
        }
        proof {
            assert(self@.stack =~= old(self)@.drop_top().stack);
            if old(self).wf() {
                lemma_drop_top(old(self)@);
            }
        }
    }

    /// Runs the traversal to its end and returns the events in the order in
    /// which `next` would have handed them out.
    pub fn collect(self) -> (events: Vec<DFSEntry>)
        requires
            self.wf(),
        ensures
            events@ == self@.pending_events(),
    {
        let mut traversal = self;
        let mut events: Vec<DFSEntry> = Vec::new();
        loop
            invariant
                traversal.wf(),
                events@ + traversal@.pending_events() == self@.pending_events(),
            decreases traversal@.work(),
        {
            let ghost before = traversal@.pending_events();
            match traversal.next() {
                Some(entry) => {
                    events.push(entry);
                    proof {
                        assert(events@ + traversal@.pending_events() =~= events@.drop_last()
                            + before);
                    }
                },
                None => {
                    proof {
                        assert(events@ + before =~= events@);
                    }
                    return events;
                },
            }
        }
    }

    /// Explores `vertex` and gives its begin, unless it is explored.
    fn begin_vertex(&mut self, vertex: VertexId) -> (entry: Option<DFSEntry>)
        ensures
            final(self).graph == old(self).graph,
            final(self).stack == old(self).stack,
            final(self).output_queue == old(self).output_queue,
            old(self)@.explored.contains(vertex) ==> entry is None && final(self).explored@ == old(
                self,
            ).explored@,
            !old(self)@.explored.contains(vertex) ==> entry == Some(DFSEntry::BeginVertex(vertex))
                && final(self).explored@ == old(self).explored@.insert(vertex.0),
    {
        if self.explored.contains(&vertex.0) {
            None
        } else {
            self.explored.insert(vertex.0);
            Some(DFSEntry::BeginVertex(vertex))
        }
    }

    /// The end of the edge to the current neighbour, if there is one.
    fn end_previous_edge(vertex: &Vertex) -> (entry: Option<DFSEntry>)
        ensures
            match entry {
                Some(e) => vertex.closing() == seq![e],
                None => vertex.closing() == Seq::<DFSEntry>::empty(),
            },
    {
        match vertex.current_neighbour {
            Some(neighbour) => Some(DFSEntry::EndEdge(Edge(vertex.id, neighbour))),
            None => None,
        }
    }

    /// The end of the vertex, if it has no current neighbour and was not
    /// dropped.
    fn end_vertex(vertex: &Vertex) -> (entry: Option<DFSEntry>)
        ensures
            entry == if vertex.current_neighbour is None && !vertex.dropped {
                Some(DFSEntry::EndVertex(vertex.id))
            } else {
                None
            },
    {
        if vertex.current_neighbour.is_none() {
            if !vertex.dropped {
                return Some(DFSEntry::EndVertex(vertex.id));
            }
        }
        None
    }

    /// The begin of the edge to the current neighbour, if there is one; the
    /// neighbour is put on the stack if it is not explored.
    fn begin_next_edge(&mut self, vertex: VertexId, current_neighbour: Option<VertexId>) -> (entry:
        Option<DFSEntry>)
        ensures
            final(self).graph == old(self).graph,
            final(self).explored == old(self).explored,
            final(self).output_queue == old(self).output_queue,
            match current_neighbour {
                Some(neighbour) => {
                    &&& entry == Some(DFSEntry::BeginEdge(Edge(vertex, neighbour)))
                    &&& final(self).stack@ == if old(self)@.explored.contains(neighbour) {
                        old(self).stack@
                    } else {
                        old(self).stack@.push(Vertex::fresh(neighbour))
                    }
                },
                None => entry is None && final(self).stack@ == old(self).stack@,
            },
    {
        match current_neighbour {
            Some(neighbour) => {
                if !self.explored.contains(&neighbour.0) {
                    self.stack.push(Vertex::from(neighbour));
                }
                Some(DFSEntry::BeginEdge(Edge(vertex, neighbour)))
            },
            None => None,
        }
    }

    /// Hands out the next event, or `None` when the traversal is over.
    ///
    /// A vertex begins the first time it is reached. An edge begins when it
    /// is chosen as the next one to follow, whether or not its target has
    /// begun, and ends when everything behind it is done. A vertex ends when
    /// all its edges have ended, unless it was dropped. Once `None` was
    /// returned, every further call returns `None`.
    pub fn next(&mut self) -> (entry: Option<DFSEntry>)
        requires
            old(self).wf(),
        ensures
            final(self).wf(),
            final(self).graph() == old(self).graph(),
            (final(self)@, entry) == old(self)@.step(),
            match entry {
                Some(event) => old(self)@.pending_events() == seq![event] + final(self)@.pending_events(),
                None => old(self)@.pending_events() == Seq::<DFSEntry>::empty() && final(self)@.pending_events() == Seq::<DFSEntry>::empty(),
            },
            entry is Some ==> final(self)@.work() < old(self)@.work(),
            entry is None ==> final(self)@.exhausted() && final(self)@.work() <= old(self)@.work(),
    {
        loop
            invariant
                old(self)@.wf(),
                self.wf(),
                self.graph == old(self).graph,
                self@.step() == old(self)@.step(),
            decreases self@.distance(),
        {
            proof {
                lemma_step(old(self)@);
                lemma_pending_step(old(self)@, Set::empty());
            }
            let ghost before = self@;
            if self.output_queue.len() > 0 {
                let entry = self.output_queue.pop_front();
                proof {
                    assert(self@.queue =~= before.queue.drop_first());
                    assert(self@.explored =~= before.explored);
                }
                return entry;
            }
            match self.stack.pop() {
                None => {
                    return None;
                },
                Some(vertex) => {
                    if let Some(entry) = self.begin_vertex(vertex.id) {
                        self.stack.push(vertex);
                        proof {
                            assert(self@.stack =~= before.stack);
                            assert(self@.explored =~= before.explored.insert(vertex.id));
                        }
                        // return at once, so that the vertex that has begun can be
                        // dropped by a call of drop_current_vertex
                        return Some(entry);
                    }
                    proof {
                        assert(self@.explored =~= before.explored);
                        assert(vertex.fits(before.graph));
                        lemma_advance(before);
                    }
                    if let Some(entry) = Self::end_previous_edge(&vertex) {
                        self.output_queue.push_back(entry);
                    }
                    let updated_vertex = vertex.next_neighbour(self.graph);
                    match Self::end_vertex(&updated_vertex) {
                        Some(entry) => {
                            self.output_queue.push_back(entry);
                        },
                        None => {
                            if !updated_vertex.dropped {
                                self.stack.push(updated_vertex);
                            }
                        },
                    }
                    if !updated_vertex.dropped {
                        if let Some(entry) = self.begin_next_edge(
                            updated_vertex.id,
                            updated_vertex.current_neighbour,
                        ) {
                            self.output_queue.push_back(entry);
                        }
                    }
                    proof {
                        assert(self@.explored =~= before.explored);
                        assert(self@.stack =~= before.advance().stack);
                        assert(self@.queue =~= before.advance().queue);
                        assert(self@ == before.advance());
                    }
                },
            }
        }
    }
}

} // verus!
