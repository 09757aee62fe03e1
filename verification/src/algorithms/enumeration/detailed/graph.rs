//! Depth-first traversal of a whole graph, reported event by event.
//!
//! The traversal runs one tree traversal after the other, each from the
//! first vertex that no earlier tree has reached, and hides what a later
//! tree finds again of an earlier one.

use super::events::{graph_events, lemma_forest_pending_start, lemma_forest_pending_step};
use super::path::{lemma_drop_path, lemma_step_path, observes};
use super::tree::{self, lemma_drop_top, lemma_step, DFSEntry, TreeView};
use crate::algorithms::enumeration::extend;
use crate::graph::{vertex_set, Graph, GraphView, VertexId};
use std::collections::HashSet;
use vstd::prelude::*;

verus! {

broadcast use vstd::std_specs::hash::group_hash_axioms;

/// The state of a traversal of a whole graph as a mathematical value.
pub struct ForestView {
    /// The state of the tree traversal that is running.
    pub tree: TreeView,
    /// The vertices that the trees before the running one have explored.
    pub explored: Set<VertexId>,
    /// The id of the vertex at which the next tree starts.
    pub next_root: nat,
}

impl ForestView {
    /// The graph that is traversed.
    pub open spec fn graph(self) -> GraphView {
        self.tree.graph
    }

    /// The state of a traversal that is about to start: the first tree
    /// starts at vertex 0; in a graph without vertices it has no events.
    pub open spec fn start(graph: GraphView) -> ForestView {
        ForestView {
            tree: TreeView::start(graph, VertexId(0)),
            explored: Set::empty(),
            next_root: if graph.vertex_count == 0 {
                0
            } else {
                1
            },
        }
    }

    /// The invariant of a traversal: the running tree is well formed and
    /// calm, the next root is at most the vertex count, and every explored
    /// vertex is a vertex of the graph.
    pub open spec fn wf(self) -> bool {
        &&& self.tree.wf()
        &&& self.tree.calm()
        &&& self.next_root <= self.graph().vertex_count
        &&& forall|vertex: VertexId| #[trigger]
            self.explored.contains(vertex) ==> self.graph().contains(vertex)
    }

    /// No vertex on the stack of the running tree is dropped. This holds
    /// between two pulls.
    pub open spec fn settled(self) -> bool {
        self.tree.settled()
    }

    /// The vertices that have begun and whose end was not handed out, the
    /// innermost last.
    pub open spec fn open_path(self) -> Seq<VertexId> {
        self.tree.open_path()
    }

    /// The vertices that have begun, in this tree or in an earlier one.
    pub open spec fn visited(self) -> Set<VertexId> {
        self.explored.union(self.tree.explored)
    }

    /// How many vertices are left to start a tree at.
    pub open spec fn roots_left(self) -> nat {
        (self.graph().vertex_count - self.next_root) as nat
    }

    /// Whether `entry` reports the begin of a vertex that an earlier tree
    /// has explored.
    pub open spec fn is_repeated(self, entry: DFSEntry) -> bool {
        match entry {
            DFSEntry::BeginVertex(vertex) => self.explored.contains(vertex),
            _ => false,
        }
    }

    /// The state after the running tree, which is over, was replaced by a
    /// tree at the next root: what the old tree explored joins the explored
    /// vertices.
    pub open spec fn restart(self) -> ForestView {
        ForestView {
            tree: TreeView::start(self.graph(), VertexId(self.next_root as usize)),
            explored: self.explored.union(self.tree.explored),
            next_root: self.next_root + 1,
        }
    }

    /// One pull: the state afterwards and the event handed out, `None` when
    /// the traversal is over.
    ///
    /// The running tree is pulled. The begin of a vertex that an earlier
    /// tree has explored is not handed out: the vertex is dropped and the
    /// pull goes on. When the tree is over, the next tree starts at the next
    /// root and the pull goes on; when no root is left, the traversal is
    /// over.
    pub open spec fn step(self) -> (ForestView, Option<DFSEntry>)
        decreases self.roots_left(), self.tree.work(),
        when self.wf()
    {
        let (tree, pulled) = self.tree.step();
        proof {
            lemma_step(self.tree);
            lemma_drop_top(tree);
        }
        match pulled {
            Some(entry) => {
                if self.is_repeated(entry) {
                    ForestView { tree: tree.drop_top(), ..self }.step()
                } else {
                    (ForestView { tree, ..self }, Some(entry))
                }
            },
            None => {
                if self.next_root < self.graph().vertex_count {
                    ForestView { tree, ..self }.restart().step()
                } else {
                    (ForestView { tree, ..self }, None)
                }
            },
        }
    }
}

/// The state before the first pull is well formed and settled, nothing is
/// open and nothing is visited.
pub proof fn lemma_start(graph: GraphView)
    requires
        graph.wf(),
    ensures
        ForestView::start(graph).wf(),
        ForestView::start(graph).settled(),
        ForestView::start(graph).graph() == graph,
        ForestView::start(graph).open_path() == Seq::<VertexId>::empty(),
        ForestView::start(graph).visited() == Set::<VertexId>::empty(),
{
    let state = ForestView::start(graph);
    reveal_with_fuel(super::path::open_vertices, 2);
    assert(state.open_path() =~= Seq::<VertexId>::empty());
    assert(state.visited() =~= Set::<VertexId>::empty());
}

/// The start of a tree at a root within the graph, once the running tree is
/// over, keeps the invariant, leaves one root less, and changes neither
/// what is open nor what is visited.
pub proof fn lemma_restart(state: ForestView)
    requires
        state.wf(),
        state.tree.exhausted(),
        state.next_root < state.graph().vertex_count,
    ensures
        state.restart().wf(),
        state.restart().settled(),
        state.restart().graph() == state.graph(),
        state.restart().roots_left() < state.roots_left(),
        state.restart().open_path() == state.open_path(),
        state.restart().visited() == state.visited(),
{
    let next = state.restart();
    reveal_with_fuel(super::path::open_vertices, 2);
    assert(next.tree.wf());
    assert(next.open_path() =~= state.open_path());
    assert(next.visited() =~= state.visited());
}

/// One pull of the running tree, as the pull of the traversal goes on
/// with it: with the vertex dropped whose begin is not handed out, with
/// the next tree when the running tree is over and a root is left, and
/// with the result otherwise.
pub proof fn lemma_forest_pull(state: ForestView)
    requires
        state.wf(),
    ensures
        ({
            let (tree, pulled) = state.tree.step();
            let moved = ForestView { tree, ..state };
            match pulled {
                Some(entry) => if state.is_repeated(entry) {
                    let dropped = ForestView { tree: tree.drop_top(), ..state };
                    &&& dropped.wf()
                    &&& dropped.step() == state.step()
                    &&& dropped.roots_left() == state.roots_left()
                    &&& dropped.tree.work() < state.tree.work()
                } else {
                    state.step() == (moved, Some(entry))
                },
                None => if state.next_root < state.graph().vertex_count {
                    &&& moved.restart().wf()
                    &&& moved.restart().step() == state.step()
                    &&& moved.restart().roots_left() < state.roots_left()
                } else {
                    state.step() == (moved, None::<DFSEntry>)
                },
            }
        }),
{
    let (tree, pulled) = state.tree.step();
    lemma_step(state.tree);
    lemma_step_path(state.tree);
    lemma_drop_top(tree);
    match pulled {
        Some(entry) => {
            if state.is_repeated(entry) {
                lemma_drop_path(tree, entry->BeginVertex_0);
            }
        },
        None => {
            if state.next_root < state.graph().vertex_count {
                lemma_restart(ForestView { tree, ..state });
            }
        },
    }
}

/// What a pull from a well-formed state does.
///
/// The state afterwards is well formed and settled, over the same graph.
/// Each event that is handed out leaves fewer roots, or as many roots and
/// less work in the running tree; it changes the open path as [`observes`]
/// says; the begin of a vertex adds that vertex, which was not visited, to
/// the visited vertices, and no other event changes them. When the
/// traversal is over, no root is left, nothing is open, and the visited
/// vertices are as before.
pub proof fn lemma_forest_step(state: ForestView)
    requires
        state.wf(),
    ensures
        ({
            let (next, pulled) = state.step();
            &&& next.wf()
            &&& next.settled()
            &&& next.graph() == state.graph()
            &&& next.roots_left() <= state.roots_left()
            &&& match pulled {
                Some(entry) => {
                    &&& next.roots_left() < state.roots_left() || next.tree.work()
                        < state.tree.work()
                    &&& observes(state.open_path(), entry, next.open_path())
                    &&& match entry {
                        DFSEntry::BeginVertex(vertex) => {
                            &&& !state.visited().contains(vertex)
                            &&& state.graph().contains(vertex)
                            &&& next.visited() == state.visited().insert(vertex)
                        },
                        _ => next.visited() == state.visited(),
                    }
                },
                None => {
                    &&& next.roots_left() == 0
                    &&& next.tree.exhausted()
                    &&& state.open_path().len() == 0
                    &&& next.open_path().len() == 0
                    &&& next.visited() == state.visited()
                },
            }
        }),
    decreases state.roots_left(), state.tree.work(),
{
    let (tree, pulled) = state.tree.step();
    lemma_step(state.tree);
    lemma_step_path(state.tree);
    lemma_drop_top(tree);
    match pulled {
        Some(entry) => {
            if state.is_repeated(entry) {
                let vertex = entry->BeginVertex_0;
                let dropped = ForestView { tree: tree.drop_top(), ..state };
                lemma_drop_path(tree, vertex);
                assert(dropped.open_path() == state.open_path()) by {
                    let shorter = dropped.open_path();
                    assert(shorter == shorter.push(vertex).drop_last());
                    assert(state.open_path() == state.open_path().push(vertex).drop_last());
                }
                assert(dropped.visited() =~= state.visited());
                lemma_forest_step(dropped);
            } else {
                let next = ForestView { tree, ..state };
                match entry {
                    DFSEntry::BeginVertex(vertex) => {
                        assert(next.visited() =~= state.visited().insert(vertex));
                    },
                    _ => {
                        assert(next.visited() =~= state.visited());
                    },
                }
            }
        },
        None => {
            let over = ForestView { tree, ..state };
            assert(over.visited() =~= state.visited());
            if state.next_root < state.graph().vertex_count {
                lemma_restart(over);
                lemma_forest_step(over.restart());
            }
        },
    }
}

/// A depth-first traversal of a whole graph.
pub struct DepthFirst<'a> {
    graph: &'a Graph,
    enumeration: tree::DepthFirst<'a>,
    next_root: usize,
    explored: HashSet<usize>,
}

impl<'a> View for DepthFirst<'a> {
    type V = ForestView;

    closed spec fn view(&self) -> ForestView {
        ForestView {
            tree: self.enumeration@,
            explored: vertex_set(self.explored@),
            next_root: self.next_root as nat,
        }
    }
}

impl<'a> DepthFirst<'a> {
    /// The invariant of a traversal: its graph is well formed, the running
    /// tree is well formed and runs on the same graph, and the state
    /// satisfies [`ForestView::wf`].
    pub closed spec fn wf(&self) -> bool {
        &&& self.inv()
        &&& self@.settled()
    }

    /// What holds also while a pull is under way.
    spec fn inv(&self) -> bool {
        &&& self.graph.wf()
        &&& self.enumeration.wf()
        &&& self.enumeration.graph() == self.graph
        &&& self@.wf()
    }

    /// The graph that is traversed.
    pub closed spec fn graph(&self) -> &'a Graph {
        self.graph
    }

    /// A traversal with a well-formed state runs on a well-formed graph whose
    /// view is the graph of the state.
    pub proof fn lemma_wf(&self)
        requires
            self.wf(),
        ensures
            self@.wf(),
            self@.settled(),
            self.graph().wf(),
            self@.graph() == self.graph()@,
    {
        self.enumeration.lemma_wf();
    }

    /// A traversal of the whole of `graph`.
    pub fn on(graph: &'a Graph) -> (traversal: Self)
        requires
            graph.wf(),
        ensures
            traversal.wf(),
            traversal.graph() == graph,
            traversal@ == ForestView::start(graph@),
            traversal@.pending_events() == graph_events(graph@),
    {
        let vertices = graph.vertices();
        let traversal = if vertices.len() == 0 {
            Self {
                graph,
                enumeration: tree::DepthFirst::on(graph, VertexId(0)),
                next_root: 0,
                explored: HashSet::new(),
            }
        } else {
            Self {
                graph,
                enumeration: tree::DepthFirst::on(graph, vertices[0]),
                next_root: 1,
                explored: HashSet::new(),
            }
        };
        proof {
            graph.lemma_view_wf();
            traversal.enumeration.lemma_wf();
            assert(traversal@.explored =~= Set::<VertexId>::empty());
            lemma_start(graph@);
            lemma_forest_pending_start(graph@);
        }
        traversal
    }

    /// Runs the traversal to its end and returns the events in the order in
    /// which `next` would have handed them out.
    pub fn collect(self) -> (events: Vec<DFSEntry>)
        requires
            self.wf(),
        ensures
            events@ == self@.pending_events(),
    {
        let mut traversal = self;
        let mut events: Vec<DFSEntry> = Vec::new();
        loop
            invariant
                traversal.wf(),
                events@ + traversal@.pending_events() == self@.pending_events(),
            decreases traversal@.roots_left(), traversal@.tree.work(),
        {
            let ghost before = traversal@.pending_events();
            proof {
                traversal.lemma_wf();
                lemma_forest_step(traversal@);
            }
            match traversal.next() {
                Some(entry) => {
                    events.push(entry);
                    proof {
                        assert(events@ + traversal@.pending_events() =~= events@.drop_last()
                            + before);
                    }
                },
                None => {
                    proof {
                        assert(events@ + before =~= events@);
                    }
                    return events;
                },
            }
        }
    }

    /// Replaces the running tree by a tree at `vertex`; what the old tree
    /// explored joins the explored vertices.
    fn start_new_tree(&mut self, vertex: VertexId)
        requires
            old(self).graph.wf(),
        ensures
            final(self).graph == old(self).graph,
            final(self).next_root == old(self).next_root,
            final(self).enumeration.wf(),
            final(self).enumeration.graph() == old(self).graph,
            final(self).enumeration@ == TreeView::start(old(self).graph@, vertex),
            final(self)@.explored == old(self)@.explored.union(old(self).enumeration@.explored),
    {
        let mut old_enumeration = tree::DepthFirst::on(self.graph, vertex);
        std::mem::swap(&mut self.enumeration, &mut old_enumeration);
        let found = old_enumeration.explored();
        extend(&mut self.explored, &found);
        proof {
            assert(self@.explored =~= old(self)@.explored.union(old(self).enumeration@.explored));
        }
    }

    /// Hides the begin of a vertex that an earlier tree has explored, and
    /// drops that vertex; hands on every other event.
    fn make_sure_that_entry_was_not_already_given(&mut self, entry: DFSEntry) -> (given: Option<
        DFSEntry,
    >)
        requires
            old(self).enumeration.wf(),
        ensures
            final(self).graph == old(self).graph,
            final(self).next_root == old(self).next_root,
            final(self).explored == old(self).explored,
            final(self).enumeration.wf(),
            final(self).enumeration.graph() == old(self).enumeration.graph(),
            old(self)@.is_repeated(entry) ==> given is None && final(self).enumeration@ == old(
                self,
            ).enumeration@.drop_top(),
            !old(self)@.is_repeated(entry) ==> given == Some(entry) && final(self).enumeration@
                == old(self).enumeration@,
    {
        if let DFSEntry::BeginVertex(v) = entry {
            if self.explored.contains(&v.0) {
                self.enumeration.drop_current_vertex();
                return None;
            }
        }
        Some(entry)
    }

    /// Hands out the next event, or `None` when the traversal is over.
    ///
    /// The events are those of the trees, one tree after the other, each
    /// tree starting at the first vertex in ascending order that has not
    /// begun. No vertex begins twice: a vertex that an earlier tree has
    /// explored and that a later tree reaches again reports only the begin
    /// and the end of the edge that leads to it.
    pub fn next(&mut self) -> (entry: Option<DFSEntry>)
        requires
            old(self).wf(),
        ensures
            final(self).wf(),
            final(self).graph() == old(self).graph(),
            (final(self)@, entry) == old(self)@.step(),
            match entry {
                Some(event) => old(self)@.pending_events() == seq![event] + final(self)@.pending_events(),
                None => old(self)@.pending_events() == Seq::<DFSEntry>::empty() && final(self)@.pending_events() == Seq::<DFSEntry>::empty(),
            },
    {
        loop
            invariant
                old(self)@.wf(),
                self.inv(),
                self.graph == old(self).graph,
                self@.step() == old(self)@.step(),
            decreases self@.roots_left(), self@.tree.work(),
        {
            proof {
                self.enumeration.lemma_wf();
                lemma_forest_pull(self@);
            }
            let ghost before = self@;
            match self.enumeration.next() {
                Some(entry) => {
                    if let Some(given) = self.make_sure_that_entry_was_not_already_given(entry) {
                        proof {
                            assert(self@ == (ForestView { tree: before.tree.step().0, ..before }));
                            lemma_forest_step(old(self)@);
                            lemma_forest_pending_step(old(self)@);
                        }
                        return Some(given);
                    }
                    proof {
                        assert(self@ == (ForestView {
                            tree: before.tree.step().0.drop_top(),
                            ..before
                        }));
                    }
                },
                None => {
                    let vertices = self.graph.vertices();
                    if self.next_root < vertices.len() {
                        let vertex = vertices[self.next_root];
                        proof {
                            self.enumeration.lemma_wf();
                        }
                        self.next_root = self.next_root + 1;
                        self.start_new_tree(vertex);
                        proof {
                            assert(self@ == (ForestView {
                                tree: before.tree.step().0,
                                ..before
                            }).restart());
                        }
                    } else {
                        proof {
                            assert(self@ == (ForestView { tree: before.tree.step().0, ..before }));
                            lemma_forest_step(old(self)@);
                            lemma_forest_pending_step(old(self)@);
                        }
                        return None;
                    }
                },
            }
        }
    }
}

} // verus!
