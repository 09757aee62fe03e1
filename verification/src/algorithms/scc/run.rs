//! What the algorithm hands out, said at once: the components as a function
//! of the events of the traversal.

use super::algorithm::{lemma_consume, SccView};
use super::stack::StackView;
use crate::algorithms::enumeration::detailed::events::{graph_events, lemma_forest_pending_step};
use crate::algorithms::enumeration::detailed::graph::lemma_forest_step;
use crate::algorithms::enumeration::detailed::tree::DFSEntry;
use crate::graph::{GraphView, VertexId};
use vstd::prelude::*;

verus! {

/// The stack after the events were taken in one after the other, and the
/// components that they complete, in the order in which they are complete.
pub open spec fn absorb(stack: StackView, events: Seq<DFSEntry>) -> (
    StackView,
    Seq<Set<VertexId>>,
)
    decreases events.len(),
{
    if events.len() == 0 {
        (stack, Seq::empty())
    } else {
        let (after, found) = stack.take_in(events[0]);
        let (last, rest) = absorb(after, events.drop_first());
        (
            last,
            match found {
                Some(component) => seq![component] + rest,
                None => rest,
            },
        )
    }
}

/// The strongly connected components of a graph as the algorithm hands them
/// out: those that the events of the traversal of the whole graph complete,
/// starting with an empty stack.
pub open spec fn components(graph: GraphView) -> Seq<Set<VertexId>> {
    absorb(StackView::empty(), graph_events(graph)).1
}

/// Taking in two sequences of events, one after the other, is taking in
/// the first and then, with the stack that this leaves, the second.
pub proof fn lemma_absorb_concat(stack: StackView, first: Seq<DFSEntry>, second: Seq<DFSEntry>)
    ensures
        absorb(stack, first + second).0 == absorb(absorb(stack, first).0, second).0,
        absorb(stack, first + second).1 == absorb(stack, first).1 + absorb(
            absorb(stack, first).0,
            second,
        ).1,
    decreases first.len(),
{
    if first.len() == 0 {
        assert(first + second =~= second);
        assert(absorb(stack, first).1 + absorb(stack, second).1 =~= absorb(stack, second).1);
    } else {
        let (after, found) = stack.take_in(first[0]);
        assert((first + second)[0] == first[0]);
        assert((first + second).drop_first() =~= first.drop_first() + second);
        lemma_absorb_concat(after, first.drop_first(), second);
        let a = absorb(after, first.drop_first());
        let b = absorb(a.0, second);
        match found {
            Some(component) => {
                assert(seq![component] + (a.1 + b.1) =~= (seq![component] + a.1) + b.1);
            },
            None => {},
        }
    }
}

/// Taking in one event.
pub proof fn lemma_absorb_single(stack: StackView, entry: DFSEntry)
    ensures
        absorb(stack, seq![entry]).0 == stack.take_in(entry).0,
        absorb(stack, seq![entry]).1 == match stack.take_in(entry).1 {
            Some(component) => seq![component],
            None => Seq::empty(),
        },
        absorb(stack, Seq::empty()) == (stack, Seq::<Set<VertexId>>::empty()),
{
    reveal_with_fuel(absorb, 2);
    let single = seq![entry];
    assert(single.drop_first() =~= Seq::<DFSEntry>::empty());
    match stack.take_in(entry).1 {
        Some(component) => {
            assert(seq![component] + Seq::<Set<VertexId>>::empty() =~= seq![component]);
        },
        None => {},
    }
}

impl SccView {
    /// The components that are still to come: those that the events to
    /// come of the traversal complete, starting with the stack as it is.
    pub open spec fn pending_components(self) -> Seq<Set<VertexId>> {
        absorb(self.stack, self.dfs.pending_events()).1
    }
}

/// Before the first call, the components to come are the components of
/// the graph.
pub proof fn lemma_pending_components_start(graph: GraphView)
    requires
        graph.wf(),
    ensures
        SccView::start(graph).pending_components() == components(graph),
{
    crate::algorithms::enumeration::detailed::events::lemma_forest_pending_start(graph);
}

/// What a call does to the components that are still to come: the one that
/// is handed out is the first of them, and the rest is still to come. When
/// the traversal is over, no component is to come.
pub proof fn lemma_pending_components_step(state: SccView)
    requires
        state.wf(),
    ensures
        ({
            let (next, found) = state.step();
            match found {
                Some(component) => state.pending_components() == seq![component]
                    + next.pending_components(),
                None => state.pending_components() == Seq::<Set<VertexId>>::empty()
                    && next.pending_components() == Seq::<Set<VertexId>>::empty(),
            }
        }),
    decreases state.dfs.roots_left(), state.dfs.tree.work(),
{
    let (dfs, pulled) = state.dfs.step();
    lemma_forest_step(state.dfs);
    lemma_forest_pending_step(state.dfs);
    lemma_consume(state);
    let events = state.dfs.pending_events();
    match pulled {
        None => {
            lemma_absorb_single(state.stack, DFSEntry::BeginVertex(VertexId(0)));
        },
        Some(entry) => {
            let rest = dfs.pending_events();
            assert(events[0] == entry);
            assert(events.drop_first() =~= rest);
            let (after, found) = state.stack.take_in(entry);
            assert(state.consume() == SccView { dfs, stack: after });
            match found {
                Some(component) => {},
                None => {
                    lemma_pending_components_step(state.consume());
                },
            }
        },
    }
}

} // verus!
