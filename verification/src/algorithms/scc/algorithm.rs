//! Tarjan's strongly connected components algorithm.
//!
//! The algorithm finds all strongly connected components of a graph. A
//! strongly connected component is a set of vertices in which each vertex
//! reaches every other one along the edges. Each vertex belongs to exactly
//! one strongly connected component.
//!
//! The algorithm follows a depth-first traversal and is linear in the number
//! of edges and vertices. It hands out one component per call: each call
//! goes on with the traversal until the next component is complete.

use super::run::{components, lemma_pending_components_start, lemma_pending_components_step};
use super::stack::{lemma_top_position, top_position, Stack, StackView};
use crate::algorithms::component::Component;
use crate::algorithms::enumeration::detailed::graph::{
    lemma_forest_step, lemma_start, DepthFirst, ForestView,
};

use crate::algorithms::enumeration::detailed::tree::DFSEntry;
use crate::graph::{Graph, GraphView, VertexId};
use vstd::prelude::*;

verus! {

/// How many of the vertices below `bound` are in `visited`.
pub open spec fn count_visited(bound: nat, visited: Set<VertexId>) -> nat
    decreases bound,
{
    if bound == 0 {
        0
    } else {
        count_visited((bound - 1) as nat, visited) + if visited.contains(
            VertexId((bound - 1) as usize),
        ) {
            1nat
        } else {
            0nat
        }
    }
}

/// At most `bound` vertices below `bound` are visited, and fewer if one of
/// them is not.
pub proof fn lemma_count_visited(bound: nat, visited: Set<VertexId>, vertex: VertexId)
    requires
        bound <= usize::MAX,
    ensures
        count_visited(bound, visited) <= bound,
        vertex.0 < bound && !visited.contains(vertex) ==> count_visited(bound, visited) < bound
            && count_visited(bound, visited.insert(vertex)) == count_visited(bound, visited) + 1,
        vertex.0 >= bound ==> count_visited(bound, visited.insert(vertex)) == count_visited(
            bound,
            visited,
        ),
    decreases bound,
{
    if bound > 0 {
        lemma_count_visited((bound - 1) as nat, visited, vertex);
    }
}

/// Whether the vertices of `path` stand on `stack` in the order of `path`,
/// the first one lowest.
pub open spec fn path_on_stack(path: Seq<VertexId>, stack: Seq<VertexId>) -> bool {
    &&& forall|i: int| 0 <= i < path.len() ==> stack.contains(#[trigger] path[i])
    &&& forall|i: int, j: int|
        0 <= i < j < path.len() ==> top_position(stack, #[trigger] path[i]) < top_position(
            stack,
            #[trigger] path[j],
        )
}

/// The one position that holds a vertex and has no occurrence of the vertex
/// above it is the highest position of the vertex.
pub proof fn lemma_top_position_is(stack: Seq<VertexId>, vertex: VertexId, position: int)
    requires
        0 <= position < stack.len(),
        stack[position] == vertex,
        forall|i: int| position < i < stack.len() ==> stack[i] != vertex,
    ensures
        top_position(stack, vertex) == position,
{
    lemma_top_position(stack, vertex);
    assert(stack.contains(vertex));
}

/// A path that stands on a stack stands on the stack with one more vertex,
/// followed by that vertex, if the vertex is new to the stack.
pub proof fn lemma_path_push(path: Seq<VertexId>, stack: Seq<VertexId>, vertex: VertexId)
    requires
        path_on_stack(path, stack),
        stack.no_duplicates(),
        !stack.contains(vertex),
    ensures
        path_on_stack(path.push(vertex), stack.push(vertex)),
        stack.push(vertex).no_duplicates(),
{
    let longer = stack.push(vertex);
    assert(longer.drop_last() == stack);
    assert forall|i: int, j: int| 0 <= i < longer.len() && 0 <= j < longer.len() && i
        != j implies longer[i] != longer[j] by {
        if i < stack.len() {
            assert(stack.contains(stack[i]));
        }
        if j < stack.len() {
            assert(stack.contains(stack[j]));
        }
    }
    assert forall|i: int| 0 <= i < path.push(vertex).len() implies longer.contains(
        #[trigger] path.push(vertex)[i],
    ) by {
        if i < path.len() {
            let k = choose|k: int| 0 <= k < stack.len() && stack[k] == path[i];
            assert(longer[k] == path[i]);
        } else {
            assert(longer[stack.len() as int] == vertex);
        }
    }
    assert forall|i: int, j: int| 0 <= i < j < path.push(vertex).len() implies top_position(
        longer,
        #[trigger] path.push(vertex)[i],
    ) < top_position(longer, #[trigger] path.push(vertex)[j]) by {
        assert(path.push(vertex)[i] == path[i]);
        assert(stack.contains(path[i]));
        lemma_top_position(stack, path[i]);
        if j < path.len() {
            assert(path.push(vertex)[j] == path[j]);
            assert(stack.contains(path[j]));
        }
    }
}

/// When everything from the innermost vertex of a path upwards is popped,
/// the rest of the path stands on the rest of the stack.
pub proof fn lemma_path_pop(path: Seq<VertexId>, stack: Seq<VertexId>)
    requires
        path.len() > 0,
        path_on_stack(path, stack),
        stack.no_duplicates(),
    ensures
        path_on_stack(path.drop_last(), stack.take(top_position(stack, path.last()))),
        stack.take(top_position(stack, path.last())).no_duplicates(),
        forall|vertex: VertexId|
            stack.take(top_position(stack, path.last())).contains(vertex) <==> stack.contains(
                vertex,
            ) && !stack.skip(top_position(stack, path.last())).contains(vertex),
{
    let last = path.last();
    assert(stack.contains(path[path.len() - 1]));
    lemma_top_position(stack, last);
    let cut = top_position(stack, last);
    let rest = stack.take(cut);
    let popped = stack.skip(cut);
    assert forall|vertex: VertexId|
        rest.contains(vertex) <==> stack.contains(vertex) && !popped.contains(vertex) by {
        if rest.contains(vertex) {
            let i = choose|i: int| 0 <= i < rest.len() && rest[i] == vertex;
            assert(stack[i] == vertex);
            if popped.contains(vertex) {
                let j = choose|j: int| 0 <= j < popped.len() && popped[j] == vertex;
                assert(stack[cut + j] == vertex);
            }
        }
        if stack.contains(vertex) && !popped.contains(vertex) {
            let i = choose|i: int| 0 <= i < stack.len() && stack[i] == vertex;
            if i >= cut {
                assert(popped[i - cut] == vertex);
            }
            assert(rest[i] == vertex);
        }
    }
    assert forall|i: int| 0 <= i < path.drop_last().len() implies rest.contains(
        #[trigger] path.drop_last()[i],
    ) && top_position(rest, path.drop_last()[i]) == top_position(stack, path[i]) by {
        let vertex = path[i];
        assert(path.drop_last()[i] == vertex);
        assert(stack.contains(path[i]));
        lemma_top_position(stack, vertex);
        let position = top_position(stack, vertex);
        assert(position < top_position(stack, path[path.len() - 1]));
        assert(rest[position] == vertex);
        lemma_top_position_is(rest, vertex, position);
    }
    assert forall|i: int, j: int| 0 <= i < j < path.drop_last().len() implies top_position(
        rest,
        #[trigger] path.drop_last()[i],
    ) < top_position(rest, #[trigger] path.drop_last()[j]) by {
        assert(path.drop_last()[i] == path[i]);
        assert(path.drop_last()[j] == path[j]);
    }
}

/// Whether a stack fits a traversal of which `path` is open and `visited`
/// is visited, in a graph of `count` vertices.
///
/// The stack holds no vertex twice, only visited vertices, and exactly the
/// vertices that have an entry. The open path stands on the stack in its
/// order. As many indices are given out as vertices are visited.
pub open spec fn stack_fits(
    stack: StackView,
    path: Seq<VertexId>,
    visited: Set<VertexId>,
    count: nat,
) -> bool {
    &&& stack.stack.no_duplicates()
    &&& forall|vertex: VertexId|
        stack.links.contains_key(vertex) <==> stack.stack.contains(vertex)
    &&& forall|i: int| 0 <= i < stack.stack.len() ==> visited.contains(#[trigger] stack.stack[i])
    &&& path_on_stack(path, stack.stack)
    &&& stack.next_index == count_visited(count, visited)
}

/// A vertex that begins finds an index that is a machine integer, and the
/// stack with the vertex pushed fits the traversal after the begin.
pub proof fn lemma_fits_push(
    stack: StackView,
    path: Seq<VertexId>,
    visited: Set<VertexId>,
    count: nat,
    vertex: VertexId,
)
    requires
        stack_fits(stack, path, visited, count),
        !visited.contains(vertex),
        vertex.0 < count <= usize::MAX,
    ensures
        stack.next_index < usize::MAX,
        stack_fits(stack.push(vertex), path.push(vertex), visited.insert(vertex), count),
{
    let next = stack.push(vertex);
    lemma_count_visited(count, visited, vertex);
    if stack.stack.contains(vertex) {
        let i = choose|i: int| 0 <= i < stack.stack.len() && stack.stack[i] == vertex;
        assert(visited.contains(stack.stack[i]));
    }
    lemma_path_push(path, stack.stack, vertex);
    assert forall|x: VertexId| next.links.contains_key(x) <==> next.stack.contains(x) by {
        if stack.stack.contains(x) {
            let i = choose|i: int| 0 <= i < stack.stack.len() && stack.stack[i] == x;
            assert(next.stack[i] == x);
        }
        if x == vertex {
            assert(next.stack[stack.stack.len() as int] == x);
        }
        if next.stack.contains(x) && x != vertex {
            let i = choose|i: int| 0 <= i < next.stack.len() && next.stack[i] == x;
            assert(stack.stack[i] == x);
        }
    }
    assert forall|i: int| 0 <= i < next.stack.len() implies visited.insert(vertex).contains(
        #[trigger] next.stack[i],
    ) by {
        if i < stack.stack.len() {
            assert(visited.contains(stack.stack[i]));
        }
    }
}

/// The innermost open vertex has an entry, and a stack on which its low
/// link was lowered fits the traversal as before.
pub proof fn lemma_fits_update(
    stack: StackView,
    path: Seq<VertexId>,
    visited: Set<VertexId>,
    count: nat,
    update: VertexId,
)
    requires
        stack_fits(stack, path, visited, count),
        path.len() > 0,
    ensures
        stack.links.contains_key(path.last()),
        stack_fits(stack.update_with_minimum(path.last(), update), path, visited, count),
{
    let next = stack.update_with_minimum(path.last(), update);
    assert(stack.stack.contains(path[path.len() - 1]));
    assert forall|x: VertexId| next.links.contains_key(x) <==> next.stack.contains(x) by {
        assert(stack.links.contains_key(x) <==> stack.stack.contains(x));
    }
}

/// The innermost open vertex is on the stack. When it ends, the stack fits
/// the traversal after the end, both as it is and with everything from that
/// vertex upwards popped.
pub proof fn lemma_fits_pop(
    stack: StackView,
    path: Seq<VertexId>,
    visited: Set<VertexId>,
    count: nat,
)
    requires
        stack_fits(stack, path, visited, count),
        path.len() > 0,
    ensures
        stack.stack.contains(path.last()),
        stack.links.contains_key(path.last()),
        stack_fits(stack, path.drop_last(), visited, count),
        stack_fits(stack.pop_until(path.last()), path.drop_last(), visited, count),
{
    let vertex = path.last();
    let shorter = path.drop_last();
    assert(stack.stack.contains(path[path.len() - 1]));
    assert(path_on_stack(shorter, stack.stack)) by {
        assert forall|i: int| 0 <= i < shorter.len() implies stack.stack.contains(
            #[trigger] shorter[i],
        ) by {
            assert(shorter[i] == path[i]);
        }
        assert forall|i: int, j: int| 0 <= i < j < shorter.len() implies top_position(
            stack.stack,
            #[trigger] shorter[i],
        ) < top_position(stack.stack, #[trigger] shorter[j]) by {
            assert(shorter[i] == path[i]);
            assert(shorter[j] == path[j]);
        }
    }
    lemma_path_pop(path, stack.stack);
    lemma_top_position(stack.stack, vertex);
    let cut = top_position(stack.stack, vertex);
    let rest = stack.stack.take(cut);
    let next = stack.pop_until(vertex);
    assert forall|x: VertexId| next.links.contains_key(x) <==> rest.contains(x) by {
        assert(stack.links.contains_key(x) <==> stack.stack.contains(x));
    }
    assert forall|i: int| 0 <= i < rest.len() implies visited.contains(#[trigger] rest[i]) by {
        assert(rest[i] == stack.stack[i]);
    }
}

/// The state of the algorithm as a mathematical value.
pub struct SccView {
    /// The state of the traversal that the algorithm follows.
    pub dfs: ForestView,
    /// The vertices whose component is not complete.
    pub stack: StackView,
}

impl SccView {
    /// The state before the first component is asked for.
    pub open spec fn start(graph: GraphView) -> SccView {
        SccView { dfs: ForestView::start(graph), stack: StackView::empty() }
    }

    /// The invariant of the algorithm.
    ///
    /// The traversal is well formed and settled. The stack holds no vertex
    /// twice, only visited vertices, and exactly the vertices that have an
    /// entry. The open path of the traversal stands on the stack in its
    /// order. As many indices are given out as vertices are visited.
    pub open spec fn wf(self) -> bool {
        &&& self.dfs.wf()
        &&& self.dfs.settled()
        &&& stack_fits(
            self.stack,
            self.dfs.open_path(),
            self.dfs.visited(),
            self.dfs.graph().vertex_count,
        )
    }

    /// One call: the state afterwards and the vertices of the component
    /// handed out, `None` when the traversal is over.
    ///
    /// The traversal is pulled, and each event is taken in by the stack,
    /// until an event completes a component, which is handed out.
    pub open spec fn step(self) -> (SccView, Option<Set<VertexId>>)
        decreases self.dfs.roots_left(), self.dfs.tree.work(),
        when self.dfs.wf()
    {
        let (dfs, pulled) = self.dfs.step();
        proof {
            lemma_forest_step(self.dfs);
        }
        match pulled {
            None => (SccView { dfs, ..self }, None),
            Some(entry) => {
                let (stack, found) = self.stack.take_in(entry);
                match found {
                    Some(component) => (SccView { dfs, stack }, Some(component)),
                    None => SccView { dfs, stack }.step(),
                }
            },
        }
    }

    /// The state after the event that the traversal hands out next was
    /// taken in; `self` if the traversal is over.
    pub open spec fn consume(self) -> SccView {
        let (dfs, pulled) = self.dfs.step();
        match pulled {
            None => SccView { dfs, ..self },
            Some(entry) => SccView { dfs, stack: self.stack.take_in(entry).0 },
        }
    }
}

/// Taking in the next event of the traversal keeps the invariant of the
/// algorithm, and the event finds on the stack what it needs: the vertex
/// that ends and the start of the edge that ends have an entry, and the
/// vertex that begins gets an index that is a machine integer.
pub proof fn lemma_consume(state: SccView)
    requires
        state.wf(),
    ensures
        state.consume().wf(),
        match state.dfs.step().1 {
            Some(DFSEntry::BeginVertex(vertex)) => state.stack.next_index < usize::MAX,
            Some(DFSEntry::EndEdge(edge)) => state.stack.links.contains_key(edge.0),
            Some(DFSEntry::EndVertex(vertex)) => state.stack.stack.contains(vertex),
            _ => true,
        },
{
    let (dfs, pulled) = state.dfs.step();
    let path = state.dfs.open_path();
    let visited = state.dfs.visited();
    let count = state.dfs.graph().vertex_count;
    lemma_forest_step(state.dfs);
    match pulled {
        None => {},
        Some(DFSEntry::BeginVertex(vertex)) => {
            lemma_fits_push(state.stack, path, visited, count, vertex);
        },
        Some(DFSEntry::EndEdge(edge)) => {
            lemma_fits_update(state.stack, path, visited, count, edge.1);
        },
        Some(DFSEntry::EndVertex(vertex)) => {
            assert(path.drop_last() == dfs.open_path());
            lemma_fits_pop(state.stack, path, visited, count);
        },
        Some(DFSEntry::BeginEdge(_)) => {},
    }
}

/// A call from a well-formed state leaves a well-formed state over the
/// same graph; if it hands out a component, fewer roots are left to the
/// traversal, or as many roots and less work in the running tree.
pub proof fn lemma_scc_step(state: SccView)
    requires
        state.wf(),
    ensures
        state.step().0.wf(),
        state.step().0.dfs.graph() == state.dfs.graph(),
        state.step().0.dfs.roots_left() <= state.dfs.roots_left(),
        state.step().1 is Some ==> state.step().0.dfs.roots_left() < state.dfs.roots_left()
            || state.step().0.dfs.tree.work() < state.dfs.tree.work(),
    decreases state.dfs.roots_left(), state.dfs.tree.work(),
{
    let (dfs, pulled) = state.dfs.step();
    lemma_forest_step(state.dfs);
    lemma_consume(state);
    match pulled {
        None => {},
        Some(entry) => {
            if state.stack.take_in(entry).1 is None {
                lemma_scc_step(state.consume());
            }
        },
    }
}

/// The state of the computation of the strongly connected components of a
/// graph: the state of a depth-first traversal and a stack of the vertices
/// whose component is not complete.
pub struct SCC<'a> {
    dfs: DepthFirst<'a>,
    unfinished_components: Stack,
}

impl<'a> View for SCC<'a> {
    type V = SccView;

    closed spec fn view(&self) -> SccView {
        SccView { dfs: self.dfs@, stack: self.unfinished_components@ }
    }
}

impl<'a> SCC<'a> {
    /// The invariant of the computation: the traversal is well formed and
    /// the state satisfies [`SccView::wf`].
    pub closed spec fn wf(&self) -> bool {
        &&& self.dfs.wf()
        &&& self@.wf()
    }

    /// The graph whose components are computed.
    pub closed spec fn graph(&self) -> &'a Graph {
        self.dfs.graph()
    }

    /// A computation with a well-formed state runs on a well-formed graph
    /// whose view is the graph of the state.
    pub proof fn lemma_wf(&self)
        requires
            self.wf(),
        ensures
            self@.wf(),
            self.graph().wf(),
            self@.dfs.graph() == self.graph()@,
    {
        self.dfs.lemma_wf();
    }

    /// Prepares the computation of the strongly connected components of
    /// `graph`.
    pub fn on(graph: &'a Graph) -> (scc: Self)
        requires
            graph.wf(),
        ensures
            scc.wf(),
            scc.graph() == graph,
            scc@ == SccView::start(graph@),
            scc@.pending_components() == components(graph@),
    {
        let scc = Self { dfs: DepthFirst::on(graph), unfinished_components: Stack::new() };
        proof {
            graph.lemma_view_wf();
            lemma_start(graph@);
            lemma_count_visited(0, Set::empty(), VertexId(0));
            lemma_zero_visited(graph@.vertex_count);
            lemma_pending_components_start(graph@);
        }
        scc
    }

    /// Runs the computation to its end and returns the components in the
    /// order in which `next` would have handed them out.
    pub fn collect(self) -> (found: Vec<Component>)
        requires
            self.wf(),
        ensures
            found@.len() == self@.pending_components().len(),
            forall|i: int|
                0 <= i < found@.len() ==> (#[trigger] found@[i])@ == self@.pending_components()[i],
    {
        let mut scc = self;
        let mut found: Vec<Component> = Vec::new();
        let ghost all = self@.pending_components();
        loop
            invariant
                scc.wf(),
                all == self@.pending_components(),
                found@.len() + scc@.pending_components().len() == all.len(),
                forall|i: int| 0 <= i < found@.len() ==> (#[trigger] found@[i])@ == all[i],
                forall|i: int|
                    0 <= i < scc@.pending_components().len() ==> all[found@.len() + i]
                        == #[trigger] scc@.pending_components()[i],
            decreases scc@.dfs.roots_left(), scc@.dfs.tree.work(),
        {
            let ghost before = scc@.pending_components();
            proof {
                scc.lemma_wf();
                lemma_scc_step(scc@);
            }
            match scc.next() {
                Some(component) => {
                    proof {
                        assert(before[0] == component@);
                        assert forall|i: int|
                            0 <= i < scc@.pending_components().len() implies all[found@.len() + 1
                            + i] == #[trigger] scc@.pending_components()[i] by {
                            assert(before[i + 1] == scc@.pending_components()[i]);
                        }
                    }
                    found.push(component);
                },
                None => {
                    return found;
                },
            }
        }
    }

    /// Gives the next strongly connected component of the graph, or `None`
    /// when all components were given.
    ///
    /// The traversal goes on until the next component is complete. New
    /// vertices are pushed to a stack and are popped only when all vertices
    /// of their component are found.
    pub fn next(&mut self) -> (component: Option<Component>)
        requires
            old(self).wf(),
        ensures
            final(self).wf(),
            final(self).graph() == old(self).graph(),
            final(self)@ == old(self)@.step().0,
            match component {
                Some(found) => old(self)@.step().1 == Some(found@),
                None => old(self)@.step().1 is None,
            },
            match component {
                Some(found) => old(self)@.pending_components() == seq![found@] + final(
                    self)@.pending_components(),
                None => old(self)@.pending_components() == Seq::<Set<VertexId>>::empty(),
            },
    {
        loop
            invariant
                old(self)@.wf(),
                self.wf(),
                self.dfs.graph() == old(self).dfs.graph(),
                self@.step() == old(self)@.step(),
            decreases self@.dfs.roots_left(), self@.dfs.tree.work(),
        {
            proof {
                self.dfs.lemma_wf();
                lemma_forest_step(self@.dfs);
                lemma_consume(self@);
                lemma_scc_step(old(self)@);
                lemma_pending_components_step(old(self)@);
            }
            let ghost before = self@;
            match self.dfs.next() {
                None => {
                    return None;
                },
                Some(next) => match next {
                    DFSEntry::BeginVertex(v) => {
                        self.unfinished_components.push(v);
                    },
                    DFSEntry::EndEdge(e) => {
                        self.unfinished_components.update_with_minimum(e.0, e.1);
                    },
                    DFSEntry::EndVertex(v) => {
                        if self.unfinished_components.is_root(&v) {
                            let component = self.unfinished_components.pop_until(v);
                            return Some(component);
                        }
                    },
                    _ => (),
                },
            }
        }
    }
}

/// Of no vertices, none is visited.
pub proof fn lemma_zero_visited(bound: nat)
    ensures
        count_visited(bound, Set::empty()) == 0,
    decreases bound,
{
    if bound > 0 {
        lemma_zero_visited((bound - 1) as nat);
    }
}

} // verus!
