//! What holds of the stack of the algorithm while the traversal goes on,
//! and why each event keeps it.

use super::stack::{lemma_top_position, top_position, StackView};
use crate::graph::{
    is_closed, lemma_closed_reaches, lemma_reaches_first, lemma_reaches_self, lemma_reaches_trans, lemma_targets_from, reaches, GraphView, VertexId,
};
use vstd::prelude::*;

verus! {

/// Whether a set of vertices is a strongly connected component: it is not
/// empty, and together with one of its vertices it holds exactly the
/// vertices that this vertex reaches and that reach it.
pub open spec fn is_scc(graph: GraphView, component: Set<VertexId>) -> bool {
    &&& exists|vertex: VertexId| component.contains(vertex)
    &&& forall|x: VertexId, y: VertexId|
        #![trigger component.contains(x), component.contains(y)]
        component.contains(x) ==> (component.contains(y) <==> reaches(graph, x, y) && reaches(
            graph,
            y,
            x,
        ))
}

/// Whether the stack is in order: it holds no vertex twice and exactly the
/// vertices that have an entry, the indices grow from the bottom to the
/// top and are below the next index, and no low link is above the index of
/// its vertex.
pub open spec fn sorted(stack: StackView) -> bool {
    &&& stack.stack.no_duplicates()
    &&& forall|x: VertexId|
        #![trigger stack.links.contains_key(x)]
        #![trigger stack.stack.contains(x)]
        stack.links.contains_key(x) <==> stack.stack.contains(x)
    &&& forall|i: int, j: int|
        0 <= i < j < stack.stack.len() ==> stack.links[#[trigger] stack.stack[i]].index
            < stack.links[#[trigger] stack.stack[j]].index
    &&& forall|x: VertexId| #[trigger]
        stack.links.contains_key(x) ==> stack.links[x].low_link <= stack.links[x].index
            < stack.next_index
}

/// Whether `top` is the innermost of the open vertices `open`: it is open
/// and has the highest index among them.
pub open spec fn is_top(stack: StackView, open: Set<VertexId>, top: VertexId) -> bool {
    &&& open.contains(top)
    &&& stack.links.contains_key(top)
    &&& forall|z: VertexId| #[trigger]
        open.contains(z) ==> stack.links[z].index <= stack.links[top].index
}

/// Whether the open vertices have an entry, the vertices with an entry are
/// explored, and the explored vertices are vertices of the graph.
pub open spec fn contained(
    graph: GraphView,
    explored: Set<VertexId>,
    open: Set<VertexId>,
    stack: StackView,
) -> bool {
    &&& forall|x: VertexId| #[trigger] open.contains(x) ==> stack.links.contains_key(x)
    &&& forall|x: VertexId| #[trigger] stack.links.contains_key(x) ==> explored.contains(x)
    &&& forall|x: VertexId| #[trigger] explored.contains(x) ==> graph.contains(x)
}

/// Whether the low link of each vertex on the stack is the index of a
/// vertex on the stack that the vertex reaches.
pub open spec fn low_reached(graph: GraphView, stack: StackView) -> bool {
    forall|x: VertexId| stack.links.contains_key(x) ==> #[trigger] has_low(graph, stack, x)
}

/// Whether the low link of `x` is the index of a vertex on the stack that
/// `x` reaches.
pub open spec fn has_low(graph: GraphView, stack: StackView, x: VertexId) -> bool {
    exists|y: VertexId|
        stack.links.contains_key(y) && stack.links[y].index == stack.links[x].low_link
            && #[trigger] reaches(graph, x, y)
}

/// Whether each vertex on the stack reaches the vertices above it.
pub open spec fn up_reached(graph: GraphView, stack: StackView) -> bool {
    forall|x: VertexId, y: VertexId|
        stack.links.contains_key(x) && stack.links.contains_key(y) && stack.links[x].index
            <= stack.links[y].index ==> #[trigger] reaches(graph, x, y)
}

/// Whether each vertex on the stack reaches an open vertex that is not
/// above it.
pub open spec fn open_reached(graph: GraphView, open: Set<VertexId>, stack: StackView) -> bool {
    forall|y: VertexId|
        stack.links.contains_key(y) ==> #[trigger] has_open(graph, open, stack, y)
}

/// Whether `y` reaches an open vertex that is not above it.
pub open spec fn has_open(
    graph: GraphView,
    open: Set<VertexId>,
    stack: StackView,
    y: VertexId,
) -> bool {
    exists|z: VertexId|
        open.contains(z) && stack.links.contains_key(z) && stack.links[z].index
            <= stack.links[y].index && #[trigger] reaches(graph, y, z)
}

/// Whether each edge from an explored vertex that is not open leads to an
/// explored vertex.
pub open spec fn followed(graph: GraphView, explored: Set<VertexId>, open: Set<VertexId>) -> bool {
    forall|x: VertexId, y: VertexId|
        explored.contains(x) && !open.contains(x) && #[trigger] graph.has_edge(x, y)
            ==> explored.contains(y)
}

/// The explored vertices that have left the stack: those of the components
/// that are complete.
pub open spec fn done(explored: Set<VertexId>, stack: StackView) -> Set<VertexId> {
    Set::new(|x: VertexId| explored.contains(x) && !stack.links.contains_key(x))
}

/// The invariant of the algorithm between two events, when `explored` is
/// explored and `open` are the vertices that have begun and not ended.
pub open spec fn env(
    graph: GraphView,
    explored: Set<VertexId>,
    open: Set<VertexId>,
    stack: StackView,
) -> bool {
    &&& sorted(stack)
    &&& contained(graph, explored, open, stack)
    &&& low_reached(graph, stack)
    &&& up_reached(graph, stack)
    &&& open_reached(graph, open, stack)
    &&& followed(graph, explored, open)
    &&& is_closed(graph, done(explored, stack))
}

/// Whether the low link of the open vertex `top` accounts for the edges
/// that are done: it is at most the index of the target, if the target is
/// on the stack, of each of its own edges before the position `upto` and
/// of each edge from a vertex above it.
pub open spec fn accounted(graph: GraphView, stack: StackView, top: VertexId, upto: nat) -> bool {
    &&& forall|j: int|
        0 <= j < upto && j < graph.out_neighbors(top).len() && stack.links.contains_key(
            #[trigger] graph.out_neighbors(top)[j],
        ) ==> stack.links[top].low_link <= stack.links[graph.out_neighbors(top)[j]].index
    &&& forall|x: VertexId, y: VertexId|
        stack.links.contains_key(x) && stack.links[x].index > stack.links[top].index
            && #[trigger] graph.has_edge(x, y) && stack.links.contains_key(y)
            ==> stack.links[top].low_link <= stack.links[y].index
}

/// Two vertices on an ordered stack with the same index are the same.
pub proof fn lemma_sorted_index(stack: StackView, x: VertexId, y: VertexId)
    requires
        sorted(stack),
        stack.links.contains_key(x),
        stack.links.contains_key(y),
        stack.links[x].index == stack.links[y].index,
    ensures
        x == y,
{
    let i = choose|i: int| 0 <= i < stack.stack.len() && stack.stack[i] == x;
    let j = choose|j: int| 0 <= j < stack.stack.len() && stack.stack[j] == y;
    if i < j {
        assert(stack.links[stack.stack[i]].index < stack.links[stack.stack[j]].index);
    } else if j < i {
        assert(stack.links[stack.stack[j]].index < stack.links[stack.stack[i]].index);
    }
}

/// An ordered stack with a new vertex pushed is in order.
pub proof fn lemma_sorted_push(stack: StackView, vertex: VertexId)
    requires
        sorted(stack),
        !stack.links.contains_key(vertex),
    ensures
        sorted(stack.push(vertex)),
{
    let next = stack.push(vertex);
    assert forall|i: int, j: int| 0 <= i < next.stack.len() && 0 <= j < next.stack.len() && i
        != j implies next.stack[i] != next.stack[j] by {
        if i < stack.stack.len() {
            assert(stack.stack.contains(stack.stack[i]));
        }
        if j < stack.stack.len() {
            assert(stack.stack.contains(stack.stack[j]));
        }
    }
    assert forall|x: VertexId| next.links.contains_key(x) <==> next.stack.contains(x) by {
        if stack.stack.contains(x) {
            let i = choose|i: int| 0 <= i < stack.stack.len() && stack.stack[i] == x;
            assert(next.stack[i] == x);
        }
        if x == vertex {
            assert(next.stack[stack.stack.len() as int] == x);
        }
        if next.stack.contains(x) && x != vertex {
            let i = choose|i: int| 0 <= i < next.stack.len() && next.stack[i] == x;
            assert(stack.stack[i] == x);
        }
    }
    assert forall|i: int, j: int| 0 <= i < j < next.stack.len() implies next.links[
    #[trigger] next.stack[i]].index < next.links[#[trigger] next.stack[j]].index by {
        assert(stack.stack.contains(stack.stack[i]));
        if j < stack.stack.len() {
            assert(stack.stack.contains(stack.stack[j]));
            assert(stack.links[stack.stack[i]].index < stack.links[stack.stack[j]].index);
        }
    }
}

/// An ordered stack on which a low link was lowered is in order.
pub proof fn lemma_sorted_update(stack: StackView, vertex: VertexId, update: VertexId)
    requires
        sorted(stack),
        stack.links.contains_key(vertex),
    ensures
        sorted(stack.update_with_minimum(vertex, update)),
{
    let next = stack.update_with_minimum(vertex, update);
    assert forall|x: VertexId| next.links.contains_key(x) <==> next.stack.contains(x) by {
        assert(stack.links.contains_key(x) <==> stack.stack.contains(x));
    }
    assert forall|i: int, j: int| 0 <= i < j < next.stack.len() implies next.links[
    #[trigger] next.stack[i]].index < next.links[#[trigger] next.stack[j]].index by {
        assert(stack.links[stack.stack[i]].index < stack.links[stack.stack[j]].index);
    }
}

/// What is popped from an ordered stack down to a vertex are the vertices
/// that are not below it by index; the rest is in order and keeps its
/// links.
pub proof fn lemma_sorted_pop(stack: StackView, vertex: VertexId)
    requires
        sorted(stack),
        stack.links.contains_key(vertex),
    ensures
        sorted(stack.pop_until(vertex)),
        stack.pop_until(vertex).next_index == stack.next_index,
        forall|x: VertexId|
            stack.above(vertex).contains(x) <==> stack.links.contains_key(x)
                && stack.links[x].index >= stack.links[vertex].index,
        forall|x: VertexId|
            stack.pop_until(vertex).links.contains_key(x) <==> stack.links.contains_key(x)
                && stack.links[x].index < stack.links[vertex].index,
        forall|x: VertexId| #[trigger]
            stack.pop_until(vertex).links.contains_key(x) ==> stack.pop_until(vertex).links[x]
                == stack.links[x],
{
    let next = stack.pop_until(vertex);
    let cut = top_position(stack.stack, vertex);
    let rest = stack.stack.take(cut);
    let popped = stack.stack.skip(cut);
    lemma_top_position(stack.stack, vertex);
    assert(stack.stack[cut] == vertex);
    assert forall|x: VertexId|
        stack.above(vertex).contains(x) <==> stack.links.contains_key(x) && stack.links[x].index
            >= stack.links[vertex].index by {
        if popped.contains(x) {
            let j = choose|j: int| 0 <= j < popped.len() && popped[j] == x;
            assert(stack.stack[cut + j] == x);
            assert(stack.stack.contains(x));
            if j > 0 {
                assert(stack.links[stack.stack[cut]].index < stack.links[stack.stack[cut
                    + j]].index);
            }
        }
        if stack.links.contains_key(x) && stack.links[x].index >= stack.links[vertex].index {
            let i = choose|i: int| 0 <= i < stack.stack.len() && stack.stack[i] == x;
            if i < cut {
                assert(stack.links[stack.stack[i]].index < stack.links[stack.stack[cut]].index);
            }
            assert(popped[i - cut] == x);
        }
    }
    assert forall|x: VertexId| next.links.contains_key(x) <==> next.stack.contains(x) by {
        if rest.contains(x) {
            let i = choose|i: int| 0 <= i < rest.len() && rest[i] == x;
            assert(stack.stack[i] == x);
            assert(stack.stack.contains(x));
            assert(stack.links[stack.stack[i]].index < stack.links[stack.stack[cut]].index);
        }
        if next.links.contains_key(x) {
            let i = choose|i: int| 0 <= i < stack.stack.len() && stack.stack[i] == x;
            if i >= cut {
                assert(popped[i - cut] == x);
            }
            assert(rest[i] == x);
        }
    }
    assert forall|i: int, j: int| 0 <= i < j < next.stack.len() implies next.links[
    #[trigger] next.stack[i]].index < next.links[#[trigger] next.stack[j]].index by {
        assert(rest[i] == stack.stack[i]);
        assert(rest[j] == stack.stack[j]);
        assert(rest.contains(rest[i]));
        assert(rest.contains(rest[j]));
        assert(stack.links[stack.stack[i]].index < stack.links[stack.stack[j]].index);
    }
    assert forall|x: VertexId| #[trigger] next.links.contains_key(x) implies next.links[x].low_link
        <= next.links[x].index < next.next_index by {
        assert(stack.links.contains_key(x));
    }
}

/// A vertex that begins keeps the invariant: pushed on the stack, it is
/// the innermost open vertex, and its low link accounts for no edge yet.
///
/// The vertex is new, and either nothing is open or an edge leads to it
/// from the innermost open vertex.
pub proof fn lemma_env_push(
    graph: GraphView,
    explored: Set<VertexId>,
    open: Set<VertexId>,
    stack: StackView,
    vertex: VertexId,
    parent: Option<VertexId>,
)
    requires
        env(graph, explored, open, stack),
        graph.contains(vertex),
        !explored.contains(vertex),
        match parent {
            Some(from) => is_top(stack, open, from) && graph.has_edge(from, vertex),
            None => forall|z: VertexId| !open.contains(z),
        },
    ensures
        env(graph, explored.insert(vertex), open.insert(vertex), stack.push(vertex)),
        is_top(stack.push(vertex), open.insert(vertex), vertex),
        accounted(graph, stack.push(vertex), vertex, 0),
{
    let next = stack.push(vertex);
    let explored2 = explored.insert(vertex);
    let open2 = open.insert(vertex);
    assert(!stack.links.contains_key(vertex));
    lemma_sorted_push(stack, vertex);
    lemma_reaches_self(graph, vertex);
    assert(contained(graph, explored2, open2, next));
    assert forall|x: VertexId| next.links.contains_key(x) implies #[trigger] has_low(
        graph,
        next,
        x,
    ) by {
        if x == vertex {
            assert(next.links.contains_key(vertex) && next.links[vertex].index
                == next.links[x].low_link && reaches(graph, x, vertex));
        } else {
            assert(stack.links.contains_key(x));
            assert(has_low(graph, stack, x));
            let y = choose|y: VertexId|
                stack.links.contains_key(y) && stack.links[y].index == stack.links[x].low_link
                    && #[trigger] reaches(graph, x, y);
            assert(next.links.contains_key(y) && next.links[y].index == next.links[x].low_link
                && reaches(graph, x, y));
        }
    }
    assert forall|x: VertexId, y: VertexId|
        next.links.contains_key(x) && next.links.contains_key(y) && next.links[x].index
            <= next.links[y].index implies #[trigger] reaches(graph, x, y) by {
        if y == vertex {
            if x != vertex {
                assert(stack.links.contains_key(x));
                assert(has_open(graph, open, stack, x));
                let z = choose|z: VertexId|
                    open.contains(z) && stack.links.contains_key(z) && stack.links[z].index
                        <= stack.links[x].index && #[trigger] reaches(graph, x, z);
                match parent {
                    Some(from) => {
                        assert(stack.links.contains_key(z) && stack.links.contains_key(from));
                        assert(reaches(graph, z, from));
                        lemma_reaches_first(graph, from, vertex, vertex);
                        lemma_reaches_trans(graph, x, z, from);
                        lemma_reaches_trans(graph, x, from, vertex);
                    },
                    None => {},
                }
            }
        } else {
            assert(stack.links.contains_key(y));
            if x != vertex {
                assert(stack.links.contains_key(x));
            }
        }
    }
    assert forall|y: VertexId| next.links.contains_key(y) implies #[trigger] has_open(
        graph,
        open2,
        next,
        y,
    ) by {
        if y == vertex {
            assert(open2.contains(vertex) && next.links.contains_key(vertex) && reaches(
                graph,
                y,
                vertex,
            ));
        } else {
            assert(stack.links.contains_key(y));
            assert(has_open(graph, open, stack, y));
            let z = choose|z: VertexId|
                open.contains(z) && stack.links.contains_key(z) && stack.links[z].index
                    <= stack.links[y].index && #[trigger] reaches(graph, y, z);
            assert(open2.contains(z) && next.links.contains_key(z) && next.links[z].index
                <= next.links[y].index && reaches(graph, y, z));
        }
    }
    assert(followed(graph, explored2, open2));
    assert(done(explored2, next) =~= done(explored, stack));
    assert forall|z: VertexId| #[trigger] open2.contains(z) implies next.links[z].index
        <= next.links[vertex].index by {
        if z != vertex {
            assert(stack.links.contains_key(z));
        }
    }
    assert forall|x: VertexId, y: VertexId|
        next.links.contains_key(x) && next.links[x].index > next.links[vertex].index
            && #[trigger] graph.has_edge(x, y) && next.links.contains_key(y)
            implies next.links[vertex].low_link <= next.links[y].index by {
        assert(stack.links.contains_key(x));
    }
}

/// An edge that ends keeps the invariant: the low link of its start does
/// not grow and is at most the low link of its target, if the target is on
/// the stack, and nothing else changes on the stack.
pub proof fn lemma_env_edge(
    graph: GraphView,
    explored: Set<VertexId>,
    open: Set<VertexId>,
    stack: StackView,
    from: VertexId,
    to: VertexId,
)
    requires
        env(graph, explored, open, stack),
        stack.links.contains_key(from),
        graph.has_edge(from, to),
    ensures
        env(graph, explored, open, stack.update_with_minimum(from, to)),
        same_but_low(stack, stack.update_with_minimum(from, to), from),
        stack.links.contains_key(to) ==> stack.update_with_minimum(from, to).links[from].low_link
            <= stack.links[to].low_link,
{
    let next = stack.update_with_minimum(from, to);
    lemma_sorted_update(stack, from, to);
    assert(next.links.dom() =~= stack.links.dom());
    assert forall|x: VertexId| next.links.contains_key(x) implies #[trigger] has_low(
        graph,
        next,
        x,
    ) by {
        assert(stack.links.contains_key(x));
        if x == from && next.links[from].low_link != stack.links[from].low_link {
            assert(stack.links.contains_key(to));
            assert(has_low(graph, stack, to));
            let y = choose|y: VertexId|
                stack.links.contains_key(y) && stack.links[y].index == stack.links[to].low_link
                    && #[trigger] reaches(graph, to, y);
            lemma_reaches_first(graph, from, to, y);
            assert(next.links.contains_key(y) && next.links[y].index == next.links[x].low_link
                && reaches(graph, x, y));
        } else {
            assert(has_low(graph, stack, x));
            let y = choose|y: VertexId|
                stack.links.contains_key(y) && stack.links[y].index == stack.links[x].low_link
                    && #[trigger] reaches(graph, x, y);
            assert(next.links.contains_key(y) && next.links[y].index == next.links[x].low_link
                && reaches(graph, x, y));
        }
    }
    assert forall|x: VertexId, y: VertexId|
        next.links.contains_key(x) && next.links.contains_key(y) && next.links[x].index
            <= next.links[y].index implies #[trigger] reaches(graph, x, y) by {
        assert(stack.links.contains_key(x) && stack.links.contains_key(y));
    }
    assert forall|y: VertexId| next.links.contains_key(y) implies #[trigger] has_open(
        graph,
        open,
        next,
        y,
    ) by {
        assert(stack.links.contains_key(y));
        assert(has_open(graph, open, stack, y));
        let z = choose|z: VertexId|
            open.contains(z) && stack.links.contains_key(z) && stack.links[z].index
                <= stack.links[y].index && #[trigger] reaches(graph, y, z);
        assert(open.contains(z) && next.links.contains_key(z) && next.links[z].index
            <= next.links[y].index && reaches(graph, y, z));
    }
    assert(contained(graph, explored, open, next)) by {
        assert forall|x: VertexId| #[trigger] next.links.contains_key(x) implies explored.contains(
            x,
        ) by {
            assert(stack.links.contains_key(x));
        }
    }
    assert(done(explored, next) =~= done(explored, stack)) by {
        assert forall|x: VertexId| next.links.contains_key(x) <==> stack.links.contains_key(x) by {
            assert(next.links.dom().contains(x) <==> stack.links.dom().contains(x));
        }
    }
}

/// Whether `after` is `before` with at most the low link of `vertex`
/// lowered.
pub open spec fn same_but_low(before: StackView, after: StackView, vertex: VertexId) -> bool {
    &&& after.next_index == before.next_index
    &&& forall|x: VertexId|
        #![trigger after.links.contains_key(x)]
        #![trigger before.links.contains_key(x)]
        after.links.contains_key(x) <==> before.links.contains_key(x)
    &&& forall|x: VertexId| #[trigger]
        before.links.contains_key(x) ==> after.links[x].index == before.links[x].index && (x
            != vertex ==> after.links[x] == before.links[x])
    &&& before.links.contains_key(vertex) ==> after.links[vertex].low_link
        <= before.links[vertex].low_link
}

/// The end of a vertex that is not the root of its component keeps the
/// invariant, with the vertex no longer open. All its edges lead to
/// explored vertices.
pub proof fn lemma_env_end(
    graph: GraphView,
    explored: Set<VertexId>,
    open: Set<VertexId>,
    stack: StackView,
    vertex: VertexId,
)
    requires
        env(graph, explored, open.insert(vertex), stack),
        !open.contains(vertex),
        is_top(stack, open.insert(vertex), vertex),
        stack.links[vertex].low_link < stack.links[vertex].index,
        forall|y: VertexId| #[trigger] graph.has_edge(vertex, y) ==> explored.contains(y),
    ensures
        env(graph, explored, open, stack),
{
    let open1 = open.insert(vertex);
    assert(has_low(graph, stack, vertex));
    let lower = choose|y: VertexId|
        stack.links.contains_key(y) && stack.links[y].index == stack.links[vertex].low_link
            && #[trigger] reaches(graph, vertex, y);
    assert(has_open(graph, open1, stack, lower));
    let ground = choose|z: VertexId|
        open1.contains(z) && stack.links.contains_key(z) && stack.links[z].index
            <= stack.links[lower].index && #[trigger] reaches(graph, lower, z);
    assert(ground != vertex);
    lemma_reaches_trans(graph, vertex, lower, ground);
    assert forall|y: VertexId| stack.links.contains_key(y) implies #[trigger] has_open(
        graph,
        open,
        stack,
        y,
    ) by {
        assert(has_open(graph, open1, stack, y));
        let z = choose|z: VertexId|
            open1.contains(z) && stack.links.contains_key(z) && stack.links[z].index
                <= stack.links[y].index && #[trigger] reaches(graph, y, z);
        if z == vertex {
            lemma_reaches_trans(graph, y, vertex, ground);
            assert(open.contains(ground) && stack.links.contains_key(ground)
                && stack.links[ground].index <= stack.links[y].index && reaches(
                graph,
                y,
                ground,
            ));
        } else {
            assert(open.contains(z) && stack.links.contains_key(z) && stack.links[z].index
                <= stack.links[y].index && reaches(graph, y, z));
        }
    }
    assert(contained(graph, explored, open, stack)) by {
        assert forall|x: VertexId| #[trigger] open.contains(x) implies stack.links.contains_key(
            x,
        ) by {
            assert(open1.contains(x));
        }
    }
    assert forall|x: VertexId, y: VertexId|
        explored.contains(x) && !open.contains(x) && #[trigger] graph.has_edge(
            x,
            y,
        ) implies explored.contains(y) by {
        if x != vertex {
            assert(!open1.contains(x));
        }
    }
}

/// The end of a vertex that is the root of its component keeps the
/// invariant, with the vertex no longer open and everything from it
/// upwards popped, and what is popped is a strongly connected component.
/// All edges of the vertex lead to explored vertices, and its low link
/// accounts for all edges.
pub proof fn lemma_env_pop(
    graph: GraphView,
    explored: Set<VertexId>,
    open: Set<VertexId>,
    stack: StackView,
    vertex: VertexId,
)
    requires
        graph.wf(),
        env(graph, explored, open.insert(vertex), stack),
        !open.contains(vertex),
        is_top(stack, open.insert(vertex), vertex),
        stack.links[vertex].low_link == stack.links[vertex].index,
        forall|y: VertexId| #[trigger] graph.has_edge(vertex, y) ==> explored.contains(y),
        accounted(graph, stack, vertex, graph.out_neighbors(vertex).len()),
    ensures
        env(graph, explored, open, stack.pop_until(vertex)),
        is_scc(graph, stack.above(vertex)),
{
    let open1 = open.insert(vertex);
    let next = stack.pop_until(vertex);
    let component = stack.above(vertex);
    let before = done(explored, stack);
    let after = done(explored, next);
    let height = stack.links[vertex].index;
    lemma_sorted_pop(stack, vertex);
    assert(component.contains(vertex));
    assert forall|x: VertexId| #[trigger] component.contains(x) && x != vertex implies !open1.contains(
        x,
    ) && stack.links[x].index > height by {
        if stack.links[x].index == height {
            lemma_sorted_index(stack, x, vertex);
        }
        if open1.contains(x) {
            lemma_sorted_index(stack, x, vertex);
        }
    }
    assert forall|x: VertexId, y: VertexId|
        component.contains(x) && #[trigger] graph.has_edge(x, y) implies after.contains(y) by {
        if x == vertex {
            lemma_targets_from(graph.edges, vertex);
            let neighbours = graph.out_neighbors(vertex);
            assert(neighbours.contains(y));
            let j = choose|j: int| 0 <= j < neighbours.len() && neighbours[j] == y;
            if stack.links.contains_key(y) {
                assert(stack.links.contains_key(neighbours[j]));
                assert(stack.links[vertex].low_link <= stack.links[neighbours[j]].index);
            }
        } else {
            assert(explored.contains(x) && !open1.contains(x));
        }
    }
    assert(is_closed(graph, after)) by {
        assert forall|x: VertexId, y: VertexId|
            after.contains(x) && #[trigger] graph.has_edge(x, y) implies after.contains(y) by {
            if !component.contains(x) {
                assert(before.contains(x));
                assert(before.contains(y));
            }
        }
    }
    assert(contained(graph, explored, open, next)) by {
        assert forall|x: VertexId| #[trigger] open.contains(x) implies next.links.contains_key(
            x,
        ) by {
            assert(open1.contains(x));
            if stack.links[x].index == height {
                lemma_sorted_index(stack, x, vertex);
            }
        }
    }
    assert forall|x: VertexId| next.links.contains_key(x) implies #[trigger] has_low(
        graph,
        next,
        x,
    ) by {
        assert(stack.links.contains_key(x));
        assert(has_low(graph, stack, x));
        let y = choose|y: VertexId|
            stack.links.contains_key(y) && stack.links[y].index == stack.links[x].low_link
                && #[trigger] reaches(graph, x, y);
        assert(next.links.contains_key(y) && next.links[y].index == next.links[x].low_link
            && reaches(graph, x, y));
    }
    assert forall|x: VertexId, y: VertexId|
        next.links.contains_key(x) && next.links.contains_key(y) && next.links[x].index
            <= next.links[y].index implies #[trigger] reaches(graph, x, y) by {
        assert(stack.links.contains_key(x) && stack.links.contains_key(y));
    }
    assert forall|y: VertexId| next.links.contains_key(y) implies #[trigger] has_open(
        graph,
        open,
        next,
        y,
    ) by {
        assert(stack.links.contains_key(y));
        assert(has_open(graph, open1, stack, y));
        let z = choose|z: VertexId|
            open1.contains(z) && stack.links.contains_key(z) && stack.links[z].index
                <= stack.links[y].index && #[trigger] reaches(graph, y, z);
        assert(open.contains(z) && next.links.contains_key(z) && next.links[z].index
            <= next.links[y].index && reaches(graph, y, z));
    }
    assert forall|x: VertexId, y: VertexId|
        explored.contains(x) && !open.contains(x) && #[trigger] graph.has_edge(
            x,
            y,
        ) implies explored.contains(y) by {
        if x != vertex {
            assert(!open1.contains(x));
        }
    }
    assert forall|x: VertexId| #[trigger] component.contains(x) implies reaches(graph, vertex, x)
        && reaches(graph, x, vertex) by {
        assert(stack.links.contains_key(vertex) && stack.links.contains_key(x));
        assert(has_open(graph, open1, stack, x));
        let z = choose|z: VertexId|
            open1.contains(z) && stack.links.contains_key(z) && stack.links[z].index
                <= stack.links[x].index && #[trigger] reaches(graph, x, z);
        if z != vertex {
            assert(after.contains(x));
            lemma_closed_reaches(graph, after, x, z);
            if stack.links[z].index == height {
                lemma_sorted_index(stack, z, vertex);
            }
        }
    }
    assert forall|x: VertexId, y: VertexId|
        #![trigger component.contains(x), component.contains(y)]
        component.contains(x) implies (component.contains(y) <==> reaches(graph, x, y) && reaches(
            graph,
            y,
            x,
        )) by {
        if component.contains(y) {
            lemma_reaches_trans(graph, x, vertex, y);
            lemma_reaches_trans(graph, y, vertex, x);
        }
        if reaches(graph, x, y) && reaches(graph, y, x) {
            assert(after.contains(x));
            lemma_closed_reaches(graph, after, x, y);
            if before.contains(y) {
                lemma_closed_reaches(graph, before, y, x);
            }
        }
    }
}

} // verus!
