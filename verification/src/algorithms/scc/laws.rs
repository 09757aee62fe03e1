//! Why the components that the algorithm hands out are the strongly
//! connected components of the graph.

use super::order::{
    accounted, done, env, is_scc, is_top, lemma_env_edge, lemma_env_end, lemma_env_pop, lemma_env_push, lemma_sorted_pop, same_but_low, sorted,
};
use super::run::{absorb, components, lemma_absorb_concat, lemma_absorb_single};
use super::stack::StackView;
use crate::algorithms::enumeration::detailed::events::{
    begun, explore, forest, graph_events, lemma_begun_explore, lemma_begun_visit, lemma_unexplored_cost_union, unexplored, visit,
};
use crate::algorithms::enumeration::detailed::laws::{
    lemma_explore_begun, lemma_forest_run, lemma_visit_begun,
};
use crate::algorithms::enumeration::detailed::tree::{
    lemma_targets_in_graph, lemma_unexplored_cost_insert, DFSEntry,
};
use crate::graph::{lemma_targets_from, Edge, GraphView, VertexId};
use vstd::prelude::*;

verus! {

/// Whether `after` is `before` grown: what `before` holds, `after` holds
/// with the same links, and what is new in `after` has an index that was
/// not given out in `before` and is among `news`.
pub open spec fn grown(before: StackView, after: StackView, news: Set<VertexId>) -> bool {
    &&& before.next_index <= after.next_index
    &&& forall|x: VertexId| #[trigger]
        before.links.contains_key(x) ==> after.links.contains_key(x) && after.links[x]
            == before.links[x]
    &&& forall|x: VertexId| #[trigger]
        after.links.contains_key(x) ==> before.links.contains_key(x) || (after.links[x].index
            >= before.next_index && news.contains(x))
}

/// Whether `after` is `before` grown, but for the low link of `top`, which
/// may be lower.
pub open spec fn grown_but_low(
    before: StackView,
    after: StackView,
    news: Set<VertexId>,
    top: VertexId,
) -> bool {
    &&& before.next_index <= after.next_index
    &&& forall|x: VertexId| #[trigger]
        before.links.contains_key(x) ==> after.links.contains_key(x) && after.links[x].index
            == before.links[x].index && (x != top ==> after.links[x] == before.links[x])
    &&& before.links.contains_key(top) ==> after.links[top].low_link
        <= before.links[top].low_link
    &&& forall|x: VertexId| #[trigger]
        after.links.contains_key(x) ==> before.links.contains_key(x) || (after.links[x].index
            >= before.next_index && news.contains(x))
}

/// Whether `x` is in one of the components `found`.
pub open spec fn in_some(found: Seq<Set<VertexId>>, x: VertexId) -> bool {
    exists|k: int| 0 <= k < found.len() && (#[trigger] found[k]).contains(x)
}

/// Whether `x` is in one of the first `upto` of the components `found`.
pub open spec fn in_first(found: Seq<Set<VertexId>>, upto: int, x: VertexId) -> bool {
    exists|i: int| 0 <= i < upto && i < found.len() && (#[trigger] found[i]).contains(x)
}

/// Whether the components `found` are what became of the vertices `news`
/// that are not on the stack: each is a strongly connected component of
/// vertices of `news` that are not on the stack, each vertex of `news` is
/// on the stack or in one of them, no two of them share a vertex, and each
/// edge from one of them leads to the same one, to an earlier one, or to a
/// vertex of `base`, the vertices that were done before.
pub open spec fn emitted(
    graph: GraphView,
    found: Seq<Set<VertexId>>,
    news: Set<VertexId>,
    after: StackView,
    base: Set<VertexId>,
) -> bool {
    &&& forall|k: int, x: VertexId, y: VertexId|
        0 <= k < found.len() && #[trigger] found[k].contains(x) && #[trigger] graph.has_edge(x, y)
            ==> base.contains(y) || in_first(found, k + 1, y)
    &&& forall|k: int| 0 <= k < found.len() ==> is_scc(graph, #[trigger] found[k])
    &&& forall|k: int, x: VertexId|
        0 <= k < found.len() && #[trigger] found[k].contains(x) ==> news.contains(x)
            && !after.links.contains_key(x)
    &&& forall|x: VertexId|
        news.contains(x) ==> after.links.contains_key(x) || #[trigger] in_some(found, x)
    &&& forall|k: int, l: int|
        0 <= k < l < found.len() ==> (#[trigger] found[k]).disjoint(#[trigger] found[l])
}

/// Whether the low link of `vertex`, if the visit has left it on the stack,
/// is at most the index of the target of each edge from a vertex that the
/// visit has left on the stack to a vertex that was on the stack before;
/// and whether the visit has left nothing on the stack if it has not left
/// `vertex` there.
pub open spec fn settled(
    graph: GraphView,
    before: StackView,
    after: StackView,
    vertex: VertexId,
) -> bool {
    &&& after.links.contains_key(vertex) && !before.links.contains_key(vertex) ==> forall|
        x: VertexId,
        y: VertexId,
    |
        after.links.contains_key(x) && !before.links.contains_key(x) && #[trigger] graph.has_edge(
            x,
            y,
        ) && before.links.contains_key(y) ==> after.links[vertex].low_link
            <= before.links[y].index
    &&& !after.links.contains_key(vertex) || before.links.contains_key(vertex) ==> forall|
        x: VertexId,
    | #[trigger]
        after.links.contains_key(x) ==> before.links.contains_key(x)
}

/// Taking in the events of an edge: those of the visit of its target, then
/// the end of the edge, then the events after it.
pub proof fn lemma_absorb_edge(
    stack: StackView,
    edge: Edge,
    inner: Seq<DFSEntry>,
    rest: Seq<DFSEntry>,
)
    ensures
        ({
            let events = seq![DFSEntry::BeginEdge(edge)] + inner + seq![DFSEntry::EndEdge(edge)]
                + rest;
            let first = absorb(stack, inner);
            let ended = first.0.update_with_minimum(edge.0, edge.1);
            let last = absorb(ended, rest);
            absorb(stack, events) == (last.0, first.1 + last.1)
        }),
{
    let open = seq![DFSEntry::BeginEdge(edge)];
    let close = seq![DFSEntry::EndEdge(edge)];
    let none = Seq::<Set<VertexId>>::empty();
    lemma_absorb_concat(stack, open + inner + close, rest);
    lemma_absorb_concat(stack, open + inner, close);
    lemma_absorb_concat(stack, open, inner);
    lemma_absorb_single(stack, DFSEntry::BeginEdge(edge));
    let first = absorb(stack, inner);
    lemma_absorb_single(first.0, DFSEntry::EndEdge(edge));
    let ended = first.0.update_with_minimum(edge.0, edge.1);
    let last = absorb(ended, rest);
    assert(none + first.1 + none + last.1 =~= first.1 + last.1);
}

/// Taking in the events of a vertex: its begin, then the events of its
/// edges, then its end.
pub proof fn lemma_absorb_vertex(stack: StackView, vertex: VertexId, rest: Seq<DFSEntry>)
    ensures
        ({
            let events = seq![DFSEntry::BeginVertex(vertex)] + rest + seq![
                DFSEntry::EndVertex(vertex),
            ];
            let middle = absorb(stack.push(vertex), rest);
            let last = middle.0.take_in(DFSEntry::EndVertex(vertex));
            absorb(stack, events) == (
                last.0,
                match last.1 {
                    Some(component) => middle.1.push(component),
                    None => middle.1,
                },
            )
        }),
{
    let head = seq![DFSEntry::BeginVertex(vertex)];
    let tail = seq![DFSEntry::EndVertex(vertex)];
    let none = Seq::<Set<VertexId>>::empty();
    lemma_absorb_concat(stack, head + rest, tail);
    lemma_absorb_concat(stack, head, rest);
    lemma_absorb_single(stack, DFSEntry::BeginVertex(vertex));
    let middle = absorb(stack.push(vertex), rest);
    lemma_absorb_single(middle.0, DFSEntry::EndVertex(vertex));
    let last = middle.0.take_in(DFSEntry::EndVertex(vertex));
    match last.1 {
        Some(component) => {
            assert(none + middle.1 + seq![component] =~= middle.1.push(component));
        },
        None => {
            assert(none + middle.1 + none =~= middle.1);
        },
    }
}

/// After the visit of the target of an edge and the end of the edge, the
/// low link of the start of the edge accounts for one edge more.
pub proof fn lemma_accounted_step(
    graph: GraphView,
    before: StackView,
    visited: StackView,
    ended: StackView,
    news: Set<VertexId>,
    top: VertexId,
    at: nat,
)
    requires
        sorted(before),
        sorted(visited),
        before.links.contains_key(top),
        at < graph.out_neighbors(top).len(),
        accounted(graph, before, top, at),
        grown(before, visited, news),
        settled(graph, before, visited, graph.out_neighbors(top)[at as int]),
        same_but_low(visited, ended, top),
        visited.links.contains_key(graph.out_neighbors(top)[at as int])
            ==> ended.links[top].low_link <= visited.links[graph.out_neighbors(
            top,
        )[at as int]].low_link,
    ensures
        accounted(graph, ended, top, at + 1),
        grown_but_low(before, ended, news, top),
{
    let target = graph.out_neighbors(top)[at as int];
    assert(visited.links.contains_key(top));
    assert forall|x: VertexId| #[trigger] before.links.contains_key(x) implies ended.links.contains_key(
        x,
    ) && ended.links[x].index == before.links[x].index && (x != top ==> ended.links[x]
        == before.links[x]) by {
        assert(visited.links.contains_key(x));
    }
    assert forall|x: VertexId| #[trigger] ended.links.contains_key(x) implies before.links.contains_key(
        x,
    ) || (ended.links[x].index >= before.next_index && news.contains(x)) by {
        assert(visited.links.contains_key(x));
    }
    assert forall|j: int|
        0 <= j < at + 1 && j < graph.out_neighbors(top).len() && ended.links.contains_key(
            #[trigger] graph.out_neighbors(top)[j],
        ) implies ended.links[top].low_link <= ended.links[graph.out_neighbors(top)[j]].index by {
        let y = graph.out_neighbors(top)[j];
        assert(visited.links.contains_key(y));
        if j == at {
        } else if before.links.contains_key(y) {
        } else {
        }
    }
    assert forall|x: VertexId, y: VertexId|
        ended.links.contains_key(x) && ended.links[x].index > ended.links[top].index
            && #[trigger] graph.has_edge(x, y) && ended.links.contains_key(y)
            implies ended.links[top].low_link <= ended.links[y].index by {
        assert(visited.links.contains_key(x));
        assert(visited.links.contains_key(y));
        if before.links.contains_key(y) {
            if before.links.contains_key(x) {
            } else {
                assert(visited.links.contains_key(target));
            }
        }
    }
}

/// The components of two parts of a traversal, one after the other, are
/// what became of the vertices of both parts, if the second part has left
/// on the stack what the first part has left there, and no vertex is of
/// both parts.
pub proof fn lemma_emitted_concat(
    graph: GraphView,
    first: Seq<Set<VertexId>>,
    first_news: Set<VertexId>,
    between: StackView,
    second: Seq<Set<VertexId>>,
    second_news: Set<VertexId>,
    after: StackView,
    base: Set<VertexId>,
    middle: Set<VertexId>,
)
    requires
        emitted(graph, first, first_news, between, base),
        emitted(graph, second, second_news, after, middle),
        forall|x: VertexId| #[trigger] middle.contains(x) ==> base.contains(x) || in_some(first, x),
        first_news.disjoint(second_news),
        forall|x: VertexId| #[trigger]
            between.links.contains_key(x) ==> after.links.contains_key(x),
        forall|x: VertexId| #[trigger]
            after.links.contains_key(x) ==> between.links.contains_key(x) || second_news.contains(
                x,
            ),
    ensures
        emitted(graph, first + second, first_news.union(second_news), after, base),
{
    let found = first + second;
    let news = first_news.union(second_news);
    assert forall|k: int, x: VertexId, y: VertexId|
        0 <= k < found.len() && #[trigger] found[k].contains(x) && #[trigger] graph.has_edge(
            x,
            y,
        ) implies base.contains(y) || in_first(found, k + 1, y) by {
        if k < first.len() {
            assert(first[k].contains(x));
            if !base.contains(y) {
                assert(in_first(first, k + 1, y));
                let i = choose|i: int|
                    0 <= i < k + 1 && i < first.len() && (#[trigger] first[i]).contains(y);
                assert(found[i].contains(y));
            }
        } else {
            let at = k - first.len();
            assert(second[at].contains(x));
            if middle.contains(y) {
                if !base.contains(y) {
                    assert(in_some(first, y));
                    let i = choose|i: int|
                        0 <= i < first.len() && (#[trigger] first[i]).contains(y);
                    assert(found[i].contains(y));
                }
            } else {
                assert(in_first(second, at + 1, y));
                let i = choose|i: int|
                    0 <= i < at + 1 && i < second.len() && (#[trigger] second[i]).contains(y);
                assert(found[first.len() + i].contains(y));
            }
        }
    }
    assert forall|k: int| 0 <= k < found.len() implies is_scc(graph, #[trigger] found[k]) by {
        if k < first.len() {
            assert(found[k] == first[k]);
        } else {
            assert(found[k] == second[k - first.len()]);
        }
    }
    assert forall|k: int, x: VertexId|
        0 <= k < found.len() && #[trigger] found[k].contains(x) implies news.contains(x)
            && !after.links.contains_key(x) by {
        if k < first.len() {
            assert(first[k].contains(x));
        } else {
            assert(second[k - first.len()].contains(x));
        }
    }
    assert forall|x: VertexId| news.contains(x) implies after.links.contains_key(x)
        || #[trigger] in_some(found, x) by {
        if first_news.contains(x) {
            if !between.links.contains_key(x) {
                assert(in_some(first, x));
                let k = choose|k: int| 0 <= k < first.len() && (#[trigger] first[k]).contains(x);
                assert(found[k].contains(x));
            }
        } else {
            if !after.links.contains_key(x) {
                assert(in_some(second, x));
                let k = choose|k: int|
                    0 <= k < second.len() && (#[trigger] second[k]).contains(x);
                assert(found[first.len() + k].contains(x));
            }
        }
    }
    assert forall|k: int, l: int| 0 <= k < l < found.len() implies (#[trigger] found[k]).disjoint(
        #[trigger] found[l],
    ) by {
        if l < first.len() {
            assert(first[k].disjoint(first[l]));
        } else if k >= first.len() {
            assert(second[k - first.len()].disjoint(second[l - first.len()]));
        } else {
            assert forall|x: VertexId| !(found[k].contains(x) && found[l].contains(x)) by {
                if found[k].contains(x) && found[l].contains(x) {
                    assert(first[k].contains(x));
                    assert(second[l - first.len()].contains(x));
                }
            }
        }
    }
}

/// No components are what became of no vertices.
pub proof fn lemma_emitted_none(graph: GraphView, stack: StackView, base: Set<VertexId>)
    ensures
        emitted(graph, Seq::empty(), Set::empty(), stack, base),
{
}

/// With the vertex of a visit left on the stack, the components of its
/// edges are what became of the vertices of the visit.
pub proof fn lemma_emitted_kept(
    graph: GraphView,
    found: Seq<Set<VertexId>>,
    news: Set<VertexId>,
    after: StackView,
    vertex: VertexId,
    base: Set<VertexId>,
    inner: Set<VertexId>,
)
    requires
        emitted(graph, found, news, after, inner),
        after.links.contains_key(vertex),
        forall|x: VertexId| #[trigger] inner.contains(x) ==> base.contains(x),
    ensures
        emitted(graph, found, news.insert(vertex), after, base),
{
    assert forall|x: VertexId| news.insert(vertex).contains(x) implies after.links.contains_key(x)
        || #[trigger] in_some(found, x) by {
        if x != vertex {
            assert(news.contains(x));
        }
    }
}

/// With the vertex of a visit popped as the root of a component, the
/// components of its edges and that component are what became of the
/// vertices of the visit.
pub proof fn lemma_emitted_popped(
    graph: GraphView,
    found: Seq<Set<VertexId>>,
    news: Set<VertexId>,
    before: StackView,
    vertex: VertexId,
    base: Set<VertexId>,
    inner: Set<VertexId>,
)
    requires
        sorted(before),
        emitted(graph, found, news, before, inner),
        before.links.contains_key(vertex),
        is_scc(graph, before.above(vertex)),
        forall|x: VertexId| #[trigger]
            before.above(vertex).contains(x) ==> x == vertex || news.contains(x),
        forall|x: VertexId| #[trigger] inner.contains(x) ==> base.contains(x),
        forall|x: VertexId, y: VertexId|
            before.above(vertex).contains(x) && #[trigger] graph.has_edge(x, y) ==> (base.contains(
                y,
            ) || news.insert(vertex).contains(y)) && !before.pop_until(vertex).links.contains_key(
                y,
            ),
    ensures
        emitted(
            graph,
            found.push(before.above(vertex)),
            news.insert(vertex),
            before.pop_until(vertex),
            base,
        ),
{
    let component = before.above(vertex);
    let after = before.pop_until(vertex);
    let all = found.push(component);
    let wide = news.insert(vertex);
    lemma_sorted_pop(before, vertex);
    assert forall|k: int| 0 <= k < all.len() implies is_scc(graph, #[trigger] all[k]) by {
        if k < found.len() {
            assert(all[k] == found[k]);
        }
    }
    assert forall|k: int, x: VertexId|
        0 <= k < all.len() && #[trigger] all[k].contains(x) implies wide.contains(x)
            && !after.links.contains_key(x) by {
        if k < found.len() {
            assert(found[k].contains(x));
        }
    }
    assert forall|x: VertexId| wide.contains(x) implies after.links.contains_key(x)
        || #[trigger] in_some(all, x) by {
        if before.links.contains_key(x) {
            if !after.links.contains_key(x) {
                assert(component.contains(x));
                assert(all[found.len() as int].contains(x));
            }
        } else {
            assert(x != vertex);
            assert(in_some(found, x));
            let k = choose|k: int| 0 <= k < found.len() && (#[trigger] found[k]).contains(x);
            assert(all[k].contains(x));
        }
    }
    assert forall|k: int, l: int| 0 <= k < l < all.len() implies (#[trigger] all[k]).disjoint(
        #[trigger] all[l],
    ) by {
        if l < found.len() {
            assert(found[k].disjoint(found[l]));
        } else {
            assert forall|x: VertexId| !(all[k].contains(x) && all[l].contains(x)) by {
                if all[k].contains(x) && all[l].contains(x) {
                    assert(found[k].contains(x));
                }
            }
        }
    }
    assert forall|k: int, x: VertexId, y: VertexId|
        0 <= k < all.len() && #[trigger] all[k].contains(x) && #[trigger] graph.has_edge(
            x,
            y,
        ) implies base.contains(y) || in_first(all, k + 1, y) by {
        if k < found.len() {
            assert(found[k].contains(x));
            if !inner.contains(y) {
                assert(in_first(found, k + 1, y));
                let i = choose|i: int|
                    0 <= i < k + 1 && i < found.len() && (#[trigger] found[i]).contains(y);
                assert(all[i].contains(y));
            }
        } else {
            assert(component.contains(x));
            if !base.contains(y) {
                assert(wide.contains(y) && !after.links.contains_key(y));
                assert(in_some(all, y));
                let i = choose|i: int| 0 <= i < all.len() && (#[trigger] all[i]).contains(y);
                assert(all[i].contains(y));
            }
        }
    }
}

/// What the visit of a vertex does to the algorithm.
///
/// The invariant holds afterwards, with the vertices of the visit
/// explored. The stack has grown by vertices of the visit; if the vertex is
/// among them its low link is settled, and else nothing is. The components
/// that were completed are what became of the vertices of the visit.
pub proof fn lemma_visit_scc(
    graph: GraphView,
    vertex: VertexId,
    explored: Set<VertexId>,
    open: Set<VertexId>,
    stack: StackView,
    parent: Option<VertexId>,
)
    requires
        graph.wf(),
        env(graph, explored, open, stack),
        match parent {
            Some(from) => is_top(stack, open, from) && graph.has_edge(from, vertex),
            None => forall|z: VertexId| !open.contains(z),
        },
    ensures
        ({
            let events = visit(graph, vertex, explored);
            let (after, found) = absorb(stack, events);
            &&& env(graph, explored.union(begun(events)), open, after)
            &&& grown(stack, after, begun(events))
            &&& settled(graph, stack, after, vertex)
            &&& emitted(graph, found, begun(events), after, done(explored, stack))
        }),
    decreases unexplored(graph, explored), 0nat,
{
    let events = visit(graph, vertex, explored);
    let (after, found) = absorb(stack, events);
    if explored.contains(vertex) || !graph.contains(vertex) {
        lemma_absorb_single(stack, DFSEntry::BeginVertex(vertex));
        crate::algorithms::enumeration::detailed::events::lemma_begun_single(
            DFSEntry::BeginVertex(vertex),
        );
        assert(explored.union(begun(events)) =~= explored);
        lemma_emitted_none(graph, stack, done(explored, stack));
    } else {
        let rest = explore(graph, vertex, 0, explored.insert(vertex));
        let inside = explored.insert(vertex);
        let open1 = open.insert(vertex);
        let pushed = stack.push(vertex);
        let news = begun(rest);
        assert(!stack.links.contains_key(vertex));
        assert(!open.contains(vertex));
        lemma_env_push(graph, explored, open, stack, vertex, parent);
        lemma_unexplored_cost_insert(graph, graph.vertex_count, explored, vertex);
        lemma_explore_scc(graph, vertex, 0, inside, open1, pushed);
        lemma_begun_visit(graph, vertex, explored);
        lemma_explore_begun(graph, vertex, 0, inside);
        lemma_absorb_vertex(stack, vertex, rest);
        let (middle, inner) = absorb(pushed, rest);
        let all = explored.union(begun(events));
        assert(all =~= inside.union(news));
        assert(begun(events) == news.insert(vertex));
        assert forall|y: VertexId| #[trigger] graph.has_edge(vertex, y) implies all.contains(y) by {
            lemma_targets_from(graph.edges, vertex);
            let neighbours = graph.out_neighbors(vertex);
            assert(neighbours.contains(y));
            let j = choose|j: int| 0 <= j < neighbours.len() && neighbours[j] == y;
            assert(all.contains(neighbours[j]));
        }
        assert(middle.links.contains_key(vertex));
        assert(middle.links[vertex].index == stack.next_index);
        assert forall|x: VertexId| #[trigger] stack.links.contains_key(x) implies middle.links.contains_key(
            x,
        ) && middle.links[x] == stack.links[x] by {
            assert(pushed.links.contains_key(x));
        }
        assert forall|x: VertexId| #[trigger] middle.links.contains_key(x) implies stack.links.contains_key(
            x,
        ) || (middle.links[x].index >= stack.next_index && news.insert(vertex).contains(x)) by {
            if pushed.links.contains_key(x) {
            } else {
            }
        }
        if middle.is_root(vertex) {
            let component = middle.above(vertex);
            lemma_env_pop(graph, all, open, middle, vertex);
            lemma_sorted_pop(middle, vertex);
            assert forall|x: VertexId| #[trigger] component.contains(x) implies x == vertex
                || news.contains(x) by {
                if stack.links.contains_key(x) {
                    assert(stack.links[x].index < stack.next_index);
                }
                if pushed.links.contains_key(x) {
                }
            }
            let base = done(explored, stack);
            assert(done(inside, pushed) =~= base);
            assert forall|x: VertexId, y: VertexId|
                component.contains(x) && #[trigger] graph.has_edge(x, y) implies (base.contains(y)
                    || news.insert(vertex).contains(y)) && !middle.pop_until(
                    vertex,
                ).links.contains_key(y) by {
                let last = middle.pop_until(vertex);
                assert(done(all, last).contains(x));
                assert(done(all, last).contains(y));
                if explored.contains(y) && stack.links.contains_key(y) {
                    assert(stack.links[y].index < stack.next_index);
                    assert(middle.links.contains_key(y));
                }
            }
            lemma_emitted_popped(graph, inner, news, middle, vertex, base, done(inside, pushed));
            assert forall|x: VertexId| #[trigger] after.links.contains_key(x) implies stack.links.contains_key(
                x,
            ) by {
                assert(middle.links.contains_key(x));
            }
            assert forall|x: VertexId| #[trigger] stack.links.contains_key(x) implies after.links.contains_key(
                x,
            ) && after.links[x] == stack.links[x] by {
                assert(stack.links[x].index < stack.next_index);
                assert(middle.links.contains_key(x));
            }
        } else {
            lemma_env_end(graph, all, open, middle, vertex);
            assert(done(inside, pushed) =~= done(explored, stack));
            lemma_emitted_kept(
                graph,
                inner,
                news,
                middle,
                vertex,
                done(explored, stack),
                done(inside, pushed),
            );
            assert forall|x: VertexId, y: VertexId|
                after.links.contains_key(x) && !stack.links.contains_key(x)
                    && #[trigger] graph.has_edge(x, y) && stack.links.contains_key(
                    y,
                ) implies after.links[vertex].low_link <= stack.links[y].index by {
                assert(middle.links.contains_key(y));
                if x == vertex {
                    lemma_targets_from(graph.edges, vertex);
                    let neighbours = graph.out_neighbors(vertex);
                    assert(neighbours.contains(y));
                    let j = choose|j: int| 0 <= j < neighbours.len() && neighbours[j] == y;
                    assert(middle.links.contains_key(neighbours[j]));
                } else {
                    assert(!pushed.links.contains_key(x));
                }
            }
        }
    }
}

/// What the edges of the innermost open vertex, from one of them on, do to
/// the algorithm.
///
/// The invariant holds afterwards, with the vertices that begin at the
/// edges explored, and the vertex is still the innermost open one. The
/// stack has grown by vertices that begin at the edges, but for the low
/// link of the vertex, which accounts for all its edges. All edges of the
/// vertex lead to explored vertices. The components that were completed
/// are what became of the vertices that begin at the edges.
pub proof fn lemma_explore_scc(
    graph: GraphView,
    vertex: VertexId,
    from: nat,
    explored: Set<VertexId>,
    open: Set<VertexId>,
    stack: StackView,
)
    requires
        graph.wf(),
        env(graph, explored, open, stack),
        is_top(stack, open, vertex),
        accounted(graph, stack, vertex, from),
        forall|j: int|
            0 <= j < from && j < graph.out_neighbors(vertex).len() ==> explored.contains(
                #[trigger] graph.out_neighbors(vertex)[j],
            ),
    ensures
        ({
            let events = explore(graph, vertex, from, explored);
            let (after, found) = absorb(stack, events);
            let all = explored.union(begun(events));
            &&& env(graph, all, open, after)
            &&& is_top(after, open, vertex)
            &&& accounted(graph, after, vertex, graph.out_neighbors(vertex).len())
            &&& grown_but_low(stack, after, begun(events), vertex)
            &&& emitted(graph, found, begun(events), after, done(explored, stack))
            &&& forall|j: int|
                0 <= j < graph.out_neighbors(vertex).len() ==> all.contains(
                    #[trigger] graph.out_neighbors(vertex)[j],
                )
        }),
    decreases unexplored(graph, explored), graph.out_neighbors(vertex).len() - from + 1,
{
    let neighbours = graph.out_neighbors(vertex);
    let events = explore(graph, vertex, from, explored);
    if from >= neighbours.len() {
        lemma_absorb_single(stack, DFSEntry::BeginVertex(vertex));
        crate::algorithms::enumeration::detailed::events::lemma_begun_single(
            DFSEntry::BeginVertex(vertex),
        );
        assert(explored.union(begun(events)) =~= explored);
        lemma_emitted_none(graph, stack, done(explored, stack));
    } else {
        let target = neighbours[from as int];
        let edge = Edge(vertex, target);
        let inner = visit(graph, target, explored);
        let first_news = begun(inner);
        let between = explored.union(first_news);
        let rest = explore(graph, vertex, from + 1, between);
        let second_news = begun(rest);
        assert(graph.contains(vertex));
        lemma_targets_in_graph(graph, vertex, from as int);
        lemma_visit_scc(graph, target, explored, open, stack, Some(vertex));
        lemma_visit_begun(graph, target, explored);
        let (visited, first) = absorb(stack, inner);
        assert(visited.links.contains_key(vertex));
        lemma_env_edge(graph, between, open, visited, vertex, target);
        let ended = visited.update_with_minimum(vertex, target);
        lemma_accounted_step(graph, stack, visited, ended, first_news, vertex, from);
        assert(is_top(ended, open, vertex)) by {
            assert forall|z: VertexId| #[trigger] open.contains(z) implies ended.links[z].index
                <= ended.links[vertex].index by {
                assert(stack.links.contains_key(z));
            }
        }
        assert forall|j: int|
            0 <= j < from + 1 && j < neighbours.len() implies between.contains(
            #[trigger] neighbours[j],
        ) by {
            if j < from {
                assert(explored.contains(neighbours[j]));
            }
        }
        lemma_unexplored_cost_union(graph, graph.vertex_count, explored, first_news);
        lemma_explore_scc(graph, vertex, from + 1, between, open, ended);
        lemma_explore_begun(graph, vertex, from + 1, between);
        let (after, second) = absorb(ended, rest);
        lemma_absorb_edge(stack, edge, inner, rest);
        lemma_begun_explore(graph, vertex, from, explored);
        assert(begun(events) == first_news.union(second_news));
        assert(explored.union(begun(events)) =~= between.union(second_news));
        assert(first_news.disjoint(second_news));
        let base = done(explored, stack);
        let middle = done(between, ended);
        assert(emitted(graph, first, first_news, ended, base)) by {
            assert forall|x: VertexId| first_news.contains(x) implies ended.links.contains_key(x)
                || #[trigger] in_some(first, x) by {
                assert(visited.links.contains_key(x) || in_some(first, x));
            }
        }
        assert forall|x: VertexId| #[trigger] middle.contains(x) implies base.contains(x)
            || in_some(first, x) by {
            if explored.contains(x) {
                if stack.links.contains_key(x) {
                    assert(visited.links.contains_key(x));
                }
            } else {
                assert(first_news.contains(x));
                assert(!visited.links.contains_key(x));
            }
        }
        lemma_emitted_concat(
            graph,
            first,
            first_news,
            ended,
            second,
            second_news,
            after,
            base,
            middle,
        );
        assert(grown_but_low(stack, after, begun(events), vertex)) by {
            assert forall|x: VertexId| #[trigger] stack.links.contains_key(x) implies after.links.contains_key(
                x,
            ) && after.links[x].index == stack.links[x].index && (x != vertex ==> after.links[x]
                == stack.links[x]) by {
                assert(ended.links.contains_key(x));
            }
            assert forall|x: VertexId| #[trigger] after.links.contains_key(x) implies stack.links.contains_key(
                x,
            ) || (after.links[x].index >= stack.next_index && begun(events).contains(x)) by {
                if ended.links.contains_key(x) {
                }
            }
            assert(ended.links.contains_key(vertex));
        }
    }
}

/// What the trees of the traversal of a whole graph from a root on do to
/// the algorithm, when nothing is open: the invariant holds afterwards, and
/// the components that were completed are what became of the vertices of
/// the trees.
pub proof fn lemma_forest_scc(
    graph: GraphView,
    root: nat,
    explored: Set<VertexId>,
    stack: StackView,
)
    requires
        graph.wf(),
        env(graph, explored, Set::empty(), stack),
    ensures
        ({
            let events = forest(graph, root, explored);
            let (after, found) = absorb(stack, events);
            &&& env(graph, explored.union(begun(events)), Set::empty(), after)
            &&& emitted(graph, found, begun(events), after, done(explored, stack))
        }),
    decreases graph.vertex_count - root,
{
    let nothing = Set::<VertexId>::empty();
    let events = forest(graph, root, explored);
    if root >= graph.vertex_count {
        lemma_absorb_single(stack, DFSEntry::BeginVertex(VertexId(0)));
        crate::algorithms::enumeration::detailed::events::lemma_begun_single(
            DFSEntry::BeginVertex(VertexId(0)),
        );
        assert(explored.union(begun(events)) =~= explored);
        lemma_emitted_none(graph, stack, done(explored, stack));
    } else {
        let vertex = VertexId(root as usize);
        let tree = visit(graph, vertex, explored);
        let between = explored.union(begun(tree));
        let rest = forest(graph, root + 1, between);
        lemma_visit_scc(graph, vertex, explored, nothing, stack, None);
        let (middle, first) = absorb(stack, tree);
        lemma_forest_scc(graph, root + 1, between, middle);
        let (after, second) = absorb(middle, rest);
        lemma_absorb_concat(stack, tree, rest);
        crate::algorithms::enumeration::detailed::events::lemma_begun_concat(tree, rest);
        lemma_forest_run(graph, root + 1, between);
        assert(begun(rest).disjoint(begun(tree))) by {
            reveal(crate::algorithms::enumeration::detailed::laws::is_run);
        }
        assert(explored.union(begun(events)) =~= between.union(begun(rest)));
        lemma_stack_empty(graph, between, middle);
        lemma_stack_empty(graph, between.union(begun(rest)), after);
        let base = done(explored, stack);
        let halfway = done(between, middle);
        assert forall|x: VertexId| #[trigger] halfway.contains(x) implies base.contains(x)
            || in_some(first, x) by {
            if explored.contains(x) {
                if stack.links.contains_key(x) {
                    assert(middle.links.contains_key(x));
                }
            } else {
                assert(begun(tree).contains(x));
            }
        }
        lemma_emitted_concat(
            graph,
            first,
            begun(tree),
            middle,
            second,
            begun(rest),
            after,
            base,
            halfway,
        );
    }
}

/// When nothing is open, nothing is on the stack.
pub proof fn lemma_stack_empty(graph: GraphView, explored: Set<VertexId>, stack: StackView)
    requires
        env(graph, explored, Set::empty(), stack),
    ensures
        forall|x: VertexId| !stack.links.contains_key(x),
{
    assert forall|x: VertexId| !stack.links.contains_key(x) by {
        if stack.links.contains_key(x) {
            assert(super::order::has_open(graph, Set::empty(), stack, x));
        }
    }
}

/// The components that the algorithm hands out are the strongly connected
/// components of the graph.
///
/// Each of them is a strongly connected component: it is not empty, and
/// with one of its vertices it holds exactly the vertices that this vertex
/// reaches and that reach it, so that its vertices reach one another and no
/// vertex outside could join them. Each holds vertices of the graph only,
/// each vertex of the graph is in one of them, and no two of them share a
/// vertex. They come in reverse topological order: each edge from a vertex
/// of a component leads to a vertex of the same component or of one that
/// was handed out before.
pub proof fn lemma_components(graph: GraphView)
    requires
        graph.wf(),
    ensures
        forall|k: int|
            0 <= k < components(graph).len() ==> is_scc(graph, #[trigger] components(graph)[k]),
        forall|k: int, x: VertexId|
            0 <= k < components(graph).len() && #[trigger] components(graph)[k].contains(x)
                ==> graph.contains(x),
        forall|x: VertexId| graph.contains(x) ==> #[trigger] in_some(components(graph), x),
        forall|k: int, l: int|
            0 <= k < l < components(graph).len() ==> (#[trigger] components(graph)[k]).disjoint(
                #[trigger] components(graph)[l],
            ),
        forall|k: int, x: VertexId, y: VertexId|
            0 <= k < components(graph).len() && #[trigger] components(graph)[k].contains(x)
                && #[trigger] graph.has_edge(x, y) ==> in_first(components(graph), k + 1, y),
{
    let nothing = Set::<VertexId>::empty();
    let empty = StackView::empty();
    let events = graph_events(graph);
    assert(env(graph, nothing, nothing, empty)) by {
        assert(done(nothing, empty) =~= nothing);
    }
    lemma_forest_scc(graph, 0, nothing, empty);
    lemma_forest_run(graph, 0, nothing);
    let (after, found) = absorb(empty, events);
    lemma_stack_empty(graph, nothing.union(begun(events)), after);
    assert forall|k: int, x: VertexId|
        0 <= k < found.len() && #[trigger] found[k].contains(x) implies graph.contains(x) by {
        assert(begun(events).contains(x));
        reveal(crate::algorithms::enumeration::detailed::laws::is_run);
    }
    assert forall|x: VertexId| graph.contains(x) implies #[trigger] in_some(found, x) by {
        assert(nothing.contains(x) || begun(events).contains(x));
    }
    assert(done(nothing, empty) =~= nothing);
}

} // verus!
