//! Why the components that the forest of a graph gives are the weakly
//! connected components of the graph.

use super::algorithm::{first_roots, forest_of, lemma_first_roots, unite_all, weak_components};
use super::union_find::{
    is_forest, lemma_linked, lemma_root_from, link, root_id, root_of, singletons, unite, Node,
};
use crate::graph::{Edge, GraphView, VertexId};
use vstd::prelude::*;
use vstd::set_lib::{lemma_len_subset, lemma_set_disjoint_lens};

verus! {

/// Whether an edge of `edges` joins `a` and `b`, in one direction or the
/// other.
pub open spec fn joined(edges: Seq<Edge>, a: VertexId, b: VertexId) -> bool {
    edges.contains(Edge(a, b)) || edges.contains(Edge(b, a))
}

/// Whether each vertex of `path` but the last is joined to the next one. A
/// single vertex is a chain.
pub open spec fn is_chain(edges: Seq<Edge>, path: Seq<VertexId>) -> bool {
    &&& path.len() > 0
    &&& forall|i: int| 0 <= i < path.len() - 1 ==> joined(edges, #[trigger] path[i], path[i + 1])
}

/// Whether `from` and `to` are connected when the direction of the edges
/// is ignored.
#[verifier::opaque]
pub open spec fn connected(edges: Seq<Edge>, from: VertexId, to: VertexId) -> bool {
    exists|path: Seq<VertexId>| #[trigger]
        is_chain(edges, path) && path[0] == from && path.last() == to
}

/// Every vertex is connected to itself.
pub proof fn lemma_connected_self(edges: Seq<Edge>, vertex: VertexId)
    ensures
        connected(edges, vertex, vertex),
{
    reveal(connected);
    let path = seq![vertex];
    assert(is_chain(edges, path) && path[0] == vertex && path.last() == vertex);
}

/// Two vertices that an edge joins are connected.
pub proof fn lemma_connected_edge(edges: Seq<Edge>, a: VertexId, b: VertexId)
    requires
        joined(edges, a, b),
    ensures
        connected(edges, a, b),
{
    reveal(connected);
    let path = seq![a, b];
    assert(is_chain(edges, path) && path[0] == a && path.last() == b);
}

/// Being connected is symmetric.
pub proof fn lemma_connected_sym(edges: Seq<Edge>, a: VertexId, b: VertexId)
    requires
        connected(edges, a, b),
    ensures
        connected(edges, b, a),
{
    reveal(connected);
    let path = choose|path: Seq<VertexId>| #[trigger]
        is_chain(edges, path) && path[0] == a && path.last() == b;
    let back = path.reverse();
    assert forall|i: int| 0 <= i < back.len() - 1 implies joined(
        edges,
        #[trigger] back[i],
        back[i + 1],
    ) by {
        let k = path.len() - 2 - i;
        assert(joined(edges, path[k], path[k + 1]));
    }
    assert(is_chain(edges, back) && back[0] == b && back.last() == a);
}

/// Being connected is transitive.
pub proof fn lemma_connected_trans(edges: Seq<Edge>, a: VertexId, b: VertexId, c: VertexId)
    requires
        connected(edges, a, b),
        connected(edges, b, c),
    ensures
        connected(edges, a, c),
{
    reveal(connected);
    let first = choose|path: Seq<VertexId>| #[trigger]
        is_chain(edges, path) && path[0] == a && path.last() == b;
    let second = choose|path: Seq<VertexId>| #[trigger]
        is_chain(edges, path) && path[0] == b && path.last() == c;
    let whole = first.drop_last() + second;
    assert forall|i: int| 0 <= i < whole.len() - 1 implies joined(
        edges,
        #[trigger] whole[i],
        whole[i + 1],
    ) by {
        if i <= first.len() - 2 {
            assert(joined(edges, first[i], first[i + 1]));
        } else {
            let k = i - (first.len() - 1);
            assert(joined(edges, second[k], second[k + 1]));
        }
    }
    assert(is_chain(edges, whole) && whole[0] == a && whole.last() == c);
}

/// What is connected by some edges is connected by more edges.
pub proof fn lemma_connected_more(
    edges: Seq<Edge>,
    more: Seq<Edge>,
    a: VertexId,
    b: VertexId,
)
    requires
        connected(edges, a, b),
        forall|edge: Edge| #[trigger] edges.contains(edge) ==> more.contains(edge),
    ensures
        connected(more, a, b),
{
    reveal(connected);
    let path = choose|path: Seq<VertexId>| #[trigger]
        is_chain(edges, path) && path[0] == a && path.last() == b;
    assert forall|i: int| 0 <= i < path.len() - 1 implies joined(
        more,
        #[trigger] path[i],
        path[i + 1],
    ) by {
        assert(joined(edges, path[i], path[i + 1]));
    }
    assert(is_chain(more, path) && path[0] == a && path.last() == b);
}

/// The ids below `bound`.
pub open spec fn ids_below(bound: nat) -> Set<usize> {
    Set::new(|id: usize| id < bound)
}

/// There are `bound` ids below `bound`.
pub proof fn lemma_ids_below(bound: nat)
    requires
        bound <= usize::MAX,
    ensures
        ids_below(bound).finite(),
        ids_below(bound).len() == bound,
    decreases bound,
{
    if bound == 0 {
        assert(ids_below(bound) =~= Set::<usize>::empty());
    } else {
        lemma_ids_below((bound - 1) as nat);
        assert(ids_below(bound) =~= ids_below((bound - 1) as nat).insert((bound - 1) as usize));
    }
}

/// The root of a vertex after one root of a forest was put below another
/// one: the upper root if it was the lower root, and the same as before
/// otherwise.
pub proof fn lemma_linked_root(
    nodes: Map<usize, Node>,
    rank: Map<usize, nat>,
    members: Map<usize, Set<usize>>,
    lower: usize,
    upper: usize,
    vertex: VertexId,
)
    requires
        is_forest(nodes, rank, members),
        nodes.contains_key(lower),
        nodes.contains_key(upper),
        lower != upper,
        nodes[lower] is TreeRoot,
        nodes[upper] is TreeRoot,
        nodes[lower]->TreeRoot_0 + nodes[upper]->TreeRoot_0 <= usize::MAX,
        nodes.contains_key(vertex.0),
    ensures
        ({
            let after = nodes.insert(lower, Node::DecendentOf(VertexId(upper))).insert(
                upper,
                Node::TreeRoot((nodes[lower]->TreeRoot_0 + nodes[upper]->TreeRoot_0) as usize),
            );
            root_id(after, vertex) == if root_id(nodes, vertex).0 == lower {
                VertexId(upper)
            } else {
                root_id(nodes, vertex)
            }
        }),
    decreases nodes.dom().len() - rank[vertex.0],
{
    let after = nodes.insert(lower, Node::DecendentOf(VertexId(upper))).insert(
        upper,
        Node::TreeRoot((nodes[lower]->TreeRoot_0 + nodes[upper]->TreeRoot_0) as usize),
    );
    let rank2 = rank.insert(
        upper,
        if rank[upper] > rank[lower] {
            rank[upper]
        } else {
            rank[lower] + 1
        },
    );
    let members2 = members.insert(upper, members[lower].union(members[upper]));
    lemma_linked(nodes, rank, members, lower, upper);
    assert(after.dom() =~= nodes.dom());
    lemma_root_from(nodes, rank, members, vertex, nodes.dom().len());
    lemma_root_from(after, rank2, members2, vertex, after.dom().len());
    match nodes[vertex.0] {
        Node::TreeRoot(size) => {
            if vertex.0 == lower {
                lemma_root_from(after, rank2, members2, VertexId(upper), after.dom().len());
            }
        },
        Node::DecendentOf(above) => {
            assert(nodes.contains_key(above.0));
            lemma_linked_root(nodes, rank, members, lower, upper, above);
        },
    }
}

/// Whether `u` and `v` are in the same tree of the forest.
pub open spec fn same_tree(nodes: Map<usize, Node>, u: VertexId, v: VertexId) -> bool {
    root_id(nodes, u) == root_id(nodes, v)
}

/// Uniting two vertices of a forest gives a forest over the same vertices
/// in which two vertices are in the same tree if and only if they were
/// before or one was in the tree of the one united vertex and the other in
/// the tree of the other. The result is the witnesses of the new forest.
pub proof fn lemma_unite_classes(
    nodes: Map<usize, Node>,
    rank: Map<usize, nat>,
    members: Map<usize, Set<usize>>,
    x: VertexId,
    y: VertexId,
) -> (witness: (Map<usize, nat>, Map<usize, Set<usize>>))
    requires
        is_forest(nodes, rank, members),
        nodes.contains_key(x.0),
        nodes.contains_key(y.0),
        nodes.dom().len() <= usize::MAX,
    ensures
        is_forest(unite(nodes, x, y).0, witness.0, witness.1),
        unite(nodes, x, y).0.dom() == nodes.dom(),
        forall|u: VertexId, v: VertexId|
            #![trigger same_tree(unite(nodes, x, y).0, u, v)]
            nodes.contains_key(u.0) && nodes.contains_key(v.0) ==> (same_tree(
                unite(nodes, x, y).0,
                u,
                v,
            ) <==> same_tree(nodes, u, v) || (same_tree(nodes, u, x) && same_tree(nodes, v, y))
                || (same_tree(nodes, u, y) && same_tree(nodes, v, x))),
{
    let count = nodes.dom().len();
    lemma_root_from(nodes, rank, members, x, count);
    lemma_root_from(nodes, rank, members, y, count);
    let x_tree = root_of(nodes, x)->0;
    let y_tree = root_of(nodes, y)->0;
    let after = unite(nodes, x, y).0;
    assert(after == link(nodes, x_tree, y_tree));
    if x_tree.id == y_tree.id {
        (rank, members)
    } else {
        let (lower, upper) = if x_tree.size < y_tree.size {
            (x_tree.id.0, y_tree.id.0)
        } else {
            (y_tree.id.0, x_tree.id.0)
        };
        let both = members[lower].union(members[upper]);
        assert(nodes.contains_key(lower) && nodes.contains_key(upper));
        lemma_set_disjoint_lens(members[lower], members[upper]);
        lemma_len_subset(both, nodes.dom());
        lemma_linked(nodes, rank, members, lower, upper);
        assert(after.dom() =~= nodes.dom());
        assert forall|u: VertexId, v: VertexId|
            #![trigger same_tree(after, u, v)]
            nodes.contains_key(u.0) && nodes.contains_key(v.0) implies (same_tree(after, u, v)
            <==> same_tree(nodes, u, v) || (same_tree(nodes, u, x) && same_tree(nodes, v, y))
            || (same_tree(nodes, u, y) && same_tree(nodes, v, x))) by {
            lemma_linked_root(nodes, rank, members, lower, upper, u);
            lemma_linked_root(nodes, rank, members, lower, upper, v);
        }
        (
            rank.insert(
                upper,
                if rank[upper] > rank[lower] {
                    rank[upper]
                } else {
                    rank[lower] + 1
                },
            ),
            members.insert(upper, both),
        )
    }
}

/// Along a chain, every vertex is in the tree of the first one, if what an
/// edge joins is in the same tree.
pub proof fn lemma_chain_same(
    nodes: Map<usize, Node>,
    edges: Seq<Edge>,
    path: Seq<VertexId>,
    at: int,
)
    requires
        is_chain(edges, path),
        0 <= at < path.len(),
        forall|a: VertexId, b: VertexId| #[trigger]
            joined(edges, a, b) ==> same_tree(nodes, a, b),
    ensures
        same_tree(nodes, path[0], path[at]),
    decreases at,
{
    if at > 0 {
        lemma_chain_same(nodes, edges, path, at - 1);
        assert(joined(edges, path[at - 1], path[at - 1 + 1]));
    }
}

/// The forest of a graph after the first `upto` edges: it is a forest over
/// the vertices of the graph, and two vertices of the graph are in the same
/// tree if and only if those edges connect them. The result is the
/// witnesses of the forest.
pub proof fn lemma_forest_classes(graph: GraphView, upto: nat) -> (witness: (
    Map<usize, nat>,
    Map<usize, Set<usize>>,
))
    requires
        graph.wf(),
        upto <= graph.edges.len(),
    ensures
        ({
            let nodes = unite_all(singletons(graph.vertices()), graph.edges.take(upto as int));
            &&& is_forest(nodes, witness.0, witness.1)
            &&& nodes.dom() == ids_below(graph.vertex_count)
            &&& forall|u: VertexId, v: VertexId|
                #![trigger same_tree(nodes, u, v)]
                graph.contains(u) && graph.contains(v) ==> (same_tree(nodes, u, v) <==> connected(
                    graph.edges.take(upto as int),
                    u,
                    v,
                ))
        }),
    decreases upto,
{
    let start = singletons(graph.vertices());
    let edges = graph.edges.take(upto as int);
    let nodes = unite_all(start, edges);
    let all = ids_below(graph.vertex_count);
    lemma_ids_below(graph.vertex_count);
    if upto == 0 {
        let rank = Map::new(|id: usize| true, |id: usize| 0nat);
        let members = Map::new(|id: usize| true, |id: usize| set![id]);
        assert(start.dom() =~= all) by {
            assert forall|id: usize| start.dom().contains(id) <==> all.contains(id) by {
                if graph.vertices().contains(VertexId(id)) {
                    let i = choose|i: int|
                        0 <= i < graph.vertices().len() && graph.vertices()[i] == VertexId(id);
                }
                if id < graph.vertex_count {
                    assert(graph.vertices()[id as int] == VertexId(id));
                }
            }
        }
        assert forall|v: usize| #[trigger] start.contains_key(v) implies rank[v]
            < start.dom().len() by {
            lemma_len_subset(set![v], start.dom());
        }
        assert(is_forest(start, rank, members));
        assert forall|u: VertexId, v: VertexId|
            #![trigger same_tree(nodes, u, v)]
            graph.contains(u) && graph.contains(v) implies (same_tree(nodes, u, v) <==> connected(
            edges,
            u,
            v,
        )) by {
            assert(start.contains_key(u.0) && start.contains_key(v.0));
            lemma_root_from(start, rank, members, u, start.dom().len());
            lemma_root_from(start, rank, members, v, start.dom().len());
            if u == v {
                lemma_connected_self(edges, u);
            }
            if connected(edges, u, v) {
                reveal(connected);
                let path = choose|path: Seq<VertexId>| #[trigger]
                    is_chain(edges, path) && path[0] == u && path.last() == v;
                if path.len() > 1 {
                    assert(joined(edges, path[0int], path[0int + 1]));
                }
            }
        }
        (rank, members)
    } else {
        let fewer = graph.edges.take(upto - 1);
        let before = unite_all(start, fewer);
        let edge = graph.edges[upto - 1];
        let (x, y) = (edge.0, edge.1);
        let (rank, members) = lemma_forest_classes(graph, (upto - 1) as nat);
        assert(edges.drop_last() == fewer);
        assert(edges.last() == edge);
        assert(nodes == unite(before, x, y).0);
        assert(graph.contains(graph.edges[upto - 1].0) && graph.contains(graph.edges[upto - 1].1));
        assert(before.contains_key(x.0) && before.contains_key(y.0));
        let witness = lemma_unite_classes(before, rank, members, x, y);
        assert forall|e: Edge| #[trigger] fewer.contains(e) implies edges.contains(e) by {
            let i = choose|i: int| 0 <= i < fewer.len() && fewer[i] == e;
            assert(edges[i] == e);
        }
        assert(edges[upto - 1] == edge);
        assert(joined(edges, x, y));
        lemma_connected_self(fewer, x);
        lemma_connected_self(fewer, y);
        assert(same_tree(before, x, x) && same_tree(before, y, y));
        assert(same_tree(nodes, x, y));
        assert forall|a: VertexId, b: VertexId| #[trigger] joined(edges, a, b) implies same_tree(
            nodes,
            a,
            b,
        ) by {
            let e = if edges.contains(Edge(a, b)) {
                Edge(a, b)
            } else {
                Edge(b, a)
            };
            let i = choose|i: int| 0 <= i < edges.len() && edges[i] == e;
            assert(graph.contains(graph.edges[i].0) && graph.contains(graph.edges[i].1));
            assert(before.contains_key(a.0) && before.contains_key(b.0));
            if i < upto - 1 {
                assert(fewer[i] == e);
                assert(joined(fewer, a, b));
                lemma_connected_edge(fewer, a, b);
                assert(same_tree(before, a, b));
                assert(same_tree(nodes, a, b));
            } else {
                assert(same_tree(nodes, a, b) <==> same_tree(before, a, b) || (same_tree(
                    before,
                    a,
                    x,
                ) && same_tree(before, b, y)) || (same_tree(before, a, y) && same_tree(
                    before,
                    b,
                    x,
                )));
            }
        }
        assert forall|u: VertexId, v: VertexId|
            #![trigger same_tree(nodes, u, v)]
            graph.contains(u) && graph.contains(v) implies (same_tree(nodes, u, v) <==> connected(
            edges,
            u,
            v,
        )) by {
            assert(before.contains_key(u.0) && before.contains_key(v.0));
            if same_tree(nodes, u, v) {
                if same_tree(before, u, v) {
                    lemma_connected_more(fewer, edges, u, v);
                } else if same_tree(before, u, x) && same_tree(before, v, y) {
                    lemma_connected_more(fewer, edges, u, x);
                    lemma_connected_more(fewer, edges, v, y);
                    lemma_connected_sym(edges, v, y);
                    lemma_connected_edge(edges, x, y);
                    lemma_connected_trans(edges, u, x, y);
                    lemma_connected_trans(edges, u, y, v);
                } else {
                    lemma_connected_more(fewer, edges, u, y);
                    lemma_connected_more(fewer, edges, v, x);
                    lemma_connected_sym(edges, v, x);
                    lemma_connected_edge(edges, y, x);
                    lemma_connected_trans(edges, u, y, x);
                    lemma_connected_trans(edges, u, x, v);
                }
            }
            if connected(edges, u, v) {
                reveal(connected);
                let path = choose|path: Seq<VertexId>| #[trigger]
                    is_chain(edges, path) && path[0] == u && path.last() == v;
                lemma_chain_same(nodes, edges, path, path.len() - 1);
            }
        }
        witness
    }
}

/// Two vertices of a graph are in the same tree of the forest of the graph
/// if and only if they are connected when the direction of the edges is
/// ignored.
pub proof fn lemma_weakly_connected(graph: GraphView, u: VertexId, v: VertexId)
    requires
        graph.wf(),
        graph.contains(u),
        graph.contains(v),
    ensures
        same_tree(forest_of(graph), u, v) <==> connected(graph.edges, u, v),
{
    let witness = lemma_forest_classes(graph, graph.edges.len());
    assert(graph.edges.take(graph.edges.len() as int) == graph.edges);
    assert(same_tree(forest_of(graph), u, v) <==> connected(graph.edges, u, v));
}

/// Each of the first roots of the vertices below a bound is the root of
/// one of those vertices, and none of them comes twice.
pub proof fn lemma_first_roots_distinct(nodes: Map<usize, Node>, bound: nat)
    requires
        bound <= usize::MAX,
    ensures
        first_roots(nodes, bound).no_duplicates(),
        forall|i: int|
            0 <= i < first_roots(nodes, bound).len() ==> exists|v: VertexId|
                v.0 < bound && root_id(nodes, v) == #[trigger] first_roots(nodes, bound)[i],
    decreases bound,
{
    if bound > 0 {
        let before = first_roots(nodes, (bound - 1) as nat);
        let last = VertexId((bound - 1) as usize);
        let root = root_id(nodes, last);
        let all = first_roots(nodes, bound);
        lemma_first_roots_distinct(nodes, (bound - 1) as nat);
        assert forall|i: int| 0 <= i < all.len() implies exists|v: VertexId|
            v.0 < bound && root_id(nodes, v) == #[trigger] all[i] by {
            if i < before.len() {
                assert(all[i] == before[i]);
                let v = choose|v: VertexId| v.0 < bound - 1 && root_id(nodes, v) == before[i];
                assert(v.0 < bound && root_id(nodes, v) == all[i]);
            } else {
                assert(last.0 < bound && root_id(nodes, last) == all[i]);
            }
        }
        if !before.contains(root) {
            assert forall|i: int, j: int| 0 <= i < all.len() && 0 <= j < all.len() && i
                != j implies all[i] != all[j] by {
                if i < before.len() {
                    assert(before.contains(before[i]));
                }
                if j < before.len() {
                    assert(before.contains(before[j]));
                }
            }
        }
    }
}

/// Whether a set of vertices holds a vertex.
pub open spec fn inhabited(set: Set<VertexId>) -> bool {
    exists|v: VertexId| set.contains(v)
}

/// The components that the forest of a graph gives are the weakly
/// connected components of the graph.
///
/// Each vertex of the graph is in one of them. Each of them is not empty
/// and holds, with one of its vertices, exactly the vertices of the graph
/// that are connected to this vertex when the direction of the edges is
/// ignored. No two of them share a vertex.
pub proof fn lemma_classes(graph: GraphView)
    requires
        graph.wf(),
    ensures
        forall|v: VertexId|
            graph.contains(v) ==> exists|i: int|
                0 <= i < weak_components(graph).len() && (#[trigger] weak_components(
                    graph,
                )[i]).contains(v),
        forall|i: int|
            0 <= i < weak_components(graph).len() ==> inhabited(
                #[trigger] weak_components(graph)[i],
            ),
        forall|i: int, u: VertexId, v: VertexId|
            0 <= i < weak_components(graph).len() && (#[trigger] weak_components(
                graph,
            )[i]).contains(u) ==> (weak_components(graph)[i].contains(v) <==> graph.contains(v)
                && #[trigger] connected(graph.edges, u, v)),
        forall|i: int, j: int|
            0 <= i < j < weak_components(graph).len() ==> (#[trigger] weak_components(
                graph,
            )[i]).disjoint(#[trigger] weak_components(graph)[j]),
{
    let nodes = forest_of(graph);
    let bound = graph.vertex_count;
    let roots = first_roots(nodes, bound);
    let found = weak_components(graph);
    lemma_first_roots_distinct(nodes, bound);
    assert forall|v: VertexId| graph.contains(v) implies exists|i: int|
        0 <= i < found.len() && (#[trigger] found[i]).contains(v) by {
        lemma_first_roots(nodes, bound, v);
        let i = choose|i: int| 0 <= i < roots.len() && roots[i] == root_id(nodes, v);
        assert(found[i].contains(v));
    }
    assert forall|i: int| 0 <= i < found.len() implies inhabited(#[trigger] found[i]) by {
        let v = choose|v: VertexId| v.0 < bound && root_id(nodes, v) == roots[i];
        assert(found[i].contains(v));
    }
    assert forall|i: int, u: VertexId, v: VertexId|
        0 <= i < found.len() && (#[trigger] found[i]).contains(u) implies (found[i].contains(v)
        <==> graph.contains(v) && #[trigger] connected(graph.edges, u, v)) by {
        if graph.contains(v) {
            lemma_weakly_connected(graph, u, v);
        }
    }
    assert forall|i: int, j: int| 0 <= i < j < found.len() implies (#[trigger] found[i]).disjoint(
        #[trigger] found[j],
    ) by {
        assert(roots[i] != roots[j]);
    }
}

} // verus!
