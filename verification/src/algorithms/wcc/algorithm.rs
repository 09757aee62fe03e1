//! The weakly connected components of a graph: the sets of vertices that
//! are connected when the direction of the edges is ignored.

use super::union_find::{root_id, singletons, unite, Node, UnionFind};
use crate::algorithms::component::Component;
use crate::graph::{Edge, Graph, GraphView, VertexId};
use std::collections::HashMap;
use vstd::prelude::*;

verus! {

broadcast use vstd::std_specs::hash::group_hash_axioms;

/// The forest after the ends of each of the given edges were united, one
/// edge after the other.
pub open spec fn unite_all(nodes: Map<usize, Node>, edges: Seq<Edge>) -> Map<usize, Node>
    decreases edges.len(),
{
    if edges.len() == 0 {
        nodes
    } else {
        unite(unite_all(nodes, edges.drop_last()), edges.last().0, edges.last().1).0
    }
}

/// The forest of a graph: every vertex a tree at first, then the ends of
/// each edge united.
pub open spec fn forest_of(graph: GraphView) -> Map<usize, Node> {
    unite_all(singletons(graph.vertices()), graph.edges)
}

/// The roots of the trees of the vertices below `bound`, each once, in the
/// order in which the vertices in ascending order meet them.
pub open spec fn first_roots(nodes: Map<usize, Node>, bound: nat) -> Seq<VertexId>
    decreases bound,
{
    if bound == 0 {
        Seq::empty()
    } else {
        let before = first_roots(nodes, (bound - 1) as nat);
        let root = root_id(nodes, VertexId((bound - 1) as usize));
        if before.contains(root) {
            before
        } else {
            before.push(root)
        }
    }
}

/// The vertices below `bound` whose tree has the root `root`.
pub open spec fn class_of(nodes: Map<usize, Node>, bound: nat, root: VertexId) -> Set<VertexId> {
    Set::new(|vertex: VertexId| vertex.0 < bound && root_id(nodes, vertex) == root)
}

/// The weakly connected components of a graph of that forest: for each
/// root, in the order of [`first_roots`], the vertices of its tree.
pub open spec fn classes(nodes: Map<usize, Node>, bound: nat) -> Seq<Set<VertexId>> {
    Seq::new(
        first_roots(nodes, bound).len(),
        |i: int| class_of(nodes, bound, first_roots(nodes, bound)[i]),
    )
}

/// The weakly connected components of a graph as the computation hands
/// them out: the classes of the forest of the graph.
pub open spec fn weak_components(graph: GraphView) -> Seq<Set<VertexId>> {
    classes(forest_of(graph), graph.vertex_count)
}

/// The computation of the weakly connected components of a graph.
pub struct WCC<'a> {
    graph: &'a Graph,
    union_find: UnionFind,
}

impl<'a> WCC<'a> {
    /// The invariant: the graph is well formed and the forest holds exactly
    /// its vertices, each a tree of its own.
    pub closed spec fn wf(&self) -> bool {
        &&& self.graph.wf()
        &&& self.union_find.wf()
        &&& self.union_find@ == singletons(self.graph@.vertices())
    }

    /// The graph whose components are computed.
    pub closed spec fn graph(&self) -> &'a Graph {
        self.graph
    }

    /// Prepares the computation of the weakly connected components of
    /// `graph`.
    pub fn on(graph: &'a Graph) -> (wcc: Self)
        requires
            graph.wf(),
        ensures
            wcc.wf(),
            wcc.graph() == graph,
    {
        let vertices = graph.vertices();
        let mut list: Vec<VertexId> = Vec::new();
        let mut i: usize = 0;
        while i < vertices.len()
            invariant
                i <= vertices@.len(),
                list@ == vertices@.take(i as int),
            decreases vertices@.len() - i,
        {
            list.push(vertices[i]);
            proof {
                assert(vertices@.take(i as int + 1) == vertices@.take(i as int).push(
                    vertices@[i as int],
                ));
            }
            i += 1;
        }
        proof {
            assert(vertices@.take(vertices@.len() as int) == vertices@);
        }
        Self { graph, union_find: UnionFind::new(list) }
    }

    /// The weakly connected components of the graph. Each vertex is in
    /// exactly one of them; two vertices are in the same one if and only if
    /// their trees in the forest of the graph have the same root. The
    /// components are in the order of their smallest vertices.
    pub fn get(self) -> (components: Vec<Component>)
        requires
            self.wf(),
        ensures
            components@.len() == weak_components(self.graph()@).len(),
            forall|i: int|
                0 <= i < components@.len() ==> (#[trigger] components@[i])@ == weak_components(
                    self.graph()@,
                )[i],
    {
        let graph = self.graph;
        let mut union_find = self.union_find;
        let edges = graph.edges();
        let vertices = graph.vertices();
        let ghost count = graph@.vertex_count;
        proof {
            graph.lemma_view_wf();
        }
        let mut i: usize = 0;
        while i < edges.len()
            invariant
                graph.wf(),
                graph@.wf(),
                edges@ == graph@.edges,
                i <= edges@.len(),
                union_find.wf(),
                union_find@ == unite_all(singletons(graph@.vertices()), edges@.take(i as int)),
                union_find@.dom() == singletons(graph@.vertices()).dom(),
            decreases edges@.len() - i,
        {
            let edge = edges[i];
            proof {
                assert(edges@.take(i as int + 1).drop_last() == edges@.take(i as int));
                assert(graph@.contains(graph@.edges[i as int].0));
                assert(graph@.contains(graph@.edges[i as int].1));
                assert(graph@.vertices()[edge.0.0 as int] == edge.0);
                assert(graph@.vertices()[edge.1.0 as int] == edge.1);
                assert(graph@.vertices().contains(VertexId(edge.0.0)));
                assert(graph@.vertices().contains(VertexId(edge.1.0)));
                union_find.lemma_find(edge.0);
                union_find.lemma_find(edge.1);
            }
            let united = union_find.union(edge.0, edge.1);
            assert(united is Ok);
            i += 1;
        }
        proof {
            assert(edges@.take(edges@.len() as int) == edges@);
        }
        let ghost nodes = union_find@;
        let mut components: Vec<Component> = Vec::new();
        let mut index_of_root: HashMap<usize, usize> = HashMap::new();
        let mut k: usize = 0;
        while k < vertices.len()
            invariant
                graph.wf(),
                vertices@ == graph@.vertices(),
                k <= vertices@.len(),
                vertices@.len() == count,
                union_find.wf(),
                union_find@ == nodes,
                nodes.dom() == singletons(graph@.vertices()).dom(),
                components@.len() == first_roots(nodes, k as nat).len(),
                forall|j: int|
                    0 <= j < components@.len() ==> (#[trigger] components@[j])@ == class_of(
                        nodes,
                        k as nat,
                        first_roots(nodes, k as nat)[j],
                    ),
                forall|j: int|
                    0 <= j < components@.len() ==> index_of_root@.contains_key(
                        (#[trigger] first_roots(nodes, k as nat)[j]).0,
                    ) && index_of_root@[first_roots(nodes, k as nat)[j].0] == j,
                forall|id: usize| #[trigger]
                    index_of_root@.contains_key(id) ==> first_roots(nodes, k as nat).contains(
                        VertexId(id),
                    ),
            decreases vertices@.len() - k,
        {
            let vertex = vertices[k];
            proof {
                assert(graph@.vertices()[k as int] == VertexId(k));
                assert(graph@.vertices().contains(VertexId(vertex.0)));
                union_find.lemma_find(vertex);
            }
            let found = union_find.find(vertex);
            let root = found.unwrap().id;
            let ghost before = first_roots(nodes, k as nat);
            let ghost after = first_roots(nodes, (k + 1) as nat);
            let ghost old_components = components@;
            assert(root == root_id(nodes, VertexId(k)));
            let position = match index_of_root.get(&root.0) {
                Some(j) => Some(*j),
                None => None,
            };
            match position {
                Some(j) => {
                    proof {
                        let p = choose|p: int| 0 <= p < before.len() && before[p] == root;
                        assert(index_of_root@[before[p].0] == p);
                        assert(after == before);
                    }
                    let mut component = Component::new();
                    std::mem::swap(&mut components[j], &mut component);
                    component.add(vertex);
                    std::mem::swap(&mut components[j], &mut component);
                    proof {
                        assert(components@.len() == old_components.len());
                        assert forall|q: int| 0 <= q < components@.len() implies (
                        #[trigger] components@[q])@ == class_of(nodes, (k + 1) as nat, after[q]) by {
                            if q == j {
                                assert(components@[q]@ == old_components[q]@.insert(vertex));
                            } else {
                                assert(components@[q] == old_components[q]);
                                assert(index_of_root@[before[q].0] == q);
                            }
                            assert(old_components[q]@ == class_of(nodes, k as nat, before[q]));
                            assert(components@[q]@ =~= class_of(
                                nodes,
                                (k + 1) as nat,
                                after[q],
                            ));
                        }
                    }
                },
                None => {
                    proof {
                        if before.contains(root) {
                            let p = choose|p: int| 0 <= p < before.len() && before[p] == root;
                            assert(index_of_root@.contains_key(before[p].0));
                        }
                        assert(after == before.push(root));
                    }
                    index_of_root.insert(root.0, components.len());
                    let mut component = Component::new();
                    component.add(vertex);
                    components.push(component);
                    proof {
                        assert forall|q: int| 0 <= q < components@.len() implies (
                        #[trigger] components@[q])@ == class_of(nodes, (k + 1) as nat, after[q]) by {
                            if q < old_components.len() {
                                assert(components@[q] == old_components[q]);
                                assert(old_components[q]@ == class_of(
                                    nodes,
                                    k as nat,
                                    before[q],
                                ));
                                assert(before.contains(before[q]));
                                assert(after[q] == before[q]);
                            } else {
                                assert(components@[q]@ == Set::<VertexId>::empty().insert(vertex));
                                assert forall|v: VertexId| v.0 < k implies root_id(nodes, v)
                                    != root by {
                                    lemma_first_roots(nodes, k as nat, v);
                                }
                            }
                            assert(components@[q]@ =~= class_of(
                                nodes,
                                (k + 1) as nat,
                                after[q],
                            ));
                        }
                        assert forall|q: int| 0 <= q < components@.len() implies index_of_root@.contains_key(
                            (#[trigger] after[q]).0,
                        ) && index_of_root@[after[q].0] == q by {
                            if q < old_components.len() {
                                assert(after[q] == before[q]);
                                assert(before.contains(before[q]));
                            }
                        }
                        assert forall|id: usize| #[trigger]
                            index_of_root@.contains_key(id) implies after.contains(
                            VertexId(id),
                        ) by {
                            if id == root.0 {
                                assert(after[before.len() as int] == root);
                            } else {
                                let p = choose|p: int|
                                    0 <= p < before.len() && before[p] == VertexId(id);
                                assert(after[p] == VertexId(id));
                            }
                        }
                    }
                },
            }
            k += 1;
        }
        components
    }
}

/// The root of the tree of each vertex below `bound` is among the first
/// roots of the vertices below `bound`.
pub proof fn lemma_first_roots(nodes: Map<usize, Node>, bound: nat, vertex: VertexId)
    requires
        vertex.0 < bound <= usize::MAX,
    ensures
        first_roots(nodes, bound).contains(root_id(nodes, vertex)),
    decreases bound,
{
    let before = first_roots(nodes, (bound - 1) as nat);
    let root = root_id(nodes, VertexId((bound - 1) as usize));
    if vertex.0 < bound - 1 {
        lemma_first_roots(nodes, (bound - 1) as nat, vertex);
        let p = choose|p: int| 0 <= p < before.len() && before[p] == root_id(nodes, vertex);
        assert(first_roots(nodes, bound)[p] == root_id(nodes, vertex));
    } else {
        if before.contains(root) {
        } else {
            assert(first_roots(nodes, bound)[before.len() as int] == root);
        }
    }
}

} // verus!
