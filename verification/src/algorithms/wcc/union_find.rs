//! Union-find: a disjoint-set data structure.
//!
//! The structure is a forest that shows which vertices belong together. The
//! root of each tree stands for the tree. All vertices have to be known up
//! front. Then two things can be done: unite two vertices, which makes
//! their trees one tree, and find a vertex, which gives the root of its
//! tree and the size of the tree.
//!
//! The smaller tree is put under the root of the bigger one.

use crate::graph::VertexId;
use std::collections::HashMap;
use vstd::prelude::*;
use vstd::set_lib::{lemma_len_subset, lemma_set_disjoint_lens};

verus! {

broadcast use vstd::std_specs::hash::group_hash_axioms;

/// What the forest holds for a vertex.
#[derive(Debug, PartialEq, Eq, Structural, Clone, Copy)]
pub enum Node {
    /// The vertex is the root of a tree with that many vertices.
    TreeRoot(usize),
    /// The vertex stands below that vertex.
    DecendentOf(VertexId),
}

/// A tree of the forest: its root and the number of its vertices.
#[derive(Debug, PartialEq, Eq, Structural, Clone, Copy)]
pub struct Component {
    pub id: VertexId,
    pub size: usize,
}

/// Why the forest cannot answer.
#[derive(Debug, PartialEq, Eq, Structural, Clone, Copy)]
pub enum Error {
    /// The forest does not hold that vertex.
    VertexNotIncluded(VertexId),
}

/// The tree that `vertex` belongs to, found in at most `fuel` steps from a
/// vertex to the one above it; `None` if the forest does not hold a vertex
/// on the way or the steps do not suffice.
pub open spec fn root_from(nodes: Map<usize, Node>, vertex: VertexId, fuel: nat) -> Option<
    Component,
>
    decreases fuel,
{
    if !nodes.contains_key(vertex.0) {
        None
    } else {
        match nodes[vertex.0] {
            Node::TreeRoot(size) => Some(Component { id: vertex, size }),
            Node::DecendentOf(above) => if fuel == 0 {
                None
            } else {
                root_from(nodes, above, (fuel - 1) as nat)
            },
        }
    }
}

/// The tree that `vertex` belongs to. A way up in a forest is shorter than
/// the number of its vertices.
pub open spec fn root_of(nodes: Map<usize, Node>, vertex: VertexId) -> Option<Component> {
    root_from(nodes, vertex, nodes.dom().len())
}

/// The root of the tree of `vertex`.
pub open spec fn root_id(nodes: Map<usize, Node>, vertex: VertexId) -> VertexId {
    root_of(nodes, vertex)->0.id
}

/// What `find` returns: the tree of the vertex, or that the forest does not
/// hold the vertex.
pub open spec fn find_in(nodes: Map<usize, Node>, vertex: VertexId) -> Result<Component, Error> {
    match root_of(nodes, vertex) {
        Some(tree) => Ok(tree),
        None => Err(Error::VertexNotIncluded(vertex)),
    }
}

/// The forest after the trees `x` and `y` became one: the root of the
/// smaller tree stands below the root of the bigger one, below that of `x`
/// if they are of one size.
pub open spec fn link(nodes: Map<usize, Node>, x: Component, y: Component) -> Map<usize, Node> {
    if x.id == y.id {
        nodes
    } else if x.size < y.size {
        nodes.insert(x.id.0, Node::DecendentOf(y.id)).insert(
            y.id.0,
            Node::TreeRoot((x.size + y.size) as usize),
        )
    } else {
        nodes.insert(y.id.0, Node::DecendentOf(x.id)).insert(
            x.id.0,
            Node::TreeRoot((x.size + y.size) as usize),
        )
    }
}

/// What `union` does: the forest afterwards and the result. A vertex that
/// the forest does not hold is reported, `x` before `y`, and nothing
/// changes.
pub open spec fn unite(nodes: Map<usize, Node>, x: VertexId, y: VertexId) -> (
    Map<usize, Node>,
    Result<(), Error>,
) {
    match (find_in(nodes, x), find_in(nodes, y)) {
        (Ok(x_tree), Ok(y_tree)) => (link(nodes, x_tree, y_tree), Ok(())),
        (Err(e), _) => (nodes, Err(e)),
        (_, Err(e)) => (nodes, Err(e)),
    }
}

/// The forest in which each of the given vertices is a tree of its own.
pub open spec fn singletons(vertices: Seq<VertexId>) -> Map<usize, Node> {
    Map::new(
        |id: usize| vertices.contains(VertexId(id)),
        |id: usize| Node::TreeRoot(1),
    )
}

/// What makes a map of nodes a forest, with the witnesses `rank` and
/// `members`.
///
/// Each vertex has a rank below the number of vertices; the rank of a root
/// is below the size of its tree, and the rank of another vertex is below
/// that of the vertex above it, which the forest holds. Each root has
/// members: finitely many vertices of the forest, as many as the size of
/// its tree says, the root among them; the members of two roots are
/// disjoint.
pub open spec fn is_forest(
    nodes: Map<usize, Node>,
    rank: Map<usize, nat>,
    members: Map<usize, Set<usize>>,
) -> bool {
    &&& nodes.dom().finite()
    &&& forall|v: usize| #[trigger] nodes.contains_key(v) ==> rank[v] < nodes.dom().len()
    &&& forall|v: usize| #[trigger]
        nodes.contains_key(v) ==> match nodes[v] {
            Node::TreeRoot(size) => {
                &&& rank[v] < size
                &&& members[v].finite()
                &&& members[v].len() == size
                &&& members[v].subset_of(nodes.dom())
                &&& members[v].contains(v)
            },
            Node::DecendentOf(above) => nodes.contains_key(above.0) && rank[v] < rank[above.0],
        }
    &&& forall|a: usize, b: usize|
        #![trigger nodes.contains_key(a), nodes.contains_key(b)]
        nodes.contains_key(a) && nodes.contains_key(b) && a != b && nodes[a] is TreeRoot
            && nodes[b] is TreeRoot ==> members[a].disjoint(members[b])
}

/// In a forest, the way up from a vertex ends at a root with any number of
/// steps that is at least the number of vertices less the rank of the
/// vertex and one; the root is the root of the vertex above, and is a vertex
/// of the forest that is a root of that size.
pub proof fn lemma_root_from(
    nodes: Map<usize, Node>,
    rank: Map<usize, nat>,
    members: Map<usize, Set<usize>>,
    vertex: VertexId,
    fuel: nat,
)
    requires
        is_forest(nodes, rank, members),
        nodes.contains_key(vertex.0),
        fuel + rank[vertex.0] + 1 >= nodes.dom().len(),
    ensures
        root_from(nodes, vertex, fuel) is Some,
        root_from(nodes, vertex, fuel) == root_of(nodes, vertex),
        nodes.contains_key(root_from(nodes, vertex, fuel)->0.id.0),
        nodes[root_from(nodes, vertex, fuel)->0.id.0] == Node::TreeRoot(
            root_from(nodes, vertex, fuel)->0.size,
        ),
        nodes[vertex.0] matches Node::DecendentOf(above) ==> root_of(nodes, vertex) == root_of(
            nodes,
            above,
        ),
    decreases nodes.dom().len() - rank[vertex.0],
{
    let count = nodes.dom().len();
    match nodes[vertex.0] {
        Node::TreeRoot(size) => {},
        Node::DecendentOf(above) => {
            lemma_root_from(nodes, rank, members, above, (fuel - 1) as nat);
            lemma_root_from(nodes, rank, members, above, (count - 1) as nat);
            lemma_root_from(nodes, rank, members, above, count);
        },
    }
}

/// A union-find forest over a fixed set of vertices.
pub struct UnionFind {
    list: HashMap<usize, Node>,
    rank: Ghost<Map<usize, nat>>,
    members: Ghost<Map<usize, Set<usize>>>,
}

impl View for UnionFind {
    type V = Map<usize, Node>;

    closed spec fn view(&self) -> Map<usize, Node> {
        self.list@
    }
}

impl UnionFind {
    /// The invariant: the nodes form a forest.
    pub closed spec fn wf(&self) -> bool {
        is_forest(self.list@, self.rank@, self.members@)
    }

    /// In a forest every vertex that it holds has a tree, and no other
    /// vertex has one.
    pub proof fn lemma_find(&self, vertex: VertexId)
        requires
            self.wf(),
        ensures
            find_in(self@, vertex) is Ok <==> self@.contains_key(vertex.0),
            find_in(self@, vertex) matches Ok(tree) ==> self@.contains_key(tree.id.0)
                && self@[tree.id.0] == Node::TreeRoot(tree.size),
    {
        if self@.contains_key(vertex.0) {
            lemma_root_from(self.list@, self.rank@, self.members@, vertex, self@.dom().len());
        }
    }

    /// The forest in which each of the given vertices is a tree of its own.
    pub fn new(vertices: Vec<VertexId>) -> (forest: Self)
        ensures
            forest.wf(),
            forest@ == singletons(vertices@),
    {
        let mut list: HashMap<usize, Node> = HashMap::new();
        let mut i: usize = 0;
        while i < vertices.len()
            invariant
                i <= vertices@.len(),
                list@ == singletons(vertices@.take(i as int)),
            decreases vertices@.len() - i,
        {
            list.insert(vertices[i].0, Node::TreeRoot(1));
            proof {
                let shorter = vertices@.take(i as int);
                let longer = vertices@.take(i as int + 1);
                assert(longer == shorter.push(vertices@[i as int]));
                assert forall|id: usize|
                    list@.contains_key(id) <==> singletons(longer).contains_key(id) by {
                    if shorter.contains(VertexId(id)) {
                        let k = choose|k: int| 0 <= k < shorter.len() && shorter[k] == VertexId(id);
                        assert(longer[k] == VertexId(id));
                    }
                    if id == vertices@[i as int].0 {
                        assert(longer[i as int] == VertexId(id));
                    }
                    if longer.contains(VertexId(id)) {
                        let k = choose|k: int| 0 <= k < longer.len() && longer[k] == VertexId(id);
                        if k < i {
                            assert(shorter[k] == VertexId(id));
                        }
                    }
                }
                assert(list@ =~= singletons(longer));
            }
            i += 1;
        }
        proof {
            assert(vertices@.take(vertices@.len() as int) == vertices@);
        }
        let ghost rank = Map::new(|id: usize| true, |id: usize| 0nat);
        let ghost members = Map::new(|id: usize| true, |id: usize| set![id]);
        let forest = Self { list, rank: Ghost(rank), members: Ghost(members) };
        proof {
            let nodes = forest.list@;
            assert forall|v: usize| #[trigger] nodes.contains_key(v) implies rank[v]
                < nodes.dom().len() by {
                lemma_len_subset(set![v], nodes.dom());
            }
            assert forall|v: usize| #[trigger] nodes.contains_key(v) implies members[v].subset_of(
                nodes.dom(),
            ) by {}
        }
        forest
    }

    /// The node of `id`, if the forest holds `id`.
    pub fn node(&self, id: VertexId) -> (node: Option<Node>)
        ensures
            node == if self@.contains_key(id.0) {
                Some(self@[id.0])
            } else {
                None
            },
    {
        match self.list.get(&id.0) {
            Some(node) => Some(*node),
            None => None,
        }
    }

    /// The tree that `id` belongs to: its root and its size. Fails if the
    /// forest does not hold `id`.
    pub fn find(&self, id: VertexId) -> (result: Result<Component, Error>)
        requires
            self.wf(),
        ensures
            result == find_in(self@, id),
            result is Ok <==> self@.contains_key(id.0),
    {
        let mut current = id;
        proof {
            self.lemma_find(id);
        }
        if !self.list.contains_key(&id.0) {
            return Err(Error::VertexNotIncluded(id));
        }
        loop
            invariant
                self.wf(),
                self@.contains_key(id.0),
                self@.contains_key(current.0),
                root_of(self@, current) == root_of(self@, id),
            decreases self@.dom().len() - self.rank@[current.0],
        {
            proof {
                lemma_root_from(
                    self.list@,
                    self.rank@,
                    self.members@,
                    current,
                    self@.dom().len(),
                );
            }
            match self.list.get(&current.0) {
                Some(node) => match *node {
                    Node::TreeRoot(size) => {
                        return Ok(Component { id: current, size });
                    },
                    Node::DecendentOf(above) => {
                        current = above;
                    },
                },
                None => {
                    return Err(Error::VertexNotIncluded(current));
                },
            }
        }
    }

    /// Makes the trees of `x` and `y` one tree. Fails, without a change, if
    /// the forest does not hold `x` or `y`.
    pub fn union(&mut self, x: VertexId, y: VertexId) -> (result: Result<(), Error>)
        requires
            old(self).wf(),
        ensures
            final(self).wf(),
            (final(self)@, result) == unite(old(self)@, x, y),
            final(self)@.dom() == old(self)@.dom(),
    {
        match (self.find(x), self.find(y)) {
            (Ok(x_tree), Ok(y_tree)) => {
                let xroot = x_tree.id;
                let yroot = y_tree.id;
                let xsize = x_tree.size;
                let ysize = y_tree.size;
                proof {
                    self.lemma_find(x);
                    self.lemma_find(y);
                }
                if xroot.0 != yroot.0 {
                    proof {
                        let nodes = self.list@;
                        let both = self.members@[xroot.0].union(self.members@[yroot.0]);
                        assert(nodes.contains_key(xroot.0) && nodes.contains_key(yroot.0));
                        lemma_set_disjoint_lens(self.members@[xroot.0], self.members@[yroot.0]);
                        lemma_len_subset(both, nodes.dom());
                        assert(self.list.len() == nodes.dom().len());
                    }
                    let ghost nodes = self.list@;
                    let ghost rank = self.rank@;
                    let ghost members = self.members@;
                    let ghost both = members[xroot.0].union(members[yroot.0]);
                    if xsize < ysize {
                        self.list.insert(xroot.0, Node::DecendentOf(yroot));
                        self.list.insert(yroot.0, Node::TreeRoot(xsize + ysize));
                        proof {
                            let higher = if rank[yroot.0] > rank[xroot.0] {
                                rank[yroot.0]
                            } else {
                                rank[xroot.0] + 1
                            };
                            self.rank@ = rank.insert(yroot.0, higher);
                            self.members@ = members.insert(yroot.0, both);
                            lemma_linked(nodes, rank, members, xroot.0, yroot.0);
                        }
                    } else {
                        self.list.insert(yroot.0, Node::DecendentOf(xroot));
                        self.list.insert(xroot.0, Node::TreeRoot(xsize + ysize));
                        proof {
                            let higher = if rank[xroot.0] > rank[yroot.0] {
                                rank[xroot.0]
                            } else {
                                rank[yroot.0] + 1
                            };
                            self.rank@ = rank.insert(xroot.0, higher);
                            self.members@ = members.insert(xroot.0, both);
                            lemma_linked(nodes, rank, members, yroot.0, xroot.0);
                        }
                    }
                    proof {
                        assert(self@.dom() =~= old(self)@.dom());
                        assert(self@ =~= link(old(self)@, x_tree, y_tree));
                    }
                }
                Ok(())
            },
            (Err(e), _) => Err(e),
            (_, Err(e)) => Err(e),
        }
    }
}

/// Putting one root of a forest below another one, with their sizes added
/// at the upper root, gives a forest: the upper root gets a rank above that
/// of the lower root and the members of both.
pub proof fn lemma_linked(
    nodes: Map<usize, Node>,
    rank: Map<usize, nat>,
    members: Map<usize, Set<usize>>,
    lower: usize,
    upper: usize,
)
    requires
        is_forest(nodes, rank, members),
        nodes.contains_key(lower),
        nodes.contains_key(upper),
        lower != upper,
        nodes[lower] is TreeRoot,
        nodes[upper] is TreeRoot,
        nodes[lower]->TreeRoot_0 + nodes[upper]->TreeRoot_0 <= usize::MAX,
    ensures
        is_forest(
            nodes.insert(lower, Node::DecendentOf(VertexId(upper))).insert(
                upper,
                Node::TreeRoot((nodes[lower]->TreeRoot_0 + nodes[upper]->TreeRoot_0) as usize),
            ),
            rank.insert(
                upper,
                if rank[upper] > rank[lower] {
                    rank[upper]
                } else {
                    rank[lower] + 1
                },
            ),
            members.insert(upper, members[lower].union(members[upper])),
        ),
{
    let low_size = nodes[lower]->TreeRoot_0;
    let up_size = nodes[upper]->TreeRoot_0;
    let both = members[lower].union(members[upper]);
    let higher = if rank[upper] > rank[lower] {
        rank[upper]
    } else {
        rank[lower] + 1
    };
    let nodes2 = nodes.insert(lower, Node::DecendentOf(VertexId(upper))).insert(
        upper,
        Node::TreeRoot((low_size + up_size) as usize),
    );
    let rank2 = rank.insert(upper, higher);
    let members2 = members.insert(upper, both);
    assert(nodes2.dom() =~= nodes.dom());
    lemma_set_disjoint_lens(members[lower], members[upper]);
    lemma_len_subset(both, nodes.dom());
    assert(both.len() == low_size + up_size);
    assert(members[upper].len() >= 1) by {
        if members[upper].len() == 0 {
            assert(members[upper].contains(upper));
            assert(members[upper] =~= Set::<usize>::empty()) by {
                vstd::set_lib::lemma_set_empty_equivalency_len(members[upper]);
            }
        }
    }
    assert forall|v: usize| #[trigger] nodes2.contains_key(v) implies rank2[v]
        < nodes2.dom().len() by {
        assert(nodes.contains_key(v));
    }
    assert forall|v: usize| #[trigger] nodes2.contains_key(v) implies match nodes2[v] {
        Node::TreeRoot(size) => {
            &&& rank2[v] < size
            &&& members2[v].finite()
            &&& members2[v].len() == size
            &&& members2[v].subset_of(nodes2.dom())
            &&& members2[v].contains(v)
        },
        Node::DecendentOf(above) => nodes2.contains_key(above.0) && rank2[v] < rank2[above.0],
    } by {
        assert(nodes.contains_key(v));
        if v != lower && v != upper {
            match nodes[v] {
                Node::TreeRoot(size) => {},
                Node::DecendentOf(above) => {
                    assert(nodes.contains_key(above.0));
                },
            }
        }
    }
    assert forall|a: usize, b: usize|
        #![trigger nodes2.contains_key(a), nodes2.contains_key(b)]
        nodes2.contains_key(a) && nodes2.contains_key(b) && a != b && nodes2[a] is TreeRoot
            && nodes2[b] is TreeRoot implies members2[a].disjoint(members2[b]) by {
        assert(nodes.contains_key(a) && nodes.contains_key(b));
        if a == upper {
            assert(members[lower].disjoint(members[b]));
            assert(members[upper].disjoint(members[b]));
        } else if b == upper {
            assert(members[a].disjoint(members[lower]));
            assert(members[a].disjoint(members[upper]));
        }
    }
}

} // verus!
