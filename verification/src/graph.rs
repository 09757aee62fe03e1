//! The immutable directed multigraph all algorithms of this crate work on.

use vstd::prelude::*;

verus! {

/// A unique identifier for a vertex: a dense index below the vertex count.
#[derive(Debug, PartialEq, Eq, Structural, Clone, Copy, Hash, PartialOrd, Ord)]
pub struct VertexId(pub usize);

/// A directed edge between two vertices: `Edge(from, to)`.
#[derive(Debug, PartialEq, Eq, Structural, Clone, Copy)]
pub struct Edge(
    /// from
    pub VertexId,
    /// to
    pub VertexId,
);

/// The set of vertices whose ids are in `ids`.
pub open spec fn vertex_set(ids: Set<usize>) -> Set<VertexId> {
    Set::new(|vertex: VertexId| ids.contains(vertex.0))
}

/// The mathematical content of a [`Graph`]: how many vertices it has and its
/// edges in insertion order.
pub struct GraphView {
    pub vertex_count: nat,
    pub edges: Seq<Edge>,
}

/// The targets of those edges in `edges` that start at `from`, in the order
/// of `edges`.
pub open spec fn targets_from(edges: Seq<Edge>, from: VertexId) -> Seq<VertexId>
    decreases edges.len(),
{
    if edges.len() == 0 {
        Seq::empty()
    } else if edges.last().0 == from {
        targets_from(edges.drop_last(), from).push(edges.last().1)
    } else {
        targets_from(edges.drop_last(), from)
    }
}

/// Whether `pair` names a vertex that a graph of `vertex_count` vertices
/// does not have.
pub open spec fn is_dangling(vertex_count: usize, pair: (usize, usize)) -> bool {
    pair.0 >= vertex_count || pair.1 >= vertex_count
}

/// Whether some pair of `pairs` is dangling.
pub open spec fn has_dangling(vertex_count: usize, pairs: Seq<(usize, usize)>) -> bool {
    exists|i: int| 0 <= i < pairs.len() && is_dangling(vertex_count, #[trigger] pairs[i])
}

/// The edges that a list of `(from, to)` pairs stands for.
pub open spec fn edges_of(pairs: Seq<(usize, usize)>) -> Seq<Edge> {
    Seq::new(pairs.len(), |i: int| Edge(VertexId(pairs[i].0), VertexId(pairs[i].1)))
}

impl GraphView {
    /// Every edge starts and ends at a vertex of the graph, and the numbers
    /// of vertices and of edges are machine integers.
    pub open spec fn wf(self) -> bool {
        &&& self.vertex_count <= usize::MAX
        &&& self.edges.len() <= usize::MAX
        &&& forall|i: int|
            0 <= i < self.edges.len() ==> self.contains((#[trigger] self.edges[i]).0)
                && self.contains(self.edges[i].1)
    }

    /// Whether `vertex` is a vertex of the graph: its id is below the
    /// vertex count.
    pub open spec fn contains(self, vertex: VertexId) -> bool {
        vertex.0 < self.vertex_count
    }

    /// The out-neighbours of `vertex`, one per edge, in edge insertion order.
    pub open spec fn out_neighbors(self, vertex: VertexId) -> Seq<VertexId> {
        targets_from(self.edges, vertex)
    }

    /// All vertices in ascending order.
    pub open spec fn vertices(self) -> Seq<VertexId> {
        Seq::new(self.vertex_count, |i: int| VertexId(i as usize))
    }

    /// Whether there is an edge from `from` to `to`.
    pub open spec fn has_edge(self, from: VertexId, to: VertexId) -> bool {
        self.edges.contains(Edge(from, to))
    }
}

/// Whether each vertex of `path` but the last has an edge to the next one.
/// A single vertex is a path.
pub open spec fn is_path(graph: GraphView, path: Seq<VertexId>) -> bool {
    &&& path.len() > 0
    &&& forall|i: int|
        0 <= i < path.len() - 1 ==> graph.has_edge(#[trigger] path[i], path[i + 1])
}

/// Whether a path leads from `from` to `to`. Every vertex reaches itself.
#[verifier::opaque]
pub open spec fn reaches(graph: GraphView, from: VertexId, to: VertexId) -> bool {
    exists|path: Seq<VertexId>| #[trigger]
        is_path(graph, path) && path[0] == from && path.last() == to
}

/// Whether no edge leads out of `set`.
pub open spec fn is_closed(graph: GraphView, set: Set<VertexId>) -> bool {
    forall|from: VertexId, to: VertexId|
        set.contains(from) && #[trigger] graph.has_edge(from, to) ==> set.contains(to)
}

/// Every vertex reaches itself.
pub proof fn lemma_reaches_self(graph: GraphView, vertex: VertexId)
    ensures
        reaches(graph, vertex, vertex),
{
    reveal(reaches);
    let path = seq![vertex];
    assert(is_path(graph, path) && path[0] == vertex && path.last() == vertex);
}

/// What the end of an edge reaches, the start of the edge reaches.
pub proof fn lemma_reaches_first(graph: GraphView, from: VertexId, middle: VertexId, to: VertexId)
    requires
        graph.has_edge(from, middle),
        reaches(graph, middle, to),
    ensures
        reaches(graph, from, to),
{
    reveal(reaches);
    let path = choose|path: Seq<VertexId>| #[trigger]
        is_path(graph, path) && path[0] == middle && path.last() == to;
    let longer = seq![from] + path;
    assert forall|i: int| 0 <= i < longer.len() - 1 implies graph.has_edge(
        #[trigger] longer[i],
        longer[i + 1],
    ) by {
        if i > 0 {
            assert(graph.has_edge(path[i - 1], path[i - 1 + 1]));
        }
    }
    assert(is_path(graph, longer) && longer[0] == from && longer.last() == to);
}

/// Reaching is transitive.
pub proof fn lemma_reaches_trans(graph: GraphView, from: VertexId, middle: VertexId, to: VertexId)
    requires
        reaches(graph, from, middle),
        reaches(graph, middle, to),
    ensures
        reaches(graph, from, to),
{
    reveal(reaches);
    let first = choose|path: Seq<VertexId>| #[trigger]
        is_path(graph, path) && path[0] == from && path.last() == middle;
    let second = choose|path: Seq<VertexId>| #[trigger]
        is_path(graph, path) && path[0] == middle && path.last() == to;
    let whole = first.drop_last() + second;
    assert forall|i: int| 0 <= i < whole.len() - 1 implies graph.has_edge(
        #[trigger] whole[i],
        whole[i + 1],
    ) by {
        if i < first.len() - 2 {
            assert(graph.has_edge(first[i], first[i + 1]));
        } else if i == first.len() - 2 {
            assert(graph.has_edge(first[i], first[i + 1]));
        } else {
            let k = i - (first.len() - 1);
            assert(graph.has_edge(second[k], second[k + 1]));
        }
    }
    assert(is_path(graph, whole) && whole[0] == from && whole.last() == to);
}

/// A closed set holds everything that one of its vertices reaches.
pub proof fn lemma_closed_reaches(
    graph: GraphView,
    set: Set<VertexId>,
    from: VertexId,
    to: VertexId,
)
    requires
        is_closed(graph, set),
        set.contains(from),
        reaches(graph, from, to),
    ensures
        set.contains(to),
{
    reveal(reaches);
    let path = choose|path: Seq<VertexId>| #[trigger]
        is_path(graph, path) && path[0] == from && path.last() == to;
    lemma_closed_path(graph, set, path, path.len() - 1);
}

/// A closed set that holds the first vertex of a path holds each of them.
pub proof fn lemma_closed_path(graph: GraphView, set: Set<VertexId>, path: Seq<VertexId>, at: int)
    requires
        is_closed(graph, set),
        is_path(graph, path),
        set.contains(path[0]),
        0 <= at < path.len(),
    ensures
        set.contains(path[at]),
    decreases at,
{
    if at > 0 {
        lemma_closed_path(graph, set, path, at - 1);
        assert(graph.has_edge(path[at - 1], path[at - 1 + 1]));
    }
}

/// The targets from a vertex are exactly the targets of the edges that start
/// at the vertex, and they are at most as many as there are edges.
pub proof fn lemma_targets_from(edges: Seq<Edge>, from: VertexId)
    ensures
        forall|to: VertexId|
            targets_from(edges, from).contains(to) <==> edges.contains(Edge(from, to)),
        targets_from(edges, from).len() <= edges.len(),
    decreases edges.len(),
{
    if edges.len() == 0 {
        assert forall|to: VertexId|
            targets_from(edges, from).contains(to) <==> edges.contains(Edge(from, to)) by {
            if targets_from(edges, from).contains(to) {
                let i = choose|i: int|
                    0 <= i < targets_from(edges, from).len() && targets_from(edges, from)[i] == to;
            }
            if edges.contains(Edge(from, to)) {
                let i = choose|i: int| 0 <= i < edges.len() && edges[i] == Edge(from, to);
            }
        }
    } else {
        let init = edges.drop_last();
        let last = edges.last();
        lemma_targets_from(init, from);
        assert forall|to: VertexId|
            targets_from(edges, from).contains(to) <==> edges.contains(Edge(from, to)) by {
            let t = targets_from(edges, from);
            let ti = targets_from(init, from);
            if t.contains(to) {
                let i = choose|i: int| 0 <= i < t.len() && t[i] == to;
                if last.0 == from && i == ti.len() {
                    assert(edges[edges.len() - 1] == Edge(from, to));
                } else {
                    assert(ti[i] == to);
                    assert(ti.contains(to));
                    let j = choose|j: int| 0 <= j < init.len() && init[j] == Edge(from, to);
                    assert(edges[j] == Edge(from, to));
                }
            }
            if edges.contains(Edge(from, to)) {
                let j = choose|j: int| 0 <= j < edges.len() && edges[j] == Edge(from, to);
                if j == edges.len() - 1 {
                    assert(t[t.len() - 1] == to);
                } else {
                    assert(init[j] == Edge(from, to));
                    assert(init.contains(Edge(from, to)));
                    assert(ti.contains(to));
                    let i = choose|i: int| 0 <= i < ti.len() && ti[i] == to;
                    assert(t[i] == to);
                }
            }
        }
    }
}

/// An immutable graph structure for analytics.
///
/// A graph is defined via its vertices and edges. A vertex is uniquely
/// defined via its `VertexId`. An edge connects two vertices in a specified
/// direction. Vertices and edges carry no data. The same vertices can be
/// connected by several edges pointing in the same direction, and an edge
/// can have the same start and end vertex. Dangling edges (edges whose start
/// or end vertex does not exist) cannot be created. Once created, a graph
/// cannot be changed.
///
/// The graph also includes an out index for faster lookups of out neighbours.
#[derive(Debug, PartialEq)]
pub struct Graph {
    vertices: Vec<VertexId>,
    edges: Vec<Edge>,
    out_index: Vec<Vec<VertexId>>,
}

impl View for Graph {
    type V = GraphView;

    closed spec fn view(&self) -> GraphView {
        GraphView { vertex_count: self.vertices@.len(), edges: self.edges@ }
    }
}

impl Graph {
    /// The invariant of a graph: no edge dangles, the vertices are
    /// `0..vertex_count` in ascending order, and the out index lists for each
    /// vertex the targets of its edges in insertion order.
    pub closed spec fn wf(&self) -> bool {
        &&& self@.wf()
        &&& self.vertices@ == self@.vertices()
        &&& self.out_index@.len() == self.vertices@.len()
        &&& forall|v: int|
            0 <= v < self.out_index@.len() ==> (#[trigger] self.out_index@[v])@
                == self@.out_neighbors(VertexId(v as usize))
    }

    /// A graph that satisfies its invariant has a well-formed view.
    pub proof fn lemma_view_wf(&self)
        requires
            self.wf(),
        ensures
            self@.wf(),
    {
        assert(self.vertices.len() <= usize::MAX);
        assert(self.edges.len() <= usize::MAX);
    }

    /// Creates a graph with `vertex_count` vertices and the given edges.
    ///
    /// Vertex ids are `0..vertex_count`. Returns `Err` if one of the given
    /// edges is dangling, that is, names a vertex id that is not below
    /// `vertex_count`; otherwise the graph holds exactly the given edges in
    /// the given order, and contains exactly the vertices with an id below
    /// `vertex_count`.
    pub fn from(vertex_count: usize, edges: Vec<(usize, usize)>) -> (result: Result<Self, String>)
        ensures
            result is Err <==> has_dangling(vertex_count, edges@),
            match result {
                Ok(graph) => {
                    &&& graph.wf()
                    &&& graph@.vertex_count == vertex_count
                    &&& graph@.edges == edges_of(edges@)
                    &&& forall|vertex: VertexId|
                        graph@.contains(vertex) <==> vertex.0 < vertex_count
                },
                Err(message) => message@ == "Dangling edges are not allowed"@,
            },
    {
        broadcast use vstd::string::to_string_from_display_ensures_for_str;

        let mut vertices: Vec<VertexId> = Vec::new();
        let mut out_index: Vec<Vec<VertexId>> = Vec::new();
        let mut v: usize = 0;
        while v < vertex_count
            invariant
                v <= vertex_count,
                vertices@.len() == v,
                out_index@.len() == v,
                forall|i: int| 0 <= i < v ==> vertices@[i] == VertexId(i as usize),
                forall|i: int| 0 <= i < v ==> (#[trigger] out_index@[i])@ == Seq::<VertexId>::empty(),
            decreases vertex_count - v,
        {
            vertices.push(VertexId(v));
            out_index.push(Vec::new());
            v += 1;
        }
        let mut list: Vec<Edge> = Vec::new();
        let mut i: usize = 0;
        while i < edges.len()
            invariant
                i <= edges.len(),
                out_index@.len() == vertex_count,
                list@ == edges_of(edges@.take(i as int)),
                !has_dangling(vertex_count, edges@.take(i as int)),
                forall|v: int|
                    0 <= v < vertex_count ==> (#[trigger] out_index@[v])@ == targets_from(
                        list@,
                        VertexId(v as usize),
                    ),
            decreases edges.len() - i,
        {
            let (from, to) = edges[i];
            if vertex_count > from && vertex_count > to {
                let ghost before = list@;
                out_index[from].push(VertexId(to));
                list.push(Edge(VertexId(from), VertexId(to)));
                proof {
                    assert(edges@.take(i as int + 1).drop_last() == edges@.take(i as int));
                    assert(list@.drop_last() == before);
                    assert(list@ == edges_of(edges@.take(i as int + 1)));
                    assert forall|j: int| 0 <= j < edges@.take(i as int + 1).len() implies !is_dangling(
                        vertex_count,
                        #[trigger] edges@.take(i as int + 1)[j],
                    ) by {
                        if j < i {
                            assert(edges@.take(i as int)[j] == edges@[j]);
                        }
                    }
                }
            } else {
                proof {
                    assert(is_dangling(vertex_count, edges@[i as int]));
                }
                return Err("Dangling edges are not allowed".to_string());
            }
            i += 1;
        }
        proof {
            assert(edges@.take(edges@.len() as int) == edges@);
        }
        let graph = Graph { vertices, edges: list, out_index };
        proof {
            assert(graph.edges.len() <= usize::MAX);
            assert(graph.vertices@ == graph@.vertices());
            assert forall|k: int| 0 <= k < graph@.edges.len() implies graph@.contains(
                (#[trigger] graph@.edges[k]).0,
            ) && graph@.contains(graph@.edges[k].1) by {
                assert(!is_dangling(vertex_count, edges@[k]));
            }
        }
        Ok(graph)
    }

    /// The out-neighbours of `vertex` by reference, one per edge that starts
    /// at `vertex`, in edge insertion order.
    pub fn out_neighbors_ref<'a>(&'a self, vertex: &'a VertexId) -> (neighbors: &'a Vec<VertexId>)
        requires
            self.wf(),
            self@.contains(*vertex),
        ensures
            neighbors@ == self@.out_neighbors(*vertex),
    {
        &self.out_index[vertex.0]
    }

    /// The out-neighbours of `vertex`: all vertices `v` for which an edge from
    /// `vertex` to `v` exists, one per edge, in edge insertion order.
    pub fn out_neighbors(&self, vertex: VertexId) -> (neighbors: Vec<VertexId>)
        requires
            self.wf(),
            self@.contains(vertex),
        ensures
            neighbors@ == self@.out_neighbors(vertex),
    {
        let list = &self.out_index[vertex.0];
        let mut neighbors: Vec<VertexId> = Vec::new();
        let mut i: usize = 0;
        while i < list.len()
            invariant
                i <= list@.len(),
                neighbors@ == list@.take(i as int),
            decreases list@.len() - i,
        {
            neighbors.push(list[i]);
            proof {
                assert(list@.take(i as int + 1) == list@.take(i as int).push(list@[i as int]));
            }
            i += 1;
        }
        proof {
            assert(list@.take(list@.len() as int) == list@);
        }
        neighbors
    }

    /// Checks if the graph contains a given `vertex`.
    pub fn contains(&self, vertex: &VertexId) -> (found: bool)
        ensures
            found == self@.contains(*vertex),
    {
        self.vertices.len() > vertex.0
    }

    /// All vertices of the graph in ascending order.
    pub fn vertices(&self) -> (vertices: &Vec<VertexId>)
        requires
            self.wf(),
        ensures
            vertices@ == self@.vertices(),
    {
        &self.vertices
    }

    /// All edges of the graph in insertion order.
    pub fn edges(&self) -> (edges: &Vec<Edge>)
        ensures
            edges@ == self@.edges,
    {
        &self.edges
    }
}

} // verus!
