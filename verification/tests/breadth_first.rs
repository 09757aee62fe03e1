use graph::algorithms::enumeration::tree::BreadthFirst;
use graph::{Graph, VertexId};

fn breadth_first(graph: &Graph, start: VertexId) -> Vec<VertexId> {
    let mut enumeration = BreadthFirst::on(graph, &start);
    let mut found = Vec::new();
    while let Some(vertex) = enumeration.next() {
        found.push(*vertex);
    }
    found
}

#[test]
fn breadth_first_does_not_find_non_existend_vertex() {
    let graph = Graph::from(0, vec![]).unwrap();
    assert_eq!(
        breadth_first(&graph, VertexId(0)),
        vec![]
    );
}

#[test]
fn breadth_first_finds_sole_vertex() {
    let graph = Graph::from(1, vec![]).unwrap();
    assert_eq!(
        breadth_first(&graph, VertexId(0)),
        vec![VertexId(0)]
    );
}

#[test]
fn breadth_first_iterates_vertices() {
    let graph = Graph::from(2, vec![(0, 1)]).unwrap();
    assert_eq!(
        breadth_first(&graph, VertexId(0)),
        vec![VertexId(0), VertexId(1)]
    );
}

#[test]
fn breadth_first_enumerates_vertices_breadth_first() {
    let graph = Graph::from(6, vec![(0, 1), (0, 2), (4, 5), (1, 3), (1, 4)]).unwrap();
    assert_eq!(
        breadth_first(&graph, VertexId(0)),
        vec![
            VertexId(0),
            VertexId(1),
            VertexId(2),
            VertexId(3),
            VertexId(4),
            VertexId(5)
        ]
    );
}

#[test]
fn breadth_first_only_finds_connected_vertices() {
    let graph = Graph::from(2, vec![]).unwrap();
    assert_eq!(
        breadth_first(&graph, VertexId(0)),
        vec![VertexId(0)]
    )
}

#[test]
fn breadth_first_only_searches_in_edge_direction() {
    let graph = Graph::from(2, vec![(0, 1)]).unwrap();
    assert_eq!(
        breadth_first(&graph, VertexId(1)),
        vec![VertexId(1)]
    )
}

#[test]
fn breadth_first_finds_each_vertex_only_once() {
    let graph = Graph::from(2, vec![(0, 1), (0, 1)]).unwrap();
    assert_eq!(
        breadth_first(&graph, VertexId(0)),
        vec![VertexId(0), VertexId(1),]
    );
}

#[test]
fn breadth_first_finds_each_vertex_in_a_loop_once() {
    let graph = Graph::from(2, vec![(0, 1), (1, 0)]).unwrap();
    assert_eq!(
        breadth_first(&graph, VertexId(0)),
        vec![VertexId(0), VertexId(1),]
    );

    let graph = Graph::from(3, vec![(0, 1), (1, 2), (2, 1)]).unwrap();
    assert_eq!(
        breadth_first(&graph, VertexId(0)),
        vec![VertexId(0), VertexId(1), VertexId(2)]
    );
}
