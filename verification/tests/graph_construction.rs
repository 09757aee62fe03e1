use graph::{Edge, Graph, VertexId};

#[test]
fn creates_graph_from_edge_topology() {
    let graph = Graph::from(6, vec![(0, 1), (4, 5), (1, 1)]).unwrap();
    assert_eq!(
        graph.vertices(),
        &vec![
            VertexId(0),
            VertexId(1),
            VertexId(2),
            VertexId(3),
            VertexId(4),
            VertexId(5)
        ]
    );
    assert_eq!(
        graph.edges(),
        &vec![
            Edge(VertexId(0), VertexId(1)),
            Edge(VertexId(4), VertexId(5)),
            Edge(VertexId(1), VertexId(1))
        ]
    );
    let out_index: Vec<Vec<VertexId>> = graph
        .vertices()
        .iter()
        .map(|v| graph.out_neighbors(*v))
        .collect();
    assert_eq!(
        out_index,
        vec![
            vec![VertexId(1)],
            vec![VertexId(1)],
            vec![],
            vec![],
            vec![VertexId(5)],
            vec![]
        ]
    );
    assert_eq!(graph, Graph::from(6, vec![(0, 1), (4, 5), (1, 1)]).unwrap());
}

#[test]
fn does_not_create_graph_with_dangling_edges() {
    assert!(Graph::from(0, vec![(0, 0)]).is_err());
}

#[test]
fn gets_out_neighbors() {
    let graph = Graph::from(5, vec![(0, 0), (0, 1), (0, 1), (0, 2), (1, 4)]).unwrap();
    assert_eq!(
        graph
            .out_neighbors_ref(&VertexId(0))
            .iter()
            .collect::<Vec<&VertexId>>(),
        vec![&VertexId(0), &VertexId(1), &VertexId(1), &VertexId(2)]
    );
}

#[test]
fn dangling_edge_is_reported_with_a_message() {
    assert_eq!(
        Graph::from(1, vec![(0, 1)]),
        Err("Dangling edges are not allowed".to_string())
    );
    assert!(Graph::from(1, vec![(1, 0)]).is_err());
    assert!(Graph::from(2, vec![(0, 1), (1, 2)]).is_err());
}

#[test]
fn contains_exactly_the_vertices_below_the_vertex_count() {
    let graph = Graph::from(2, vec![]).unwrap();
    assert!(graph.contains(&VertexId(0)));
    assert!(graph.contains(&VertexId(1)));
    assert!(!graph.contains(&VertexId(2)));
    assert!(!graph.contains(&VertexId(usize::MAX)));
    let empty = Graph::from(0, vec![]).unwrap();
    assert!(!empty.contains(&VertexId(0)));
}

#[test]
fn out_neighbors_follow_edge_insertion_order() {
    let graph = Graph::from(4, vec![(1, 3), (2, 1), (0, 0), (1, 0)]).unwrap();
    let mut out_neighbors = graph.out_neighbors(VertexId(1)).into_iter();
    assert_eq!(out_neighbors.next(), Some(VertexId(3)));
    assert_eq!(out_neighbors.next(), Some(VertexId(0)));
    assert_eq!(out_neighbors.next(), None);
    assert_eq!(graph.out_neighbors(VertexId(3)), vec![]);
}

#[test]
fn vertices_are_listed_in_ascending_order() {
    let graph = Graph::from(2, vec![]).unwrap();
    let mut vertices = graph.vertices().iter();
    assert_eq!(vertices.next(), Some(&VertexId(0)));
    assert_eq!(vertices.next(), Some(&VertexId(1)));
    assert_eq!(vertices.next(), None);
}
