use graph::{Component, Graph, VertexId, SCC};

fn components(graph: &Graph) -> Vec<Component> {
    let mut scc = SCC::on(graph);
    let mut found = Vec::new();
    while let Some(component) = scc.next() {
        found.push(component);
    }
    found
}

#[test]
fn scc_empty_graph_has_no_components() {
    let graph = Graph::from(0, vec![]).unwrap();
    assert_eq!(
        components(&graph),
        Vec::<Component>::new()
    );
}

#[test]
fn scc_single_vertex_is_a_strong_component() {
    let graph = Graph::from(1, vec![]).unwrap();
    assert_eq!(
        components(&graph),
        vec![Component::from(vec![VertexId(0)])]
    );
}

#[test]
fn scc_vertices_connected_with_one_edge_are_not_stronly_connected() {
    let graph = Graph::from(2, vec![(0, 1)]).unwrap();
    assert_eq!(
        components(&graph),
        vec![
            Component::from(vec![VertexId(1)]),
            Component::from(vec![VertexId(0)])
        ]
    );
}

#[test]
fn scc_vertices_connected_in_both_directions_are_stronly_connected() {
    let graph = Graph::from(2, vec![(0, 1), (1, 0)]).unwrap();
    assert_eq!(
        components(&graph),
        vec![Component::from(vec![VertexId(1), VertexId(0)]),]
    );
}

#[test]
fn scc_loop_is_stronly_connected() {
    let graph = Graph::from(3, vec![(0, 1), (1, 2), (2, 0)]).unwrap();
    assert_eq!(
        components(&graph),
        vec![Component::from(vec![VertexId(2), VertexId(1), VertexId(0)]),]
    );
}

#[test]
fn scc_finds_component_in_different_ordering() {
    let graph = Graph::from(3, vec![(2, 1), (1, 2)]).unwrap();
    assert_eq!(
        components(&graph),
        vec![
            Component::from(vec![VertexId(0)]),
            Component::from(vec![VertexId(2), VertexId(1)]),
        ]
    );
    let graph = Graph::from(6, vec![(4, 2), (2, 0), (1, 3), (5, 2), (0, 4)]).unwrap();
    assert_eq!(
        components(&graph),
        vec![
            Component::from(vec![VertexId(0), VertexId(2), VertexId(4)]),
            Component::from(vec![VertexId(3)]),
            Component::from(vec![VertexId(1)]),
            Component::from(vec![VertexId(5)]),
        ]
    );
}

#[test]
fn scc_finds_two_stronly_connected_components() {
    let graph = Graph::from(5, vec![(0, 1), (1, 2), (2, 0), (2, 3), (3, 4), (4, 3)]).unwrap();
    assert_eq!(
        components(&graph),
        vec![
            Component::from(vec![VertexId(4), VertexId(3)]),
            Component::from(vec![VertexId(2), VertexId(1), VertexId(0)]),
        ]
    );
}

#[test]
fn scc_two_nested_loops_belong_to_same_strong_component() {
    let graph = Graph::from(4, vec![(0, 1), (1, 2), (2, 0), (2, 3), (3, 2)]).unwrap();
    assert_eq!(
        components(&graph),
        vec![Component::from(vec![
            VertexId(3),
            VertexId(2),
            VertexId(1),
            VertexId(0)
        ]),]
    );
}

#[test]
fn scc_works_on_knuth_example() {
    let graph = Graph::from(
        10,
        vec![
            (3, 1),
            (4, 1),
            (5, 9),
            (2, 6),
            (5, 3),
            (5, 8),
            (9, 7),
            (9, 3),
            (2, 3),
            (8, 4),
            (6, 2),
            (6, 4),
            (3, 3),
            (8, 3),
            (2, 7),
            (9, 5),
            (0, 2),
            (8, 8),
            (4, 1),
            (9, 7),
            (1, 6),
        ],
    )
    .unwrap();
    assert_eq!(
        components(&graph),
        vec![
            Component::from(vec![VertexId(7)]),
            Component::from(vec![
                VertexId(6),
                VertexId(1),
                VertexId(4),
                VertexId(3),
                VertexId(2),
            ]),
            Component::from(vec![VertexId(0)]),
            Component::from(vec![VertexId(8)]),
            Component::from(vec![VertexId(5), VertexId(9)]),
        ]
    );
}
