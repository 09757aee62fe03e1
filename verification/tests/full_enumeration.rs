use graph::{BreadthFirstOnGraph, Graph, VertexId};

fn graph_breadth_first(graph: &Graph) -> Vec<VertexId> {
    let mut enumeration = BreadthFirstOnGraph::on(graph);
    let mut found = Vec::new();
    while let Some(vertex) = enumeration.next() {
        found.push(*vertex);
    }
    found
}

#[test]
fn full_enumeration_does_not_find_anything_on_empty_graph() {
    let graph = Graph::from(0, vec![]).unwrap();
    assert_eq!(
        graph_breadth_first(&graph),
        vec![]
    );
}

#[test]
fn full_enumeration_finds_sole_vertex() {
    let graph = Graph::from(1, vec![]).unwrap();
    assert_eq!(
        graph_breadth_first(&graph),
        vec![VertexId(0)]
    );
}

#[test]
fn full_enumeration_iterates_vertices() {
    let graph = Graph::from(2, vec![(0, 1)]).unwrap();
    assert_eq!(
        graph_breadth_first(&graph),
        vec![VertexId(0), VertexId(1)]
    );
}

#[test]
fn full_enumeration_iterates_over_unconnected_components() {
    let graph = Graph::from(4, vec![]).unwrap();
    assert_eq!(
        graph_breadth_first(&graph),
        vec![VertexId(0), VertexId(1), VertexId(2), VertexId(3)]
    );
}

#[test]
fn full_enumeration_iterates_over_each_component_breadth_first() {
    let graph = Graph::from(5, vec![(0, 1), (0, 2), (3, 4)]).unwrap();
    assert_eq!(
        graph_breadth_first(&graph),
        vec![
            VertexId(0),
            VertexId(1),
            VertexId(2),
            VertexId(3),
            VertexId(4)
        ]
    );
}

#[test]
fn full_enumeration_iterates_over_each_component_in_edge_direction_first() {
    let graph = Graph::from(3, vec![(0, 1), (2, 0)]).unwrap();
    assert_eq!(
        graph_breadth_first(&graph),
        vec![VertexId(0), VertexId(1), VertexId(2),]
    );
}

#[test]
fn full_enumeration_finds_each_vertex_in_a_loop_once() {
    let graph = Graph::from(2, vec![(0, 1), (1, 0)]).unwrap();
    assert_eq!(
        graph_breadth_first(&graph),
        vec![VertexId(0), VertexId(1),]
    );
}
