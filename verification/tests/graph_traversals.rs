use graph::algorithms::enumeration::buffer::Buffer;
use graph::algorithms::enumeration::detailed::graph::DepthFirst;
use graph::algorithms::enumeration::graph::{GraphBreadthFirst, GraphDepthFirst, GraphEnumeration};
use graph::{DFSEntry, Edge, Graph, VertexId};

fn graph_events(graph: &Graph) -> Vec<DFSEntry> {
    let mut traversal = DepthFirst::on(graph);
    let mut found = Vec::new();
    while let Some(entry) = traversal.next() {
        found.push(entry);
    }
    assert_eq!(traversal.next(), None);
    found
}

fn collect_graph<'a, N: Buffer<'a>>(mut enumeration: GraphEnumeration<'a, N>) -> Vec<&'a VertexId> {
    let mut found = Vec::new();
    while let Some(vertex) = enumeration.next() {
        found.push(vertex);
    }
    assert_eq!(enumeration.next(), None);
    found
}

#[test]
fn graph_does_not_find_anything_on_empty_graph() {
    {
        let graph = Graph::from(0, vec![]).unwrap();
        assert_eq!(
            graph_events(&graph),
            Vec::<DFSEntry>::new()
        );
    }
    {
        let graph = Graph::from(0, vec![]).unwrap();
        assert_eq!(
            collect_graph(GraphBreadthFirst::on(&graph)),
            Vec::<&VertexId>::new()
        );
        assert_eq!(
            collect_graph(GraphDepthFirst::on(&graph)),
            Vec::<&VertexId>::new()
        );
    }
}

#[test]
fn graph_finds_sole_vertex() {
    {
        let graph = Graph::from(1, vec![]).unwrap();
        assert_eq!(
            graph_events(&graph),
            vec![
                DFSEntry::BeginVertex(VertexId(0)),
                DFSEntry::EndVertex(VertexId(0))
            ]
        );
    }
    {
        let graph = Graph::from(1, vec![]).unwrap();
        assert_eq!(
            collect_graph(GraphBreadthFirst::on(&graph)),
            vec![&VertexId(0)]
        );
        assert_eq!(
            collect_graph(GraphDepthFirst::on(&graph)),
            vec![&VertexId(0)]
        );
    }
}

#[test]
fn graph_iterates_vertices() {
    {
        let graph = Graph::from(2, vec![(0, 1)]).unwrap();
        assert_eq!(
            graph_events(&graph),
            vec![
                DFSEntry::BeginVertex(VertexId(0)),
                DFSEntry::BeginEdge(Edge(VertexId(0), VertexId(1))),
                DFSEntry::BeginVertex(VertexId(1)),
                DFSEntry::EndVertex(VertexId(1)),
                DFSEntry::EndEdge(Edge(VertexId(0), VertexId(1))),
                DFSEntry::EndVertex(VertexId(0))
            ]
        );
    }
    {
        let graph = Graph::from(2, vec![(0, 1)]).unwrap();
        assert_eq!(
            collect_graph(GraphBreadthFirst::on(&graph)),
            vec![&VertexId(0), &VertexId(1)]
        );
        assert_eq!(
            collect_graph(GraphDepthFirst::on(&graph)),
            vec![&VertexId(0), &VertexId(1)]
        );
    }
}

#[test]
fn graph_iterates_over_unconnected_components() {
    {
        let graph = Graph::from(2, vec![]).unwrap();
        assert_eq!(
            graph_events(&graph),
            vec![
                DFSEntry::BeginVertex(VertexId(0)),
                DFSEntry::EndVertex(VertexId(0)),
                DFSEntry::BeginVertex(VertexId(1)),
                DFSEntry::EndVertex(VertexId(1)),
            ]
        );
    }
    {
        let graph = Graph::from(4, vec![]).unwrap();
        assert_eq!(
            collect_graph(GraphBreadthFirst::on(&graph)),
            vec![&VertexId(0), &VertexId(1), &VertexId(2), &VertexId(3)]
        );
        assert_eq!(
            collect_graph(GraphDepthFirst::on(&graph)),
            vec![&VertexId(0), &VertexId(1), &VertexId(2), &VertexId(3)]
        );
    }
}

#[test]
fn iterates_over_each_component_depth_first() {
    let graph = Graph::from(8, vec![(0, 1), (0, 2), (1, 3), (4, 5), (4, 6), (5, 7)]).unwrap();
    assert_eq!(
        graph_events(&graph),
        vec![
            DFSEntry::BeginVertex(VertexId(0)),
            DFSEntry::BeginEdge(Edge(VertexId(0), VertexId(1))),
            DFSEntry::BeginVertex(VertexId(1)),
            DFSEntry::BeginEdge(Edge(VertexId(1), VertexId(3))),
            DFSEntry::BeginVertex(VertexId(3)),
            DFSEntry::EndVertex(VertexId(3)),
            DFSEntry::EndEdge(Edge(VertexId(1), VertexId(3))),
            DFSEntry::EndVertex(VertexId(1)),
            DFSEntry::EndEdge(Edge(VertexId(0), VertexId(1))),
            DFSEntry::BeginEdge(Edge(VertexId(0), VertexId(2))),
            DFSEntry::BeginVertex(VertexId(2)),
            DFSEntry::EndVertex(VertexId(2)),
            DFSEntry::EndEdge(Edge(VertexId(0), VertexId(2))),
            DFSEntry::EndVertex(VertexId(0)),
            DFSEntry::BeginVertex(VertexId(4)),
            DFSEntry::BeginEdge(Edge(VertexId(4), VertexId(5))),
            DFSEntry::BeginVertex(VertexId(5)),
            DFSEntry::BeginEdge(Edge(VertexId(5), VertexId(7))),
            DFSEntry::BeginVertex(VertexId(7)),
            DFSEntry::EndVertex(VertexId(7)),
            DFSEntry::EndEdge(Edge(VertexId(5), VertexId(7))),
            DFSEntry::EndVertex(VertexId(5)),
            DFSEntry::EndEdge(Edge(VertexId(4), VertexId(5))),
            DFSEntry::BeginEdge(Edge(VertexId(4), VertexId(6))),
            DFSEntry::BeginVertex(VertexId(6)),
            DFSEntry::EndVertex(VertexId(6)),
            DFSEntry::EndEdge(Edge(VertexId(4), VertexId(6))),
            DFSEntry::EndVertex(VertexId(4)),
        ]
    );
}

#[test]
fn graph_iterates_over_each_component_in_edge_direction_first() {
    {
        let graph = Graph::from(3, vec![(0, 1), (2, 0)]).unwrap();
        assert_eq!(
            graph_events(&graph),
            vec![
                DFSEntry::BeginVertex(VertexId(0)),
                DFSEntry::BeginEdge(Edge(VertexId(0), VertexId(1))),
                DFSEntry::BeginVertex(VertexId(1)),
                DFSEntry::EndVertex(VertexId(1)),
                DFSEntry::EndEdge(Edge(VertexId(0), VertexId(1))),
                DFSEntry::EndVertex(VertexId(0)),
                DFSEntry::BeginVertex(VertexId(2)),
                DFSEntry::BeginEdge(Edge(VertexId(2), VertexId(0))),
                DFSEntry::EndEdge(Edge(VertexId(2), VertexId(0))),
                DFSEntry::EndVertex(VertexId(2))
            ]
        );
    }
    {
        let graph = Graph::from(3, vec![(0, 1), (2, 0)]).unwrap();
        assert_eq!(
            collect_graph(GraphBreadthFirst::on(&graph)),
            vec![&VertexId(0), &VertexId(1), &VertexId(2),]
        );
        assert_eq!(
            collect_graph(GraphDepthFirst::on(&graph)),
            vec![&VertexId(0), &VertexId(1), &VertexId(2),]
        );
    }
}

#[test]
fn graph_finds_each_vertex_in_a_loop_once() {
    {
        let graph = Graph::from(2, vec![(0, 1), (1, 0)]).unwrap();
        assert_eq!(
            graph_events(&graph),
            vec![
                DFSEntry::BeginVertex(VertexId(0)),
                DFSEntry::BeginEdge(Edge(VertexId(0), VertexId(1))),
                DFSEntry::BeginVertex(VertexId(1)),
                DFSEntry::BeginEdge(Edge(VertexId(1), VertexId(0))),
                DFSEntry::EndEdge(Edge(VertexId(1), VertexId(0))),
                DFSEntry::EndVertex(VertexId(1)),
                DFSEntry::EndEdge(Edge(VertexId(0), VertexId(1))),
                DFSEntry::EndVertex(VertexId(0))
            ]
        );
    }
    {
        let graph = Graph::from(2, vec![(0, 1), (1, 0)]).unwrap();
        assert_eq!(
            collect_graph(GraphBreadthFirst::on(&graph)),
            vec![&VertexId(0), &VertexId(1),]
        );
        assert_eq!(
            collect_graph(GraphDepthFirst::on(&graph)),
            vec![&VertexId(0), &VertexId(1),]
        );
    }
}

#[test]
fn finds_rest_of_tree_when_dfs_does_not_start_at_its_root() {
    let graph = Graph::from(4, vec![(3, 1), (2, 3), (2, 0)]).unwrap();
    assert_eq!(
        graph_events(&graph),
        vec![
            DFSEntry::BeginVertex(VertexId(0)),
            DFSEntry::EndVertex(VertexId(0)),
            DFSEntry::BeginVertex(VertexId(1)),
            DFSEntry::EndVertex(VertexId(1)),
            DFSEntry::BeginVertex(VertexId(2)),
            DFSEntry::BeginEdge(Edge(VertexId(2), VertexId(3))),
            DFSEntry::BeginVertex(VertexId(3)),
            DFSEntry::BeginEdge(Edge(VertexId(3), VertexId(1))),
            DFSEntry::EndEdge(Edge(VertexId(3), VertexId(1))),
            DFSEntry::EndVertex(VertexId(3)),
            DFSEntry::EndEdge(Edge(VertexId(2), VertexId(3))),
            DFSEntry::BeginEdge(Edge(VertexId(2), VertexId(0))),
            DFSEntry::EndEdge(Edge(VertexId(2), VertexId(0))),
            DFSEntry::EndVertex(VertexId(2)),
        ]
    );
}

#[test]
fn breadth_first_iterates_over_each_component_breadth_first() {
    let graph = Graph::from(5, vec![(0, 1), (0, 2), (3, 4)]).unwrap();
    assert_eq!(
        collect_graph(GraphBreadthFirst::on(&graph)),
        vec![
            &VertexId(0),
            &VertexId(1),
            &VertexId(2),
            &VertexId(3),
            &VertexId(4)
        ]
    );
}

#[test]
fn depth_first_iterates_over_each_component_depth_first() {
    let graph = Graph::from(8, vec![(0, 1), (0, 2), (1, 3), (4, 5), (4, 6), (5, 7)]).unwrap();
    assert_eq!(
        collect_graph(GraphDepthFirst::on(&graph)),
        vec![
            &VertexId(0),
            &VertexId(2),
            &VertexId(1),
            &VertexId(3),
            &VertexId(4),
            &VertexId(6),
            &VertexId(5),
            &VertexId(7),
        ]
    );
}
