use graph::algorithms::enumeration::buffer::Buffer;
use graph::algorithms::enumeration::detailed::tree;
use graph::algorithms::enumeration::tree::{BreadthFirst, DepthFirst, TreeEnumeration};
use graph::{DFSEntry, Edge, Graph, VertexId};

fn tree_events(graph: &Graph, start: VertexId) -> Vec<DFSEntry> {
    let mut traversal = tree::DepthFirst::on(graph, start);
    let mut found = Vec::new();
    while let Some(entry) = traversal.next() {
        found.push(entry);
    }
    assert_eq!(traversal.next(), None);
    found
}

fn collect_tree<'a, E: Buffer<'a>>(mut enumeration: TreeEnumeration<'a, E>) -> Vec<&'a VertexId> {
    let mut found = Vec::new();
    while let Some(vertex) = enumeration.next() {
        found.push(vertex);
    }
    assert_eq!(enumeration.next(), None);
    found
}

#[test]
fn tree_does_not_find_non_existend_vertex() {
    {
        let graph = Graph::from(0, vec![]).unwrap();
        assert_eq!(
            tree_events(&graph, VertexId(0)),
            Vec::<DFSEntry>::new()
        );
    }
    {
        let graph = Graph::from(0, vec![]).unwrap();
        assert_eq!(
            collect_tree(BreadthFirst::on(&graph, &VertexId(0))),
            Vec::<&VertexId>::new()
        );
        assert_eq!(
            collect_tree(DepthFirst::on(&graph, &VertexId(0))),
            Vec::<&VertexId>::new()
        );
    }
}

#[test]
fn tree_finds_sole_vertex() {
    {
        let graph = Graph::from(1, vec![]).unwrap();
        assert_eq!(
            tree_events(&graph, VertexId(0)),
            vec![
                DFSEntry::BeginVertex(VertexId(0)),
                DFSEntry::EndVertex(VertexId(0))
            ]
        );
    }
    {
        let graph = Graph::from(1, vec![]).unwrap();
        assert_eq!(
            collect_tree(BreadthFirst::on(&graph, &VertexId(0))),
            vec![&VertexId(0)]
        );
        assert_eq!(
            collect_tree(DepthFirst::on(&graph, &VertexId(0))),
            vec![&VertexId(0)]
        );
    }
}

#[test]
fn tree_iterates_vertices() {
    {
        let graph = Graph::from(2, vec![(0, 1)]).unwrap();
        assert_eq!(
            tree_events(&graph, VertexId(0)),
            vec![
                DFSEntry::BeginVertex(VertexId(0)),
                DFSEntry::BeginEdge(Edge(VertexId(0), VertexId(1))),
                DFSEntry::BeginVertex(VertexId(1)),
                DFSEntry::EndVertex(VertexId(1)),
                DFSEntry::EndEdge(Edge(VertexId(0), VertexId(1))),
                DFSEntry::EndVertex(VertexId(0))
            ]
        );
    }
    {
        let graph = Graph::from(2, vec![(0, 1)]).unwrap();
        assert_eq!(
            collect_tree(BreadthFirst::on(&graph, &VertexId(0))),
            vec![&VertexId(0), &VertexId(1)]
        );
        assert_eq!(
            collect_tree(DepthFirst::on(&graph, &VertexId(0))),
            vec![&VertexId(0), &VertexId(1)]
        );
    }
}

#[test]
fn tree_depth_first_enumerates_vertices_depth_first() {
    {
        let graph = Graph::from(6, vec![(0, 1), (0, 2), (4, 5), (1, 3), (1, 4)]).unwrap();
        assert_eq!(
            tree_events(&graph, VertexId(0)),
            vec![
                DFSEntry::BeginVertex(VertexId(0)),
                DFSEntry::BeginEdge(Edge(VertexId(0), VertexId(1))),
                DFSEntry::BeginVertex(VertexId(1)),
                DFSEntry::BeginEdge(Edge(VertexId(1), VertexId(3))),
                DFSEntry::BeginVertex(VertexId(3)),
                DFSEntry::EndVertex(VertexId(3)),
                DFSEntry::EndEdge(Edge(VertexId(1), VertexId(3))),
                DFSEntry::BeginEdge(Edge(VertexId(1), VertexId(4))),
                DFSEntry::BeginVertex(VertexId(4)),
                DFSEntry::BeginEdge(Edge(VertexId(4), VertexId(5))),
                DFSEntry::BeginVertex(VertexId(5)),
                DFSEntry::EndVertex(VertexId(5)),
                DFSEntry::EndEdge(Edge(VertexId(4), VertexId(5))),
                DFSEntry::EndVertex(VertexId(4)),
                DFSEntry::EndEdge(Edge(VertexId(1), VertexId(4))),
                DFSEntry::EndVertex(VertexId(1)),
                DFSEntry::EndEdge(Edge(VertexId(0), VertexId(1))),
                DFSEntry::BeginEdge(Edge(VertexId(0), VertexId(2))),
                DFSEntry::BeginVertex(VertexId(2)),
                DFSEntry::EndVertex(VertexId(2)),
                DFSEntry::EndEdge(Edge(VertexId(0), VertexId(2))),
                DFSEntry::EndVertex(VertexId(0))
            ]
        );
    }
    {
        let graph = Graph::from(6, vec![(0, 1), (0, 2), (4, 5), (1, 3), (1, 4)]).unwrap();
        assert_eq!(
            collect_tree(DepthFirst::on(&graph, &VertexId(0))),
            vec![
                &VertexId(0),
                &VertexId(2),
                &VertexId(1),
                &VertexId(4),
                &VertexId(5),
                &VertexId(3),
            ]
        );
    }
}

#[test]
fn tree_only_finds_connected_vertices() {
    {
        let graph = Graph::from(2, vec![]).unwrap();
        assert_eq!(
            tree_events(&graph, VertexId(0)),
            vec![
                DFSEntry::BeginVertex(VertexId(0)),
                DFSEntry::EndVertex(VertexId(0))
            ]
        );
    }
    {
        let graph = Graph::from(2, vec![]).unwrap();
        assert_eq!(
            collect_tree(BreadthFirst::on(&graph, &VertexId(0))),
            vec![&VertexId(0)]
        );
        assert_eq!(
            collect_tree(DepthFirst::on(&graph, &VertexId(0))),
            vec![&VertexId(0)]
        );
    }
}

#[test]
fn tree_only_searches_in_edge_direction() {
    {
        let graph = Graph::from(2, vec![(0, 1)]).unwrap();
        assert_eq!(
            tree_events(&graph, VertexId(1)),
            vec![
                DFSEntry::BeginVertex(VertexId(1)),
                DFSEntry::EndVertex(VertexId(1))
            ]
        );
    }
    {
        let graph = Graph::from(2, vec![(0, 1)]).unwrap();
        assert_eq!(
            collect_tree(BreadthFirst::on(&graph, &VertexId(1))),
            vec![&VertexId(1)]
        );
        assert_eq!(
            collect_tree(DepthFirst::on(&graph, &VertexId(1))),
            vec![&VertexId(1)]
        );
    }
}

#[test]
fn tree_finds_each_vertex_only_once() {
    {
        let graph = Graph::from(2, vec![(0, 1), (0, 1)]).unwrap();
        assert_eq!(
            tree_events(&graph, VertexId(0)),
            vec![
                DFSEntry::BeginVertex(VertexId(0)),
                DFSEntry::BeginEdge(Edge(VertexId(0), VertexId(1))),
                DFSEntry::BeginVertex(VertexId(1)),
                DFSEntry::EndVertex(VertexId(1)),
                DFSEntry::EndEdge(Edge(VertexId(0), VertexId(1))),
                DFSEntry::BeginEdge(Edge(VertexId(0), VertexId(1))),
                DFSEntry::EndEdge(Edge(VertexId(0), VertexId(1))),
                DFSEntry::EndVertex(VertexId(0))
            ]
        );
    }
    {
        let graph = Graph::from(2, vec![(0, 1), (0, 1)]).unwrap();
        assert_eq!(
            collect_tree(BreadthFirst::on(&graph, &VertexId(0))),
            vec![&VertexId(0), &VertexId(1),]
        );
        assert_eq!(
            collect_tree(DepthFirst::on(&graph, &VertexId(0))),
            vec![&VertexId(0), &VertexId(1),]
        );
    }
}

#[test]
fn tree_finds_each_vertex_in_a_loop_once() {
    {
        let graph = Graph::from(2, vec![(0, 1), (1, 0)]).unwrap();
        assert_eq!(
            tree_events(&graph, VertexId(0)),
            vec![
                DFSEntry::BeginVertex(VertexId(0)),
                DFSEntry::BeginEdge(Edge(VertexId(0), VertexId(1))),
                DFSEntry::BeginVertex(VertexId(1)),
                DFSEntry::BeginEdge(Edge(VertexId(1), VertexId(0))),
                DFSEntry::EndEdge(Edge(VertexId(1), VertexId(0))),
                DFSEntry::EndVertex(VertexId(1)),
                DFSEntry::EndEdge(Edge(VertexId(0), VertexId(1))),
                DFSEntry::EndVertex(VertexId(0))
            ]
        );

        let graph = Graph::from(3, vec![(0, 1), (1, 2), (2, 1)]).unwrap();
        assert_eq!(
            tree_events(&graph, VertexId(0)),
            vec![
                DFSEntry::BeginVertex(VertexId(0)),
                DFSEntry::BeginEdge(Edge(VertexId(0), VertexId(1))),
                DFSEntry::BeginVertex(VertexId(1)),
                DFSEntry::BeginEdge(Edge(VertexId(1), VertexId(2))),
                DFSEntry::BeginVertex(VertexId(2)),
                DFSEntry::BeginEdge(Edge(VertexId(2), VertexId(1))),
                DFSEntry::EndEdge(Edge(VertexId(2), VertexId(1))),
                DFSEntry::EndVertex(VertexId(2)),
                DFSEntry::EndEdge(Edge(VertexId(1), VertexId(2))),
                DFSEntry::EndVertex(VertexId(1)),
                DFSEntry::EndEdge(Edge(VertexId(0), VertexId(1))),
                DFSEntry::EndVertex(VertexId(0))
            ]
        );
    }
    {
        let graph = Graph::from(2, vec![(0, 1), (1, 0)]).unwrap();
        assert_eq!(
            collect_tree(BreadthFirst::on(&graph, &VertexId(0))),
            vec![&VertexId(0), &VertexId(1),]
        );
        assert_eq!(
            collect_tree(DepthFirst::on(&graph, &VertexId(0))),
            vec![&VertexId(0), &VertexId(1),]
        );

        let graph = Graph::from(3, vec![(0, 1), (1, 2), (2, 1)]).unwrap();
        assert_eq!(
            collect_tree(BreadthFirst::on(&graph, &VertexId(0))),
            vec![&VertexId(0), &VertexId(1), &VertexId(2)]
        );
        assert_eq!(
            collect_tree(DepthFirst::on(&graph, &VertexId(0))),
            vec![&VertexId(0), &VertexId(1), &VertexId(2)]
        );
    }
}

#[test]
fn tree_breadth_first_enumerates_vertices_breadth_first() {
    let graph = Graph::from(6, vec![(0, 1), (0, 2), (4, 5), (1, 3), (1, 4)]).unwrap();
    assert_eq!(
        collect_tree(BreadthFirst::on(&graph, &VertexId(0))),
        vec![
            &VertexId(0),
            &VertexId(1),
            &VertexId(2),
            &VertexId(3),
            &VertexId(4),
            &VertexId(5)
        ]
    );
}
