use graph::algorithms::enumeration::buffer::{Buffer, Queue, Stack as StackBuffer};
use graph::algorithms::enumeration::detailed::{graph as whole, tree};
use graph::algorithms::enumeration::graph::{GraphBreadthFirst, GraphDepthFirst};
use graph::algorithms::enumeration::tree::{BreadthFirst, DepthFirst};
use graph::algorithms::scc::stack::Stack;
use graph::algorithms::wcc::algorithm::WCC;
use graph::{Component, DFSEntry, Edge, Graph, VertexId, SCC};

fn knuth_example() -> Graph {
    Graph::from(
        10,
        vec![
            (3, 1),
            (4, 1),
            (5, 9),
            (2, 6),
            (5, 3),
            (5, 8),
            (9, 7),
            (9, 3),
            (2, 3),
            (8, 4),
            (6, 2),
            (6, 4),
            (3, 3),
            (8, 3),
            (2, 7),
            (9, 5),
            (0, 2),
            (8, 8),
            (4, 1),
            (9, 7),
            (1, 6),
        ],
    )
    .unwrap()
}

fn tree_events(graph: &Graph, start: VertexId) -> Vec<DFSEntry> {
    let mut traversal = tree::DepthFirst::on(graph, start);
    let mut found = Vec::new();
    while let Some(entry) = traversal.next() {
        found.push(entry);
    }
    found
}

fn graph_events(graph: &Graph) -> Vec<DFSEntry> {
    let mut traversal = whole::DepthFirst::on(graph);
    let mut found = Vec::new();
    while let Some(entry) = traversal.next() {
        found.push(entry);
    }
    found
}

fn components(graph: &Graph) -> Vec<Component> {
    let mut scc = SCC::on(graph);
    let mut found = Vec::new();
    while let Some(component) = scc.next() {
        found.push(component);
    }
    found
}

/// reach[u][v]: whether a path leads from u to v
fn reachability(graph: &Graph) -> Vec<Vec<bool>> {
    let n = graph.vertices().len();
    let mut reach = vec![vec![false; n]; n];
    for u in 0..n {
        reach[u][u] = true;
        for v in graph.out_neighbors(VertexId(u)) {
            reach[u][v.0] = true;
        }
    }
    for k in 0..n {
        for u in 0..n {
            for v in 0..n {
                if reach[u][k] && reach[k][v] {
                    reach[u][v] = true;
                }
            }
        }
    }
    reach
}

fn positions(events: &[DFSEntry], entry: &DFSEntry) -> Vec<usize> {
    events
        .iter()
        .enumerate()
        .filter(|(_, e)| *e == entry)
        .map(|(i, _)| i)
        .collect()
}

#[test]
fn each_reachable_vertex_begins_once_and_ends_once_after_its_begin() {
    let graph = knuth_example();
    let reach = reachability(&graph);
    for start in 0..10 {
        let events = tree_events(&graph, VertexId(start));
        for v in 0..10 {
            let begins = positions(&events, &DFSEntry::BeginVertex(VertexId(v)));
            let ends = positions(&events, &DFSEntry::EndVertex(VertexId(v)));
            if reach[start][v] {
                assert_eq!(begins.len(), 1);
                assert_eq!(ends.len(), 1);
                assert!(begins[0] < ends[0]);
            } else {
                assert_eq!(begins.len(), 0);
                assert_eq!(ends.len(), 0);
            }
        }
    }
}

#[test]
fn each_edge_ends_after_its_begin_and_after_the_end_of_a_target_that_it_discovered() {
    let graph = knuth_example();
    for events in [tree_events(&graph, VertexId(5)), graph_events(&graph)] {
        let mut open: Vec<(usize, Edge)> = Vec::new();
        for (i, entry) in events.iter().enumerate() {
            match entry {
                DFSEntry::BeginEdge(edge) => open.push((i, *edge)),
                DFSEntry::EndEdge(edge) => {
                    let (begin, begun) = open.pop().unwrap();
                    assert_eq!(begun, *edge);
                    if events[begin + 1] == DFSEntry::BeginVertex(edge.1) {
                        assert!(begin + 1 < i - 1);
                        assert_eq!(events[i - 1], DFSEntry::EndVertex(edge.1));
                    } else {
                        assert_eq!(begin + 1, i);
                    }
                }
                _ => {}
            }
        }
        assert!(open.is_empty());
    }
}

#[test]
fn traversal_of_a_graph_visits_each_vertex_once() {
    let graph = knuth_example();
    let events = graph_events(&graph);
    for v in 0..10 {
        let begins = positions(&events, &DFSEntry::BeginVertex(VertexId(v)));
        let ends = positions(&events, &DFSEntry::EndVertex(VertexId(v)));
        assert_eq!(begins.len(), 1);
        assert_eq!(ends.len(), 1);
        assert!(begins[0] < ends[0]);
    }
    assert_eq!(events[0], DFSEntry::BeginVertex(VertexId(0)));
    let edges = events
        .iter()
        .filter(|e| matches!(e, DFSEntry::BeginEdge(_)))
        .count();
    assert_eq!(edges, 21);
    assert_eq!(events.len(), 2 * 10 + 2 * 21);
}

#[test]
fn trees_of_a_graph_traversal_start_at_the_first_vertex_that_has_not_begun() {
    let graph = Graph::from(5, vec![(1, 0), (3, 4), (2, 1)]).unwrap();
    assert_eq!(
        graph_events(&graph),
        vec![
            DFSEntry::BeginVertex(VertexId(0)),
            DFSEntry::EndVertex(VertexId(0)),
            DFSEntry::BeginVertex(VertexId(1)),
            DFSEntry::BeginEdge(Edge(VertexId(1), VertexId(0))),
            DFSEntry::EndEdge(Edge(VertexId(1), VertexId(0))),
            DFSEntry::EndVertex(VertexId(1)),
            DFSEntry::BeginVertex(VertexId(2)),
            DFSEntry::BeginEdge(Edge(VertexId(2), VertexId(1))),
            DFSEntry::EndEdge(Edge(VertexId(2), VertexId(1))),
            DFSEntry::EndVertex(VertexId(2)),
            DFSEntry::BeginVertex(VertexId(3)),
            DFSEntry::BeginEdge(Edge(VertexId(3), VertexId(4))),
            DFSEntry::BeginVertex(VertexId(4)),
            DFSEntry::EndVertex(VertexId(4)),
            DFSEntry::EndEdge(Edge(VertexId(3), VertexId(4))),
            DFSEntry::EndVertex(VertexId(3)),
        ]
    );
}

#[test]
fn strong_components_partition_the_vertices_into_classes_of_mutual_reachability() {
    for graph in [
        knuth_example(),
        Graph::from(5, vec![(0, 1), (1, 2), (2, 0), (2, 3), (3, 4), (4, 3)]).unwrap(),
        Graph::from(4, vec![(0, 0), (1, 1), (2, 3)]).unwrap(),
        Graph::from(7, vec![(6, 5), (5, 4), (4, 6), (4, 3), (3, 2), (2, 1), (1, 3), (0, 6)])
            .unwrap(),
    ] {
        let n = graph.vertices().len();
        let reach = reachability(&graph);
        let found = components(&graph);
        let mut seen = vec![0; n];
        for component in &found {
            let members: Vec<usize> = (0..n)
                .filter(|v| {
                    let mut with = Component::from(vec![VertexId(*v)]);
                    for w in 0..n {
                        if reach[*v][w] && reach[w][*v] {
                            with.add(VertexId(w));
                        }
                    }
                    with == *component
                })
                .collect();
            assert!(!members.is_empty());
            for v in &members {
                seen[*v] += 1;
            }
        }
        assert_eq!(seen, vec![1; n]);
        // a component that is handed out earlier has no edge to a later one
        let index_of = |v: usize| {
            found
                .iter()
                .position(|c| {
                    let mut with = Component::from(vec![VertexId(v)]);
                    for w in 0..n {
                        if reach[v][w] && reach[w][v] {
                            with.add(VertexId(w));
                        }
                    }
                    with == *c
                })
                .unwrap()
        };
        for u in 0..n {
            for v in graph.out_neighbors(VertexId(u)) {
                assert!(index_of(v.0) <= index_of(u));
            }
        }
    }
}

#[test]
fn parallel_edges_give_two_components_and_two_pairs_of_edge_events() {
    let graph = Graph::from(2, vec![(0, 1), (0, 1)]).unwrap();
    assert_eq!(
        components(&graph),
        vec![
            Component::from(vec![VertexId(1)]),
            Component::from(vec![VertexId(0)])
        ]
    );
    let events = tree_events(&graph, VertexId(0));
    let edge = Edge(VertexId(0), VertexId(1));
    assert_eq!(positions(&events, &DFSEntry::BeginEdge(edge)), vec![1, 5]);
    assert_eq!(positions(&events, &DFSEntry::EndEdge(edge)), vec![4, 6]);
}

#[test]
fn self_loop_is_a_component_of_one_vertex() {
    let graph = Graph::from(2, vec![(1, 1), (1, 0)]).unwrap();
    assert_eq!(
        components(&graph),
        vec![
            Component::from(vec![VertexId(0)]),
            Component::from(vec![VertexId(1)])
        ]
    );
    assert_eq!(
        tree_events(&graph, VertexId(1)),
        vec![
            DFSEntry::BeginVertex(VertexId(1)),
            DFSEntry::BeginEdge(Edge(VertexId(1), VertexId(1))),
            DFSEntry::EndEdge(Edge(VertexId(1), VertexId(1))),
            DFSEntry::BeginEdge(Edge(VertexId(1), VertexId(0))),
            DFSEntry::BeginVertex(VertexId(0)),
            DFSEntry::EndVertex(VertexId(0)),
            DFSEntry::EndEdge(Edge(VertexId(1), VertexId(0))),
            DFSEntry::EndVertex(VertexId(1)),
        ]
    );
}

#[test]
fn dropped_vertex_reports_no_end_and_follows_no_edge() {
    let graph = Graph::from(3, vec![(0, 1), (1, 2), (0, 2)]).unwrap();
    let mut traversal = tree::DepthFirst::on(&graph, VertexId(0));
    assert_eq!(traversal.next(), Some(DFSEntry::BeginVertex(VertexId(0))));
    assert_eq!(
        traversal.next(),
        Some(DFSEntry::BeginEdge(Edge(VertexId(0), VertexId(1))))
    );
    assert_eq!(traversal.next(), Some(DFSEntry::BeginVertex(VertexId(1))));
    traversal.drop_current_vertex();
    let mut rest = Vec::new();
    while let Some(entry) = traversal.next() {
        rest.push(entry);
    }
    assert_eq!(
        rest,
        vec![
            DFSEntry::EndEdge(Edge(VertexId(0), VertexId(1))),
            DFSEntry::BeginEdge(Edge(VertexId(0), VertexId(2))),
            DFSEntry::BeginVertex(VertexId(2)),
            DFSEntry::EndVertex(VertexId(2)),
            DFSEntry::EndEdge(Edge(VertexId(0), VertexId(2))),
            DFSEntry::EndVertex(VertexId(0)),
        ]
    );
    assert_eq!(traversal.next(), None);
    let mut explored: Vec<usize> = traversal.explored().into_iter().collect();
    explored.sort();
    assert_eq!(explored, vec![0, 1, 2]);
}

#[test]
fn dropped_start_vertex_ends_the_traversal() {
    let graph = Graph::from(2, vec![(0, 1)]).unwrap();
    let mut traversal = tree::DepthFirst::on(&graph, VertexId(0));
    assert_eq!(traversal.next(), Some(DFSEntry::BeginVertex(VertexId(0))));
    traversal.drop_current_vertex();
    assert_eq!(traversal.next(), None);
    assert_eq!(traversal.next(), None);
    traversal.drop_current_vertex();
    assert_eq!(traversal.next(), None);
}

#[test]
fn stack_gives_indices_in_the_order_of_the_pushes() {
    let mut stack = Stack::new();
    stack.push(VertexId(7));
    stack.push(VertexId(3));
    stack.push(VertexId(5));
    assert!(stack.is_root(&VertexId(7)));
    assert!(stack.is_root(&VertexId(3)));
    assert!(stack.is_root(&VertexId(5)));
    // the low link of 5 becomes that of 3
    stack.update_with_minimum(VertexId(5), VertexId(3));
    assert!(!stack.is_root(&VertexId(5)));
    assert!(stack.is_root(&VertexId(3)));
    // a higher low link changes nothing
    stack.update_with_minimum(VertexId(3), VertexId(5));
    assert!(stack.is_root(&VertexId(3)));
    // a vertex without entry changes nothing
    stack.update_with_minimum(VertexId(3), VertexId(9));
    assert!(stack.is_root(&VertexId(3)));
    assert_eq!(
        stack.pop_until(VertexId(3)),
        Component::from(vec![VertexId(3), VertexId(5)])
    );
    // the entries of the popped vertices are gone
    stack.update_with_minimum(VertexId(7), VertexId(3));
    assert!(stack.is_root(&VertexId(7)));
    stack.push(VertexId(3));
    stack.update_with_minimum(VertexId(3), VertexId(7));
    assert!(!stack.is_root(&VertexId(3)));
    assert_eq!(
        stack.pop_until(VertexId(7)),
        Component::from(vec![VertexId(7), VertexId(3)])
    );
}

#[test]
fn components_are_equal_if_they_hold_the_same_vertices() {
    let mut component = Component::new();
    assert_eq!(component, Component::from(vec![]));
    component.add(VertexId(2));
    component.add(VertexId(1));
    component.add(VertexId(2));
    assert_eq!(component, Component::from(vec![VertexId(1), VertexId(2)]));
    assert_eq!(
        component,
        Component::from(vec![VertexId(2), VertexId(1), VertexId(1)])
    );
    assert_ne!(component, Component::from(vec![VertexId(1)]));
}

#[test]
fn queue_hands_out_the_oldest_and_stack_the_newest() {
    let (a, b, c) = (VertexId(1), VertexId(2), VertexId(3));
    let mut queue = Queue::start(&a);
    queue.push(&b);
    queue.push(&c);
    assert_eq!(queue.pop(), Some(&a));
    assert_eq!(queue.pop(), Some(&b));
    assert_eq!(queue.pop(), Some(&c));
    assert_eq!(queue.pop(), None);
    let mut stack = StackBuffer::start(&a);
    stack.push(&b);
    stack.push(&c);
    assert_eq!(stack.pop(), Some(&c));
    assert_eq!(stack.pop(), Some(&b));
    assert_eq!(stack.pop(), Some(&a));
    assert_eq!(stack.pop(), None);
    let mut empty: Queue = Buffer::new();
    assert_eq!(empty.pop(), None);
}

#[test]
fn weak_components_are_in_the_order_of_their_smallest_vertices() {
    let graph = Graph::from(6, vec![(5, 1), (3, 4), (1, 0), (4, 2)]).unwrap();
    assert_eq!(
        WCC::on(&graph).get(),
        vec![
            Component::from(vec![VertexId(0), VertexId(1), VertexId(5)]),
            Component::from(vec![VertexId(2), VertexId(3), VertexId(4)]),
        ]
    );
}

#[test]
fn collect_returns_what_next_hands_out() {
    let graph = knuth_example();
    assert_eq!(
        tree::DepthFirst::on(&graph, VertexId(5)).collect(),
        tree_events(&graph, VertexId(5))
    );
    assert_eq!(whole::DepthFirst::on(&graph).collect(), graph_events(&graph));
    assert_eq!(SCC::on(&graph).collect(), components(&graph));
    assert_eq!(
        SCC::on(&graph).collect(),
        vec![
            Component::from(vec![VertexId(7)]),
            Component::from(vec![
                VertexId(1),
                VertexId(2),
                VertexId(3),
                VertexId(4),
                VertexId(6),
            ]),
            Component::from(vec![VertexId(0)]),
            Component::from(vec![VertexId(8)]),
            Component::from(vec![VertexId(5), VertexId(9)]),
        ]
    );
    let mut traversal = tree::DepthFirst::on(&graph, VertexId(9));
    assert_eq!(traversal.next(), Some(DFSEntry::BeginVertex(VertexId(9))));
    assert_eq!(
        traversal.next(),
        Some(DFSEntry::BeginEdge(Edge(VertexId(9), VertexId(7))))
    );
    let rest = traversal.collect();
    assert_eq!(rest[0], DFSEntry::BeginVertex(VertexId(7)));
    assert_eq!(rest.len(), tree_events(&graph, VertexId(9)).len() - 2);
}

#[test]
fn collect_returns_the_vertices_in_the_order_of_the_buffer() {
    let graph = Graph::from(6, vec![(0, 1), (0, 2), (4, 5), (1, 3), (1, 4)]).unwrap();
    assert_eq!(
        BreadthFirst::on(&graph, &VertexId(0)).collect(),
        vec![
            &VertexId(0),
            &VertexId(1),
            &VertexId(2),
            &VertexId(3),
            &VertexId(4),
            &VertexId(5)
        ]
    );
    assert_eq!(
        DepthFirst::on(&graph, &VertexId(1)).collect(),
        vec![&VertexId(1), &VertexId(4), &VertexId(5), &VertexId(3)]
    );
    let graph = Graph::from(5, vec![(1, 0), (3, 4), (2, 1), (3, 1)]).unwrap();
    assert_eq!(
        GraphBreadthFirst::on(&graph).collect(),
        vec![
            &VertexId(0),
            &VertexId(1),
            &VertexId(2),
            &VertexId(3),
            &VertexId(4)
        ]
    );
    assert_eq!(
        GraphDepthFirst::on(&graph).collect(),
        vec![
            &VertexId(0),
            &VertexId(1),
            &VertexId(2),
            &VertexId(3),
            &VertexId(4)
        ]
    );
    assert_eq!(
        DepthFirst::on(&graph, &VertexId(7)).collect(),
        Vec::<&VertexId>::new()
    );
}

#[test]
fn enumerations_hand_out_what_the_start_reaches_once() {
    let graph = knuth_example();
    let reach = reachability(&graph);
    for start in 0..10 {
        let start = VertexId(start);
        for found in [
            BreadthFirst::on(&graph, &start).collect(),
            DepthFirst::on(&graph, &start).collect(),
        ] {
            assert_eq!(found[0], &start);
            for v in 0..10 {
                let times = found.iter().filter(|x| ***x == VertexId(v)).count();
                assert_eq!(times, if reach[start.0][v] { 1 } else { 0 });
            }
        }
    }
    for found in [
        GraphBreadthFirst::on(&graph).collect(),
        GraphDepthFirst::on(&graph).collect(),
    ] {
        assert_eq!(found.len(), 10);
        for v in 0..10 {
            assert_eq!(found.iter().filter(|x| ***x == VertexId(v)).count(), 1);
        }
    }
}

#[test]
fn each_edge_begins_and_ends_as_often_as_it_occurs() {
    let graph = knuth_example();
    let events = graph_events(&graph);
    for edge in graph.edges() {
        let occurs = graph.edges().iter().filter(|e| *e == edge).count();
        assert_eq!(positions(&events, &DFSEntry::BeginEdge(*edge)).len(), occurs);
        assert_eq!(positions(&events, &DFSEntry::EndEdge(*edge)).len(), occurs);
    }
    let twice = Edge(VertexId(4), VertexId(1));
    assert_eq!(positions(&events, &DFSEntry::BeginEdge(twice)).len(), 2);
    let never = Edge(VertexId(1), VertexId(4));
    assert_eq!(positions(&events, &DFSEntry::BeginEdge(never)).len(), 0);
}

#[test]
fn weak_components_hold_what_is_connected_without_regard_to_direction() {
    let graph = knuth_example();
    let found = WCC::on(&graph).get();
    assert_eq!(
        found,
        vec![Component::from((0..10).map(VertexId).collect())]
    );
    let graph = Graph::from(7, vec![(1, 0), (2, 3), (4, 3), (6, 6)]).unwrap();
    assert_eq!(
        WCC::on(&graph).get(),
        vec![
            Component::from(vec![VertexId(0), VertexId(1)]),
            Component::from(vec![VertexId(2), VertexId(3), VertexId(4)]),
            Component::from(vec![VertexId(5)]),
            Component::from(vec![VertexId(6)]),
        ]
    );
}
