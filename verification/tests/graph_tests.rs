use graph_store::graph::Graph;
use graph_store::node::Node;
use graph_store::shortest_path::Distance;

#[test]
fn test_add_and_retrieve_node() {
    let mut graph = Graph::new();
    let node = Node::new(1, Some("Label".to_string()));
    graph.add_node(node);

    assert!(graph.get_node(1).is_some());
}

#[test]
fn test_add_and_retrieve_edge() {
    let mut graph = Graph::new();
    graph.add_node(Node::new(1, Some("Label".to_string())));
    graph.add_node(Node::new(2, Some("Label".to_string())));

    graph.add_edge(1, 2, 1, Some("RelatedTo".to_string()));

    assert!(graph.get_edge(1).is_some());
    assert_eq!(graph.out_degree(1), 1);
}

#[test]
fn test_dijkstra_algorithm() {
    let mut graph = Graph::new();
    graph.add_node(Node::new(1, Some("Node 1".to_string())));
    graph.add_node(Node::new(2, Some("Node 2".to_string())));
    graph.add_node(Node::new(3, Some("Node 3".to_string())));
    graph.add_node(Node::new(4, Some("Node 4".to_string())));

    graph.add_edge(1, 2, 1, Some("Edge 1-2".to_string()));
    graph.add_edge(1, 3, 4, Some("Edge 1-3".to_string()));
    graph.add_edge(2, 3, 2, Some("Edge 2-3".to_string()));
    graph.add_edge(3, 4, 1, Some("Edge 3-4".to_string()));

    let distances = graph.dijkstra(1);

    assert_eq!(distances.get(1), Some(Distance::Finite(0)));
    assert_eq!(distances.get(2), Some(Distance::Finite(1)));
    assert_eq!(distances.get(3), Some(Distance::Finite(3)));
    assert_eq!(distances.get(4), Some(Distance::Finite(4)));
}

#[test]
fn test_dijkstra_unreachable_node_is_infinite() {
    let mut graph = Graph::new();
    graph.add_node(Node::new(1, None));
    graph.add_node(Node::new(2, None));
    graph.add_node(Node::new(5, Some("isolated".to_string())));
    graph.add_edge(1, 2, 3, None);

    let distances = graph.dijkstra(1);
    assert_eq!(distances.get(5), Some(Distance::Infinity));
    assert_eq!(distances.get(2), Some(Distance::Finite(3)));
    assert_eq!(distances.get(7), None);
}

#[test]
fn test_delete_node_scrubs_edges_and_adjacency() {
    let mut graph = Graph::new();
    graph.add_node(Node::new(1, None));
    graph.add_node(Node::new(2, None));
    graph.add_node(Node::new(3, None));
    graph.add_edge(1, 2, 1, None); // edge id 1
    graph.add_edge(2, 1, 1, None); // edge id 2
    graph.add_edge(2, 3, 1, None); // edge id 3
    graph.add_edge(1, 3, 1, None); // edge id 4

    graph.delete_node(2);

    assert!(graph.get_node(2).is_none());
    assert!(graph.get_edge(1).is_none());
    assert!(graph.get_edge(2).is_none());
    assert!(graph.get_edge(3).is_none());
    assert!(graph.get_edge(4).is_some());
    assert_eq!(graph.out_degree(2), 0);
    assert_eq!(graph.out_degree(1), 1);
}

#[test]
fn test_delete_absent_node_is_noop() {
    let mut graph = Graph::new();
    graph.add_node(Node::new(1, None));
    graph.delete_node(9);
    assert!(graph.get_node(1).is_some());
}

#[test]
fn test_guarded_delete_succeeds_without_outgoing_edges() {
    let mut a = Graph::new();
    let mut b = Graph::new();
    for g in [&mut a, &mut b] {
        g.add_node(Node::new(1, None));
        g.add_node(Node::new(2, None));
        g.add_edge(1, 2, 1, None);
    }

    // Node 2 has an incoming edge but no outgoing entries.
    assert!(a.delete_node_please(2).is_ok());
    b.delete_node(2);

    // The guarded path performed the same full scrub as the unconditional one.
    for g in [&a, &b] {
        assert!(g.get_node(2).is_none());
        assert!(g.get_node(1).is_some());
        assert!(g.get_edge(1).is_none());
        assert_eq!(g.out_degree(1), 0);
    }
}

#[test]
fn test_guarded_delete_fails_with_outgoing_edges() {
    let mut graph = Graph::new();
    graph.add_node(Node::new(1, None));
    graph.add_node(Node::new(2, None));
    graph.add_edge(1, 2, 1, None);

    let r = graph.delete_node_please(1);
    assert_eq!(r, Err("Node 1 cannot be safely deleted.".to_string()));

    // The graph is untouched.
    assert!(graph.get_node(1).is_some());
    assert!(graph.get_node(2).is_some());
    assert!(graph.get_edge(1).is_some());
    assert_eq!(graph.out_degree(1), 1);
}

#[test]
fn test_core_node_marking() {
    let mut graph = Graph::new();
    graph.add_node(Node::new(1, None));

    assert_eq!(graph.add_core_node(9), Err("Node does not exist".to_string()));
    assert_eq!(graph.remove_core_node(1), Err("Node is not a core node".to_string()));
    assert!(!graph.is_core_node(1));

    assert!(graph.add_core_node(1).is_ok());
    assert!(graph.is_core_node(1));
    assert!(graph.add_core_node(1).is_ok());
    assert!(graph.remove_core_node(1).is_ok());
    assert!(!graph.is_core_node(1));
}

#[test]
fn test_delete_node_clears_core_mark() {
    let mut graph = Graph::new();
    graph.add_node(Node::new(1, None));
    graph.add_core_node(1).unwrap();
    graph.delete_node(1);
    assert!(!graph.is_core_node(1));
}

#[test]
fn test_last_write_wins_on_duplicate_node_id() {
    let mut graph = Graph::new();
    graph.add_node(Node::new(1, Some("first".to_string())));
    graph.add_node(Node::new(1, Some("second".to_string())));
    assert_eq!(graph.get_node(1).unwrap().label(), Some(&"second".to_string()));
    assert_eq!(graph.node_ids().len(), 1);
}

#[test]
fn test_dot_text() {
    let mut graph = Graph::new();
    graph.add_node(Node::new(1, None));
    graph.add_node(Node::new(2, None));
    graph.add_edge(1, 2, 7, Some("ab".to_string()));

    let expected = "digraph G {\n    1 [label=\"Node 1\"];\n    2 [label=\"Node 2\"];\n    1 -> 2 [label=\"ab\", weight=7];\n}\n";
    assert_eq!(graph.dot_string(), expected);
}
