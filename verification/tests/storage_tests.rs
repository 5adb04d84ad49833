use graph_store::edge::EdgeRecord;
use graph_store::graph::Graph;
use graph_store::node::{Node, NodeRecord};
use graph_store::numbers::{parse_u64, u64_to_string};
use graph_store::shortest_path::Distance;
use graph_store::storage::{GraphSnapshot, Storage};

#[test]
fn test_snapshot_roundtrip() {
    let mut graph = Graph::new();
    graph.add_node(Node::new(1, Some("Node1".to_string())));
    graph.add_node(Node::new(2, Some("Node2".to_string())));
    graph.add_edge(1, 2, 1, Some("connects".to_string()));
    graph.add_core_node(2).unwrap();

    let snapshot = graph.to_snapshot();
    let loaded = Graph::from_snapshot(snapshot).unwrap();

    assert_eq!(loaded.node_ids(), graph.node_ids());
    assert_eq!(loaded.out_degree(1), graph.out_degree(1));
    assert_eq!(loaded.out_degree(2), graph.out_degree(2));
    assert!(loaded.get_edge(1).is_some());
    assert_eq!(loaded.get_edge(1).unwrap().label(), Some(&"connects".to_string()));
    assert_eq!(loaded.get_node(1).unwrap().label(), Some(&"Node1".to_string()));
    assert!(loaded.is_core_node(2));

    // The restored graph still answers queries exactly as the original.
    let distances = loaded.dijkstra(1);
    assert_eq!(distances.get(2), Some(Distance::Finite(1)));
}

#[test]
fn test_snapshot_rejects_duplicate_node_ids() {
    let snapshot = GraphSnapshot {
        nodes: vec![
            NodeRecord { id: 1, label: None, properties: Vec::new() },
            NodeRecord { id: 1, label: None, properties: Vec::new() },
        ],
        edges: Vec::new(),
        adjacency: Vec::new(),
        core_nodes: Vec::new(),
        next_edge_id: 1,
    };
    assert_eq!(
        Graph::from_snapshot(snapshot).err(),
        Some("Invalid graph snapshot".to_string()),
    );
}

#[test]
fn test_snapshot_rejects_dangling_adjacency() {
    let snapshot = GraphSnapshot {
        nodes: vec![NodeRecord { id: 1, label: None, properties: Vec::new() }],
        edges: Vec::new(),
        adjacency: vec![(1, vec![5])],
        core_nodes: Vec::new(),
        next_edge_id: 1,
    };
    assert!(Graph::from_snapshot(snapshot).is_err());
}

#[test]
fn test_snapshot_rejects_unlisted_edge() {
    let snapshot = GraphSnapshot {
        nodes: vec![
            NodeRecord { id: 1, label: None, properties: Vec::new() },
            NodeRecord { id: 2, label: None, properties: Vec::new() },
        ],
        edges: vec![EdgeRecord {
            id: 1,
            from: 1,
            to: 2,
            weight: 3,
            label: None,
            properties: Vec::new(),
        }],
        adjacency: Vec::new(),
        core_nodes: Vec::new(),
        next_edge_id: 2,
    };
    assert!(Graph::from_snapshot(snapshot).is_err());
}

#[test]
fn test_snapshot_accepts_valid_records() {
    let snapshot = GraphSnapshot {
        nodes: vec![
            NodeRecord { id: 1, label: Some("a".to_string()), properties: Vec::new() },
            NodeRecord { id: 2, label: None, properties: Vec::new() },
        ],
        edges: vec![EdgeRecord {
            id: 1,
            from: 1,
            to: 2,
            weight: 3,
            label: None,
            properties: Vec::new(),
        }],
        adjacency: vec![(1, vec![1])],
        core_nodes: vec![1],
        next_edge_id: 2,
    };
    let g = Graph::from_snapshot(snapshot).unwrap();
    assert_eq!(g.out_degree(1), 1);
    assert!(g.is_core_node(1));
}

#[test]
fn test_storage_path() {
    let storage = Storage::new("graph.db".to_string());
    assert_eq!(storage.path(), &"graph.db".to_string());
}

#[test]
fn test_decimal_rendering() {
    assert_eq!(u64_to_string(0), "0");
    assert_eq!(u64_to_string(42), "42");
    assert_eq!(u64_to_string(1234567890), "1234567890");
    assert_eq!(u64_to_string(u64::MAX), "18446744073709551615");
}

#[test]
fn test_decimal_parsing() {
    assert_eq!(parse_u64("0"), Some(0));
    assert_eq!(parse_u64("907"), Some(907));
    assert_eq!(parse_u64("18446744073709551615"), Some(u64::MAX));
    assert_eq!(parse_u64("18446744073709551616"), None);
    assert_eq!(parse_u64(""), None);
    assert_eq!(parse_u64("12a"), None);
    assert_eq!(parse_u64("-3"), None);
}
