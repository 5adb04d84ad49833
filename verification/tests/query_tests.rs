use std::str::FromStr;

use graph_store::graph::Graph;
use graph_store::node::Node;
use graph_store::query_parser::{execute_query, Query};
use graph_store::Query as RootQuery;

#[test]
fn test_query_parsing() {
    assert!(matches!(Query::from_str("ADD 1 Node1"), Ok(Query::AddNode(1, label)) if label == "Node1"));
    assert!(matches!(Query::from_str("GET 1"), Ok(Query::GetNode(1))));
    assert!(matches!(Query::from_str("DELETE 1"), Ok(Query::DeleteNode(1))));
    assert!(matches!(Query::from_str("PLEASE DELETE 1"), Ok(Query::PleaseDeleteNode(1))));
    assert!(matches!(Query::from_str("UNKNOWN 1"), Err(_)));
}

#[test]
fn test_query_parsing_errors() {
    assert_eq!(Query::from_str("ADD x y").err(), Some("Invalid node ID".to_string()));
    assert_eq!(Query::from_str("GET abc").err(), Some("Invalid node ID".to_string()));
    assert_eq!(
        Query::from_str("DELETE 18446744073709551616").err(),
        Some("Invalid node ID".to_string()),
    );
    assert_eq!(Query::from_str("").err(), Some("Unsupported command".to_string()));
    assert_eq!(Query::from_str("ADD 1").err(), Some("Unsupported command".to_string()));
    assert_eq!(Query::from_str("PLEASE 1 2").err(), Some("Unsupported command".to_string()));
    assert!(matches!(
        Query::from_str("  DELETE   18446744073709551615  "),
        Ok(Query::DeleteNode(u64::MAX))
    ));
}

#[test]
fn test_add_node_query_execution() {
    let mut graph = Graph::new();
    let node = Node::new(1, Some("TestNode".to_string()));
    graph.add_node(node);
    let result = execute_query(&mut graph, Query::AddNode(1, "TestNode".to_string())).unwrap();
    assert_eq!(result, "Node 1 added successfully.");
    assert!(graph.get_node(1).is_some());
}

#[test]
fn test_delete_node_query_execution() {
    let mut graph = Graph::new();
    let node = Node::new(1, Some("TestNode".to_string()));
    graph.add_node(node);
    assert!(graph.get_node(1).is_some());

    let result = execute_query(&mut graph, Query::DeleteNode(1)).unwrap();
    assert_eq!(result, "Node 1 deleted.");
    assert!(graph.get_node(1).is_none());
}

#[test]
fn test_please_delete_node_query_execution() {
    let mut graph = Graph::new();
    let node = Node::new(1, Some("TestNode".to_string()));
    graph.add_node(node);
    assert!(graph.get_node(1).is_some());

    let result = execute_query(&mut graph, Query::PleaseDeleteNode(1));
    assert!(result.is_ok(), "Should handle conditional deletes properly");
}

#[test]
fn test_get_node_query_execution() {
    let mut graph = Graph::new();
    graph.add_node(Node::new(1, Some("TestNode".to_string())));
    graph.add_node(Node::new(2, None));

    assert_eq!(
        execute_query(&mut graph, Query::GetNode(1)),
        Ok("Node 1: TestNode".to_string()),
    );
    assert_eq!(
        execute_query(&mut graph, Query::GetNode(2)),
        Ok("Node 2: No label".to_string()),
    );
    assert_eq!(
        execute_query(&mut graph, Query::GetNode(3)),
        Err("Node 3 not found.".to_string()),
    );
}

#[test]
fn test_please_delete_query_failure_message() {
    let mut graph = Graph::new();
    graph.add_node(Node::new(1, None));
    graph.add_node(Node::new(2, None));
    graph.add_edge(1, 2, 1, None);

    let result = execute_query(&mut graph, Query::PleaseDeleteNode(1));
    assert_eq!(
        result,
        Err("Failed to delete node 1: Node 1 cannot be safely deleted.".to_string()),
    );
}

#[test]
fn test_root_query_parsing() {
    assert!(matches!(
        RootQuery::from_str("PLEASE DELETE 7"),
        Ok(RootQuery::PleaseDelete(7))
    ));
    assert_eq!(
        RootQuery::from_str("PLEASE DELETE").err(),
        Some("Invalid command format".to_string()),
    );
    assert_eq!(
        RootQuery::from_str("GET 1 2").err(),
        Some("Unsupported command".to_string()),
    );
    assert_eq!(
        RootQuery::from_str("PLEASE DELETE x").err(),
        Some("Invalid node ID".to_string()),
    );
}

#[test]
fn test_root_execute_query() {
    let mut graph = Graph::new();
    graph.add_node(Node::new(4, None));
    let result = graph_store::execute_query(&mut graph, graph_store::Query::PleaseDelete(4));
    assert_eq!(result, Ok("Node 4 deleted successfully.".to_string()));
    assert!(graph.get_node(4).is_none());
}
