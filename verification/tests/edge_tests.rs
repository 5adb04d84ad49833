use graph_store::edge::Edge;

#[test]
fn test_edge_creation() {
    let edge = Edge::new(1, 2, 3, 1, Some("RelatedTo".to_string()));
    assert_eq!(edge.id(), 1);
    assert_eq!(edge.from(), 2);
    assert_eq!(edge.to(), 3);
    assert_eq!(edge.weight(), 1);
    assert_eq!(edge.label(), Some(&"RelatedTo".to_string()));
    assert!(edge.property_count() == 0);
}

#[test]
fn test_edge_properties() {
    let mut edge = Edge::new(2, 3, 4, 2, None);
    assert!(edge.get_property("key").is_none());

    edge.set_property("key".to_string(), "value".to_string());
    assert_eq!(edge.get_property("key"), Some(&"value".to_string()));
}
