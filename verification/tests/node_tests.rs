use graph_store::node::Node;

#[test]
fn test_node_creation() {
    let node = Node::new(1, Some("Label".to_string()));
    assert_eq!(node.id(), 1);
    assert_eq!(node.label(), Some(&"Label".to_string()));
    assert!(node.property_count() == 0);
}

#[test]
fn test_node_properties() {
    let mut node = Node::new(2, None);
    assert!(node.get_property("key").is_none());

    node.set_property("key".to_string(), "value".to_string());
    assert_eq!(node.get_property("key"), Some(&"value".to_string()));
}

#[test]
fn test_node_property_overwrite() {
    let mut node = Node::new(3, None);
    node.set_property("k".to_string(), "v".to_string());
    node.set_property("k".to_string(), "v2".to_string());
    assert_eq!(node.get_property("k"), Some(&"v2".to_string()));
    assert_eq!(node.property_count(), 1);
}

#[test]
fn test_node_unset_property_is_none() {
    let mut node = Node::new(4, Some("n".to_string()));
    node.set_property("a".to_string(), "1".to_string());
    assert!(node.get_property("b").is_none());
}
