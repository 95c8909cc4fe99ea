use tangle::Node;

#[test]
fn new_node_has_no_references() {
    let node = Node::new(7, 42);
    assert_eq!(node.id(), 7);
    assert_eq!(node.timestamp(), 42);
    assert!(node.parents().is_empty());
    assert!(node.children().is_empty());
}

#[test]
fn add_parent_skips_known_parent() {
    let mut node = Node::new(3, 0);
    node.add_parent(1);
    node.add_parent(2);
    node.add_parent(1);
    assert_eq!(node.parents(), &vec![1, 2]);
    assert!(node.children().is_empty());
}

#[test]
fn add_child_skips_known_child() {
    let mut node = Node::new(0, 0);
    node.add_child(5);
    node.add_child(5);
    node.add_child(4);
    assert_eq!(node.children(), &vec![5, 4]);
    assert!(node.parents().is_empty());
}
