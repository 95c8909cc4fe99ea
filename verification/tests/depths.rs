use tangle::Graph;

fn parsed(text: &str) -> Graph {
    let mut graph = Graph::new();
    assert_eq!(graph.parse(text.as_bytes()), Ok(()));
    assert!(graph.is_ordered());
    graph
}

#[test]
fn root_has_depth_zero() {
    let graph = parsed("0\n");
    assert_eq!(graph.get_depth(0), 0);
    assert_eq!(graph.depths(), vec![0]);
}

#[test]
fn depths_of_three_nodes() {
    let graph = parsed("3\n1 1 10\n1 2 20\n2 3 30\n");
    assert_eq!(graph.get_depth(0), 0);
    assert_eq!(graph.get_depth(1), 1);
    assert_eq!(graph.get_depth(2), 1);
    assert_eq!(graph.get_depth(3), 2);
    assert_eq!(graph.depths(), vec![0, 1, 1, 2]);
}

#[test]
fn depth_follows_the_shallowest_parent() {
    // 1 -> 0, 2 -> 1, 3 -> 2, 4 -> {3, 0}, 5 -> {3, 4}, 6 -> {2, 5}
    let graph = parsed("6\n1 1 1\n2 2 2\n3 3 3\n4 1 4\n4 5 5\n3 6 6\n");
    assert_eq!(graph.depths(), vec![0, 1, 2, 3, 1, 2, 3]);
}

#[test]
fn depth_is_one_more_than_the_least_parent_depth() {
    let graph = parsed("7\n1 1 1\n1 2 2\n2 3 3\n4 4 4\n5 3 5\n6 6 6\n7 2 7\n");
    let depths = graph.depths();
    assert_eq!(depths[0], 0);
    for id in 1..graph.node_count() {
        let least = graph
            .node(id as u32)
            .parents()
            .iter()
            .map(|parent| depths[*parent as usize])
            .min()
            .unwrap();
        assert_eq!(depths[id], least + 1);
        assert_eq!(graph.get_depth(id as u32), depths[id]);
    }
}

#[test]
fn chain_gets_deeper_with_every_node() {
    let graph = parsed("4\n1 1 1\n2 2 2\n3 3 3\n4 4 4\n");
    assert_eq!(graph.depths(), vec![0, 1, 2, 3, 4]);
    assert_eq!(graph.get_depth(4), 4);
}

#[test]
fn node_without_parent_has_depth_zero() {
    let mut graph = Graph::new();
    graph.add_node(0, 0);
    graph.add_node(1, 0);
    graph.add_node(2, 0);
    assert_eq!(graph.link(2, 1), Ok(()));
    assert!(graph.is_ordered());
    assert_eq!(graph.depths(), vec![0, 0, 1]);
}

#[test]
fn empty_store_is_ordered() {
    let graph = Graph::new();
    assert!(graph.is_ordered());
    assert!(graph.depths().is_empty());
}

#[test]
fn store_with_a_backward_link_only_is_ordered() {
    let mut graph = Graph::new();
    graph.add_node(0, 0);
    graph.add_node(1, 0);
    assert_eq!(graph.link(1, 0), Ok(()));
    assert!(graph.is_ordered());
    assert_eq!(graph.link(0, 1), Ok(()));
    assert!(!graph.is_ordered());
}
