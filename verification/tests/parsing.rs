use tangle::{Graph, GraphError};

fn parsed(text: &str) -> Graph {
    let mut graph = Graph::new();
    assert_eq!(graph.parse(text.as_bytes()), Ok(()));
    graph
}

fn rejected(text: &str) -> GraphError {
    let mut graph = Graph::new();
    let outcome = graph.parse(text.as_bytes());
    assert_eq!(graph.node_count(), 0);
    match outcome {
        Ok(()) => panic!("the text was accepted"),
        Err(error) => error,
    }
}

#[test]
fn three_nodes_round_trip() {
    let graph = parsed("3\n1 1 10\n1 2 20\n2 3 30\n");
    assert_eq!(graph.node_count(), 4);
    assert!(graph.node(0).parents().is_empty());
    assert_eq!(graph.node(1).parents(), &vec![0]);
    assert_eq!(graph.node(2).parents(), &vec![0, 1]);
    assert_eq!(graph.node(3).parents(), &vec![1, 2]);
    assert_eq!(graph.node(0).children(), &vec![1, 2]);
    assert_eq!(graph.node(1).children(), &vec![2, 3]);
    assert_eq!(graph.node(2).children(), &vec![3]);
    assert!(graph.node(3).children().is_empty());
    assert_eq!(graph.node(0).timestamp(), 0);
    assert_eq!(graph.node(1).timestamp(), 10);
    assert_eq!(graph.node(2).timestamp(), 20);
    assert_eq!(graph.node(3).timestamp(), 30);
    for id in 0..4 {
        assert_eq!(graph.node(id).id(), id);
    }
}

#[test]
fn only_the_root_has_no_parent() {
    let graph = parsed("4\n1 1 1\n2 1 2\n2 2 3\n4 3 4\n");
    assert_eq!(graph.node_count(), 5);
    for id in 0..5 {
        assert_eq!(graph.node(id).parents().is_empty(), id == 0);
    }
}

#[test]
fn out_of_range_reference_is_rejected() {
    assert_eq!(rejected("1\n5 1 10\n"), GraphError::InvalidReference);
}

#[test]
fn out_of_range_second_reference_is_rejected() {
    assert_eq!(rejected("1\n1 3 10\n"), GraphError::InvalidReference);
}

#[test]
fn reference_zero_is_rejected() {
    assert_eq!(rejected("1\n0 1 10\n"), GraphError::InvalidReference);
    assert_eq!(rejected("1\n1 0 10\n"), GraphError::InvalidReference);
}

#[test]
fn missing_line_is_a_count_mismatch() {
    assert_eq!(rejected("2\n1 1 10\n"), GraphError::CountMismatch);
}

#[test]
fn surplus_line_is_a_count_mismatch() {
    assert_eq!(rejected("1\n1 1 10\n1 2 20\n"), GraphError::CountMismatch);
}

#[test]
fn single_line_graph() {
    let graph = parsed("1\n1 1 5\n");
    assert_eq!(graph.node_count(), 2);
    assert_eq!(graph.node(1).parents(), &vec![0]);
    assert_eq!(graph.node(0).children(), &vec![1]);
    assert_eq!(graph.node(1).timestamp(), 5);
}

#[test]
fn no_data_line_gives_the_root_alone() {
    for text in ["0", "0\n", "0\r\n", "0  \n"] {
        let graph = parsed(text);
        assert_eq!(graph.node_count(), 1);
        assert!(graph.node(0).parents().is_empty());
        assert!(graph.node(0).children().is_empty());
    }
}

#[test]
fn last_line_needs_no_line_feed() {
    let graph = parsed("2\n1 1 10\n2 1 20");
    assert_eq!(graph.node_count(), 3);
    assert_eq!(graph.node(2).parents(), &vec![1, 0]);
    assert_eq!(graph.node(2).timestamp(), 20);
}

#[test]
fn carriage_returns_before_line_feeds_are_dropped() {
    let graph = parsed("2\r\n1 1 10\r\n1 2 20\r\n");
    assert_eq!(graph.node_count(), 3);
    assert_eq!(graph.node(2).parents(), &vec![0, 1]);
    assert_eq!(graph.node(2).timestamp(), 20);
}

#[test]
fn carriage_return_without_line_feed_stays_in_the_line() {
    assert_eq!(rejected("1\n1 1 5\r"), GraphError::Format);
}

#[test]
fn white_space_after_the_count_is_dropped() {
    let graph = parsed("1 \t\r\n1 1 5\n");
    assert_eq!(graph.node_count(), 2);
}

#[test]
fn white_space_before_the_count_is_rejected() {
    assert_eq!(rejected(" 1\n1 1 5\n"), GraphError::Format);
}

#[test]
fn plus_sign_and_leading_zeros_are_read() {
    let graph = parsed("+1\n+1 01 0007\n");
    assert_eq!(graph.node_count(), 2);
    assert_eq!(graph.node(1).parents(), &vec![0]);
    assert_eq!(graph.node(1).timestamp(), 7);
}

#[test]
fn empty_text_is_rejected() {
    assert_eq!(rejected(""), GraphError::Format);
}

#[test]
fn count_that_is_no_number_is_rejected() {
    assert_eq!(rejected("three\n1 1 10\n"), GraphError::Format);
    assert_eq!(rejected("-1\n"), GraphError::Format);
    assert_eq!(rejected("+\n"), GraphError::Format);
    assert_eq!(rejected("\n1 1 10\n"), GraphError::Format);
    assert_eq!(rejected("1 1\n1 1 10\n"), GraphError::Format);
}

#[test]
fn count_beyond_64_bits_is_rejected() {
    assert_eq!(rejected("18446744073709551616\n"), GraphError::Format);
    assert_eq!(rejected("18446744073709551615\n"), GraphError::CountMismatch);
}

#[test]
fn line_with_two_fields_is_rejected() {
    assert_eq!(rejected("1\n1 1\n"), GraphError::Format);
}

#[test]
fn line_with_four_fields_is_rejected() {
    assert_eq!(rejected("1\n1 1 5 9\n"), GraphError::Format);
}

#[test]
fn line_with_two_spaces_between_fields_is_rejected() {
    assert_eq!(rejected("1\n1  1 5\n"), GraphError::Format);
}

#[test]
fn line_with_space_at_either_end_is_rejected() {
    assert_eq!(rejected("1\n 1 1 5\n"), GraphError::Format);
    assert_eq!(rejected("1\n1 1 5 \n"), GraphError::Format);
}

#[test]
fn field_that_is_no_number_is_rejected() {
    assert_eq!(rejected("1\n1 x 5\n"), GraphError::Format);
    assert_eq!(rejected("1\n1 1 5.0\n"), GraphError::Format);
    assert_eq!(rejected("1\n-1 1 5\n"), GraphError::Format);
    assert_eq!(rejected("1\n1\t1\t5\n"), GraphError::Format);
}

#[test]
fn empty_line_is_rejected() {
    assert_eq!(rejected("1\n\n1 1 5\n"), GraphError::Format);
    assert_eq!(rejected("1\n1 1 5\n\n"), GraphError::Format);
}

#[test]
fn parent_beyond_32_bits_is_rejected() {
    assert_eq!(rejected("1\n4294967296 1 5\n"), GraphError::Format);
    assert_eq!(rejected("1\n4294967295 1 5\n"), GraphError::InvalidReference);
}

#[test]
fn timestamp_fills_64_bits() {
    let graph = parsed("1\n1 1 18446744073709551615\n");
    assert_eq!(graph.node(1).timestamp(), u64::MAX);
    assert_eq!(rejected("1\n1 1 18446744073709551616\n"), GraphError::Format);
}

#[test]
fn format_is_checked_before_references() {
    assert_eq!(rejected("2\n9 9 1\n1 1\n"), GraphError::Format);
}

#[test]
fn references_are_checked_before_the_count() {
    assert_eq!(rejected("5\n9 9 1\n"), GraphError::InvalidReference);
}

#[test]
fn reference_to_a_later_node_is_recorded() {
    let graph = parsed("2\n3 3 1\n1 1 2\n");
    assert_eq!(graph.node(1).parents(), &vec![2]);
    assert_eq!(graph.node(2).parents(), &vec![0]);
    assert_eq!(graph.node(2).children(), &vec![1]);
    assert!(!graph.is_ordered());
}

#[test]
fn reference_to_the_node_itself_is_recorded() {
    let graph = parsed("1\n2 2 1\n");
    assert_eq!(graph.node(1).parents(), &vec![1]);
    assert_eq!(graph.node(1).children(), &vec![1]);
    assert!(!graph.is_ordered());
}

#[test]
fn failed_parse_keeps_the_graph() {
    let mut graph = parsed("1\n1 1 5\n");
    assert_eq!(graph.parse(b"2\n1 1 5\n"), Err(GraphError::CountMismatch));
    assert_eq!(graph.node_count(), 2);
    assert_eq!(graph.node(1).timestamp(), 5);
    assert_eq!(graph.parse(b"1\n7 1 5\n"), Err(GraphError::InvalidReference));
    assert_eq!(graph.node_count(), 2);
    assert_eq!(graph.parse(b"1\n1 1\n"), Err(GraphError::Format));
    assert_eq!(graph.node_count(), 2);
    assert_eq!(graph.node(0).children(), &vec![1]);
}

#[test]
fn parse_replaces_the_graph() {
    let mut graph = parsed("1\n1 1 5\n");
    assert_eq!(graph.parse(b"2\n1 1 6\n2 2 7\n"), Ok(()));
    assert_eq!(graph.node_count(), 3);
    assert_eq!(graph.node(1).timestamp(), 6);
    assert_eq!(graph.node(2).parents(), &vec![1]);
    assert_eq!(graph.node(0).children(), &vec![1]);
}
