use pagerank::loader::{parse_index, read_edge, read_header, token_spans};
use pagerank::DirectedGraph;

#[test]
fn loads_three_vertex_cycle() {
    let graph = DirectedGraph::from_text(b"3\n0 1\n1 2\n2 0\n");
    assert_eq!(graph.vertices(), 3);
    assert_eq!(graph.neighbors(0), &[1]);
    assert_eq!(graph.neighbors(1), &[2]);
    assert_eq!(graph.neighbors(2), &[0]);
}

#[test]
fn loads_without_final_line_feed() {
    let graph = DirectedGraph::from_text(b"3\n0 1\n1 2");
    assert_eq!(graph.vertices(), 3);
    assert_eq!(graph.neighbors(0), &[1]);
    assert_eq!(graph.neighbors(1), &[2]);
}

#[test]
fn zero_vertices() {
    let graph = DirectedGraph::from_text(b"0\n");
    assert_eq!(graph.vertices(), 0);
    assert!(graph.neighbors(0).is_empty());
}

#[test]
fn five_vertices_without_edges() {
    let graph = DirectedGraph::from_text(b"5\n");
    assert_eq!(graph.vertices(), 5);
    for v in 0..5 {
        assert!(graph.neighbors(v).is_empty());
    }
}

#[test]
fn empty_text_is_empty_graph() {
    let graph = DirectedGraph::from_text(b"");
    assert_eq!(graph.vertices(), 0);
    assert!(graph.neighbors(0).is_empty());
}

#[test]
fn unreadable_source_is_empty_graph() {
    let graph = DirectedGraph::new_graph(None);
    assert_eq!(graph.vertices(), 0);
    for v in 0..3 {
        assert!(graph.neighbors(v).is_empty());
    }
}

#[test]
fn readable_source_is_parsed() {
    let text: &[u8] = b"3\n0 1\n1 2\n2 0\n";
    let graph = DirectedGraph::new_graph(Some(text));
    assert_eq!(graph.vertices(), 3);
    assert_eq!(graph.neighbors(0), &[1]);
    assert_eq!(graph.neighbors(1), &[2]);
    assert_eq!(graph.neighbors(2), &[0]);
}

#[test]
fn only_blank_lines_is_empty_graph() {
    let graph = DirectedGraph::from_text(b"\n  \n\t\r\n");
    assert_eq!(graph.vertices(), 0);
}

#[test]
fn header_that_is_no_number_counts_zero() {
    let graph = DirectedGraph::from_text(b"many\n0 1\n");
    assert_eq!(graph.vertices(), 0);
    assert!(graph.neighbors(0).is_empty());
}

#[test]
fn header_of_two_tokens_counts_zero() {
    let graph = DirectedGraph::from_text(b"3 4\n0 1\n");
    assert_eq!(graph.vertices(), 0);
    assert!(graph.neighbors(0).is_empty());
}

#[test]
fn negative_header_counts_zero() {
    let graph = DirectedGraph::from_text(b"-3\n0 1\n");
    assert_eq!(graph.vertices(), 0);
}

#[test]
fn header_is_trimmed() {
    let graph = DirectedGraph::from_text(b"  \t4 \r\n1 3\r\n");
    assert_eq!(graph.vertices(), 4);
    assert_eq!(graph.neighbors(1), &[3]);
}

#[test]
fn header_is_first_line_with_a_token() {
    let graph = DirectedGraph::from_text(b"\n   \n2\n0 1\n");
    assert_eq!(graph.vertices(), 2);
    assert_eq!(graph.neighbors(0), &[1]);
}

#[test]
fn second_number_line_is_no_header() {
    let graph = DirectedGraph::from_text(b"2\n7\n0 1\n");
    assert_eq!(graph.vertices(), 2);
    assert_eq!(graph.neighbors(0), &[1]);
}

#[test]
fn malformed_edge_lines_are_skipped() {
    let text = b"4\n0 1\n\n2\n1 2 3\nx y\n1 x\nx 1\n0 -1\n2 3\n1.0 2\n";
    let graph = DirectedGraph::from_text(text);
    assert_eq!(graph.vertices(), 4);
    assert_eq!(graph.neighbors(0), &[1]);
    assert!(graph.neighbors(1).is_empty());
    assert_eq!(graph.neighbors(2), &[3]);
    assert!(graph.neighbors(3).is_empty());
}

#[test]
fn line_with_a_third_token_is_skipped() {
    let graph = DirectedGraph::from_text(b"3\n0 word 1\n0 1 word\n0 2\n");
    assert_eq!(graph.neighbors(0), &[2]);
}

#[test]
fn edges_out_of_range_are_skipped() {
    let graph = DirectedGraph::from_text(b"3\n0 3\n3 0\n5 9\n2 2\n0 2\n");
    assert_eq!(graph.vertices(), 3);
    assert_eq!(graph.neighbors(0), &[2]);
    assert!(graph.neighbors(1).is_empty());
    assert_eq!(graph.neighbors(2), &[2]);
    assert!(graph.neighbors(3).is_empty());
    assert!(graph.neighbors(5).is_empty());
}

#[test]
fn repeated_edges_are_kept_in_order() {
    let graph = DirectedGraph::from_text(b"3\n0 1\n0 2\n0 1\n");
    assert_eq!(graph.neighbors(0), &[1, 2, 1]);
}

#[test]
fn edge_tokens_may_be_spread_by_any_white_space() {
    let graph = DirectedGraph::from_text(b"3\n \t0\t\t 2 \r\n\x0b1\x0c0\n");
    assert_eq!(graph.neighbors(0), &[2]);
    assert_eq!(graph.neighbors(1), &[0]);
}

#[test]
fn edge_numbers_may_carry_a_plus_sign_and_zeros() {
    let graph = DirectedGraph::from_text(b"+3\n+0 002\n");
    assert_eq!(graph.vertices(), 3);
    assert_eq!(graph.neighbors(0), &[2]);
}

#[test]
fn parse_index_reads_digits() {
    assert_eq!(parse_index(b"0"), Some(0));
    assert_eq!(parse_index(b"7"), Some(7));
    assert_eq!(parse_index(b"1234567890"), Some(1234567890));
    assert_eq!(parse_index(b"000"), Some(0));
    assert_eq!(parse_index(b"0042"), Some(42));
    assert_eq!(parse_index(b"+17"), Some(17));
}

#[test]
fn parse_index_rejects_what_is_no_number() {
    assert_eq!(parse_index(b""), None);
    assert_eq!(parse_index(b"+"), None);
    assert_eq!(parse_index(b"-"), None);
    assert_eq!(parse_index(b"-1"), None);
    assert_eq!(parse_index(b"-0"), None);
    assert_eq!(parse_index(b"++1"), None);
    assert_eq!(parse_index(b"1+"), None);
    assert_eq!(parse_index(b"12a"), None);
    assert_eq!(parse_index(b"a12"), None);
    assert_eq!(parse_index(b"1.5"), None);
    assert_eq!(parse_index(b"1 2"), None);
    assert_eq!(parse_index(b"0x10"), None);
    assert_eq!(parse_index(b"/"), None);
    assert_eq!(parse_index(b":"), None);
}

#[test]
fn parse_index_stops_at_the_largest_index() {
    let largest = format!("{}", usize::MAX);
    assert_eq!(parse_index(largest.as_bytes()), Some(usize::MAX));
    let padded = format!("+000{}", usize::MAX);
    assert_eq!(parse_index(padded.as_bytes()), Some(usize::MAX));
    let beyond = format!("{}", usize::MAX as u128 + 1);
    assert_eq!(parse_index(beyond.as_bytes()), None);
    let tenfold = format!("{}0", usize::MAX);
    assert_eq!(parse_index(tenfold.as_bytes()), None);
    assert_eq!(parse_index(b"99999999999999999999999999999999999999999"), None);
    assert_eq!(parse_index(b"99999999999999999999999999999999999999999x"), None);
}

#[test]
fn parse_index_agrees_with_std() {
    let samples: [&str; 12] =
        ["0", "1", "+1", "-1", "", "+", "10", "010", "1e3", " 1", "1 ", "18446744073709551616"];
    for sample in samples {
        assert_eq!(parse_index(sample.as_bytes()), sample.parse::<usize>().ok());
    }
}

#[test]
fn token_spans_marks_each_token() {
    assert_eq!(token_spans(b"0 1"), vec![(0, 1), (2, 3)]);
    assert_eq!(token_spans(b"  12\t 345  "), vec![(2, 4), (6, 9)]);
    assert_eq!(token_spans(b"abc"), vec![(0, 3)]);
    assert_eq!(token_spans(b"a b c d"), vec![(0, 1), (2, 3), (4, 5), (6, 7)]);
}

#[test]
fn token_spans_of_blank_line_is_empty() {
    assert!(token_spans(b"").is_empty());
    assert!(token_spans(b" ").is_empty());
    assert!(token_spans(b" \t\r\x0b\x0c").is_empty());
}

#[test]
fn token_spans_cuts_at_white_space_only() {
    assert_eq!(token_spans(b"a\x00b"), vec![(0, 3)]);
    assert_eq!(token_spans(b"a\x08b\x0ec"), vec![(0, 5)]);
    assert_eq!(token_spans(b"a\x09b\x0dc\x20d"), vec![(0, 1), (2, 3), (4, 5), (6, 7)]);
    assert_eq!(token_spans(b"a\xa0b"), vec![(0, 3)]);
}

#[test]
fn read_header_tells_blank_from_unreadable() {
    assert_eq!(read_header(b""), None);
    assert_eq!(read_header(b"   "), None);
    assert_eq!(read_header(b"12"), Some(12));
    assert_eq!(read_header(b" 12 \r"), Some(12));
    assert_eq!(read_header(b"twelve"), Some(0));
    assert_eq!(read_header(b"1 2"), Some(0));
    assert_eq!(read_header(b"-4"), Some(0));
}

#[test]
fn read_edge_wants_exactly_two_numbers() {
    assert_eq!(read_edge(b"0 1"), Some((0, 1)));
    assert_eq!(read_edge(b"  10\t20 "), Some((10, 20)));
    assert_eq!(read_edge(b"7 7"), Some((7, 7)));
    assert_eq!(read_edge(b""), None);
    assert_eq!(read_edge(b"1"), None);
    assert_eq!(read_edge(b"1 2 3"), None);
    assert_eq!(read_edge(b"1 b"), None);
    assert_eq!(read_edge(b"a 2"), None);
    assert_eq!(read_edge(b"1,2"), None);
    assert_eq!(read_edge(b"1 -2"), None);
}
