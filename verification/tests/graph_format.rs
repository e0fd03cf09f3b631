use firefighter::format::{
    check_coordinate, line_ranges, parse_edge_line, parse_integer, parse_node_line,
    split_ranges, ParseError,
};
use firefighter::graph::{Edge, Graph};

const PATH_GRAPH: &str = "# a path of four nodes\n# 0 -> 1 -> 2 -> 3\n\n4\n3\n0 100 48.67 9.01 0\n1 101 48.68 9.02 0\n2 102 48.69 9.03 0\n3 103 48.70 9.04 0\n0 1 2 0 0\n1 2 3 0 0\n2 3 1 0 0\n";

fn parse(text: &str) -> Result<Graph, ParseError> {
    Graph::parse_graph(text.as_bytes())
}

#[test]
fn parses_path_graph() {
    let graph = parse(PATH_GRAPH).unwrap();
    assert_eq!(graph.num_nodes, 4);
    assert_eq!(graph.num_edges, 3);
    assert_eq!(graph.nodes.len(), 4);
    assert_eq!(graph.edges.len(), 3);
    assert_eq!(graph.offsets, vec![0, 1, 2, 3, 3]);
    assert_eq!(graph.edges[0], Edge { src: 0, tgt: 1, dist: 2 });
    assert_eq!(graph.edges[1], Edge { src: 1, tgt: 2, dist: 3 });
    assert_eq!(graph.edges[2], Edge { src: 2, tgt: 3, dist: 1 });
    for (i, node) in graph.nodes.iter().enumerate() {
        assert_eq!(node.id, i);
    }
    assert_eq!(graph.nodes[0].lat, b"48.67".to_vec());
    assert_eq!(graph.nodes[3].lon, b"9.04".to_vec());
    assert!(graph.is_well_formed());
}

#[test]
fn parses_without_separator_line() {
    let graph = parse("# c\n2\n1\n0 0 1.5 2.5\n1 1 3.5 4.5\n0 1 7\n").unwrap();
    assert_eq!(graph.num_nodes, 2);
    assert_eq!(graph.offsets, vec![0, 1, 1]);
    assert_eq!(graph.edges[0], Edge { src: 0, tgt: 1, dist: 7 });
    assert!(graph.is_well_formed());
}

#[test]
fn parses_without_comments_and_final_newline() {
    let graph = parse("1\n0\n0 0 1 2").unwrap();
    assert_eq!(graph.num_nodes, 1);
    assert_eq!(graph.num_edges, 0);
    assert_eq!(graph.offsets, vec![0, 0]);
    assert!(graph.is_well_formed());
}

#[test]
fn parses_crlf_lines() {
    let graph = parse("# c\r\n\r\n2\r\n1\r\n0 0 1.5 2.5\r\n1 1 3.5 4.5\r\n1 0 7\r\n").unwrap();
    assert_eq!(graph.num_nodes, 2);
    assert_eq!(graph.nodes[1].lon, b"4.5".to_vec());
    assert_eq!(graph.offsets, vec![0, 0, 1]);
    assert_eq!(graph.edges[0], Edge { src: 1, tgt: 0, dist: 7 });
}

#[test]
fn offsets_fill_gaps_with_running_count() {
    let text = "5\n3\n0 0 0 0\n1 1 0 0\n2 2 0 0\n3 3 0 0\n4 4 0 0\n1 0 1\n1 2 1\n3 4 1\n";
    let graph = parse(text).unwrap();
    assert_eq!(graph.offsets, vec![0, 0, 2, 2, 3, 3]);
    assert!(graph.is_well_formed());
    assert_eq!(graph.get_degree(0), 0);
    assert_eq!(graph.get_degree(1), 2);
    assert_eq!(graph.get_degree(2), 0);
    assert_eq!(graph.get_degree(3), 1);
    assert_eq!(graph.get_degree(4), 0);
}

#[test]
fn offsets_property_on_parsed_graph() {
    let graph = parse(PATH_GRAPH).unwrap();
    assert_eq!(graph.offsets.len(), graph.num_nodes + 1);
    assert_eq!(graph.offsets[graph.num_nodes], graph.num_edges);
    for v in 0..graph.num_nodes {
        assert!(graph.offsets[v] <= graph.offsets[v + 1]);
        for i in graph.offsets[v]..graph.offsets[v + 1] {
            assert_eq!(graph.edges[i].src, v);
        }
    }
}

#[test]
fn unsorted_edges_are_accepted_but_not_well_formed() {
    let text = "3\n3\n0 0 0 0\n1 1 0 0\n2 2 0 0\n2 0 1\n0 1 1\n1 2 1\n";
    let graph = parse(text).unwrap();
    assert_eq!(graph.offsets, vec![0, 0, 0, 3]);
    assert_eq!(graph.offsets.len(), 4);
    assert!(!graph.is_well_formed());
}

#[test]
fn edge_to_missing_node_is_not_well_formed() {
    let graph = parse("1\n1\n0 0 0 0\n0 5 1\n").unwrap();
    assert!(!graph.is_well_formed());
}

#[test]
fn truncated_text_is_unexpected_eof() {
    assert_eq!(parse("").unwrap_err(), ParseError::UnexpectedEof);
    assert_eq!(parse("# only a comment\n").unwrap_err(), ParseError::UnexpectedEof);
    assert_eq!(parse("# c\n\n").unwrap_err(), ParseError::UnexpectedEof);
    assert_eq!(parse("3\n").unwrap_err(), ParseError::UnexpectedEof);
    assert_eq!(parse("2\n0\n0 0 1 1\n").unwrap_err(), ParseError::UnexpectedEof);
    assert_eq!(parse("1\n2\n0 0 1 1\n0 0 1\n").unwrap_err(), ParseError::UnexpectedEof);
    assert_eq!(
        parse("18446744073709551615\n0\n0 0 1 1\n").unwrap_err(),
        ParseError::UnexpectedEof
    );
}

#[test]
fn malformed_counts_are_parse_int() {
    assert_eq!(parse("x\n0\n").unwrap_err(), ParseError::ParseInt);
    assert_eq!(parse("1\n-1\n0 0 1 1\n").unwrap_err(), ParseError::ParseInt);
    assert_eq!(parse("1 \n0\n0 0 1 1\n").unwrap_err(), ParseError::ParseInt);
    assert_eq!(parse("# c\n\n\n1\n0\n0 0 1 1\n").unwrap_err(), ParseError::ParseInt);
    assert_eq!(parse("18446744073709551616\n0\n").unwrap_err(), ParseError::ParseInt);
}

#[test]
fn malformed_node_lines() {
    assert_eq!(parse("1\n0\n0 0\n").unwrap_err(), ParseError::UnexpectedEol);
    assert_eq!(parse("1\n0\n0 0 1.0\n").unwrap_err(), ParseError::UnexpectedEol);
    assert_eq!(parse("1\n0\n0 0 north 1.0\n").unwrap_err(), ParseError::ParseFloat);
    assert_eq!(parse("1\n0\n0 0 1.0 east\n").unwrap_err(), ParseError::ParseFloat);
    assert_eq!(parse("1\n0\n0 0 bad\n").unwrap_err(), ParseError::ParseFloat);
    assert_eq!(parse("1\n0\n0 0  1.0 2.0\n").unwrap_err(), ParseError::ParseFloat);
}

#[test]
fn malformed_edge_lines() {
    assert_eq!(parse("1\n1\n0 0 1 1\n0 0\n").unwrap_err(), ParseError::UnexpectedEol);
    assert_eq!(parse("1\n1\n0 0 1 1\n0\n").unwrap_err(), ParseError::UnexpectedEol);
    assert_eq!(parse("1\n1\n0 0 1 1\n\n").unwrap_err(), ParseError::ParseInt);
    assert_eq!(parse("1\n1\n0 0 1 1\n0 a 1\n").unwrap_err(), ParseError::ParseInt);
    assert_eq!(parse("1\n1\n0 0 1 1\n0 0 1.5\n").unwrap_err(), ParseError::ParseInt);
}

#[test]
fn first_error_in_reading_order_wins() {
    assert_eq!(parse("2\n1\n0 0 1 1\n1 1 x 1\n0 y 1\n").unwrap_err(), ParseError::ParseFloat);
    assert_eq!(parse("2\n1\n0 0 1 1\n1 1 1\n").unwrap_err(), ParseError::UnexpectedEol);
    assert_eq!(parse("1\nx\n0 0\n").unwrap_err(), ParseError::ParseInt);
}

#[test]
fn split_ranges_follow_separators() {
    assert_eq!(split_ranges(b"", b' '), vec![(0, 0)]);
    assert_eq!(split_ranges(b"ab", b' '), vec![(0, 2)]);
    assert_eq!(split_ranges(b"a b", b' '), vec![(0, 1), (2, 3)]);
    assert_eq!(split_ranges(b" a  b ", b' '), vec![(0, 0), (1, 2), (3, 3), (4, 5), (6, 6)]);
}

#[test]
fn line_ranges_strip_line_ends() {
    assert_eq!(line_ranges(b""), Vec::<(usize, usize)>::new());
    assert_eq!(line_ranges(b"a"), vec![(0, 1)]);
    assert_eq!(line_ranges(b"a\n"), vec![(0, 1)]);
    assert_eq!(line_ranges(b"a\r\nb"), vec![(0, 1), (3, 4)]);
    assert_eq!(line_ranges(b"a\n\nb\r"), vec![(0, 1), (2, 2), (3, 5)]);
    assert_eq!(line_ranges(b"\n"), vec![(0, 0)]);
    assert_eq!(line_ranges(b"\r\n\r\n"), vec![(0, 0), (2, 2)]);
}

#[test]
fn parse_integer_agrees_with_std() {
    let tokens = [
        "", "+", "-", "0", "7", "+7", "-7", "007", "12345", " 1", "1 ", "1_000", "0x10", "1e3",
        "18446744073709551615", "18446744073709551616", "99999999999999999999999", "++1", "+-1",
        "1+", "٣", "a",
    ];
    for token in tokens {
        assert_eq!(parse_integer(token.as_bytes()), token.parse::<usize>().ok(), "{:?}", token);
    }
}

#[test]
fn check_coordinate_agrees_with_std() {
    let tokens = [
        "", "+", "-", ".", "0", "1", "-1", "+1", "1.", ".5", "-.5", "+.5", "1.5", "48.6712",
        "-9.0001", "1e5", "1E5", "1e+5", "1e-5", "1.e5", ".5e5", "1.5e", "1.5e+", "e5", ".e5",
        "1e5.0", "1..5", "1.5.5", "--1", "+-1", "1-", "inf", "-inf", "+inf", "Inf", "INF",
        "infinity", "-Infinity", "INFINITY", "infinit", "infinityy", "nan", "NaN", "-nan", "+NAN",
        "na", "nano", " 1", "1 ", "1_0", "0x10", "1f", "1,5", "١", "1e", "1e5e5", "00.00",
        "123456789012345678901234567890", "1e999", "i", "in", "n",
    ];
    for token in tokens {
        assert_eq!(
            check_coordinate(token.as_bytes()),
            token.parse::<f64>().is_ok(),
            "{:?}",
            token
        );
    }
}

#[test]
fn node_and_edge_lines() {
    assert_eq!(
        parse_node_line(b"7 8 48.5 9.25 310 junk"),
        Ok((b"48.5".to_vec(), b"9.25".to_vec()))
    );
    assert_eq!(parse_node_line(b"7 8 48.5"), Err(ParseError::UnexpectedEol));
    assert_eq!(parse_edge_line(b"3 4 5 9 9"), Ok(Edge { src: 3, tgt: 4, dist: 5 }));
    assert_eq!(parse_edge_line(b"3 4"), Err(ParseError::UnexpectedEol));
    assert_eq!(parse_edge_line(b"3 4 -5"), Err(ParseError::ParseInt));
}
