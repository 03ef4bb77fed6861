use cl_total_rdga::graph::{
    build_graph, normalize_edges, parse_edge_lines, parse_edge_list, BuildError,
};

#[test]
fn normalize_numbers_vertices_in_order_of_appearance() {
    let edges = vec![(10, 20), (20, 30), (30, 10), (5, 30)];
    assert_eq!(normalize_edges(edges), vec![(0, 1), (1, 2), (2, 0), (3, 2)]);
}

#[test]
fn normalize_drops_loops_without_numbering_them() {
    let edges = vec![(7, 7), (3, 1), (9, 9), (1, 9)];
    assert_eq!(normalize_edges(edges), vec![(0, 1), (1, 2)]);
}

#[test]
fn normalize_keeps_repeated_edges() {
    let edges = vec![(4, 2), (2, 4), (4, 2)];
    assert_eq!(normalize_edges(edges), vec![(0, 1), (1, 0), (0, 1)]);
}

#[test]
fn normalize_of_nothing_is_nothing() {
    assert_eq!(normalize_edges(Vec::new()), Vec::new());
    assert_eq!(normalize_edges(vec![(1, 1)]), Vec::new());
}

#[test]
fn lenient_list_takes_the_lines_with_two_numbers() {
    let text = b"1 2\n3 4 5\n\nabc 7\n 8\t9 \r\n10 x\n+11 012\n6";
    assert_eq!(
        parse_edge_list(text),
        vec![(1, 2), (3, 4), (8, 9), (11, 12)]
    );
}

#[test]
fn lenient_list_of_nothing() {
    assert_eq!(parse_edge_list(b""), Vec::new());
    assert_eq!(parse_edge_list(b"\n\n \n"), Vec::new());
    assert_eq!(parse_edge_list(b"# 1 2"), Vec::new());
}

#[test]
fn lenient_list_passes_over_numbers_beyond_the_machine() {
    let text =
        b"18446744073709551615 0\n18446744073709551616 1\n999999999999999999999999 2\n-1 3\n";
    let edges = parse_edge_list(text);
    if usize::MAX as u128 == 18446744073709551615u128 {
        assert_eq!(edges, vec![(usize::MAX, 0)]);
    } else {
        assert_eq!(edges, Vec::new());
    }
}

#[test]
fn strict_list_takes_edges_and_passes_over_comments() {
    let text = b"# a graph\n1 2\n\n  \n   # indented\n 2   3 \n4294967295 0";
    assert_eq!(
        parse_edge_lines(text),
        Ok(vec![(1, 2), (2, 3), (4294967295, 0)])
    );
    assert_eq!(parse_edge_lines(b""), Ok(Vec::new()));
}

#[test]
fn strict_list_names_the_first_faulty_line() {
    assert_eq!(
        parse_edge_lines(b"1 2\n3\n4 x"),
        Err(BuildError::InvalidFormat { line: 1 })
    );
    assert_eq!(
        parse_edge_lines(b"1 2\n\n3 4 5\n"),
        Err(BuildError::InvalidFormat { line: 2 })
    );
    assert_eq!(
        parse_edge_lines(b"1 2\n4 x\n3"),
        Err(BuildError::InvalidVertex { line: 1 })
    );
    assert_eq!(
        parse_edge_lines(b"4294967296 1"),
        Err(BuildError::InvalidVertex { line: 0 })
    );
    assert_eq!(
        parse_edge_lines(b"1 -2"),
        Err(BuildError::InvalidVertex { line: 0 })
    );
    assert_eq!(
        parse_edge_lines(b"1 + \n"),
        Err(BuildError::InvalidVertex { line: 0 })
    );
}

#[test]
fn build_graph_renumbers_the_vertices() {
    let graph = build_graph(b"# square\n10 20\n20 30\n30 40\n40 10\n").unwrap();
    assert_eq!(graph.order(), 4);
    assert_eq!(graph.neighbors(0), Some(&[1, 3][..]));
    assert_eq!(graph.neighbors(1), Some(&[0, 2][..]));
    assert_eq!(graph.neighbors(2), Some(&[1, 3][..]));
    assert_eq!(graph.neighbors(3), Some(&[0, 2][..]));
    assert_eq!(build_graph(b"").unwrap().order(), 0);
}

#[test]
fn build_graph_names_each_fault() {
    assert_eq!(
        build_graph(b"1 2\n2\n").err(),
        Some(BuildError::InvalidFormat { line: 1 })
    );
    assert_eq!(
        build_graph(b"1 two\n2 2\n").err(),
        Some(BuildError::InvalidVertex { line: 0 })
    );
    assert_eq!(
        build_graph(b"1 2\n2 1\n3 3\n").err(),
        Some(BuildError::SelfLoopNotAllowed)
    );
    assert_eq!(
        build_graph(b"1 2\n2 3\n2 1\n").err(),
        Some(BuildError::EdgeAlreadyExists)
    );
}
