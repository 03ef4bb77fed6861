use cl_total_rdga::graph::{GraphError, SimpleGraph, UndirectedGraph};

#[test]
fn new_graph_has_vertices_and_no_edges() {
    let graph = UndirectedGraph::new(3);
    assert_eq!(graph.order(), 3);
    assert_eq!(graph.degree(0), Some(0));
    assert_eq!(graph.degree(3), None);
    assert_eq!(graph.neighbors(2), Some(&[][..]));
    assert_eq!(graph.neighbors(3), None);
    assert!(graph.has_isolated_vertex());
    assert!(!graph.contains_edge(0, 1));
}

#[test]
fn empty_graph_has_no_isolated_vertex() {
    let graph = UndirectedGraph::new(0);
    assert_eq!(graph.order(), 0);
    assert!(!graph.has_isolated_vertex());
}

#[test]
fn neighbors_come_in_ascending_order() {
    let mut graph = UndirectedGraph::new(5);
    graph.add_edge(2, 4).unwrap();
    graph.add_edge(2, 0).unwrap();
    graph.add_edge(3, 2).unwrap();
    graph.add_edge(1, 2).unwrap();
    assert_eq!(graph.neighbors(2), Some(&[0, 1, 3, 4][..]));
    assert_eq!(graph.neighbors(0), Some(&[2][..]));
    assert_eq!(graph.degree(2), Some(4));
    assert!(graph.contains_edge(4, 2));
    assert!(graph.contains_edge(2, 4));
    assert!(!graph.contains_edge(0, 4));
    assert!(!graph.contains_edge(7, 0));
    assert!(!graph.has_isolated_vertex());
}

#[test]
fn dense_add_edge_names_each_fault_in_order() {
    let mut graph = UndirectedGraph::new(3);
    assert_eq!(graph.add_edge(5, 5), Err(GraphError::SelfLoopNotAllowed));
    assert_eq!(graph.add_edge(0, 3), Err(GraphError::VertexNotFound));
    assert_eq!(graph.add_edge(3, 0), Err(GraphError::VertexNotFound));
    assert_eq!(graph.add_edge(0, 1), Ok(()));
    assert_eq!(graph.add_edge(1, 0), Err(GraphError::EdgeAlreadyExists));
    assert_eq!(graph.neighbors(0), Some(&[1][..]));
    assert_eq!(graph.neighbors(1), Some(&[0][..]));
}

#[test]
fn from_edges_refuses_the_first_bad_edge() {
    let cycle = UndirectedGraph::from_edges(4, &[(0, 1), (1, 2), (2, 3), (3, 0)]).unwrap();
    assert_eq!(cycle.neighbors(0), Some(&[1, 3][..]));
    assert_eq!(cycle.neighbors(3), Some(&[0, 2][..]));
    assert_eq!(
        UndirectedGraph::from_edges(4, &[(0, 1), (1, 1), (0, 9)]).err(),
        Some(GraphError::SelfLoopNotAllowed)
    );
    assert_eq!(
        UndirectedGraph::from_edges(4, &[(0, 1), (0, 4)]).err(),
        Some(GraphError::VertexNotFound)
    );
    assert_eq!(
        UndirectedGraph::from_edges(4, &[(0, 1), (1, 0)]).err(),
        Some(GraphError::EdgeAlreadyExists)
    );
}

#[test]
fn from_simple_graph_needs_vertices_without_gaps() {
    let source = SimpleGraph::from_edges(vec![(0, 1), (1, 2), (2, 0), (2, 3)]).unwrap();
    let graph = UndirectedGraph::from_simple_graph(&source).unwrap();
    assert_eq!(graph.order(), 4);
    assert_eq!(graph.neighbors(0), Some(&[1, 2][..]));
    assert_eq!(graph.neighbors(1), Some(&[0, 2][..]));
    assert_eq!(graph.neighbors(2), Some(&[0, 1, 3][..]));
    assert_eq!(graph.neighbors(3), Some(&[2][..]));

    let gapped = SimpleGraph::from_edges(vec![(1, 2)]).unwrap();
    assert!(UndirectedGraph::from_simple_graph(&gapped).is_none());

    let empty = SimpleGraph::new();
    assert_eq!(UndirectedGraph::from_simple_graph(&empty).unwrap().order(), 0);
}

#[test]
fn graphs_admit_every_order_that_can_be_weighed() {
    assert!(UndirectedGraph::admits(0));
    assert!(UndirectedGraph::admits(1_000_000));
    assert!(UndirectedGraph::admits(usize::MAX / 255));
    assert!(!UndirectedGraph::admits(usize::MAX / 255 + 1));
    assert!(!UndirectedGraph::admits(usize::MAX));
}
