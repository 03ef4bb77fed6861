use cl_total_rdga::graph::{GraphError, SimpleGraph};

#[test]
fn test_add_vertex() {
    let mut graph = SimpleGraph::new();
    assert!(graph.add_vertex(1).is_ok());
    assert!(graph.add_vertex(1).is_err());
}

#[test]
fn test_add_edge() {
    let mut graph = SimpleGraph::new();
    graph.add_vertex(1).unwrap();
    graph.add_vertex(2).unwrap();
    assert!(graph.add_edge(1, 2).is_ok());
    assert!(graph.add_edge(1, 2).is_err());
    assert!(graph.add_edge(1, 1).is_err());
}

#[test]
fn test_remove_edge() {
    let mut graph = SimpleGraph::new();
    graph.add_vertex(1).unwrap();
    graph.add_vertex(2).unwrap();
    graph.add_edge(1, 2).unwrap();
    assert!(graph.remove_edge(1, 2).is_ok());
    assert!(graph.remove_edge(1, 2).is_err());
}

#[test]
fn test_remove_vertex() {
    let mut graph = SimpleGraph::new();
    graph.add_vertex(1).unwrap();
    graph.add_vertex(2).unwrap();
    graph.add_edge(1, 2).unwrap();
    assert!(graph.remove_vertex(1).is_ok());
    assert!(graph.remove_vertex(1).is_err());
}

#[test]
fn test_neighbors() {
    let mut graph = SimpleGraph::new();
    graph.add_vertex(1).unwrap();
    graph.add_vertex(2).unwrap();
    graph.add_edge(1, 2).unwrap();
    assert_eq!(graph.neighbors(1).unwrap().len(), 1);
    assert!(graph.neighbors(3).is_err());
}

#[test]
fn add_vertex_twice_names_the_fault() {
    let mut graph = SimpleGraph::new();
    assert_eq!(graph.add_vertex(7), Ok(()));
    assert_eq!(graph.add_vertex(7), Err(GraphError::VertexAlreadyExists));
    assert_eq!(graph.vertex_count(), 1);
}

#[test]
fn add_edge_names_each_fault_in_order() {
    let mut graph = SimpleGraph::new();
    graph.add_vertex(1).unwrap();
    graph.add_vertex(2).unwrap();
    assert_eq!(graph.add_edge(5, 5), Err(GraphError::SelfLoopNotAllowed));
    assert_eq!(graph.add_edge(1, 1), Err(GraphError::SelfLoopNotAllowed));
    assert_eq!(graph.add_edge(1, 3), Err(GraphError::VertexNotFound));
    assert_eq!(graph.add_edge(3, 1), Err(GraphError::VertexNotFound));
    assert_eq!(graph.add_edge(1, 2), Ok(()));
    assert_eq!(graph.add_edge(1, 2), Err(GraphError::EdgeAlreadyExists));
    assert_eq!(graph.add_edge(2, 1), Err(GraphError::EdgeAlreadyExists));
    assert!(graph.has_edge(1, 2));
    assert!(graph.has_edge(2, 1));
    assert_eq!(graph.edge_count(), 1);
}

#[test]
fn remove_edge_names_each_fault_in_order() {
    let mut graph = SimpleGraph::new();
    graph.add_vertex(1).unwrap();
    graph.add_vertex(2).unwrap();
    graph.add_vertex(3).unwrap();
    graph.add_edge(1, 2).unwrap();
    assert_eq!(graph.remove_edge(1, 9), Err(GraphError::VertexNotFound));
    assert_eq!(graph.remove_edge(1, 3), Err(GraphError::EdgeNotFound));
    assert_eq!(graph.remove_edge(1, 1), Err(GraphError::EdgeNotFound));
    assert_eq!(graph.remove_edge(2, 1), Ok(()));
    assert!(!graph.has_edge(1, 2));
    assert!(!graph.has_edge(2, 1));
    assert_eq!(graph.edge_count(), 0);
    assert_eq!(graph.vertex_count(), 3);
}

#[test]
fn remove_vertex_takes_its_edges_along() {
    let mut graph = SimpleGraph::from_edges(vec![(1, 2), (2, 3), (3, 1), (3, 4)]).unwrap();
    assert_eq!(graph.edge_count(), 4);
    assert_eq!(graph.remove_vertex(3), Ok(()));
    assert_eq!(graph.remove_vertex(3), Err(GraphError::VertexNotFound));
    assert_eq!(graph.vertex_count(), 3);
    assert_eq!(graph.edge_count(), 1);
    assert!(graph.has_edge(1, 2));
    assert!(!graph.has_edge(1, 3));
    assert!(!graph.has_edge(4, 3));
    assert_eq!(graph.neighbors(4).unwrap().len(), 0);
    assert_eq!(graph.neighbors(3).err(), Some(GraphError::VertexNotFound));
}

#[test]
fn isolated_vertices_are_those_without_neighbors() {
    let mut graph = SimpleGraph::new();
    graph.add_vertex(10).unwrap();
    graph.add_vertex(20).unwrap();
    graph.add_vertex(30).unwrap();
    graph.add_edge(10, 20).unwrap();
    let isolated = graph.get_isolated_vertices();
    assert_eq!(isolated.len(), 1);
    assert!(isolated.contains(&30));
    assert_eq!(graph.is_isolated(30), Ok(true));
    assert_eq!(graph.is_isolated(10), Ok(false));
    assert_eq!(graph.is_isolated(40), Err(GraphError::VertexNotFound));
}

#[test]
fn has_edge_on_unknown_vertices_is_false() {
    let graph = SimpleGraph::new();
    assert!(!graph.has_edge(0, 1));
    assert_eq!(graph.vertex_count(), 0);
    assert_eq!(graph.edge_count(), 0);
    assert!(graph.get_isolated_vertices().is_empty());
}

#[test]
fn from_edges_builds_the_ends_and_the_edges() {
    let graph = SimpleGraph::from_edges(vec![(0, 1), (1, 2), (2, 3), (3, 0)]).unwrap();
    assert_eq!(graph.vertex_count(), 4);
    assert_eq!(graph.edge_count(), 4);
    assert!(graph.has_edge(3, 0));
    assert!(graph.has_edge(0, 3));
    assert!(!graph.has_edge(0, 2));
    assert!(graph.get_isolated_vertices().is_empty());
}

#[test]
fn from_edges_refuses_loops_and_repeated_edges() {
    assert_eq!(
        SimpleGraph::from_edges(vec![(0, 1), (2, 2)]).err(),
        Some(GraphError::SelfLoopNotAllowed)
    );
    assert_eq!(
        SimpleGraph::from_edges(vec![(0, 1), (1, 2), (1, 0)]).err(),
        Some(GraphError::EdgeAlreadyExists)
    );
    assert_eq!(
        SimpleGraph::from_edges(vec![(0, 1), (0, 1), (3, 3)]).err(),
        Some(GraphError::EdgeAlreadyExists)
    );
}

#[test]
fn default_graph_is_empty() {
    let graph = SimpleGraph::default();
    assert_eq!(graph.vertex_count(), 0);
}
