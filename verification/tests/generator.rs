use cl_total_rdga::graph::{GeneratorError, SimpleGraph, SimpleGraphGenerator};
use std::collections::HashSet;

#[test]
fn test_generate_simple_graph() {
    let generator = SimpleGraphGenerator::new(5, 3, 10);
    let edges = generator.generate().unwrap();

    assert!(!edges.is_empty(), "O grafo não deveria estar vazio.");

    let mut edge_set = HashSet::new();
    for &(u, v) in &edges {
        assert_ne!(u, v, "Não deve haver laços.");
        assert!(
            edge_set.insert((u.min(v), u.max(v))),
            "Não deve haver arestas múltiplas."
        );
    }
}

#[test]
fn test_all_vertices_connected() {
    let generator = SimpleGraphGenerator::new(10, 0, 1);
    let edges = generator.generate().unwrap();

    let mut connected = [false; 10];
    for &(u, v) in &edges {
        connected[u] = true;
        connected[v] = true;
    }

    assert!(
        connected.iter().all(|&is_connected| is_connected),
        "Todos os vértices devem estar conectados."
    );
}

#[test]
fn test_zero_vertices() {
    let generator = SimpleGraphGenerator::new(0, 1, 2);
    assert!(generator.generate().is_err());
}

#[test]
fn generator_names_its_faults() {
    assert_eq!(
        SimpleGraphGenerator::new(0, 1, 2).generate(),
        Err(GeneratorError::NoVertices)
    );
    assert_eq!(
        SimpleGraphGenerator::new(1, 1, 2).generate(),
        Err(GeneratorError::SingleVertex)
    );
}

#[test]
fn certain_edges_give_the_complete_graph() {
    let edges = SimpleGraphGenerator::new(4, 5, 5).generate().unwrap();
    assert_eq!(edges, vec![(0, 1), (0, 2), (0, 3), (1, 2), (1, 3), (2, 3)]);
}

#[test]
fn without_chance_edges_every_vertex_is_joined_once_or_more() {
    for _ in 0..50 {
        let edges = SimpleGraphGenerator::new(7, 0, 3).generate().unwrap();
        assert!(edges.len() >= 4);
        assert!(edges.len() <= 6);
        for &(u, v) in &edges {
            assert!(u < v);
            assert!(v < 7);
        }
        let graph = SimpleGraph::from_edges(edges).unwrap();
        assert_eq!(graph.vertex_count(), 7);
        assert!(graph.get_isolated_vertices().is_empty());
    }
}

#[test]
fn generated_edges_build_a_graph() {
    for numerator in 0..5 {
        let edges = SimpleGraphGenerator::new(12, numerator, 4).generate().unwrap();
        let graph = SimpleGraph::from_edges(edges.clone()).unwrap();
        assert_eq!(graph.vertex_count(), 12);
        assert_eq!(graph.edge_count(), edges.len());
        assert!(graph.get_isolated_vertices().is_empty());
    }
}
