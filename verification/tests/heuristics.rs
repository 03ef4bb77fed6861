use cl_total_rdga::genetic::{h1, h1_with, h2, h3, h4, h5, Heuristic};
use cl_total_rdga::graph::UndirectedGraph;

fn four_cycle() -> UndirectedGraph {
    UndirectedGraph::from_edges(4, &[(0, 1), (1, 2), (2, 3), (3, 0)]).unwrap()
}

fn path(order: usize) -> UndirectedGraph {
    let mut graph = UndirectedGraph::new(order);
    for v in 1..order {
        graph.add_edge(v - 1, v).unwrap();
    }
    graph
}

fn two_hubs() -> UndirectedGraph {
    UndirectedGraph::from_edges(7, &[(0, 1), (0, 4), (0, 5), (0, 6), (1, 2), (1, 3)]).unwrap()
}

#[test]
fn heuristics_build_no_label_on_the_graph_without_vertices() {
    let graph = UndirectedGraph::new(0);
    assert_eq!(h1(&graph).genes().len(), 0);
    assert_eq!(h1_with(&graph, &[3, 1]).genes().len(), 0);
    assert_eq!(h2(&graph).unwrap().genes().len(), 0);
    assert_eq!(h3(&graph).unwrap().genes().len(), 0);
    assert_eq!(h4(&graph).unwrap().genes().len(), 0);
    let baseline = h5(&graph).unwrap();
    assert_eq!(baseline.genes().len(), 0);
    assert_eq!(baseline.fitness(), graph.order());
    assert!(baseline.is_valid(&graph));
}

#[test]
fn baseline_weighs_the_vertex_count() {
    for order in 0..6 {
        let graph = UndirectedGraph::new(order);
        let seed = h5(&graph).unwrap();
        assert_eq!(seed.genes(), &vec![1u8; order][..]);
        assert_eq!(seed.fitness(), order);
    }
}

#[test]
fn max_degree_on_the_four_cycle() {
    let seed = h2(&four_cycle()).unwrap();
    assert_eq!(seed.genes(), &[2, 1, 1, 0]);
    assert_eq!(seed.fitness(), 4);
    assert!(seed.is_valid(&four_cycle()));
}

#[test]
fn max_degree_on_paths() {
    assert_eq!(h2(&path(4)).unwrap().genes(), &[1, 2, 1, 1]);
    assert_eq!(h2(&path(5)).unwrap().genes(), &[1, 2, 0, 2, 1]);
}

#[test]
fn max_degree_on_one_vertex() {
    let seed = h2(&UndirectedGraph::new(1)).unwrap();
    assert_eq!(seed.genes(), &[2]);
}

#[test]
fn neighbor_ordering_promotes_the_heaviest_neighbor() {
    assert_eq!(h3(&four_cycle()).unwrap().genes(), &[2, 1, 1, 0]);
    assert_eq!(h3(&path(5)).unwrap().genes(), &[0, 2, 1, 2, 1]);
    assert_eq!(h3(&two_hubs()).unwrap().genes(), &[2, 1, 1, 1, 0, 0, 0]);
}

#[test]
fn first_neighbor_is_promoted_without_ordering() {
    let graph = UndirectedGraph::from_edges(
        6,
        &[(0, 1), (0, 2), (0, 3), (2, 4), (2, 5), (4, 5)],
    )
    .unwrap();
    assert_eq!(h2(&graph).unwrap().genes(), &[2, 1, 0, 0, 2, 1]);
    assert_eq!(h3(&graph).unwrap().genes(), &[2, 0, 1, 0, 2, 1]);
}

#[test]
fn isolated_cluster_serves_stranded_vertices_together() {
    assert_eq!(h4(&four_cycle()).unwrap().genes(), &[2, 2, 0, 2]);
    assert_eq!(h4(&path(4)).unwrap().genes(), &[0, 2, 2, 0]);
    assert_eq!(h4(&two_hubs()).unwrap().genes(), &[2, 2, 0, 0, 0, 0, 0]);
    assert_eq!(h2(&two_hubs()).unwrap().genes(), &[2, 1, 1, 1, 0, 0, 0]);
}

#[test]
fn baseline_labels_every_vertex_one() {
    let graph = four_cycle();
    let seed = h5(&graph).unwrap();
    assert_eq!(seed.genes(), &[1, 1, 1, 1]);
    assert!(seed.is_valid(&graph));
    assert_eq!(seed.fitness(), graph.order());

    let larger = two_hubs();
    let seed = h5(&larger).unwrap();
    assert!(seed.is_valid(&larger));
    assert_eq!(seed.fitness(), 7);
}

#[test]
fn random_greedy_follows_the_choices() {
    let graph = four_cycle();
    assert_eq!(h1_with(&graph, &[0]).genes(), &[2, 1, 1, 0]);
    assert_eq!(h1_with(&graph, &[2]).genes(), &[1, 1, 2, 0]);
    assert_eq!(h1_with(&graph, &[6]).genes(), &[1, 1, 2, 0]);
    assert_eq!(h1_with(&graph, &[]).genes(), &[2, 1, 1, 0]);
    assert_eq!(h1_with(&path(5), &[4, 1]).genes(), &[1, 2, 0, 1, 2]);
}

#[test]
fn random_greedy_builds_one_of_the_labelings_of_its_choices() {
    let graph = four_cycle();
    let mut possible: Vec<Vec<u8>> = Vec::new();
    for first in 0..4 {
        for second in 0..4 {
            possible.push(h1_with(&graph, &[first, second]).genes().to_vec());
        }
    }
    for _ in 0..50 {
        let seed = h1(&graph);
        assert_eq!(seed.genes().len(), 4);
        assert!(seed.is_labeling(&graph));
        assert!(possible.contains(&seed.genes().to_vec()));
    }
}

#[test]
fn random_greedy_on_a_larger_graph_gives_labels_in_range() {
    let graph = two_hubs();
    for _ in 0..20 {
        let mut seed = h1(&graph);
        assert!(seed.is_labeling(&graph));
        seed.fix(&graph);
        assert!(seed.is_valid(&graph));
    }
}

#[test]
fn apply_runs_the_named_strategy() {
    let graph = two_hubs();
    assert_eq!(
        Heuristic::MaxDegree.apply(&graph).unwrap().genes(),
        h2(&graph).unwrap().genes()
    );
    assert_eq!(
        Heuristic::MaxDegreeOrdered.apply(&graph).unwrap().genes(),
        h3(&graph).unwrap().genes()
    );
    assert_eq!(
        Heuristic::IsolatedCluster.apply(&graph).unwrap().genes(),
        h4(&graph).unwrap().genes()
    );
    assert_eq!(
        Heuristic::Baseline.apply(&graph).unwrap().genes(),
        h5(&graph).unwrap().genes()
    );
    assert!(Heuristic::RandomGreedy.apply(&graph).unwrap().is_labeling(&graph));
    let nothing = Heuristic::Baseline.apply(&UndirectedGraph::new(0)).unwrap();
    assert_eq!(nothing.genes().len(), 0);
}
