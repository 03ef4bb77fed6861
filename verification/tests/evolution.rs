use cl_total_rdga::genetic::{
    run, search, Chromosome, Heuristic, KTournament, Population, PopulationError, Progress,
    SinglePoint,
};
use cl_total_rdga::graph::{SimpleGraphGenerator, UndirectedGraph};

fn petersen() -> UndirectedGraph {
    UndirectedGraph::from_edges(
        10,
        &[
            (0, 1),
            (1, 2),
            (2, 3),
            (3, 4),
            (4, 0),
            (0, 5),
            (1, 6),
            (2, 7),
            (3, 8),
            (4, 9),
            (5, 7),
            (7, 9),
            (9, 6),
            (6, 8),
            (8, 5),
        ],
    )
    .unwrap()
}

fn all_heuristics() -> Vec<Heuristic> {
    vec![
        Heuristic::RandomGreedy,
        Heuristic::MaxDegree,
        Heuristic::MaxDegreeOrdered,
        Heuristic::IsolatedCluster,
        Heuristic::Baseline,
        Heuristic::RandomGreedy,
    ]
}

#[test]
fn progress_keeps_the_best_and_counts_stagnation() {
    let mut progress = Progress::start(Chromosome::new(vec![2, 2, 1]));
    assert!(!progress.stalled(1));
    assert!(progress.stalled(0));
    assert!(!progress.observe(&Chromosome::new(vec![2, 2, 2])));
    assert!(!progress.observe(&Chromosome::new(vec![1, 2, 2])));
    assert!(progress.stalled(2));
    assert!(!progress.stalled(3));
    assert!(progress.observe(&Chromosome::new(vec![1, 1, 2])));
    assert!(!progress.stalled(1));
    assert!(!progress.observe(&Chromosome::new(vec![2, 1, 1])));
    assert!(progress.stalled(1));
    assert_eq!(progress.into_best().genes(), &[1, 1, 2]);
}

#[test]
fn run_without_generations_gives_the_first_best() {
    let graph = UndirectedGraph::from_edges(4, &[(0, 1), (1, 2), (2, 3), (3, 0)]).unwrap();
    let population = Population::from_chromosomes(vec![
        Chromosome::new(vec![2, 2, 0, 2]),
        Chromosome::new(vec![2, 1, 1, 0]),
        Chromosome::new(vec![1, 1, 1, 1]),
    ]);
    let best = run(
        population,
        &KTournament::new(2),
        &SinglePoint::new(1, 2),
        &graph,
        0,
        10,
    )
    .unwrap();
    assert_eq!(best.genes(), &[2, 1, 1, 0]);
}

#[test]
fn run_on_an_empty_population_fails() {
    let graph = UndirectedGraph::new(0);
    let result = run(
        Population::empty(),
        &KTournament::new(2),
        &SinglePoint::new(1, 2),
        &graph,
        5,
        5,
    );
    assert_eq!(result.err(), Some(PopulationError::PopulationEmpty));
}

#[test]
fn run_never_gives_a_heavier_chromosome_than_it_was_given() {
    let graph = petersen();
    for _ in 0..5 {
        let population = Population::new(8, &all_heuristics(), &graph).unwrap();
        let least = population.best_chromosome().unwrap().fitness();
        let best = run(
            population,
            &KTournament::new(3),
            &SinglePoint::new(9, 10),
            &graph,
            30,
            10,
        )
        .unwrap();
        assert!(best.fitness() <= least);
        assert!(best.is_valid(&graph));
    }
}

#[test]
fn search_gives_a_valid_labeling_and_its_weight() {
    let graph = petersen();
    let (best, fitness) = search(&graph, &all_heuristics(), 7, 50, 20, 5, 9, 10).unwrap();
    assert!(best.is_valid(&graph));
    assert_eq!(best.genes().len(), 10);
    assert_eq!(fitness, best.fitness());
    assert_eq!(
        fitness,
        best.genes().iter().map(|&label| usize::from(label)).sum::<usize>()
    );
    assert!(fitness <= 10);
}

#[test]
fn search_passes_on_the_construction_faults() {
    let graph = petersen();
    let heuristics = all_heuristics();
    let none: Vec<Heuristic> = Vec::new();
    assert_eq!(
        search(&UndirectedGraph::new(1), &heuristics, 7, 5, 5, 2, 1, 2).err(),
        Some(PopulationError::IsolatedVerticesFound)
    );
    assert_eq!(
        search(&graph, &none, 7, 5, 5, 2, 1, 2).err(),
        Some(PopulationError::NotEnoughHeuristics)
    );
    assert_eq!(
        search(&graph, &heuristics, 5, 5, 5, 2, 1, 2).err(),
        Some(PopulationError::InvalidPopulationSize)
    );
}

#[test]
fn search_on_the_graph_without_vertices_gives_the_chromosome_without_labels() {
    let (best, fitness) =
        search(&UndirectedGraph::new(0), &all_heuristics(), 7, 5, 5, 2, 1, 2).unwrap();
    assert_eq!(best.genes().len(), 0);
    assert_eq!(fitness, 0);
}

#[test]
fn progress_shows_what_it_remembers() {
    let mut progress = Progress::start(Chromosome::new(vec![2, 2, 1]));
    assert_eq!(progress.best().genes(), &[2, 2, 1]);
    assert_eq!(progress.stagnant(), 0);
    progress.observe(&Chromosome::new(vec![2, 2, 2]));
    assert_eq!(progress.best().genes(), &[2, 2, 1]);
    assert_eq!(progress.stagnant(), 1);
    progress.observe(&Chromosome::new(vec![0, 2, 2]));
    assert_eq!(progress.best().genes(), &[0, 2, 2]);
    assert_eq!(progress.stagnant(), 0);
}

#[test]
fn evolve_keeps_size_and_validity() {
    let graph = petersen();
    let mut population = Population::new(9, &all_heuristics(), &graph).unwrap();
    let selector = KTournament::new(3);
    let crossover = SinglePoint::new(1, 1);
    for _ in 0..10 {
        population.evolve(&selector, &crossover, &graph);
        assert_eq!(population.chromosomes().len(), 9);
        assert_eq!(population.size(), 9);
        for chromosome in population.chromosomes() {
            assert!(chromosome.is_valid(&graph));
        }
    }
}

#[test]
fn search_on_generated_graphs() {
    for numerator in 0..3 {
        let edges = SimpleGraphGenerator::new(60, numerator, 20).generate().unwrap();
        let graph = UndirectedGraph::from_edges(60, &edges).unwrap();
        assert!(!graph.has_isolated_vertex());
        let baseline = Population::new(1, &[Heuristic::Baseline], &graph).unwrap();
        assert_eq!(baseline.best_chromosome().unwrap().fitness(), 60);
        let (best, fitness) = search(&graph, &all_heuristics(), 40, 30, 10, 5, 9, 10).unwrap();
        assert!(best.is_valid(&graph));
        assert_eq!(fitness, best.fitness());
        assert!(fitness <= 60);
    }
}
