use cl_total_rdga::genetic::{Chromosome, Heuristic, Population, PopulationError};
use cl_total_rdga::graph::UndirectedGraph;

fn create_test_graph() -> UndirectedGraph {
    let mut graph = UndirectedGraph::new(4);
    graph.add_edge(0, 1).unwrap();
    graph.add_edge(1, 2).unwrap();
    graph.add_edge(2, 3).unwrap();
    graph.add_edge(3, 0).unwrap();
    graph
}

fn four_heuristics() -> Vec<Heuristic> {
    vec![
        Heuristic::RandomGreedy,
        Heuristic::MaxDegree,
        Heuristic::MaxDegreeOrdered,
        Heuristic::IsolatedCluster,
    ]
}

fn fitnesses(population: &Population) -> Vec<usize> {
    population.chromosomes().iter().map(Chromosome::fitness).collect()
}

fn genes(population: &Population) -> Vec<Vec<u8>> {
    population.chromosomes().iter().map(|c| c.genes().to_vec()).collect()
}

#[test]
fn test_population_creation() {
    let graph = create_test_graph();
    let heuristics = four_heuristics();
    let pop = Population::new(10, &heuristics, &graph).unwrap();
    assert_eq!(pop.size(), 10);
    assert_eq!(pop.chromosomes().len(), 10);
}

#[test]
fn test_population_sorting() {
    let graph = create_test_graph();
    let heuristics = four_heuristics();
    let pop = Population::new(10, &heuristics, &graph).unwrap();

    let fitnesses: Vec<usize> = fitnesses(&pop);

    let mut sorted_fitnesses = fitnesses.clone();
    sorted_fitnesses.sort_unstable();

    assert_eq!(fitnesses, sorted_fitnesses);
}

#[test]
fn test_add_chromosome() {
    let graph = create_test_graph();
    let heuristics = four_heuristics();
    assert_eq!(
        Population::new(3, &heuristics, &graph).err(),
        Some(PopulationError::InvalidPopulationSize)
    );
    let mut pop = Population::new(3, &heuristics[..3], &graph).unwrap();

    let low_fitness_chromosome = Chromosome::new(vec![0, 0, 0, 0]);
    let added = pop.add_chromosome(low_fitness_chromosome);

    assert!(added);
    assert_eq!(pop.best_chromosome().unwrap().fitness(), 0);
}

#[test]
fn new_population_holds_valid_labelings() {
    let graph = create_test_graph();
    let pop = Population::new(12, &four_heuristics(), &graph).unwrap();
    assert!(pop.is_sorted());
    for chromosome in pop.chromosomes() {
        assert!(chromosome.is_valid(&graph));
    }
}

#[test]
fn new_population_of_deterministic_seeds() {
    let graph = create_test_graph();
    let heuristics = vec![Heuristic::IsolatedCluster, Heuristic::MaxDegree, Heuristic::Baseline];
    let pop = Population::new(5, &heuristics, &graph).unwrap();
    assert_eq!(
        genes(&pop),
        vec![
            vec![2, 1, 1, 0],
            vec![1, 1, 1, 1],
            vec![1, 1, 1, 1],
            vec![1, 1, 1, 1],
            vec![2, 2, 0, 2],
        ]
    );
    assert_eq!(pop.size(), 5);
}

#[test]
fn new_population_of_one_seed() {
    let graph = UndirectedGraph::from_edges(3, &[(0, 1), (1, 2), (2, 0)]).unwrap();
    let raw = Heuristic::IsolatedCluster.apply(&graph).unwrap();
    assert_eq!(raw.genes(), &[2, 1, 0]);
    let pop = Population::new(1, &[Heuristic::IsolatedCluster], &graph).unwrap();
    assert_eq!(pop.chromosomes()[0].genes(), &[2, 1, 0]);
    assert!(pop.chromosomes()[0].is_valid(&graph));
}

#[test]
fn isolated_vertex_refuses_population() {
    let graph = UndirectedGraph::new(1);
    assert_eq!(
        Population::new(4, &[Heuristic::Baseline], &graph).err(),
        Some(PopulationError::IsolatedVerticesFound)
    );
    let mut partly = UndirectedGraph::new(3);
    partly.add_edge(0, 1).unwrap();
    assert_eq!(
        Population::new(4, &four_heuristics(), &partly).err(),
        Some(PopulationError::IsolatedVerticesFound)
    );
}

#[test]
fn construction_faults_come_in_order() {
    let graph = create_test_graph();
    let isolated = UndirectedGraph::new(2);
    let empty = UndirectedGraph::new(0);
    let none: Vec<Heuristic> = Vec::new();
    assert_eq!(
        Population::new(0, &none, &isolated).err(),
        Some(PopulationError::IsolatedVerticesFound)
    );
    assert_eq!(
        Population::new(5, &none, &graph).err(),
        Some(PopulationError::NotEnoughHeuristics)
    );
    assert_eq!(
        Population::new(0, &none, &empty).err(),
        Some(PopulationError::NotEnoughHeuristics)
    );
    assert_eq!(
        Population::new(1, &[Heuristic::Baseline, Heuristic::MaxDegree], &graph).err(),
        Some(PopulationError::InvalidPopulationSize)
    );
    assert_eq!(
        Population::new(1, &[Heuristic::Baseline, Heuristic::MaxDegree], &empty).err(),
        Some(PopulationError::InvalidPopulationSize)
    );
    assert!(Population::new(2, &[Heuristic::Baseline, Heuristic::MaxDegree], &graph).is_ok());
}

#[test]
fn population_on_the_graph_without_vertices_holds_chromosomes_without_labels() {
    let empty = UndirectedGraph::new(0);
    let pop = Population::new(3, &four_heuristics()[..2], &empty).unwrap();
    assert_eq!(pop.size(), 3);
    assert_eq!(pop.chromosomes().len(), 3);
    for chromosome in pop.chromosomes() {
        assert_eq!(chromosome.genes().len(), 0);
        assert_eq!(chromosome.fitness(), 0);
        assert!(chromosome.is_valid(&empty));
    }
}

#[test]
fn best_and_worst_take_the_first_of_equals() {
    let pop = Population::from_chromosomes(vec![
        Chromosome::new(vec![2, 2, 0]),
        Chromosome::new(vec![1, 0, 1]),
        Chromosome::new(vec![0, 2, 2]),
        Chromosome::new(vec![0, 1, 1]),
        Chromosome::new(vec![2, 0, 0]),
    ]);
    assert_eq!(pop.size(), 5);
    assert_eq!(pop.best_chromosome().unwrap().genes(), &[1, 0, 1]);
    assert_eq!(pop.worst_chromosome().unwrap().genes(), &[2, 2, 0]);
    assert!(!pop.is_sorted());
}

#[test]
fn empty_population_has_no_best_and_no_worst() {
    let pop = Population::empty();
    assert_eq!(pop.size(), 0);
    assert_eq!(pop.chromosomes().len(), 0);
    assert_eq!(pop.best_chromosome().err(), Some(PopulationError::PopulationEmpty));
    assert_eq!(pop.worst_chromosome().err(), Some(PopulationError::PopulationEmpty));
    assert!(pop.is_sorted());
    let none = Population::from_chromosomes(Vec::new());
    assert_eq!(none.best_chromosome().err(), Some(PopulationError::PopulationEmpty));
}

#[test]
fn add_individual_appends_without_bound() {
    let mut pop = Population::empty();
    pop.add_individual(Chromosome::new(vec![2, 2]));
    pop.add_individual(Chromosome::new(vec![0, 1]));
    pop.add_individual(Chromosome::new(vec![1, 1]));
    assert_eq!(pop.size(), 3);
    assert_eq!(genes(&pop), vec![vec![2, 2], vec![0, 1], vec![1, 1]]);
    assert_eq!(pop.best_chromosome().unwrap().genes(), &[0, 1]);
}

#[test]
fn add_chromosome_replaces_the_last_when_full() {
    let mut pop = Population::from_chromosomes(vec![
        Chromosome::new(vec![1, 0]),
        Chromosome::new(vec![1, 1]),
        Chromosome::new(vec![2, 1]),
        Chromosome::new(vec![1, 2]),
    ]);
    assert!(pop.is_sorted());
    assert!(!pop.add_chromosome(Chromosome::new(vec![2, 2])));
    assert!(!pop.add_chromosome(Chromosome::new(vec![0, 3])));
    assert_eq!(pop.chromosomes().len(), 4);
    assert!(pop.add_chromosome(Chromosome::new(vec![0, 2])));
    assert_eq!(
        genes(&pop),
        vec![vec![1, 0], vec![0, 2], vec![1, 1], vec![2, 1]]
    );
    assert_eq!(pop.size(), 4);
    assert!(pop.is_sorted());
    assert!(pop.add_chromosome(Chromosome::new(vec![0, 0])));
    assert_eq!(
        genes(&pop),
        vec![vec![0, 0], vec![1, 0], vec![0, 2], vec![1, 1]]
    );
}

#[test]
fn add_chromosome_turns_everything_away_from_an_empty_population() {
    let mut pop = Population::empty();
    assert!(!pop.add_chromosome(Chromosome::new(vec![0])));
    assert_eq!(pop.chromosomes().len(), 0);
}

#[test]
fn sort_by_fitness_keeps_equals_in_their_order() {
    let mut pop = Population::from_chromosomes(vec![
        Chromosome::new(vec![2, 1]),
        Chromosome::new(vec![0, 2]),
        Chromosome::new(vec![1, 0]),
        Chromosome::new(vec![1, 1]),
        Chromosome::new(vec![1, 2]),
        Chromosome::new(vec![2, 0]),
    ]);
    pop.sort_by_fitness();
    assert_eq!(
        genes(&pop),
        vec![vec![1, 0], vec![0, 2], vec![1, 1], vec![2, 0], vec![2, 1], vec![1, 2]]
    );
    assert!(pop.is_sorted());
    assert_eq!(pop.size(), 6);
}

#[test]
fn validate_population_repairs_only_the_invalid() {
    let graph = UndirectedGraph::from_edges(5, &[(0, 1), (1, 2), (2, 3), (3, 4), (4, 0)]).unwrap();
    let pop = Population::from_chromosomes(vec![
        Chromosome::new(vec![2, 0, 0, 2, 0]),
        Chromosome::new(vec![2, 0, 0, 2, 1]),
        Chromosome::new(vec![0, 0, 0, 0, 0]),
    ]);
    let validated = pop.validate_population(&graph);
    assert_eq!(
        genes(&validated),
        vec![vec![2, 1, 1, 2, 0], vec![2, 0, 0, 2, 1], vec![1, 2, 2, 2, 0]]
    );
    assert_eq!(validated.size(), 3);
    assert_eq!(genes(&pop)[0], vec![2, 0, 0, 2, 0]);
}
