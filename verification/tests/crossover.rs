use cl_total_rdga::genetic::{
    crossover_population, Chromosome, Crossover, Population, SinglePoint,
};
use cl_total_rdga::graph::UndirectedGraph;

fn four_cycle() -> UndirectedGraph {
    UndirectedGraph::from_edges(4, &[(0, 1), (1, 2), (2, 3), (3, 0)]).unwrap()
}

fn genes(population: &Population) -> Vec<Vec<u8>> {
    population.chromosomes().iter().map(|c| c.genes().to_vec()).collect()
}

#[test]
fn recombine_splices_at_the_cut_point() {
    let graph = four_cycle();
    let first = Chromosome::new(vec![2, 1, 1, 0]);
    let second = Chromosome::new(vec![1, 1, 2, 0]);
    let (a, b) = SinglePoint::recombine(&first, &second, 2, &graph);
    assert_eq!(a.genes(), &[2, 1, 2, 0]);
    assert_eq!(b.genes(), &[2, 1, 1, 0]);
    let (a, b) = SinglePoint::recombine(&first, &second, 0, &graph);
    assert_eq!(a.genes(), &[1, 1, 2, 0]);
    assert_eq!(b.genes(), &[2, 1, 1, 0]);
    let (a, b) = SinglePoint::recombine(&first, &second, 4, &graph);
    assert_eq!(a.genes(), &[2, 1, 1, 0]);
    assert_eq!(b.genes(), &[1, 1, 2, 0]);
}

#[test]
fn recombine_repairs_the_children() {
    let graph = four_cycle();
    let first = Chromosome::new(vec![2, 1, 0, 0]);
    let second = Chromosome::new(vec![0, 0, 1, 2]);
    let (a, b) = SinglePoint::recombine(&first, &second, 2, &graph);
    assert_eq!(a.genes(), &[2, 1, 1, 2]);
    assert_eq!(b.genes(), &[1, 2, 2, 0]);
    assert!(a.is_valid(&graph));
    assert!(b.is_valid(&graph));
}

#[test]
fn rate_zero_copies_the_parents() {
    let graph = four_cycle();
    let crossover = SinglePoint::new(0, 10);
    let first = Chromosome::new(vec![0, 0, 0, 0]);
    let second = Chromosome::new(vec![2, 2, 2, 2]);
    for _ in 0..50 {
        let (a, b) = crossover.crossover(&first, &second, &graph);
        assert_eq!(a.genes(), &[0, 0, 0, 0]);
        assert_eq!(b.genes(), &[2, 2, 2, 2]);
    }
}

#[test]
fn rate_one_recombines_at_some_cut_point() {
    let graph = four_cycle();
    let crossover = SinglePoint::new(7, 7);
    let first = Chromosome::new(vec![2, 1, 1, 0]);
    let second = Chromosome::new(vec![0, 2, 2, 1]);
    let mut expected: Vec<(Vec<u8>, Vec<u8>)> = Vec::new();
    for point in 0..4 {
        let (a, b) = SinglePoint::recombine(&first, &second, point, &graph);
        expected.push((a.genes().to_vec(), b.genes().to_vec()));
    }
    let parents = (first.genes().to_vec(), second.genes().to_vec());
    assert!(!expected.contains(&parents));
    for _ in 0..50 {
        let (a, b) = crossover.crossover(&first, &second, &graph);
        assert!(expected.contains(&(a.genes().to_vec(), b.genes().to_vec())));
    }
}

#[test]
fn children_are_copies_or_recombined() {
    let graph = four_cycle();
    let crossover = SinglePoint::new(1, 2);
    let first = Chromosome::new(vec![2, 1, 1, 0]);
    let second = Chromosome::new(vec![0, 2, 2, 1]);
    let mut expected: Vec<(Vec<u8>, Vec<u8>)> = Vec::new();
    expected.push((first.genes().to_vec(), second.genes().to_vec()));
    for point in 0..4 {
        let (a, b) = SinglePoint::recombine(&first, &second, point, &graph);
        expected.push((a.genes().to_vec(), b.genes().to_vec()));
    }
    let mut copied = false;
    let mut recombined = false;
    for _ in 0..200 {
        let (a, b) = crossover.crossover(&first, &second, &graph);
        let children = (a.genes().to_vec(), b.genes().to_vec());
        assert!(expected.contains(&children));
        if children == expected[0] {
            copied = true;
        } else {
            recombined = true;
        }
    }
    assert!(copied);
    assert!(recombined);
}

#[test]
fn crossover_on_the_graph_without_vertices() {
    let graph = UndirectedGraph::new(0);
    let crossover = SinglePoint::new(1, 1);
    let nothing = Chromosome::new(Vec::new());
    let (a, b) = crossover.crossover(&nothing, &nothing, &graph);
    assert_eq!(a.genes().len(), 0);
    assert_eq!(b.genes().len(), 0);
}

#[test]
fn crossover_keeps_the_population_size() {
    let graph = four_cycle();
    for rate in 0..4 {
        let crossover = SinglePoint::new(rate, 3);
        for size in 0..6 {
            let mut chromosomes = Vec::new();
            for i in 0..size {
                chromosomes.push(Chromosome::new(vec![(i % 3) as u8, 1, 2, 0]));
            }
            let population = Population::from_chromosomes(chromosomes);
            let offspring = crossover_population(&crossover, &population, &graph);
            assert_eq!(offspring.chromosomes().len(), size);
            assert_eq!(offspring.size(), size);
            for chromosome in offspring.chromosomes() {
                assert!(chromosome.is_valid(&graph));
            }
        }
    }
}

#[test]
fn rate_zero_keeps_a_valid_population() {
    let graph = four_cycle();
    let population = Population::from_chromosomes(vec![
        Chromosome::new(vec![2, 1, 1, 0]),
        Chromosome::new(vec![1, 1, 1, 1]),
        Chromosome::new(vec![2, 2, 0, 2]),
        Chromosome::new(vec![0, 2, 2, 0]),
        Chromosome::new(vec![1, 1, 2, 0]),
    ]);
    let offspring = crossover_population(&SinglePoint::new(0, 1), &population, &graph);
    assert_eq!(genes(&offspring), genes(&population));
}

#[test]
fn rate_zero_repairs_what_is_invalid() {
    let graph = four_cycle();
    let population = Population::from_chromosomes(vec![
        Chromosome::new(vec![2, 1, 1, 0]),
        Chromosome::new(vec![0, 0, 0, 0]),
    ]);
    let offspring = crossover_population(&SinglePoint::new(0, 1), &population, &graph);
    assert_eq!(genes(&offspring), vec![vec![2, 1, 1, 0], vec![1, 2, 2, 0]]);
}
