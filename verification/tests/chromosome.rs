use cl_total_rdga::genetic::Chromosome;
use cl_total_rdga::graph::UndirectedGraph;

fn five_cycle() -> UndirectedGraph {
    UndirectedGraph::from_edges(5, &[(0, 1), (1, 2), (2, 3), (3, 4), (4, 0)]).unwrap()
}

#[test]
fn fitness_is_the_sum_of_the_genes() {
    assert_eq!(Chromosome::new(vec![2, 0, 0, 2, 1]).fitness(), 5);
    assert_eq!(Chromosome::new(vec![0, 0, 0, 0]).fitness(), 0);
    assert_eq!(Chromosome::new(Vec::new()).fitness(), 0);
    assert_eq!(Chromosome::new(vec![255, 255, 7]).fitness(), 517);
}

#[test]
fn genes_are_handed_back_unchanged() {
    let chromosome = Chromosome::new(vec![1, 2, 0]);
    assert_eq!(chromosome.genes(), &[1, 2, 0]);
    let copy = chromosome.clone();
    assert_eq!(copy.genes(), &[1, 2, 0]);
}

#[test]
fn five_cycle_scenario() {
    let graph = five_cycle();
    assert!(Chromosome::new(vec![2, 0, 0, 2, 1]).is_valid(&graph));
    let mut broken = Chromosome::new(vec![2, 0, 0, 2, 0]);
    assert!(!broken.is_valid(&graph));
    broken.fix(&graph);
    assert!(broken.is_valid(&graph));
    assert_eq!(broken.genes(), &[2, 1, 1, 2, 0]);
    assert_eq!(broken.fitness(), 6);
}

#[test]
fn fix_leaves_a_valid_chromosome_alone() {
    let graph = five_cycle();
    let mut chromosome = Chromosome::new(vec![2, 0, 0, 2, 1]);
    chromosome.fix(&graph);
    assert_eq!(chromosome.genes(), &[2, 0, 0, 2, 1]);
}

#[test]
fn fix_is_idempotent() {
    let graph = five_cycle();
    let mut chromosome = Chromosome::new(vec![0, 0, 0, 0, 0]);
    chromosome.fix(&graph);
    let once = chromosome.genes().to_vec();
    assert!(chromosome.is_valid(&graph));
    chromosome.fix(&graph);
    assert_eq!(chromosome.genes(), &once[..]);
}

#[test]
fn fix_of_all_zeros_on_the_five_cycle() {
    let graph = five_cycle();
    let mut chromosome = Chromosome::new(vec![0, 0, 0, 0, 0]);
    chromosome.fix(&graph);
    assert_eq!(chromosome.genes(), &[1, 2, 2, 2, 0]);
    assert!(chromosome.is_valid(&graph));
}

#[test]
fn fix_raises_a_one_where_no_zero_is_left() {
    let graph = UndirectedGraph::from_edges(2, &[(0, 1)]).unwrap();
    let mut chromosome = Chromosome::new(vec![0, 1]);
    assert!(!chromosome.is_valid(&graph));
    chromosome.fix(&graph);
    assert_eq!(chromosome.genes(), &[1, 2]);
    assert!(chromosome.is_valid(&graph));
}

#[test]
fn out_of_range_gene_is_invalid() {
    let graph = UndirectedGraph::from_edges(2, &[(0, 1)]).unwrap();
    assert!(Chromosome::new(vec![1, 1]).is_valid(&graph));
    assert!(!Chromosome::new(vec![3, 1]).is_valid(&graph));
    assert!(!Chromosome::new(vec![1, 7]).is_valid(&graph));
}

#[test]
fn wrong_length_is_invalid() {
    let graph = UndirectedGraph::from_edges(2, &[(0, 1)]).unwrap();
    assert!(!Chromosome::new(vec![1]).is_valid(&graph));
    assert!(!Chromosome::new(vec![1, 1, 1]).is_valid(&graph));
    assert!(Chromosome::new(Vec::new()).is_valid(&UndirectedGraph::new(0)));
}

#[test]
fn isolated_vertex_is_never_valid() {
    let graph = UndirectedGraph::new(1);
    assert!(!Chromosome::new(vec![0]).is_valid(&graph));
    assert!(!Chromosome::new(vec![1]).is_valid(&graph));
    assert!(!Chromosome::new(vec![2]).is_valid(&graph));
    let mut chromosome = Chromosome::new(vec![2]);
    chromosome.fix(&graph);
    assert_eq!(chromosome.genes(), &[2]);
}

#[test]
fn fix_never_lowers_a_label() {
    let graph = five_cycle();
    let starts: Vec<Vec<u8>> = vec![
        vec![0, 0, 0, 0, 0],
        vec![2, 0, 0, 2, 0],
        vec![1, 0, 1, 0, 2],
        vec![0, 1, 0, 0, 0],
        vec![2, 2, 2, 2, 2],
    ];
    for start in starts {
        let mut chromosome = Chromosome::new(start.clone());
        let weight = chromosome.fitness();
        chromosome.fix(&graph);
        for (before, after) in start.iter().zip(chromosome.genes()) {
            assert!(before <= after);
        }
        assert!(weight <= chromosome.fitness());
        assert!(chromosome.is_valid(&graph));
    }
}
