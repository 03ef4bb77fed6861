use cl_total_rdga::genetic::{
    select_population, tournament_winner, Chromosome, KTournament, Population, Selection,
};

fn population() -> Population {
    Population::from_chromosomes(vec![
        Chromosome::new(vec![2, 2, 2]),
        Chromosome::new(vec![1, 0, 1]),
        Chromosome::new(vec![0, 2, 2]),
        Chromosome::new(vec![0, 1, 1]),
        Chromosome::new(vec![2, 0, 1]),
    ])
}

fn holds(population: &Population, genes: &[u8]) -> bool {
    population.chromosomes().iter().any(|c| c.genes() == genes)
}

#[test]
fn tournament_winner_is_the_lightest_competitor() {
    let pop = population();
    assert_eq!(tournament_winner(&pop, &[0, 2, 4]), 4);
    assert_eq!(tournament_winner(&pop, &[4, 2, 0]), 4);
    assert_eq!(tournament_winner(&pop, &[0]), 0);
    assert_eq!(tournament_winner(&pop, &[2, 0]), 2);
}

#[test]
fn tournament_winner_is_the_first_of_equals() {
    let pop = population();
    assert_eq!(tournament_winner(&pop, &[3, 1]), 3);
    assert_eq!(tournament_winner(&pop, &[1, 3]), 1);
    assert_eq!(tournament_winner(&pop, &[0, 1, 2, 3, 4]), 1);
}

#[test]
fn tournament_without_competitors_takes_the_first_chromosome() {
    let pop = population();
    assert_eq!(tournament_winner(&pop, &[]), 0);
    let selector = KTournament::new(0);
    for _ in 0..10 {
        assert_eq!(selector.select(&pop).genes(), &[2, 2, 2]);
    }
}

#[test]
fn select_picks_a_chromosome_of_the_population() {
    let pop = population();
    for k in 1..8 {
        let selector = KTournament::new(k);
        for _ in 0..40 {
            let winner = selector.select(&pop);
            assert!(holds(&pop, winner.genes()));
        }
    }
}

#[test]
fn tournament_of_the_whole_population_picks_the_best() {
    let pop = population();
    for k in 5..9 {
        let selector = KTournament::new(k);
        for _ in 0..20 {
            assert_eq!(selector.select(&pop).fitness(), 2);
        }
    }
}

#[test]
fn tournament_of_four_never_picks_the_heaviest() {
    let pop = population();
    let selector = KTournament::new(4);
    for _ in 0..100 {
        assert!(selector.select(&pop).fitness() <= 3);
    }
}

#[test]
fn tournament_of_one_reaches_every_chromosome() {
    let pop = population();
    let selector = KTournament::new(1);
    let mut seen = vec![false; 5];
    for _ in 0..2000 {
        let winner = selector.select(&pop);
        for (i, c) in pop.chromosomes().iter().enumerate() {
            if c.genes() == winner.genes() {
                seen[i] = true;
            }
        }
    }
    assert_eq!(seen, vec![true; 5]);
}

#[test]
fn selected_population_is_a_resample_of_the_same_size() {
    let pop = population();
    let selector = KTournament::new(2);
    for _ in 0..20 {
        let selected = select_population(&selector, &pop);
        assert_eq!(selected.chromosomes().len(), 5);
        assert_eq!(selected.size(), 5);
        for chromosome in selected.chromosomes() {
            assert!(holds(&pop, chromosome.genes()));
        }
    }
}

#[test]
fn selection_from_an_empty_population_is_empty() {
    let selected = select_population(&KTournament::new(3), &Population::empty());
    assert_eq!(selected.chromosomes().len(), 0);
}
