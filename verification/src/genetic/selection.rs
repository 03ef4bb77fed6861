//! Selection: tournament selection, where the lightest of a few competitors drawn by
//! chance wins.

use crate::genetic::chromosome::{weight, Chromosome};
use crate::genetic::population::Population;
use crate::random::random_below;
use rand::rngs::ThreadRng;
use vstd::prelude::*;

verus! {

/// A way to pick one chromosome of a population.
pub trait Selection {
    /// Whether the strategy may pick a chromosome with these genes from these
    /// individuals.
    spec fn may_pick(&self, individuals: Seq<Seq<u8>>, genes: Seq<u8>) -> bool;

    /// Picks a chromosome of the population, which must not be empty.
    fn select<'a>(&self, population: &'a Population) -> (winner: &'a Chromosome)
        requires
            population@.len() > 0,
        ensures
            population@.contains(winner@),
            self.may_pick(population@, winner@),
    ;
}

/// `selected` holds as many individuals as `individuals`, each of them one that is
/// there and that the strategy may pick from there.
pub open spec fn resample_of<S: Selection>(
    selector: &S,
    individuals: Seq<Seq<u8>>,
    selected: Seq<Seq<u8>>,
) -> bool {
    &&& selected.len() == individuals.len()
    &&& forall|i: int|
        0 <= i < selected.len() ==> individuals.contains(#[trigger] selected[i])
            && selector.may_pick(individuals, selected[i])
}

/// No number occurs twice.
pub open spec fn distinct(numbers: Seq<usize>) -> bool {
    forall|i: int, j: int|
        0 <= i < j < numbers.len() ==> #[trigger] numbers[i] != #[trigger] numbers[j]
}

/// Every competitor is a place in a population of `count` individuals.
pub open spec fn compete_in(competitors: Seq<usize>, count: nat) -> bool {
    forall|i: int| 0 <= i < competitors.len() ==> #[trigger] competitors[i] < count
}

/// The competitor at place `i` wins the tournament: none is lighter, and those before
/// it are heavier.
pub open spec fn wins(individuals: Seq<Seq<u8>>, competitors: Seq<usize>, i: int) -> bool {
    &&& 0 <= i < competitors.len()
    &&& forall|j: int|
        0 <= j < competitors.len() ==> weight(individuals[competitors[i] as int]) <= weight(
            individuals[#[trigger] competitors[j] as int],
        )
    &&& forall|j: int|
        0 <= j < i ==> weight(individuals[competitors[i] as int]) < weight(
            individuals[#[trigger] competitors[j] as int],
        )
}

/// `winner` is the place of the individual that wins the tournament of the
/// competitors: the lightest of them, the first of several; the individual at place 0
/// where nobody competes.
pub open spec fn is_winner(
    individuals: Seq<Seq<u8>>,
    competitors: Seq<usize>,
    winner: int,
) -> bool {
    if competitors.len() == 0 {
        winner == 0
    } else {
        exists|i: int| wins(individuals, competitors, i) && winner == competitors[i]
    }
}

/// `genes` is what a tournament of `k` competitors may pick from the individuals: the
/// winner among as many distinct individuals as `k` says, or among all where there are
/// fewer.
pub open spec fn tournament_pick(individuals: Seq<Seq<u8>>, k: nat, genes: Seq<u8>) -> bool {
    exists|competitors: Seq<usize>, winner: int|
        #![trigger is_winner(individuals, competitors, winner)]
        {
            &&& competitors.len() == if k <= individuals.len() {
                k
            } else {
                individuals.len()
            }
            &&& distinct(competitors)
            &&& compete_in(competitors, individuals.len())
            &&& is_winner(individuals, competitors, winner)
            &&& 0 <= winner < individuals.len()
            &&& genes == individuals[winner]
        }
}

/// The place in the population of the winner among the competitors.
pub fn tournament_winner(population: &Population, competitors: &[usize]) -> (winner: usize)
    requires
        population@.len() > 0,
        compete_in(competitors@, population@.len()),
    ensures
        is_winner(population@, competitors@, winner as int),
        winner < population@.len(),
{
    if competitors.len() == 0 {
        return 0;
    }
    let chromosomes = population.chromosomes();
    let mut place: usize = 0;
    let mut least = chromosomes[competitors[0]].fitness();
    let mut i: usize = 1;
    while i < competitors.len()
        invariant
            0 <= place < i <= competitors@.len(),
            compete_in(competitors@, population@.len()),
            chromosomes@.len() == population@.len(),
            forall|k: int|
                0 <= k < population@.len() ==> (#[trigger] chromosomes@[k])@ == population@[k],
            least == weight(population@[competitors@[place as int] as int]),
            forall|j: int|
                0 <= j < i ==> least <= weight(population@[#[trigger] competitors@[j] as int]),
            forall|j: int|
                0 <= j < place ==> least < weight(population@[#[trigger] competitors@[j] as int]),
        decreases competitors@.len() - i,
    {
        let fitness = chromosomes[competitors[i]].fitness();
        if fitness < least {
            place = i;
            least = fitness;
        }
        i += 1;
    }
    assert(wins(population@, competitors@, place as int));
    competitors[place]
}

/// Draws `amount` distinct numbers below `count`.
fn draw_distinct(rng: &mut ThreadRng, count: usize, amount: usize) -> (drawn: Vec<usize>)
    requires
        amount <= count,
    ensures
        drawn@.len() == amount,
        distinct(drawn@),
        compete_in(drawn@, count as nat),
{
    let mut drawn: Vec<usize> = Vec::new();
    let mut bound: usize = count - amount;
    while bound < count
        invariant
            count - amount <= bound <= count,
            drawn@.len() == bound - (count - amount),
            distinct(drawn@),
            compete_in(drawn@, bound as nat),
        decreases count - bound,
    {
        let candidate = random_below(rng, bound + 1);
        let mut taken = false;
        let mut i: usize = 0;
        while i < drawn.len() && !taken
            invariant
                i <= drawn@.len(),
                taken ==> drawn@.contains(candidate),
                !taken ==> forall|j: int| 0 <= j < i ==> #[trigger] drawn@[j] != candidate,
            decreases drawn@.len() - i,
        {
            if drawn[i] == candidate {
                taken = true;
            }
            i += 1;
        }
        let number = if taken {
            bound
        } else {
            candidate
        };
        drawn.push(number);
        bound += 1;
    }
    drawn
}

/// The tournament selection: the lightest of `k` competitors drawn by chance.
#[derive(Debug, Clone, Copy)]
pub struct KTournament {
    k: usize,
}

impl KTournament {
    /// The number of competitors of a tournament.
    pub closed spec fn competitors(&self) -> nat {
        self.k as nat
    }

    /// The tournament selection with `k` competitors.
    pub fn new(k: usize) -> (selection: Self)
        ensures
            selection.competitors() == k,
    {
        KTournament { k }
    }
}

impl Selection for KTournament {
    /// The winners of the tournaments that the strategy may hold.
    open spec fn may_pick(&self, individuals: Seq<Seq<u8>>, genes: Seq<u8>) -> bool {
        tournament_pick(individuals, self.competitors(), genes)
    }

    /// Draws as many distinct competitors as the tournament has, or the whole
    /// population where it is smaller, and picks the lightest of them, the first drawn
    /// of several. A tournament without competitors picks the first chromosome.
    fn select<'a>(&self, population: &'a Population) -> (winner: &'a Chromosome) {
        let mut rng = rand::thread_rng();
        let count = population.chromosomes().len();
        let amount = if self.k <= count {
            self.k
        } else {
            count
        };
        let competitors = draw_distinct(&mut rng, count, amount);
        let winner = tournament_winner(population, competitors.as_slice());
        proof {
            assert(is_winner(population@, competitors@, winner as int));
            if competitors@.len() > 0 {
                let i = choose|i: int|
                    wins(population@, competitors@, i) && winner == competitors@[i];
                assert(competitors@[i] < count);
            }
        }
        &population.chromosomes()[winner]
    }
}

/// The population that selection draws from `population`: as many picks of `selector` as
/// the population has individuals, each a copy of the chromosome picked.
pub fn select_population<S: Selection>(selector: &S, population: &Population) -> (selected:
    Population)
    ensures
        selected.wf(),
        resample_of(selector, population@, selected@),
{
    let count = population.chromosomes().len();
    let mut chromosomes: Vec<Chromosome> = Vec::new();
    let mut slot: usize = 0;
    while slot < count
        invariant
            slot <= count,
            count == population@.len(),
            chromosomes@.len() == slot,
            forall|i: int|
                0 <= i < slot ==> population@.contains((#[trigger] chromosomes@[i])@)
                    && selector.may_pick(population@, chromosomes@[i]@),
        decreases count - slot,
    {
        let winner = selector.select(population);
        chromosomes.push(winner.clone());
        slot += 1;
    }
    Population::from_chromosomes(chromosomes)
}

} // verus!
