//! The generation loop: selection, recombination and repair, generation after
//! generation, until the budget is used up or the search stagnates.

use crate::genetic::chromosome::{
    is_valid_labeling, labels_in_range, lemma_valid_needs_neighbors, weight, Chromosome,
};
use crate::genetic::crossover::{
    crossover_population, recombination_of, Crossover, SinglePoint,
};
use crate::genetic::heuristics::Heuristic;
use crate::genetic::population::{
    all_label, all_repaired, all_valid, construction_fault, first_lightest, ordered, seeded,
    Population, PopulationError,
};
use crate::genetic::selection::{resample_of, select_population, KTournament, Selection};
use crate::graph::undirected::{has_isolated, UndirectedGraph};
use vstd::prelude::*;

verus! {

/// What the search remembers from one generation to the next: the best chromosome seen
/// so far, and the number of generations in a row that brought no better one.
#[derive(Debug)]
pub struct Progress {
    best: Chromosome,
    stagnant: usize,
}

/// The count of stagnant generations after one more: it stops at the largest number.
pub open spec fn one_more(stagnant: usize) -> usize {
    if stagnant < usize::MAX {
        (stagnant + 1) as usize
    } else {
        stagnant
    }
}

impl Progress {
    /// The labels of the best chromosome seen so far.
    pub closed spec fn best_genes(&self) -> Seq<u8> {
        self.best@
    }

    /// The number of generations in a row without a better chromosome.
    pub closed spec fn stagnant_generations(&self) -> usize {
        self.stagnant
    }

    /// The progress before the first generation, with the best chromosome of the
    /// first population.
    pub fn start(best: Chromosome) -> (progress: Self)
        ensures
            progress.best_genes() == best@,
            progress.stagnant_generations() == 0,
    {
        Progress { best, stagnant: 0 }
    }

    /// Takes note of the best chromosome of a new generation. A chromosome strictly
    /// lighter than the best one seen takes its place and ends the stagnation; any
    /// other makes the stagnation one generation longer.
    pub fn observe(&mut self, candidate: &Chromosome) -> (improved: bool)
        ensures
            improved == (weight(candidate@) < weight(old(self).best_genes())),
            improved ==> final(self).best_genes() == candidate@,
            improved ==> final(self).stagnant_generations() == 0,
            !improved ==> final(self).best_genes() == old(self).best_genes(),
            !improved ==> final(self).stagnant_generations() == one_more(
                old(self).stagnant_generations(),
            ),
    {
        if candidate.fitness() < self.best.fitness() {
            self.best = candidate.clone();
            self.stagnant = 0;
            true
        } else {
            self.stagnant = self.stagnant.saturating_add(1);
            false
        }
    }

    /// The best chromosome seen so far.
    pub fn best(&self) -> (best: &Chromosome)
        ensures
            best@ == self.best_genes(),
    {
        &self.best
    }

    /// The number of generations in a row without a better chromosome.
    pub fn stagnant(&self) -> (stagnant: usize)
        ensures
            stagnant == self.stagnant_generations(),
    {
        self.stagnant
    }

    /// Whether the stagnation has reached the threshold.
    pub fn stalled(&self, max_stagnant: usize) -> (stalled: bool)
        ensures
            stalled == (self.stagnant_generations() >= max_stagnant),
    {
        self.stagnant >= max_stagnant
    }

    /// The best chromosome seen.
    pub fn into_best(self) -> (best: Chromosome)
        ensures
            best@ == self.best_genes(),
    {
        self.best
    }
}

impl Population {
    /// One generation: selection, then recombination with repair. The new population
    /// has as many individuals as the old one.
    pub fn evolve<S: Selection, C: Crossover>(
        &mut self,
        selector: &S,
        crossover: &C,
        graph: &UndirectedGraph,
    )
        requires
            graph.wf(),
            all_label(old(self)@, graph@),
        ensures
            final(self).wf(),
            final(self)@.len() == old(self)@.len(),
            generation_of(selector, crossover, graph@, old(self)@, final(self)@),
            all_label(final(self)@, graph@),
            !has_isolated(graph@) ==> all_valid(final(self)@, graph@),
    {
        let selected = select_population(selector, self);
        proof {
            assert forall|i: int| 0 <= i < selected@.len() implies (#[trigger] selected@[i]).len()
                == graph@.len() && labels_in_range(selected@[i]) by {
                assert(old(self)@.contains(selected@[i]));
                let k = choose|k: int| 0 <= k < old(self)@.len() && old(self)@[k] == selected@[i];
                assert(old(self)@[k] == selected@[i]);
            }
        }
        *self = crossover_population(crossover, &selected, graph);
        proof {
            assert(resample_of(selector, old(self)@, selected@));
        }
    }
}

/// One generation may lead from the individuals `before` to the individuals `after`:
/// selection draws a resample, and recombination makes `after` of it.
pub open spec fn generation_of<S: Selection, C: Crossover>(
    selector: &S,
    crossover: &C,
    adj: Seq<Seq<usize>>,
    before: Seq<Seq<u8>>,
    after: Seq<Seq<u8>>,
) -> bool {
    exists|selected: Seq<Seq<u8>>| #[trigger]
        resample_of(selector, before, selected) && recombination_of(
            crossover,
            selected,
            adj,
            after,
        )
}

/// The generation with number `t` of a history of populations leads from its
/// population with that number to the next one.
pub open spec fn step_at<S: Selection, C: Crossover>(
    selector: &S,
    crossover: &C,
    adj: Seq<Seq<usize>>,
    history: Seq<Seq<Seq<u8>>>,
    t: int,
) -> bool {
    generation_of(selector, crossover, adj, history[t], history[t + 1])
}

/// The first of the lightest individuals.
pub open spec fn lightest(individuals: Seq<Seq<u8>>) -> Seq<u8> {
    individuals[choose|i: int| first_lightest(individuals, i)]
}

/// There is one place of the first of the lightest individuals at most.
pub proof fn lemma_lightest(individuals: Seq<Seq<u8>>, i: int)
    requires
        first_lightest(individuals, i),
    ensures
        lightest(individuals) == individuals[i],
{
    let j = choose|j: int| first_lightest(individuals, j);
    if j < i {
        assert(weight(individuals[i]) < weight(individuals[j]));
    } else if i < j {
        assert(weight(individuals[j]) < weight(individuals[i]));
    }
}

/// What the search remembers after `count` generations of a history: the best
/// chromosome seen and the length of the stagnation. At the start it is the lightest
/// individual of the first population, without stagnation; every generation then
/// brings the lightest individual of its population, which takes the place of the best
/// one if it is strictly lighter, and makes the stagnation one longer if not.
pub open spec fn remembered(history: Seq<Seq<Seq<u8>>>, count: nat) -> (Seq<u8>, usize)
    decreases count,
{
    if count == 0 {
        (lightest(history[0]), 0usize)
    } else {
        let (best, stagnant) = remembered(history, (count - 1) as nat);
        let candidate = lightest(history[count as int]);
        if weight(candidate) < weight(best) {
            (candidate, 0usize)
        } else {
            (best, one_more(stagnant))
        }
    }
}

/// The length of the stagnation after `t` generations of a history.
pub open spec fn stagnation_at(history: Seq<Seq<Seq<u8>>>, t: int) -> usize {
    remembered(history, t as nat).1
}

/// `history` holds the populations of a run from `initial`: every population but the
/// first comes from the one before it by one generation, there are no more
/// generations than the budget allows, none but the last one ended with the
/// stagnation at the threshold, and the run ended because the budget was used up or
/// because the stagnation had reached the threshold.
pub open spec fn is_run<S: Selection, C: Crossover>(
    selector: &S,
    crossover: &C,
    adj: Seq<Seq<usize>>,
    initial: Seq<Seq<u8>>,
    generations: usize,
    max_stagnant: usize,
    history: Seq<Seq<Seq<u8>>>,
) -> bool {
    let done = history.len() - 1;
    &&& history.len() >= 1
    &&& history[0] == initial
    &&& done <= generations
    &&& forall|t: int| 0 <= t < done ==> #[trigger] step_at(selector, crossover, adj, history, t)
    &&& forall|t: int| 1 <= t < done ==> #[trigger] stagnation_at(history, t) < max_stagnant
    &&& done == generations || (done >= 1 && stagnation_at(history, done) >= max_stagnant)
}

/// What the search remembers depends only on the populations of the generations done.
pub proof fn lemma_remembered_prefix(
    history: Seq<Seq<Seq<u8>>>,
    longer: Seq<Seq<Seq<u8>>>,
    count: nat,
)
    requires
        count < history.len() <= longer.len(),
        forall|t: int| 0 <= t < history.len() ==> history[t] == longer[t],
    ensures
        remembered(longer, count) == remembered(history, count),
    decreases count,
{
    if count > 0 {
        lemma_remembered_prefix(history, longer, (count - 1) as nat);
    }
}

/// Runs the generations on `population`: each one evolves the population and takes
/// note of its best chromosome. The run ends when `generations` generations are done,
/// or at the end of the generation after which the stagnation has reached
/// `max_stagnant`. The result is the best chromosome seen in any generation or in
/// the population at the start; `PopulationEmpty` where that population is empty.
pub fn run<S: Selection, C: Crossover>(
    population: Population,
    selector: &S,
    crossover: &C,
    graph: &UndirectedGraph,
    generations: usize,
    max_stagnant: usize,
) -> (result: Result<Chromosome, PopulationError>)
    requires
        graph.wf(),
        all_label(population@, graph@),
    ensures
        match result {
            Ok(best) => {
                &&& population@.len() > 0
                &&& best@.len() == graph@.len()
                &&& labels_in_range(best@)
                &&& forall|i: int|
                    0 <= i < population@.len() ==> weight(best@) <= weight(
                        #[trigger] population@[i],
                    )
                &&& exists|history: Seq<Seq<Seq<u8>>>| #[trigger]
                    is_run(
                        selector,
                        crossover,
                        graph@,
                        population@,
                        generations,
                        max_stagnant,
                        history,
                    ) && best@ == remembered(history, (history.len() - 1) as nat).0
                &&& all_valid(population@, graph@) ==> is_valid_labeling(best@, graph@)
            },
            Err(e) => e == PopulationError::PopulationEmpty && population@.len() == 0,
        },
{
    let mut population = population;
    let ghost initial = population@;
    let mut progress = match population.best_chromosome() {
        Ok(best) => Progress::start(best.clone()),
        Err(e) => {
            return Err(e);
        },
    };
    let ghost mut history: Seq<Seq<Seq<u8>>> = seq![initial];
    proof {
        let i = choose|i: int| first_lightest(initial, i) && progress.best_genes() == initial[i];
        assert(initial[i].len() == graph@.len());
        lemma_lightest(initial, i);
        if all_valid(initial, graph@) {
            lemma_valid_needs_neighbors(initial[i], graph@);
        }
    }
    let mut generation: usize = 0;
    let mut stop = false;
    while generation < generations && !stop
        invariant
            generation <= generations,
            graph.wf(),
            initial.len() > 0,
            population@.len() == initial.len(),
            all_label(population@, graph@),
            progress.best_genes().len() == graph@.len(),
            labels_in_range(progress.best_genes()),
            forall|i: int|
                0 <= i < initial.len() ==> weight(progress.best_genes()) <= weight(
                    #[trigger] initial[i],
                ),
            all_valid(initial, graph@) ==> !has_isolated(graph@) && is_valid_labeling(
                progress.best_genes(),
                graph@,
            ),
            history.len() == generation + 1,
            history[0] == initial,
            history.last() == population@,
            forall|t: int|
                0 <= t < generation ==> #[trigger] step_at(selector, crossover, graph@, history, t),
            forall|t: int|
                1 <= t < generation ==> #[trigger] stagnation_at(history, t) < max_stagnant,
            (progress.best_genes(), progress.stagnant_generations()) == remembered(
                history,
                generation as nat,
            ),
            stop ==> generation >= 1 && stagnation_at(history, generation as int) >= max_stagnant,
            !stop && generation >= 1 ==> stagnation_at(history, generation as int) < max_stagnant,
        decreases generations - generation + if stop { 0int } else { 1int },
    {
        let ghost before = history;
        population.evolve(selector, crossover, graph);
        proof {
            history = before.push(population@);
            assert forall|t: int| 0 <= t < generation + 1 implies #[trigger] step_at(
                selector,
                crossover,
                graph@,
                history,
                t,
            ) by {
                if t < generation {
                    assert(step_at(selector, crossover, graph@, before, t));
                    assert(history[t] == before[t] && history[t + 1] == before[t + 1]);
                }
            }
            assert forall|t: int| 1 <= t < generation + 1 implies #[trigger] stagnation_at(
                history,
                t,
            ) < max_stagnant by {
                lemma_remembered_prefix(before, history, t as nat);
                if t < generation {
                    assert(stagnation_at(before, t) < max_stagnant);
                }
            }
            lemma_remembered_prefix(before, history, generation as nat);
        }
        match population.best_chromosome() {
            Ok(candidate) => {
                proof {
                    let i = choose|i: int|
                        first_lightest(population@, i) && candidate@ == population@[i];
                    assert(population@[i].len() == graph@.len());
                    assert(is_valid_labeling(population@[i], graph@) ==> is_valid_labeling(
                        candidate@,
                        graph@,
                    ));
                    lemma_lightest(population@, i);
                }
                progress.observe(candidate);
            },
            Err(_) => {},
        }
        generation += 1;
        if progress.stalled(max_stagnant) {
            stop = true;
        }
    }
    proof {
        assert(is_run(
            selector,
            crossover,
            graph@,
            initial,
            generations,
            max_stagnant,
            history,
        ));
    }
    Ok(progress.into_best())
}

/// `best` is what a search may give: the best chromosome that a run of the given
/// strategies remembers at its end, where the run starts from the population that the
/// seed labelings `raw` give, repaired and put in order.
pub open spec fn found_by(
    selector: KTournament,
    crossover: SinglePoint,
    adj: Seq<Seq<usize>>,
    raw: Seq<Seq<u8>>,
    generations: usize,
    max_stagnant: usize,
    history: Seq<Seq<Seq<u8>>>,
    best: Seq<u8>,
) -> bool {
    &&& is_run(
        &selector,
        &crossover,
        adj,
        ordered(all_repaired(raw, adj)),
        generations,
        max_stagnant,
        history,
    )
    &&& best == remembered(history, (history.len() - 1) as nat).0
}

/// `best` is what the whole search may give: what a run of tournament selection with
/// `tournament_size` competitors and single-point crossover at the rate `rate` may
/// find, from the population of `population_size` seeds of the heuristics.
pub open spec fn may_find(
    adj: Seq<Seq<usize>>,
    heuristics: Seq<Heuristic>,
    population_size: usize,
    generations: usize,
    max_stagnant: usize,
    tournament_size: usize,
    rate: (nat, nat),
    best: Seq<u8>,
) -> bool {
    exists|
        selector: KTournament,
        crossover: SinglePoint,
        raw: Seq<Seq<u8>>,
        history: Seq<Seq<Seq<u8>>>,
    |
        {
            &&& selector.competitors() == tournament_size
            &&& crossover.rate() == rate
            &&& seeded(raw, adj, heuristics, population_size as nat)
            &&& #[trigger] found_by(
                selector,
                crossover,
                adj,
                raw,
                generations,
                max_stagnant,
                history,
                best,
            )
        }
}

/// The whole search on `graph`: builds the population of `population_size` seeds from
/// the heuristics and runs the generations with tournaments of `tournament_size`
/// competitors and single-point crossover at the rate
/// `rate_numerator / rate_denominator`. Gives the best labeling seen and its weight,
/// or the reason why no population could be built.
pub fn search(
    graph: &UndirectedGraph,
    heuristics: &[Heuristic],
    population_size: usize,
    generations: usize,
    max_stagnant: usize,
    tournament_size: usize,
    rate_numerator: u32,
    rate_denominator: u32,
) -> (result: Result<(Chromosome, usize), PopulationError>)
    requires
        graph.wf(),
        rate_denominator > 0,
        rate_numerator <= rate_denominator,
    ensures
        match result {
            Ok((best, fitness)) => {
                &&& construction_fault(population_size, heuristics@.len(), graph@).is_none()
                &&& is_valid_labeling(best@, graph@)
                &&& fitness == weight(best@)
                &&& may_find(
                    graph@,
                    heuristics@,
                    population_size,
                    generations,
                    max_stagnant,
                    tournament_size,
                    (rate_numerator as nat, rate_denominator as nat),
                    best@,
                )
            },
            Err(e) => construction_fault(population_size, heuristics@.len(), graph@) == Some(e),
        },
{
    let population = match Population::new(population_size, heuristics, graph) {
        Ok(population) => population,
        Err(e) => {
            return Err(e);
        },
    };
    let ghost raw = choose|raw: Seq<Seq<u8>>|
        seeded(raw, graph@, heuristics@, population_size as nat) && population@ == ordered(
            all_repaired(raw, graph@),
        );
    let ghost initial = population@;
    let selector = KTournament::new(tournament_size);
    let crossover = SinglePoint::new(rate_numerator, rate_denominator);
    match run(population, &selector, &crossover, graph, generations, max_stagnant) {
        Ok(best) => {
            let fitness = best.fitness();
            proof {
                let history = choose|history: Seq<Seq<Seq<u8>>>| #[trigger]
                    is_run(
                        &selector,
                        &crossover,
                        graph@,
                        initial,
                        generations,
                        max_stagnant,
                        history,
                    ) && best@ == remembered(history, (history.len() - 1) as nat).0;
                assert(seeded(raw, graph@, heuristics@, population_size as nat));
                assert(initial == ordered(all_repaired(raw, graph@)));
                assert(selector.competitors() == tournament_size);
                assert(crossover.rate() == (rate_numerator as nat, rate_denominator as nat));
                assert(found_by(
                    selector,
                    crossover,
                    graph@,
                    raw,
                    generations,
                    max_stagnant,
                    history,
                    best@,
                ));
                assert(may_find(
                    graph@,
                    heuristics@,
                    population_size,
                    generations,
                    max_stagnant,
                    tournament_size,
                    (rate_numerator as nat, rate_denominator as nat),
                    best@,
                ));
            }
            Ok((best, fitness))
        },
        Err(e) => {
            proof {
                assert(false);
            }
            Err(e)
        },
    }
}

} // verus!
