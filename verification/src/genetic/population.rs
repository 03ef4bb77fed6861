//! Populations: collections of chromosomes with a declared size, built from seed
//! heuristics, ordered by weight, and edited by appending or by bounded insertion.

use crate::genetic::chromosome::{
    is_valid_labeling, labels_in_range, lemma_repaired_is_valid, repaired, weight, Chromosome,
};
use crate::genetic::heuristics::{built_by, Heuristic};
use crate::graph::undirected::{has_isolated, well_formed, UndirectedGraph};
use vstd::prelude::*;

verus! {

/// Why a population could not be built or read.
#[derive(Debug, Clone, Copy, PartialEq, Eq, Structural)]
pub enum PopulationError {
    /// The graph has a vertex without neighbors, which no labeling can satisfy.
    IsolatedVerticesFound,
    /// No heuristic was given.
    NotEnoughHeuristics,
    /// The population is to be smaller than the number of heuristics.
    InvalidPopulationSize,
    /// A heuristic built no labeling. None of the strategies of this library refuses a
    /// graph, so no population fails to be built for this reason.
    HeuristicFailed,
    /// The population has no individual.
    PopulationEmpty,
}

/// Ascending order of the weights.
pub open spec fn sorted_by_weight(individuals: Seq<Seq<u8>>) -> bool {
    forall|i: int, j: int|
        0 <= i < j < individuals.len() ==> weight(#[trigger] individuals[i]) <= weight(
            #[trigger] individuals[j],
        )
}

/// The number of individuals that are lighter than `target`.
pub open spec fn lighter_count(individuals: Seq<Seq<u8>>, target: usize) -> nat
    decreases individuals.len(),
{
    if individuals.len() == 0 {
        0
    } else {
        lighter_count(individuals.drop_last(), target) + if weight(individuals.last()) < target {
            1nat
        } else {
            0nat
        }
    }
}

/// `individuals` with `genes` put in behind the lighter individuals, before those of
/// its own weight.
pub open spec fn sorted_insert(individuals: Seq<Seq<u8>>, genes: Seq<u8>) -> Seq<Seq<u8>> {
    individuals.insert(lighter_count(individuals, weight(genes)) as int, genes)
}

/// The individuals in ascending order of weight, those of equal weight in the order in
/// which they stood.
pub open spec fn ordered(individuals: Seq<Seq<u8>>) -> Seq<Seq<u8>>
    decreases individuals.len(),
{
    if individuals.len() == 0 {
        individuals
    } else {
        sorted_insert(ordered(individuals.drop_first()), individuals.first())
    }
}

/// The bounded insertion of `genes` into a sorted collection with room for `capacity`
/// individuals: into its place where there is room; in exchange for the last
/// individual where there is none and `genes` is lighter than that one; not at all
/// otherwise.
pub open spec fn bounded_insert(individuals: Seq<Seq<u8>>, capacity: nat, genes: Seq<u8>) -> Seq<
    Seq<u8>,
> {
    if individuals.len() < capacity {
        sorted_insert(individuals, genes)
    } else if accepts(individuals, capacity, genes) {
        sorted_insert(individuals.drop_last(), genes)
    } else {
        individuals
    }
}

/// Whether the bounded insertion takes `genes` in.
pub open spec fn accepts(individuals: Seq<Seq<u8>>, capacity: nat, genes: Seq<u8>) -> bool {
    individuals.len() < capacity || (individuals.len() > 0 && weight(genes) < weight(
        individuals.last(),
    ))
}

/// `i` is the place of the first individual of the least weight.
pub open spec fn first_lightest(individuals: Seq<Seq<u8>>, i: int) -> bool {
    &&& 0 <= i < individuals.len()
    &&& forall|j: int|
        0 <= j < individuals.len() ==> weight(individuals[i]) <= weight(#[trigger] individuals[j])
    &&& forall|j: int| 0 <= j < i ==> weight(individuals[i]) < weight(#[trigger] individuals[j])
}

/// `i` is the place of the first individual of the greatest weight.
pub open spec fn first_heaviest(individuals: Seq<Seq<u8>>, i: int) -> bool {
    &&& 0 <= i < individuals.len()
    &&& forall|j: int|
        0 <= j < individuals.len() ==> weight(individuals[i]) >= weight(#[trigger] individuals[j])
    &&& forall|j: int| 0 <= j < i ==> weight(individuals[i]) > weight(#[trigger] individuals[j])
}

/// Every individual labels the vertices of the graph with labels in range.
pub open spec fn all_label(individuals: Seq<Seq<u8>>, adj: Seq<Seq<usize>>) -> bool {
    forall|i: int|
        0 <= i < individuals.len() ==> (#[trigger] individuals[i]).len() == adj.len()
            && labels_in_range(individuals[i])
}

/// Every individual is a valid labeling of the graph.
pub open spec fn all_valid(individuals: Seq<Seq<u8>>, adj: Seq<Seq<usize>>) -> bool {
    forall|i: int|
        0 <= i < individuals.len() ==> is_valid_labeling(#[trigger] individuals[i], adj)
}

/// Every individual repaired for the graph.
pub open spec fn all_repaired(individuals: Seq<Seq<u8>>, adj: Seq<Seq<usize>>) -> Seq<Seq<u8>> {
    Seq::new(individuals.len(), |i: int| repaired(individuals[i], adj))
}

/// In a sorted collection the place of the first individual that is not lighter than
/// `target` is the number of the lighter ones.
pub proof fn lemma_lighter_count(individuals: Seq<Seq<u8>>, target: usize, place: int)
    requires
        0 <= place <= individuals.len(),
        forall|i: int| 0 <= i < place ==> weight(#[trigger] individuals[i]) < target,
        forall|i: int|
            place <= i < individuals.len() ==> weight(#[trigger] individuals[i]) >= target,
    ensures
        lighter_count(individuals, target) == place,
    decreases individuals.len(),
{
    if individuals.len() > 0 {
        let shorter = individuals.drop_last();
        let shorter_place = if place == individuals.len() {
            place - 1
        } else {
            place
        };
        assert forall|i: int| 0 <= i < shorter_place implies weight(#[trigger] shorter[i])
            < target by {
            assert(shorter[i] == individuals[i]);
        }
        assert forall|i: int| shorter_place <= i < shorter.len() implies weight(
            #[trigger] shorter[i],
        ) >= target by {
            assert(shorter[i] == individuals[i]);
        }
        lemma_lighter_count(shorter, target, shorter_place);
    }
}

/// The number of lighter individuals is a place in the collection, the individuals
/// before it are lighter and, in a sorted collection, the others are not.
pub proof fn lemma_lighter_count_splits(individuals: Seq<Seq<u8>>, target: usize)
    requires
        sorted_by_weight(individuals),
    ensures
        lighter_count(individuals, target) <= individuals.len(),
        forall|i: int|
            0 <= i < lighter_count(individuals, target) ==> weight(#[trigger] individuals[i])
                < target,
        forall|i: int|
            lighter_count(individuals, target) <= i < individuals.len() ==> weight(
                #[trigger] individuals[i],
            ) >= target,
    decreases individuals.len(),
{
    if individuals.len() > 0 {
        let shorter = individuals.drop_last();
        assert forall|i: int, j: int| 0 <= i < j < shorter.len() implies weight(
            #[trigger] shorter[i],
        ) <= weight(#[trigger] shorter[j]) by {
            assert(shorter[i] == individuals[i]);
            assert(shorter[j] == individuals[j]);
        }
        lemma_lighter_count_splits(shorter, target);
        let count = lighter_count(shorter, target);
        assert forall|i: int| 0 <= i < lighter_count(individuals, target) implies weight(
            #[trigger] individuals[i],
        ) < target by {
            if i < shorter.len() {
                assert(shorter[i] == individuals[i]);
                if i >= count {
                    assert(weight(shorter[i]) >= target);
                    assert(weight(individuals.last()) < target);
                    assert(weight(individuals[i]) <= weight(individuals[individuals.len() - 1]));
                }
            }
        }
        assert forall|i: int|
            lighter_count(individuals, target) <= i < individuals.len() implies weight(
            #[trigger] individuals[i],
        ) >= target by {
            if i < shorter.len() {
                assert(shorter[i] == individuals[i]);
            }
        }
    }
}

/// Putting an individual into its place keeps a sorted collection sorted.
pub proof fn lemma_sorted_insert(individuals: Seq<Seq<u8>>, genes: Seq<u8>)
    requires
        sorted_by_weight(individuals),
    ensures
        sorted_by_weight(sorted_insert(individuals, genes)),
        sorted_insert(individuals, genes).len() == individuals.len() + 1,
{
    lemma_lighter_count_splits(individuals, weight(genes));
    let place = lighter_count(individuals, weight(genes)) as int;
    let longer = sorted_insert(individuals, genes);
    assert forall|i: int, j: int| 0 <= i < j < longer.len() implies weight(#[trigger] longer[i])
        <= weight(#[trigger] longer[j]) by {
        if j < place {
            assert(longer[i] == individuals[i] && longer[j] == individuals[j]);
        } else if j == place {
            assert(longer[i] == individuals[i]);
        } else if i < place {
            assert(longer[i] == individuals[i] && longer[j] == individuals[j - 1]);
        } else if i == place {
            assert(longer[j] == individuals[j - 1]);
        } else {
            assert(longer[i] == individuals[i - 1] && longer[j] == individuals[j - 1]);
        }
    }
}

/// Ordering sorts, keeps the number of individuals, and brings in no individual that
/// was not there.
pub proof fn lemma_ordered(individuals: Seq<Seq<u8>>)
    ensures
        sorted_by_weight(ordered(individuals)),
        ordered(individuals).len() == individuals.len(),
        forall|i: int|
            0 <= i < individuals.len() ==> individuals.contains(#[trigger] ordered(individuals)[i]),
        sorted_by_weight(individuals) ==> ordered(individuals) == individuals,
    decreases individuals.len(),
{
    if individuals.len() > 0 {
        let rest = individuals.drop_first();
        lemma_ordered(rest);
        lemma_sorted_insert(ordered(rest), individuals.first());
        lemma_lighter_count_splits(ordered(rest), weight(individuals.first()));
        let place = lighter_count(ordered(rest), weight(individuals.first())) as int;
        let result = ordered(individuals);
        assert forall|i: int| 0 <= i < individuals.len() implies individuals.contains(
            #[trigger] result[i],
        ) by {
            if i == place {
                assert(individuals[0] == result[i]);
            } else {
                let k = if i < place {
                    i
                } else {
                    i - 1
                };
                assert(result[i] == ordered(rest)[k]);
                assert(rest.contains(ordered(rest)[k]));
                let m = choose|m: int| 0 <= m < rest.len() && rest[m] == ordered(rest)[k];
                assert(individuals[m + 1] == result[i]);
            }
        }
        if sorted_by_weight(individuals) {
            assert forall|i: int, j: int| 0 <= i < j < rest.len() implies weight(
                #[trigger] rest[i],
            ) <= weight(#[trigger] rest[j]) by {
                assert(rest[i] == individuals[i + 1] && rest[j] == individuals[j + 1]);
            }
            assert forall|i: int| 0 <= i < rest.len() implies weight(#[trigger] rest[i])
                >= weight(individuals.first()) by {
                assert(rest[i] == individuals[i + 1]);
                assert(weight(individuals[0]) <= weight(individuals[i + 1]));
            }
            lemma_lighter_count(rest, weight(individuals.first()), 0);
            assert(result =~= individuals);
        }
    }
}

/// The heuristic that fills the slot with the given number: the one with that number,
/// or the last one for the slots beyond the heuristics.
pub open spec fn slot_heuristic(heuristics: Seq<Heuristic>, slot: int) -> Heuristic {
    if slot < heuristics.len() {
        heuristics[slot]
    } else {
        heuristics.last()
    }
}

/// `raw` holds one seed labeling per slot, each built by the heuristic of its slot.
pub open spec fn seeded(
    raw: Seq<Seq<u8>>,
    adj: Seq<Seq<usize>>,
    heuristics: Seq<Heuristic>,
    size: nat,
) -> bool {
    &&& raw.len() == size
    &&& forall|slot: int|
        0 <= slot < size ==> #[trigger] built_by(raw[slot], adj, slot_heuristic(heuristics, slot))
}

/// Why no population can be built, if none can.
pub open spec fn construction_fault(size: usize, heuristics: nat, adj: Seq<Seq<usize>>) -> Option<
    PopulationError,
> {
    if has_isolated(adj) {
        Some(PopulationError::IsolatedVerticesFound)
    } else if heuristics == 0 {
        Some(PopulationError::NotEnoughHeuristics)
    } else if size < heuristics {
        Some(PopulationError::InvalidPopulationSize)
    } else {
        None
    }
}

/// Repairing every individual gives labelings of the graph, valid ones where the graph
/// has no isolated vertex, and changes none that is valid.
pub proof fn lemma_all_repaired(individuals: Seq<Seq<u8>>, adj: Seq<Seq<usize>>)
    requires
        well_formed(adj),
        all_label(individuals, adj),
    ensures
        all_repaired(individuals, adj).len() == individuals.len(),
        all_label(all_repaired(individuals, adj), adj),
        !has_isolated(adj) ==> all_valid(all_repaired(individuals, adj), adj),
        all_valid(individuals, adj) ==> all_repaired(individuals, adj) == individuals,
{
    let fixed = all_repaired(individuals, adj);
    assert forall|i: int| 0 <= i < fixed.len() implies (#[trigger] fixed[i]).len() == adj.len()
        && labels_in_range(fixed[i]) && (!has_isolated(adj) ==> is_valid_labeling(fixed[i], adj))
        && (is_valid_labeling(individuals[i], adj) ==> fixed[i] == individuals[i]) by {
        lemma_repaired_is_valid(individuals[i], adj);
        crate::genetic::chromosome::lemma_repair_idempotent(individuals[i], adj);
    }
    if all_valid(individuals, adj) {
        assert(fixed =~= individuals);
    }
}

/// Ordering keeps what holds of every individual: being a labeling of the graph, and
/// being valid.
pub proof fn lemma_ordered_keeps(individuals: Seq<Seq<u8>>, adj: Seq<Seq<usize>>)
    ensures
        all_label(individuals, adj) ==> all_label(ordered(individuals), adj),
        all_valid(individuals, adj) ==> all_valid(ordered(individuals), adj),
{
    lemma_ordered(individuals);
    let sorted = ordered(individuals);
    assert forall|i: int| 0 <= i < sorted.len() implies (all_label(individuals, adj) ==> (
    #[trigger] sorted[i]).len() == adj.len() && labels_in_range(sorted[i])) && (all_valid(
        individuals,
        adj,
    ) ==> is_valid_labeling(sorted[i], adj)) by {
        assert(individuals.contains(sorted[i]));
        let m = choose|m: int| 0 <= m < individuals.len() && individuals[m] == sorted[i];
        assert(individuals[m] == sorted[i]);
    }
}

/// Ordering keeps every individual, as often as it was there.
pub proof fn lemma_ordered_permutes(individuals: Seq<Seq<u8>>)
    ensures
        ordered(individuals).to_multiset() == individuals.to_multiset(),
    decreases individuals.len(),
{
    if individuals.len() > 0 {
        let rest = individuals.drop_first();
        let first = individuals.first();
        lemma_ordered_permutes(rest);
        lemma_ordered(rest);
        lemma_lighter_count_splits(ordered(rest), weight(first));
        let place = lighter_count(ordered(rest), weight(first)) as int;
        let result = ordered(individuals);
        assert(result.remove(place) =~= ordered(rest));
        assert(individuals.remove(0) =~= rest);
        vstd::seq_lib::to_multiset_remove(result, place);
        vstd::seq_lib::to_multiset_remove(individuals, 0);
        assert(result[place] == first);
        result.to_multiset_ensures();
        individuals.to_multiset_ensures();
        assert(result.contains(first)) by {
            assert(result[place] == first);
        }
        assert(individuals.contains(first)) by {
            assert(individuals[0] == first);
        }
        assert(result.to_multiset() =~= result.to_multiset().remove(first).insert(first));
        assert(individuals.to_multiset() =~= individuals.to_multiset().remove(first).insert(
            first,
        ));
    }
}

/// A collection of chromosomes together with its declared size.
#[derive(Debug)]
pub struct Population {
    chromosomes: Vec<Chromosome>,
    size: usize,
}

impl View for Population {
    type V = Seq<Seq<u8>>;

    /// The labels of the chromosomes, in their order.
    closed spec fn view(&self) -> Seq<Seq<u8>> {
        views(self.chromosomes@)
    }
}

impl Clone for Population {
    /// A full copy: copies of the chromosomes in a collection of its own.
    fn clone(&self) -> (copy: Self)
        ensures
            copy@ == self@,
            copy.declared_size() == self.declared_size(),
    {
        let chromosomes = self.chromosomes.clone();
        proof {
            assert(views(chromosomes@) =~= views(self.chromosomes@));
        }
        Population { chromosomes, size: self.size }
    }
}

/// The views of the chromosomes, in their order.
pub open spec fn views(chromosomes: Seq<Chromosome>) -> Seq<Seq<u8>> {
    Seq::new(chromosomes.len(), |i: int| chromosomes[i]@)
}

/// Puts the chromosomes in ascending order of weight, those of equal weight in the
/// order in which they stood.
fn order_by_fitness(chromosomes: Vec<Chromosome>) -> (sorted: Vec<Chromosome>)
    ensures
        views(sorted@) == ordered(views(chromosomes@)),
{
    let mut source = chromosomes;
    let mut sorted: Vec<Chromosome> = Vec::new();
    let ghost all = views(source@);
    proof {
        assert(all.subrange(all.len() as int, all.len() as int) =~= Seq::<Seq<u8>>::empty());
        assert(views(sorted@) =~= ordered(Seq::<Seq<u8>>::empty()));
    }
    while source.len() > 0
        invariant
            source@.len() <= all.len(),
            views(source@) == all.subrange(0, source@.len() as int),
            views(sorted@) == ordered(all.subrange(source@.len() as int, all.len() as int)),
        decreases source@.len(),
    {
        let ghost before = source@;
        let ghost placed = views(sorted@);
        let chromosome = source.pop().unwrap();
        let fitness = chromosome.fitness();
        proof {
            lemma_ordered(all.subrange(before.len() as int, all.len() as int));
            assert(views(sorted@) == Seq::new(sorted@.len(), |i: int| sorted@[i]@));
        }
        let place = lower_bound_by_weight(&sorted, fitness);
        sorted.insert(place, chromosome);
        proof {
            let tail = all.subrange(before.len() as int, all.len() as int);
            let longer = all.subrange(before.len() - 1, all.len() as int);
            assert(chromosome@ == views(before)[before.len() - 1]);
            assert(chromosome@ == all[before.len() - 1]);
            assert(longer.first() == chromosome@);
            assert(longer.drop_first() =~= tail);
            assert(views(sorted@) =~= sorted_insert(placed, chromosome@));
            assert(views(source@) =~= all.subrange(0, source@.len() as int));
        }
    }
    proof {
        assert(all.subrange(0, all.len() as int) =~= all);
    }
    sorted
}

/// The place of the first chromosome that is not lighter than `target`.
fn lower_bound_by_weight(chromosomes: &Vec<Chromosome>, target: usize) -> (place: usize)
    requires
        sorted_by_weight(views(chromosomes@)),
    ensures
        place == lighter_count(views(chromosomes@), target),
        place <= chromosomes@.len(),
{
    let ghost individuals = views(chromosomes@);
    let mut low: usize = 0;
    let mut high: usize = chromosomes.len();
    while low < high
        invariant
            low <= high <= chromosomes@.len(),
            individuals == views(chromosomes@),
            sorted_by_weight(individuals),
            forall|i: int| 0 <= i < low ==> weight(#[trigger] individuals[i]) < target,
            forall|i: int|
                high <= i < individuals.len() ==> weight(#[trigger] individuals[i]) >= target,
        decreases high - low,
    {
        let middle: usize = low + (high - low) / 2;
        let probe = chromosomes[middle].fitness();
        assert(probe == weight(individuals[middle as int]));
        if probe < target {
            low = middle + 1;
        } else {
            high = middle;
        }
    }
    proof {
        lemma_lighter_count(individuals, target, low as int);
    }
    low
}

impl Population {
    /// The declared size.
    pub closed spec fn declared_size(&self) -> nat {
        self.size as nat
    }

    /// The population holds as many individuals as its declared size says.
    pub open spec fn wf(&self) -> bool {
        self@.len() == self.declared_size()
    }

    /// The population of the given chromosomes, in their order; its size is their
    /// number.
    pub fn from_chromosomes(chromosomes: Vec<Chromosome>) -> (population: Self)
        ensures
            population.wf(),
            population@.len() == chromosomes@.len(),
            forall|i: int|
                0 <= i < chromosomes@.len() ==> #[trigger] population@[i] == chromosomes@[i]@,
    {
        let size = chromosomes.len();
        Population { chromosomes, size }
    }

    /// The population without individuals, of size 0.
    pub fn empty() -> (population: Self)
        ensures
            population.wf(),
            population@.len() == 0,
    {
        Population { chromosomes: Vec::new(), size: 0 }
    }

    /// Whether the chromosomes stand in ascending order of weight.
    pub fn is_sorted(&self) -> (sorted: bool)
        ensures
            sorted == sorted_by_weight(self@),
    {
        let n = self.chromosomes.len();
        if n < 2 {
            return true;
        }
        let mut previous = self.chromosomes[0].fitness();
        let mut i: usize = 1;
        while i < n
            invariant
                1 <= i <= n,
                n == self.chromosomes@.len(),
                previous == weight(self@[i - 1]),
                forall|a: int, b: int|
                    0 <= a < b < i ==> weight(#[trigger] self@[a]) <= weight(#[trigger] self@[b]),
            decreases n - i,
        {
            let fitness = self.chromosomes[i].fitness();
            if fitness < previous {
                assert(weight(self@[i - 1]) > weight(self@[i as int]));
                return false;
            }
            assert forall|a: int, b: int| 0 <= a < b < i + 1 implies weight(#[trigger] self@[a])
                <= weight(#[trigger] self@[b]) by {
                if b == i && a < i - 1 {
                    assert(weight(self@[a]) <= weight(self@[i - 1]));
                }
            }
            previous = fitness;
            i += 1;
        }
        true
    }

    /// Puts the chromosomes in ascending order of weight, those of equal weight in the
    /// order in which they stood.
    pub fn sort_by_fitness(&mut self)
        ensures
            final(self)@ == ordered(old(self)@),
            final(self).declared_size() == old(self).declared_size(),
            sorted_by_weight(final(self)@),
            final(self)@.len() == old(self)@.len(),
    {
        let mut chromosomes: Vec<Chromosome> = Vec::new();
        std::mem::swap(&mut self.chromosomes, &mut chromosomes);
        self.chromosomes = order_by_fitness(chromosomes);
        proof {
            lemma_ordered(old(self)@);
        }
    }

    /// Appends `chromosome`; the declared size grows with the population.
    pub fn add_individual(&mut self, chromosome: Chromosome)
        ensures
            final(self)@ == old(self)@.push(chromosome@),
            final(self).wf(),
    {
        self.chromosomes.push(chromosome);
        self.size = self.chromosomes.len();
        proof {
            assert(self@ =~= old(self)@.push(chromosome@));
        }
    }

    /// The bounded insertion into a sorted population, whose declared size is its
    /// capacity: below capacity `chromosome` goes to its place in the order; at capacity
    /// it takes the place of the last chromosome if it is lighter than that one, and is
    /// turned away if not. Says whether it was taken in.
    pub fn add_chromosome(&mut self, chromosome: Chromosome) -> (added: bool)
        requires
            sorted_by_weight(old(self)@),
        ensures
            final(self)@ == bounded_insert(old(self)@, old(self).declared_size(), chromosome@),
            added == accepts(old(self)@, old(self).declared_size(), chromosome@),
            final(self).declared_size() == old(self).declared_size(),
            sorted_by_weight(final(self)@),
            old(self).wf() ==> final(self).wf(),
    {
        let fitness = chromosome.fitness();
        let n = self.chromosomes.len();
        let ghost before = self@;
        if n >= self.size {
            if n == 0 {
                return false;
            }
            if fitness >= self.chromosomes[n - 1].fitness() {
                return false;
            }
            self.chromosomes.pop();
            proof {
                assert(self@ =~= before.drop_last());
                assert forall|i: int, j: int| 0 <= i < j < self@.len() implies weight(
                    #[trigger] self@[i],
                ) <= weight(#[trigger] self@[j]) by {
                    assert(self@[i] == before[i] && self@[j] == before[j]);
                }
            }
        }
        let ghost kept = self@;
        let place = lower_bound_by_weight(&self.chromosomes, fitness);
        self.chromosomes.insert(place, chromosome);
        proof {
            assert(self@ =~= sorted_insert(kept, chromosome@));
            lemma_sorted_insert(kept, chromosome@);
        }
        true
    }

    /// The population with every chromosome that is no valid labeling of `graph`
    /// repaired, in the same order and of the same declared size.
    pub fn validate_population(&self, graph: &UndirectedGraph) -> (validated: Self)
        requires
            graph.wf(),
            all_label(self@, graph@),
        ensures
            validated@ == all_repaired(self@, graph@),
            validated.declared_size() == self.declared_size(),
            all_label(validated@, graph@),
            !has_isolated(graph@) ==> all_valid(validated@, graph@),
            all_valid(self@, graph@) ==> validated@ == self@,
    {
        let n = self.chromosomes.len();
        let mut chromosomes: Vec<Chromosome> = Vec::new();
        let mut i: usize = 0;
        while i < n
            invariant
                i <= n,
                n == self.chromosomes@.len(),
                graph.wf(),
                all_label(self@, graph@),
                chromosomes@.len() == i,
                forall|k: int|
                    0 <= k < i ==> (#[trigger] chromosomes@[k])@ == repaired(self@[k], graph@),
            decreases n - i,
        {
            let mut chromosome = self.chromosomes[i].clone();
            assert(chromosome@ == self@[i as int]);
            proof {
                crate::genetic::chromosome::lemma_repair_idempotent(chromosome@, graph@);
            }
            if !chromosome.is_valid(graph) {
                chromosome.fix(graph);
            }
            chromosomes.push(chromosome);
            i += 1;
        }
        proof {
            assert(views(chromosomes@) =~= all_repaired(self@, graph@));
            lemma_all_repaired(self@, graph@);
        }
        Population { chromosomes, size: self.size }
    }

    /// Builds the population of `size` seed labelings for `graph`. Each heuristic fills
    /// one slot, in order, and the last heuristic fills the slots that are left. Every
    /// seed that is no valid labeling is repaired, and the population is put in
    /// ascending order of weight.
    ///
    /// Fails with `IsolatedVerticesFound` where the graph has a vertex without
    /// neighbors; else with `NotEnoughHeuristics` where no heuristic is given; else with
    /// `InvalidPopulationSize` where `size` is below the number of heuristics. A
    /// heuristic that built no labeling would give `HeuristicFailed`, but none refuses: on
    /// the graph without vertices the population holds `size` chromosomes without labels.
    pub fn new(size: usize, heuristics: &[Heuristic], graph: &UndirectedGraph) -> (result: Result<
        Self,
        PopulationError,
    >)
        requires
            graph.wf(),
        ensures
            match result {
                Ok(population) => {
                    &&& construction_fault(size, heuristics@.len(), graph@).is_none()
                    &&& population.wf()
                    &&& population@.len() == size
                    &&& sorted_by_weight(population@)
                    &&& all_label(population@, graph@)
                    &&& all_valid(population@, graph@)
                    &&& exists|raw: Seq<Seq<u8>>|
                        seeded(raw, graph@, heuristics@, size as nat) && population@ == ordered(
                            all_repaired(raw, graph@),
                        )
                },
                Err(e) => construction_fault(size, heuristics@.len(), graph@) == Some(e),
            },
    {
        if graph.has_isolated_vertex() {
            return Err(PopulationError::IsolatedVerticesFound);
        }
        let count = heuristics.len();
        if count == 0 {
            return Err(PopulationError::NotEnoughHeuristics);
        }
        if size < count {
            return Err(PopulationError::InvalidPopulationSize);
        }
        let mut chromosomes: Vec<Chromosome> = Vec::new();
        let mut slot: usize = 0;
        while slot < size
            invariant
                slot <= size,
                0 < count <= size,
                count == heuristics@.len(),
                graph.wf(),
                chromosomes@.len() == slot,
                all_label(views(chromosomes@), graph@),
                forall|k: int|
                    0 <= k < slot ==> #[trigger] built_by(
                        views(chromosomes@)[k],
                        graph@,
                        slot_heuristic(heuristics@, k),
                    ),
            decreases size - slot,
        {
            let heuristic = if slot < count {
                heuristics[slot]
            } else {
                heuristics[count - 1]
            };
            assert(heuristic == slot_heuristic(heuristics@, slot as int));
            let ghost before = views(chromosomes@);
            match heuristic.apply(graph) {
                None => {
                    return Err(PopulationError::HeuristicFailed);
                },
                Some(chromosome) => {
                    chromosomes.push(chromosome);
                    proof {
                        let after = views(chromosomes@);
                        assert forall|k: int| 0 <= k < slot + 1 implies #[trigger] built_by(
                            after[k],
                            graph@,
                            slot_heuristic(heuristics@, k),
                        ) by {
                            if k < slot {
                                assert(after[k] == before[k]);
                            }
                        }
                        assert forall|k: int| 0 <= k < after.len() implies (
                        #[trigger] after[k]).len() == graph@.len() && labels_in_range(
                            after[k],
                        ) by {
                            if k < slot {
                                assert(after[k] == before[k]);
                            }
                        }
                    }
                },
            }
            slot += 1;
        }
        let ghost raw = views(chromosomes@);
        let seeds = Population::from_chromosomes(chromosomes);
        assert(seeds@ =~= raw);
        let mut population = seeds.validate_population(graph);
        population.sort_by_fitness();
        proof {
            lemma_all_repaired(raw, graph@);
            lemma_ordered_keeps(all_repaired(raw, graph@), graph@);
            assert(seeded(raw, graph@, heuristics@, size as nat));
        }
        Ok(population)
    }

    /// The chromosomes, in their order.
    pub fn chromosomes(&self) -> (chromosomes: &[Chromosome])
        ensures
            chromosomes@.len() == self@.len(),
            forall|i: int| 0 <= i < self@.len() ==> (#[trigger] chromosomes@[i])@ == self@[i],
    {
        self.chromosomes.as_slice()
    }

    /// The declared size.
    pub fn size(&self) -> (size: usize)
        ensures
            size == self.declared_size(),
    {
        self.size
    }

    /// The first of the lightest chromosomes; `PopulationEmpty` where there is none.
    pub fn best_chromosome(&self) -> (best: Result<&Chromosome, PopulationError>)
        ensures
            match best {
                Ok(chromosome) => exists|i: int|
                    first_lightest(self@, i) && chromosome@ == self@[i],
                Err(e) => e == PopulationError::PopulationEmpty && self@.len() == 0,
            },
    {
        if self.chromosomes.len() == 0 {
            return Err(PopulationError::PopulationEmpty);
        }
        let mut place: usize = 0;
        let mut least = self.chromosomes[0].fitness();
        let mut i: usize = 1;
        while i < self.chromosomes.len()
            invariant
                0 <= place < i <= self.chromosomes@.len(),
                least == weight(self@[place as int]),
                forall|j: int| 0 <= j < i ==> least <= weight(#[trigger] self@[j]),
                forall|j: int| 0 <= j < place ==> least < weight(#[trigger] self@[j]),
            decreases self.chromosomes@.len() - i,
        {
            let fitness = self.chromosomes[i].fitness();
            if fitness < least {
                place = i;
                least = fitness;
            }
            i += 1;
        }
        assert(first_lightest(self@, place as int));
        Ok(&self.chromosomes[place])
    }

    /// The first of the heaviest chromosomes; `PopulationEmpty` where there is none.
    pub fn worst_chromosome(&self) -> (worst: Result<&Chromosome, PopulationError>)
        ensures
            match worst {
                Ok(chromosome) => exists|i: int|
                    first_heaviest(self@, i) && chromosome@ == self@[i],
                Err(e) => e == PopulationError::PopulationEmpty && self@.len() == 0,
            },
    {
        if self.chromosomes.len() == 0 {
            return Err(PopulationError::PopulationEmpty);
        }
        let mut place: usize = 0;
        let mut most = self.chromosomes[0].fitness();
        let mut i: usize = 1;
        while i < self.chromosomes.len()
            invariant
                0 <= place < i <= self.chromosomes@.len(),
                most == weight(self@[place as int]),
                forall|j: int| 0 <= j < i ==> most >= weight(#[trigger] self@[j]),
                forall|j: int| 0 <= j < place ==> most > weight(#[trigger] self@[j]),
            decreases self.chromosomes@.len() - i,
        {
            let fitness = self.chromosomes[i].fitness();
            if fitness > most {
                place = i;
                most = fitness;
            }
            i += 1;
        }
        assert(first_heaviest(self@, place as int));
        Ok(&self.chromosomes[place])
    }
}

} // verus!
