//! Recombination: single-point crossover of two parents, and the recombination of a
//! whole population pair by pair.

use crate::genetic::chromosome::{is_valid_labeling, labels_in_range, repaired, Chromosome};
use crate::genetic::population::{all_label, all_repaired, all_valid, views, Population};
use crate::graph::undirected::{has_isolated, UndirectedGraph};
use crate::random::{random_below, random_ratio};
use vstd::prelude::*;

verus! {

/// Two labelings of the vertices of the graph, with labels in range.
pub open spec fn both_label(first: Seq<u8>, second: Seq<u8>, adj: Seq<Seq<usize>>) -> bool {
    &&& first.len() == adj.len()
    &&& second.len() == adj.len()
    &&& labels_in_range(first)
    &&& labels_in_range(second)
}

/// A way to make two children of two parents.
pub trait Crossover {
    /// Whether the strategy may make these children of these parents on the graph.
    spec fn may_make(
        &self,
        parent1: Seq<u8>,
        parent2: Seq<u8>,
        adj: Seq<Seq<usize>>,
        children: (Seq<u8>, Seq<u8>),
    ) -> bool;

    /// Makes two children of two parents that label the vertices of `graph`.
    fn crossover(
        &self,
        parent1: &Chromosome,
        parent2: &Chromosome,
        graph: &UndirectedGraph,
    ) -> (children: (Chromosome, Chromosome))
        requires
            graph.wf(),
            both_label(parent1@, parent2@, graph@),
        ensures
            both_label(children.0@, children.1@, graph@),
            self.may_make(parent1@, parent2@, graph@, (children.0@, children.1@)),
    ;
}

/// The strategy never recombines: whatever the parents, the only children that it may
/// make are copies of them.
pub open spec fn only_copies<C: Crossover>(crossover: &C) -> bool {
    forall|
        parent1: Seq<u8>,
        parent2: Seq<u8>,
        adj: Seq<Seq<usize>>,
        children: (Seq<u8>, Seq<u8>),
    | #[trigger]
        crossover.may_make(parent1, parent2, adj, children) ==> children == (parent1, parent2)
}

/// The individuals at the places `2 * k` and `2 * k + 1` of `offspring` are children
/// that the strategy may make of the parents at these places, repaired for the graph.
pub open spec fn pair_made<C: Crossover>(
    crossover: &C,
    parents: Seq<Seq<u8>>,
    adj: Seq<Seq<usize>>,
    offspring: Seq<Seq<u8>>,
    k: int,
) -> bool {
    exists|made: (Seq<u8>, Seq<u8>)| #[trigger]
        crossover.may_make(parents[2 * k], parents[2 * k + 1], adj, made) && offspring[2 * k]
            == repaired(made.0, adj) && offspring[2 * k + 1] == repaired(made.1, adj)
}

/// `offspring` is what recombination may make of `parents`: the parents are paired
/// off in their order, the children of every pair stand in its place, a last parent
/// without partner stands for itself, and every individual is repaired for the graph.
pub open spec fn recombination_of<C: Crossover>(
    crossover: &C,
    parents: Seq<Seq<u8>>,
    adj: Seq<Seq<usize>>,
    offspring: Seq<Seq<u8>>,
) -> bool {
    &&& offspring.len() == parents.len()
    &&& forall|k: int|
        0 <= k && 2 * k + 1 < parents.len() ==> #[trigger] pair_made(
            crossover,
            parents,
            adj,
            offspring,
            k,
        )
    &&& parents.len() % 2 == 1 ==> offspring.last() == repaired(parents.last(), adj)
}

/// The labels of `head` before the cut point and those of `tail` from it on.
pub open spec fn spliced(head: Seq<u8>, tail: Seq<u8>, point: int) -> Seq<u8> {
    head.subrange(0, point) + tail.subrange(point, tail.len() as int)
}

/// A splice of two labelings of equal length has that length, and labels in range if
/// both have.
pub proof fn lemma_spliced(head: Seq<u8>, tail: Seq<u8>, point: int)
    requires
        head.len() == tail.len(),
        0 <= point <= head.len(),
    ensures
        spliced(head, tail, point).len() == head.len(),
        labels_in_range(head) && labels_in_range(tail) ==> labels_in_range(
            spliced(head, tail, point),
        ),
        spliced(head, head, point) == head,
{
    let child = spliced(head, tail, point);
    if labels_in_range(head) && labels_in_range(tail) {
        assert forall|v: int| 0 <= v < child.len() implies #[trigger] child[v] <= 2 by {
            if v < point {
                assert(child[v] == head[v]);
            } else {
                assert(child[v] == tail[v]);
            }
        }
    }
    assert(spliced(head, head, point) =~= head);
}

/// Builds the splice of `head` and `tail` at the cut point.
fn splice(head: &[u8], tail: &[u8], point: usize) -> (genes: Vec<u8>)
    requires
        head@.len() == tail@.len(),
        point <= head@.len(),
    ensures
        genes@ == spliced(head@, tail@, point as int),
{
    let n = head.len();
    let mut genes: Vec<u8> = Vec::with_capacity(n);
    let mut v: usize = 0;
    while v < n
        invariant
            v <= n,
            n == head@.len(),
            n == tail@.len(),
            point <= n,
            genes@.len() == v,
            forall|w: int|
                0 <= w < v ==> #[trigger] genes@[w] == if w < point {
                    head@[w]
                } else {
                    tail@[w]
                },
        decreases n - v,
    {
        let label = if v < point {
            head[v]
        } else {
            tail[v]
        };
        genes.push(label);
        v += 1;
    }
    proof {
        assert(genes@ =~= spliced(head@, tail@, point as int));
    }
    genes
}

/// What single-point crossover may make of two parents: copies of them, or the two
/// splices at one cut point before the last label, each repaired for the graph.
pub open spec fn single_point_children(
    parent1: Seq<u8>,
    parent2: Seq<u8>,
    adj: Seq<Seq<usize>>,
    children: (Seq<u8>, Seq<u8>),
) -> bool {
    ||| children == (parent1, parent2)
    ||| exists|point: int|
        0 <= point < parent1.len() && #[trigger] recombined(parent1, parent2, adj, point)
            == children
}

/// The two splices of the parents at the cut point, each repaired for the graph.
pub open spec fn recombined(
    parent1: Seq<u8>,
    parent2: Seq<u8>,
    adj: Seq<Seq<usize>>,
    point: int,
) -> (Seq<u8>, Seq<u8>) {
    (
        repaired(spliced(parent1, parent2, point), adj),
        repaired(spliced(parent2, parent1, point), adj),
    )
}

/// Single-point crossover: with the probability `numerator / denominator` the
/// children are the two splices of the parents at a cut point drawn by chance;
/// otherwise they are copies of the parents.
#[derive(Debug, Clone, Copy)]
pub struct SinglePoint {
    numerator: u32,
    denominator: u32,
}

impl SinglePoint {
    /// The rate is a fraction between 0 and 1.
    #[verifier::type_invariant]
    spec fn is_probability(self) -> bool {
        self.denominator > 0 && self.numerator <= self.denominator
    }

    /// The probability of recombination as a fraction: numerator and denominator.
    pub closed spec fn rate(&self) -> (nat, nat) {
        (self.numerator as nat, self.denominator as nat)
    }

    /// The strategy always recombines where it can: its probability of recombination
    /// is 1.
    pub open spec fn always_recombines(&self) -> bool {
        self.rate().0 == self.rate().1
    }

    /// Single-point crossover that recombines with the probability
    /// `numerator / denominator`, which must lie between 0 and 1.
    pub fn new(numerator: u32, denominator: u32) -> (crossover: Self)
        requires
            denominator > 0,
            numerator <= denominator,
        ensures
            crossover.rate() == (numerator as nat, denominator as nat),
            numerator == 0 ==> only_copies(&crossover),
    {
        SinglePoint { numerator, denominator }
    }

    /// The two children that recombination at the cut point `point` makes: the first
    /// takes the labels of `parent1` before the cut and those of `parent2` from it on,
    /// the second the other way round, and both are repaired for `graph`.
    pub fn recombine(
        parent1: &Chromosome,
        parent2: &Chromosome,
        point: usize,
        graph: &UndirectedGraph,
    ) -> (children: (Chromosome, Chromosome))
        requires
            graph.wf(),
            both_label(parent1@, parent2@, graph@),
            point <= graph@.len(),
        ensures
            (children.0@, children.1@) == recombined(parent1@, parent2@, graph@, point as int),
            both_label(children.0@, children.1@, graph@),
            !has_isolated(graph@) ==> is_valid_labeling(children.0@, graph@) && is_valid_labeling(
                children.1@,
                graph@,
            ),
    {
        proof {
            use_type_invariant(parent1);
        }
        let genes1 = parent1.genes();
        let genes2 = parent2.genes();
        let mut child1 = Chromosome::new(splice(genes1, genes2, point));
        let mut child2 = Chromosome::new(splice(genes2, genes1, point));
        proof {
            lemma_spliced(parent1@, parent2@, point as int);
            lemma_spliced(parent2@, parent1@, point as int);
        }
        child1.fix(graph);
        child2.fix(graph);
        (child1, child2)
    }
}

impl Crossover for SinglePoint {
    /// Copies of the parents, or their two repaired splices at one cut point; only
    /// copies at the rate 0, and only splices at the rate 1 where there is a label to
    /// cut before.
    open spec fn may_make(
        &self,
        parent1: Seq<u8>,
        parent2: Seq<u8>,
        adj: Seq<Seq<usize>>,
        children: (Seq<u8>, Seq<u8>),
    ) -> bool {
        &&& single_point_children(parent1, parent2, adj, children)
        &&& self.rate().0 == 0 ==> children == (parent1, parent2)
        &&& self.always_recombines() && parent1.len() > 0 ==> exists|point: int|
            0 <= point < parent1.len() && #[trigger] recombined(parent1, parent2, adj, point)
                == children
    }

    /// Decides by chance whether to recombine. If so, and if there is a label to cut
    /// before, draws the cut point and recombines there; else copies the parents.
    fn crossover(
        &self,
        parent1: &Chromosome,
        parent2: &Chromosome,
        graph: &UndirectedGraph,
    ) -> (children: (Chromosome, Chromosome)) {
        proof {
            use_type_invariant(self);
        }
        let mut rng = rand::thread_rng();
        let n = graph.order();
        if n == 0 || !random_ratio(&mut rng, self.numerator, self.denominator) {
            return (parent1.clone(), parent2.clone());
        }
        let point = random_below(&mut rng, n);
        let children = SinglePoint::recombine(parent1, parent2, point, graph);
        assert(recombined(parent1@, parent2@, graph@, point as int) == (children.0@, children.1@));
        children
    }
}

/// The population that recombination makes of `population`: the chromosomes are
/// paired off in their order, every pair is replaced by its two children, a last
/// chromosome without partner is copied, and every chromosome that is no valid
/// labeling of `graph` is repaired.
pub fn crossover_population<C: Crossover>(
    crossover: &C,
    population: &Population,
    graph: &UndirectedGraph,
) -> (offspring: Population)
    requires
        graph.wf(),
        all_label(population@, graph@),
    ensures
        offspring.wf(),
        offspring@.len() == population@.len(),
        recombination_of(crossover, population@, graph@, offspring@),
        all_label(offspring@, graph@),
        !has_isolated(graph@) ==> all_valid(offspring@, graph@),
        only_copies(crossover) ==> offspring@ == all_repaired(population@, graph@),
        only_copies(crossover) && all_valid(population@, graph@) ==> offspring@ == population@,
{
    let parents = population.chromosomes();
    let count = parents.len();
    let mut children: Vec<Chromosome> = Vec::new();
    let mut i: usize = 0;
    while count - i >= 2
        invariant
            i <= count,
            i % 2 == 0,
            count == population@.len(),
            parents@.len() == count,
            forall|k: int| 0 <= k < count ==> (#[trigger] parents@[k])@ == population@[k],
            graph.wf(),
            all_label(population@, graph@),
            children@.len() == i,
            all_label(views(children@), graph@),
            forall|k: int|
                0 <= k && 2 * k + 1 < i ==> #[trigger] crossover.may_make(
                    population@[2 * k],
                    population@[2 * k + 1],
                    graph@,
                    (views(children@)[2 * k], views(children@)[2 * k + 1]),
                ),
        decreases count - i,
    {
        let ghost before = views(children@);
        assert(both_label(parents@[i as int]@, parents@[i + 1]@, graph@)) by {
            assert(parents@[i as int]@ == population@[i as int]);
            assert(parents@[i + 1]@ == population@[i + 1]);
        }
        let (first, second) = crossover.crossover(&parents[i], &parents[i + 1], graph);
        children.push(first);
        children.push(second);
        proof {
            let after = views(children@);
            assert forall|k: int| 0 <= k < after.len() implies (#[trigger] after[k]).len()
                == graph@.len() && labels_in_range(after[k]) by {
                if k < i {
                    assert(after[k] == before[k]);
                }
            }
            assert forall|k: int| 0 <= k && 2 * k + 1 < i + 2 implies #[trigger] crossover.may_make(
                population@[2 * k],
                population@[2 * k + 1],
                graph@,
                (after[2 * k], after[2 * k + 1]),
            ) by {
                if 2 * k + 1 < i {
                    assert(after[2 * k] == before[2 * k]);
                    assert(after[2 * k + 1] == before[2 * k + 1]);
                } else {
                    assert(2 * k == i);
                }
            }
        }
        i += 2;
    }
    if i < count {
        let ghost before = views(children@);
        let last = parents[i].clone();
        assert(last@ == population@[i as int]);
        children.push(last);
        proof {
            let after = views(children@);
            assert forall|k: int| 0 <= k < after.len() implies (#[trigger] after[k]).len()
                == graph@.len() && labels_in_range(after[k]) by {
                if k < i {
                    assert(after[k] == before[k]);
                }
            }
            assert forall|k: int| 0 <= k && 2 * k + 1 < i implies #[trigger] crossover.may_make(
                population@[2 * k],
                population@[2 * k + 1],
                graph@,
                (after[2 * k], after[2 * k + 1]),
            ) by {
                assert(after[2 * k] == before[2 * k]);
                assert(after[2 * k + 1] == before[2 * k + 1]);
            }
        }
    }
    let ghost made = views(children@);
    let unchecked = Population::from_chromosomes(children);
    assert(unchecked@ =~= made);
    let offspring = unchecked.validate_population(graph);
    proof {
        assert forall|k: int| 0 <= k && 2 * k + 1 < count implies #[trigger] pair_made(
            crossover,
            population@,
            graph@,
            offspring@,
            k,
        ) by {
            assert(crossover.may_make(
                population@[2 * k],
                population@[2 * k + 1],
                graph@,
                (made[2 * k], made[2 * k + 1]),
            ));
        }
        if count % 2 == 1 {
            assert(made.last() == population@.last());
        }
        if only_copies(crossover) {
            assert forall|j: int| 0 <= j < count implies made[j] == population@[j] by {
                let k = j / 2;
                if 2 * k + 1 < count {
                    assert(crossover.may_make(
                        population@[2 * k],
                        population@[2 * k + 1],
                        graph@,
                        (made[2 * k], made[2 * k + 1]),
                    ));
                }
            }
            assert(made =~= population@);
        }
    }
    offspring
}

} // verus!
