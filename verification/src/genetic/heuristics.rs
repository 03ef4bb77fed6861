//! The seed heuristics: the closed set of strategies that build a first labeling for a
//! graph.

use crate::genetic::chromosome::{
    gene_sum, is_valid_labeling, labels_in_range, weight, Chromosome,
};
use crate::genetic::construction::{lemma_baseline, seed_labels};
use crate::genetic::rounds::{grow, grow_at_random};
use crate::graph::undirected::{has_isolated, UndirectedGraph};
use vstd::prelude::*;

verus! {

/// The ways to build a seed labeling.
///
/// The four greedy ones work in rounds on the vertices that are still unprocessed: a
/// round picks an unprocessed vertex, labels it 2, labels one of its unprocessed
/// neighbors 1 and the others 0, takes all of them out, and then deals with the
/// unprocessed vertices that are left without an unprocessed neighbor.
#[derive(Debug, Clone, Copy, PartialEq, Eq, Structural)]
pub enum Heuristic {
    /// Picks the round's vertex by chance; its first unprocessed neighbor gets label 1.
    RandomGreedy,
    /// Picks the unprocessed vertex with the most unprocessed neighbors; its first
    /// unprocessed neighbor gets label 1.
    MaxDegree,
    /// As `MaxDegree`, but label 1 goes to the unprocessed neighbor that has the most
    /// unprocessed neighbors itself.
    MaxDegreeOrdered,
    /// As `MaxDegreeOrdered`, but the vertices left without an unprocessed neighbor are
    /// served together by their neighbors, which all get label 2.
    IsolatedCluster,
    /// Labels every vertex 1.
    Baseline,
}

/// `labels` is a seed labeling that `heuristic` builds on the graph: for the random
/// strategy the labeling of some choices, for every other one its one labeling.
pub open spec fn built_by(labels: Seq<u8>, adj: Seq<Seq<usize>>, heuristic: Heuristic) -> bool {
    if heuristic == Heuristic::RandomGreedy {
        exists|choices: Seq<usize>| labels == seed_labels(adj, heuristic, choices)
    } else {
        labels == seed_labels(adj, heuristic, Seq::empty())
    }
}

/// What a heuristic owes on a graph: a labeling with one label in range per vertex.
/// No heuristic refuses a graph; on the graph without vertices the labeling has no
/// label.
pub open spec fn is_seed_for(seed: Option<Chromosome>, adj: Seq<Seq<usize>>) -> bool {
    match seed {
        None => false,
        Some(chromosome) => chromosome@.len() == adj.len() && labels_in_range(chromosome@),
    }
}

/// The randomized greedy heuristic. Each round starts from an unprocessed vertex drawn
/// by chance; the labeling is the one that `h1_with` builds from the numbers drawn.
pub fn h1(graph: &UndirectedGraph) -> (seed: Chromosome)
    requires
        graph.wf(),
    ensures
        is_seed_for(Some(seed), graph@),
        built_by(seed@, graph@, Heuristic::RandomGreedy),
{
    proof {
        use_type_invariant(graph);
    }
    Chromosome::new(grow_at_random(graph))
}

/// The randomized greedy heuristic on given choices: the round with number `i` starts
/// from the unprocessed vertex that `choices[i]`, reduced modulo the number of
/// unprocessed vertices, counts off in ascending order; rounds beyond the choices take
/// the first unprocessed vertex.
pub fn h1_with(graph: &UndirectedGraph, choices: &[usize]) -> (seed: Chromosome)
    requires
        graph.wf(),
    ensures
        is_seed_for(Some(seed), graph@),
        seed@ == seed_labels(graph@, Heuristic::RandomGreedy, choices@),
{
    proof {
        use_type_invariant(graph);
    }
    Chromosome::new(grow(graph, Heuristic::RandomGreedy, choices))
}

/// The max-degree greedy heuristic: each round starts from the unprocessed vertex with
/// the most unprocessed neighbors, the smallest of several.
pub fn h2(graph: &UndirectedGraph) -> (seed: Option<Chromosome>)
    requires
        graph.wf(),
    ensures
        is_seed_for(seed, graph@),
        seed.unwrap()@ == seed_labels(graph@, Heuristic::MaxDegree, Seq::empty()),
{
    proof {
        use_type_invariant(graph);
    }
    let choices: Vec<usize> = Vec::new();
    Some(Chromosome::new(grow(graph, Heuristic::MaxDegree, choices.as_slice())))
}

/// The max-degree heuristic with neighbor ordering: as `h2`, but label 1 goes to the
/// unprocessed neighbor with the most unprocessed neighbors.
pub fn h3(graph: &UndirectedGraph) -> (seed: Option<Chromosome>)
    requires
        graph.wf(),
    ensures
        is_seed_for(seed, graph@),
        seed.unwrap()@ == seed_labels(graph@, Heuristic::MaxDegreeOrdered, Seq::empty()),
{
    proof {
        use_type_invariant(graph);
    }
    let choices: Vec<usize> = Vec::new();
    Some(Chromosome::new(grow(graph, Heuristic::MaxDegreeOrdered, choices.as_slice())))
}

/// The isolated-cluster heuristic: as `h3`, but the vertices left without an unprocessed
/// neighbor are served together: each of their neighbors takes label 2, and those next
/// to a neighbor that serves two or more of them take label 0.
pub fn h4(graph: &UndirectedGraph) -> (seed: Option<Chromosome>)
    requires
        graph.wf(),
    ensures
        is_seed_for(seed, graph@),
        seed.unwrap()@ == seed_labels(graph@, Heuristic::IsolatedCluster, Seq::empty()),
{
    proof {
        use_type_invariant(graph);
    }
    let choices: Vec<usize> = Vec::new();
    Some(Chromosome::new(grow(graph, Heuristic::IsolatedCluster, choices.as_slice())))
}

/// The baseline heuristic: label 1 on every vertex. The labeling is valid on every
/// graph without isolated vertices, and its weight is the number of vertices.
pub fn h5(graph: &UndirectedGraph) -> (seed: Option<Chromosome>)
    ensures
        is_seed_for(seed, graph@),
        seed.unwrap()@ == seed_labels(graph@, Heuristic::Baseline, Seq::empty()),
        graph.wf() && !has_isolated(graph@) ==> is_valid_labeling(seed.unwrap()@, graph@),
        graph.wf() ==> weight(seed.unwrap()@) == graph@.len(),
        graph.wf() ==> gene_sum(seed.unwrap()@) == graph@.len(),
{
    let n = graph.order();
    let genes: Vec<u8> = vec![1u8; n];
    proof {
        use_type_invariant(graph);
        assert(genes@ =~= seed_labels(graph@, Heuristic::Baseline, Seq::empty()));
        if graph.wf() {
            lemma_baseline(graph@);
        }
    }
    Some(Chromosome::new(genes))
}

impl Heuristic {
    /// Builds this strategy's seed labeling for `graph`.
    pub fn apply(&self, graph: &UndirectedGraph) -> (seed: Option<Chromosome>)
        requires
            graph.wf(),
        ensures
            is_seed_for(seed, graph@),
            built_by(seed.unwrap()@, graph@, *self),
    {
        match self {
            Heuristic::RandomGreedy => Some(h1(graph)),
            Heuristic::MaxDegree => h2(graph),
            Heuristic::MaxDegreeOrdered => h3(graph),
            Heuristic::IsolatedCluster => h4(graph),
            Heuristic::Baseline => h5(graph),
        }
    }
}

} // verus!
