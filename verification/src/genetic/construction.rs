//! The model of the seed heuristics: what a round of a greedy construction does to the
//! labels and to the set of unprocessed vertices, and the labeling that a whole
//! construction builds.

use crate::genetic::chromosome::{
    first_zero_from, gene_sum, is_valid_labeling, labels_in_range, lemma_first_zero_from,
    satisfied,
};
use crate::genetic::heuristics::Heuristic;
use crate::graph::undirected::{adjacent, has_isolated, well_formed};
use vstd::prelude::*;

verus! {

/// The number of unprocessed vertices from `start` on.
pub open spec fn live_from(remaining: Seq<bool>, start: int) -> nat
    decreases remaining.len() - start,
{
    if start < 0 || start >= remaining.len() {
        0
    } else if remaining[start] {
        1 + live_from(remaining, start + 1)
    } else {
        live_from(remaining, start + 1)
    }
}

/// The unprocessed vertex that has exactly `skip` unprocessed vertices between `start`
/// and itself; `remaining.len()` where there are too few.
pub open spec fn nth_live(remaining: Seq<bool>, start: int, skip: nat) -> int
    decreases remaining.len() - start,
{
    if start < 0 || start >= remaining.len() {
        remaining.len() as int
    } else if remaining[start] {
        if skip == 0 {
            start
        } else {
            nth_live(remaining, start + 1, (skip - 1) as nat)
        }
    } else {
        nth_live(remaining, start + 1, skip)
    }
}

/// The number of unprocessed vertices among the first `count` entries of `neighbors`.
pub open spec fn live_degree(neighbors: Seq<usize>, remaining: Seq<bool>, count: nat) -> nat
    decreases count,
{
    if count == 0 {
        0
    } else {
        live_degree(neighbors, remaining, (count - 1) as nat) + if remaining[neighbors[count
            - 1] as int] {
            1nat
        } else {
            0nat
        }
    }
}

/// The number of unprocessed neighbors of `v`.
pub open spec fn working_degree(adj: Seq<Seq<usize>>, remaining: Seq<bool>, v: usize) -> nat {
    live_degree(adj[v as int], remaining, adj[v as int].len())
}

/// The vertices `0..count` in ascending order.
pub open spec fn all_vertices(count: nat) -> Seq<usize> {
    Seq::new(count, |v: int| v as usize)
}

/// Among the first `count` entries of `candidates`, the unprocessed vertex with the
/// most unprocessed neighbors; of several such the one that stands first.
pub open spec fn heaviest_live(
    adj: Seq<Seq<usize>>,
    candidates: Seq<usize>,
    remaining: Seq<bool>,
    count: nat,
) -> Option<usize>
    decreases count,
{
    if count == 0 {
        None
    } else {
        let earlier = heaviest_live(adj, candidates, remaining, (count - 1) as nat);
        let u = candidates[count - 1];
        if !remaining[u as int] {
            earlier
        } else if earlier.is_some() && working_degree(adj, remaining, earlier.unwrap())
            >= working_degree(adj, remaining, u) {
            earlier
        } else {
            Some(u)
        }
    }
}

/// The first unprocessed vertex of `neighbors` from `start` on.
pub open spec fn first_live_from(neighbors: Seq<usize>, remaining: Seq<bool>, start: int) -> Option<
    usize,
>
    decreases neighbors.len() - start,
{
    if start < 0 || start >= neighbors.len() {
        None
    } else if remaining[neighbors[start] as int] {
        Some(neighbors[start])
    } else {
        first_live_from(neighbors, remaining, start + 1)
    }
}

/// `w` is among the first `count` entries of `neighbors`.
pub open spec fn listed(neighbors: Seq<usize>, count: int, w: int) -> bool {
    exists|i: int| 0 <= i < count && i < neighbors.len() && #[trigger] neighbors[i] == w
}

/// The labels after the round's vertex `v` took label 2, its unprocessed neighbor
/// `promoted` label 1 and its other unprocessed neighbors label 0.
pub open spec fn claimed(
    genes: Seq<u8>,
    adj: Seq<Seq<usize>>,
    remaining: Seq<bool>,
    v: usize,
    promoted: Option<usize>,
) -> Seq<u8> {
    Seq::new(
        genes.len(),
        |w: int|
            if w == v {
                2u8
            } else if remaining[w] && adjacent(adj, v as int, w) {
                if promoted == Some(w as usize) {
                    1u8
                } else {
                    0u8
                }
            } else {
                genes[w]
            },
    )
}

/// The unprocessed vertices without `v` and its neighbors.
pub open spec fn without_neighborhood(adj: Seq<Seq<usize>>, remaining: Seq<bool>, v: usize) -> Seq<
    bool,
> {
    Seq::new(remaining.len(), |w: int| remaining[w] && w != v && !adjacent(adj, v as int, w))
}

/// `z` is unprocessed and none of its neighbors is.
pub open spec fn stranded(adj: Seq<Seq<usize>>, remaining: Seq<bool>, z: int) -> bool {
    &&& 0 <= z < adj.len()
    &&& remaining[z]
    &&& forall|i: int| 0 <= i < adj[z].len() ==> !remaining[#[trigger] adj[z][i] as int]
}

/// The unprocessed vertices without the stranded ones.
pub open spec fn without_stranded(adj: Seq<Seq<usize>>, remaining: Seq<bool>) -> Seq<bool> {
    Seq::new(remaining.len(), |w: int| remaining[w] && !stranded(adj, remaining, w))
}

/// Some vertex of `neighbors` is labeled 1.
pub open spec fn has_neighbor_one(genes: Seq<u8>, neighbors: Seq<usize>) -> bool {
    exists|i: int| 0 <= i < neighbors.len() && genes[#[trigger] neighbors[i] as int] == 1
}

/// The labels after the stranded vertex `z` was served: it takes label 1, and where
/// none of its neighbors is labeled 1, its first neighbor labeled 0 takes label 1 too.
pub open spec fn settle_at(genes: Seq<u8>, adj: Seq<Seq<usize>>, z: int) -> Seq<u8> {
    let own = genes.update(z, 1u8);
    let k = first_zero_from(own, adj[z], 0);
    if has_neighbor_one(own, adj[z]) || k >= adj[z].len() {
        own
    } else {
        own.update(adj[z][k] as int, 1u8)
    }
}

/// The labels after the stranded vertices among `0..count` were served one by one, in
/// ascending order.
pub open spec fn settled_through(
    genes: Seq<u8>,
    adj: Seq<Seq<usize>>,
    remaining: Seq<bool>,
    count: nat,
) -> Seq<u8>
    decreases count,
{
    if count == 0 {
        genes
    } else {
        let earlier = settled_through(genes, adj, remaining, (count - 1) as nat);
        if stranded(adj, remaining, count - 1) {
            settle_at(earlier, adj, count - 1)
        } else {
            earlier
        }
    }
}

/// `w` has a stranded neighbor.
pub open spec fn touches_stranded(adj: Seq<Seq<usize>>, remaining: Seq<bool>, w: int) -> bool {
    exists|i: int| 0 <= i < adj[w].len() && stranded(adj, remaining, #[trigger] adj[w][i] as int)
}

/// `w` has two or more stranded neighbors.
pub open spec fn shares_stranded(adj: Seq<Seq<usize>>, remaining: Seq<bool>, w: int) -> bool {
    exists|i: int, j: int|
        0 <= i < j < adj[w].len() && stranded(adj, remaining, #[trigger] adj[w][i] as int)
            && stranded(adj, remaining, #[trigger] adj[w][j] as int)
}

/// `w` has a neighbor with two or more stranded neighbors.
pub open spec fn next_to_sharing(adj: Seq<Seq<usize>>, remaining: Seq<bool>, w: int) -> bool {
    exists|i: int|
        0 <= i < adj[w].len() && shares_stranded(adj, remaining, #[trigger] adj[w][i] as int)
}

/// The labels after the stranded vertices were served together: every neighbor of a
/// stranded vertex takes label 2, and a stranded vertex takes label 0 where one of its
/// neighbors serves two or more stranded vertices.
pub open spec fn clustered(genes: Seq<u8>, adj: Seq<Seq<usize>>, remaining: Seq<bool>) -> Seq<u8> {
    Seq::new(
        genes.len(),
        |w: int|
            if touches_stranded(adj, remaining, w) {
                2u8
            } else if stranded(adj, remaining, w) && next_to_sharing(adj, remaining, w) {
                0u8
            } else {
                genes[w]
            },
    )
}

/// The neighbor of the round's vertex `v` that takes label 1.
pub open spec fn promoted_neighbor(
    adj: Seq<Seq<usize>>,
    heuristic: Heuristic,
    remaining: Seq<bool>,
    v: usize,
) -> Option<usize> {
    match heuristic {
        Heuristic::RandomGreedy | Heuristic::MaxDegree => first_live_from(
            adj[v as int],
            remaining,
            0,
        ),
        _ => heaviest_live(adj, adj[v as int], remaining, adj[v as int].len()),
    }
}

/// One round around the vertex `v`: the labels and the unprocessed vertices after it.
pub open spec fn round(
    adj: Seq<Seq<usize>>,
    heuristic: Heuristic,
    genes: Seq<u8>,
    remaining: Seq<bool>,
    v: usize,
) -> (Seq<u8>, Seq<bool>) {
    let promoted = promoted_neighbor(adj, heuristic, remaining, v);
    let taken = claimed(genes, adj, remaining, v, promoted);
    let left = without_neighborhood(adj, remaining, v);
    let served = if heuristic == Heuristic::IsolatedCluster {
        clustered(taken, adj, left)
    } else {
        settled_through(taken, adj, left, adj.len())
    };
    (served, without_stranded(adj, left))
}

/// The vertex that a round starts from, `None` where no vertex is unprocessed. The
/// random strategy takes the unprocessed vertex that `choice` counts off; the others
/// take the unprocessed vertex with the most unprocessed neighbors, the first of
/// several.
pub open spec fn picked(
    adj: Seq<Seq<usize>>,
    heuristic: Heuristic,
    remaining: Seq<bool>,
    choice: usize,
) -> Option<usize> {
    if heuristic == Heuristic::RandomGreedy {
        let alive = live_from(remaining, 0);
        if alive == 0 {
            None
        } else {
            Some(nth_live(remaining, 0, (choice as nat) % alive) as usize)
        }
    } else {
        heaviest_live(adj, all_vertices(adj.len()), remaining, adj.len())
    }
}

/// The choice that the round with the given number takes from `choices`: its entry,
/// or 0 where `choices` is too short.
pub open spec fn choice_at(choices: Seq<usize>, number: int) -> usize {
    if 0 <= number < choices.len() {
        choices[number]
    } else {
        0
    }
}

/// The labels and the unprocessed vertices after `rounds` rounds. At first every vertex
/// is unprocessed and labeled 0. A round that finds no unprocessed vertex changes
/// nothing.
pub open spec fn state_after(
    adj: Seq<Seq<usize>>,
    heuristic: Heuristic,
    choices: Seq<usize>,
    rounds: nat,
) -> (Seq<u8>, Seq<bool>)
    decreases rounds,
{
    if rounds == 0 {
        (Seq::new(adj.len(), |w: int| 0u8), Seq::new(adj.len(), |w: int| true))
    } else {
        let (genes, remaining) = state_after(adj, heuristic, choices, (rounds - 1) as nat);
        match picked(adj, heuristic, remaining, choice_at(choices, rounds - 1)) {
            None => (genes, remaining),
            Some(v) => round(adj, heuristic, genes, remaining, v),
        }
    }
}

/// The seed labeling that `heuristic` builds on the graph. Every round takes at least
/// one vertex out, so as many rounds as there are vertices process them all. Only the
/// random strategy reads `choices`.
pub open spec fn seed_labels(
    adj: Seq<Seq<usize>>,
    heuristic: Heuristic,
    choices: Seq<usize>,
) -> Seq<u8> {
    if heuristic == Heuristic::Baseline {
        Seq::new(adj.len(), |w: int| 1u8)
    } else {
        state_after(adj, heuristic, choices, adj.len()).0
    }
}

/// A state of the construction on a graph with `count` vertices: one label and one
/// mark per vertex.
pub open spec fn fits(genes: Seq<u8>, remaining: Seq<bool>, count: nat) -> bool {
    genes.len() == count && remaining.len() == count
}

/// Counting off fewer unprocessed vertices than there are ends at one of them.
pub proof fn lemma_nth_live(remaining: Seq<bool>, start: int, skip: nat)
    requires
        0 <= start <= remaining.len(),
        skip < live_from(remaining, start),
    ensures
        start <= nth_live(remaining, start, skip) < remaining.len(),
        remaining[nth_live(remaining, start, skip)],
    decreases remaining.len() - start,
{
    if start < remaining.len() {
        if remaining[start] {
            if skip > 0 {
                lemma_nth_live(remaining, start + 1, (skip - 1) as nat);
            }
        } else {
            lemma_nth_live(remaining, start + 1, skip);
        }
    }
}

/// What `first_live_from` finds is an unprocessed entry, and it finds one if there is
/// one from `start` on.
pub proof fn lemma_first_live_from(neighbors: Seq<usize>, remaining: Seq<bool>, start: int)
    requires
        0 <= start <= neighbors.len(),
    ensures
        match first_live_from(neighbors, remaining, start) {
            Some(u) => remaining[u as int] && listed(neighbors, neighbors.len() as int, u as int),
            None => forall|i: int|
                start <= i < neighbors.len() ==> !remaining[#[trigger] neighbors[i] as int],
        },
    decreases neighbors.len() - start,
{
    if start < neighbors.len() {
        if remaining[neighbors[start] as int] {
            assert(neighbors[start] == neighbors[start]);
        } else {
            lemma_first_live_from(neighbors, remaining, start + 1);
        }
    }
}

/// What `heaviest_live` finds is an unprocessed candidate.
pub proof fn lemma_heaviest_live(
    adj: Seq<Seq<usize>>,
    candidates: Seq<usize>,
    remaining: Seq<bool>,
    count: nat,
)
    requires
        count <= candidates.len(),
    ensures
        match heaviest_live(adj, candidates, remaining, count) {
            Some(u) => remaining[u as int] && listed(candidates, count as int, u as int),
            None => forall|i: int| 0 <= i < count ==> !remaining[#[trigger] candidates[i] as int],
        },
    decreases count,
{
    if count > 0 {
        lemma_heaviest_live(adj, candidates, remaining, (count - 1) as nat);
        let u = candidates[count - 1];
        assert(candidates[count - 1] == u);
        let earlier = heaviest_live(adj, candidates, remaining, (count - 1) as nat);
        if earlier.is_some() {
            let e = earlier.unwrap();
            let i = choose|i: int|
                0 <= i < count - 1 && i < candidates.len() && #[trigger] candidates[i] == e;
            assert(candidates[i] == e);
        }
    }
}

/// No round can start: no vertex is unprocessed.
pub open spec fn exhausted(
    adj: Seq<Seq<usize>>,
    heuristic: Heuristic,
    remaining: Seq<bool>,
) -> bool {
    picked(adj, heuristic, remaining, 0).is_none()
}

/// Serving the stranded vertices keeps the number of labels and their range.
proof fn lemma_settled_through(
    genes: Seq<u8>,
    adj: Seq<Seq<usize>>,
    remaining: Seq<bool>,
    count: nat,
)
    requires
        well_formed(adj),
        genes.len() == adj.len(),
        labels_in_range(genes),
        count <= adj.len(),
    ensures
        settled_through(genes, adj, remaining, count).len() == genes.len(),
        labels_in_range(settled_through(genes, adj, remaining, count)),
    decreases count,
{
    if count > 0 {
        lemma_settled_through(genes, adj, remaining, (count - 1) as nat);
        let earlier = settled_through(genes, adj, remaining, (count - 1) as nat);
        let z = count - 1;
        let own = earlier.update(z, 1u8);
        lemma_first_zero_from(own, adj[z], 0);
        let k = first_zero_from(own, adj[z], 0);
        if k < adj[z].len() {
            assert(adj[z][k] < adj.len());
        }
    }
}

/// Every state of a construction has one label in range and one mark per vertex.
pub proof fn lemma_state_after(
    adj: Seq<Seq<usize>>,
    heuristic: Heuristic,
    choices: Seq<usize>,
    rounds: nat,
)
    requires
        well_formed(adj),
    ensures
        fits(
            state_after(adj, heuristic, choices, rounds).0,
            state_after(adj, heuristic, choices, rounds).1,
            adj.len(),
        ),
        labels_in_range(state_after(adj, heuristic, choices, rounds).0),
    decreases rounds,
{
    if rounds > 0 {
        lemma_state_after(adj, heuristic, choices, (rounds - 1) as nat);
        let (genes, remaining) = state_after(adj, heuristic, choices, (rounds - 1) as nat);
        let start = picked(adj, heuristic, remaining, choice_at(choices, rounds - 1));
        if start.is_some() {
            let v = start.unwrap();
            let promoted = promoted_neighbor(adj, heuristic, remaining, v);
            let taken = claimed(genes, adj, remaining, v, promoted);
            let left = without_neighborhood(adj, remaining, v);
            lemma_settled_through(taken, adj, left, adj.len());
        }
    }
}

/// Once no vertex is unprocessed, further rounds change nothing.
pub proof fn lemma_state_stable(
    adj: Seq<Seq<usize>>,
    heuristic: Heuristic,
    choices: Seq<usize>,
    from: nat,
    to: nat,
)
    requires
        from <= to,
        exhausted(adj, heuristic, state_after(adj, heuristic, choices, from).1),
    ensures
        state_after(adj, heuristic, choices, to) == state_after(adj, heuristic, choices, from),
    decreases to,
{
    if from < to {
        lemma_state_stable(adj, heuristic, choices, from, (to - 1) as nat);
    }
}

/// A state depends only on the choices of the rounds played so far.
pub proof fn lemma_state_reads_prefix(
    adj: Seq<Seq<usize>>,
    heuristic: Heuristic,
    choices: Seq<usize>,
    longer: Seq<usize>,
    rounds: nat,
)
    requires
        rounds <= choices.len() <= longer.len(),
        forall|i: int| 0 <= i < choices.len() ==> choices[i] == longer[i],
    ensures
        state_after(adj, heuristic, longer, rounds) == state_after(adj, heuristic, choices, rounds),
    decreases rounds,
{
    if rounds > 0 {
        lemma_state_reads_prefix(adj, heuristic, choices, longer, (rounds - 1) as nat);
    }
}

/// Marks that only lose vertices count no more unprocessed vertices, and fewer from a
/// place on or before a vertex that they lose.
proof fn lemma_live_shrinks(before: Seq<bool>, after: Seq<bool>, lost: int, start: int)
    requires
        before.len() == after.len(),
        forall|w: int| 0 <= w < after.len() && after[w] ==> before[w],
        0 <= start <= before.len(),
    ensures
        live_from(after, start) <= live_from(before, start),
        start <= lost < before.len() && before[lost] && !after[lost] ==> live_from(after, start)
            < live_from(before, start),
    decreases before.len() - start,
{
    if start < before.len() {
        lemma_live_shrinks(before, after, lost, start + 1);
    }
}

/// Where no vertex is marked, none is counted.
proof fn lemma_none_live(remaining: Seq<bool>, start: int)
    requires
        0 <= start <= remaining.len(),
        forall|w: int| 0 <= w < remaining.len() ==> !remaining[w],
    ensures
        live_from(remaining, start) == 0,
    decreases remaining.len() - start,
{
    if start < remaining.len() {
        lemma_none_live(remaining, start + 1);
    }
}

/// Every round that starts takes its vertex out, so after as many rounds as the graph
/// has vertices none is unprocessed.
pub proof fn lemma_every_vertex_processed(
    adj: Seq<Seq<usize>>,
    heuristic: Heuristic,
    choices: Seq<usize>,
    rounds: nat,
)
    requires
        well_formed(adj),
        adj.len() <= usize::MAX,
    ensures
        live_from(state_after(adj, heuristic, choices, rounds).1, 0) + rounds <= adj.len()
            || live_from(state_after(adj, heuristic, choices, rounds).1, 0) == 0,
        rounds >= adj.len() ==> live_from(state_after(adj, heuristic, choices, rounds).1, 0) == 0,
    decreases rounds,
{
    lemma_state_after(adj, heuristic, choices, rounds);
    if rounds == 0 {
        let all = state_after(adj, heuristic, choices, 0).1;
        lemma_live_bounded(all, 0);
    } else {
        lemma_every_vertex_processed(adj, heuristic, choices, (rounds - 1) as nat);
        lemma_state_after(adj, heuristic, choices, (rounds - 1) as nat);
        let (genes, remaining) = state_after(adj, heuristic, choices, (rounds - 1) as nat);
        let choice = choice_at(choices, rounds - 1);
        let start = picked(adj, heuristic, remaining, choice);
        if start.is_none() {
            if heuristic != Heuristic::RandomGreedy {
                lemma_heaviest_live(adj, all_vertices(adj.len()), remaining, adj.len());
                assert forall|w: int| 0 <= w < remaining.len() implies !remaining[w] by {
                    assert(all_vertices(adj.len())[w] == w);
                }
                lemma_none_live(remaining, 0);
            }
        } else {
            let v = start.unwrap();
            if heuristic == Heuristic::RandomGreedy {
                let alive = live_from(remaining, 0);
                assert((choice as nat) % alive < alive) by (nonlinear_arith)
                    requires
                        alive > 0,
                ;
                lemma_nth_live(remaining, 0, (choice as nat) % alive);
            } else {
                lemma_heaviest_live(adj, all_vertices(adj.len()), remaining, adj.len());
                let i = choose|i: int|
                    0 <= i < adj.len() && i < all_vertices(adj.len()).len()
                        && #[trigger] all_vertices(adj.len())[i] == v as int;
                assert(all_vertices(adj.len())[i] == i);
            }
            let left = without_neighborhood(adj, remaining, v);
            let after = without_stranded(adj, left);
            lemma_live_shrinks(remaining, after, v as int, 0);
        }
    }
}

/// No more vertices are unprocessed than there are from `start` on.
proof fn lemma_live_bounded(remaining: Seq<bool>, start: int)
    requires
        0 <= start <= remaining.len(),
    ensures
        live_from(remaining, start) <= remaining.len() - start,
    decreases remaining.len() - start,
{
    if start < remaining.len() {
        lemma_live_bounded(remaining, start + 1);
    }
}

/// The labeling with label 1 on every vertex is valid on every graph without isolated
/// vertices, and its labels add up to the number of vertices.
pub proof fn lemma_baseline(adj: Seq<Seq<usize>>)
    requires
        well_formed(adj),
    ensures
        !has_isolated(adj) ==> is_valid_labeling(
            seed_labels(adj, Heuristic::Baseline, Seq::empty()),
            adj,
        ),
        gene_sum(seed_labels(adj, Heuristic::Baseline, Seq::empty())) == adj.len(),
{
    let ones = seed_labels(adj, Heuristic::Baseline, Seq::empty());
    if !has_isolated(adj) {
        assert forall|v: int| 0 <= v < adj.len() implies #[trigger] satisfied(ones, adj, v) by {
            assert(adj[v].len() > 0);
            assert(adj[v][0] < adj.len());
            assert(ones[adj[v][0] as int] > 0);
        }
    }
    lemma_ones_sum(adj.len());
    assert(ones =~= Seq::new(adj.len(), |w: int| 1u8));
}

/// Labels that are all 1 add up to their number.
proof fn lemma_ones_sum(count: nat)
    ensures
        gene_sum(Seq::new(count, |w: int| 1u8)) == count,
    decreases count,
{
    if count > 0 {
        lemma_ones_sum((count - 1) as nat);
        assert(Seq::new(count, |w: int| 1u8).drop_last() =~= Seq::new(
            (count - 1) as nat,
            |w: int| 1u8,
        ));
    }
}

} // verus!
