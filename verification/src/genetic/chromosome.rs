//! Labelings of the vertices of a graph: their weight, the rule of total Roman
//! domination, and the repair that makes a labeling obey the rule.

use crate::graph::undirected::{has_isolated, weighable, well_formed, UndirectedGraph};
use vstd::prelude::*;

verus! {

/// The sum of the labels.
pub open spec fn gene_sum(genes: Seq<u8>) -> nat
    decreases genes.len(),
{
    if genes.len() == 0 {
        0
    } else {
        gene_sum(genes.drop_last()) + genes.last() as nat
    }
}

/// The weight of a labeling as a machine number: the sum of the labels. It is the exact
/// sum for every labeling that can be weighed, and so for the labels of every
/// chromosome; the largest `usize` stands for a sum beyond it.
pub open spec fn weight(genes: Seq<u8>) -> usize {
    if gene_sum(genes) <= usize::MAX {
        gene_sum(genes) as usize
    } else {
        usize::MAX
    }
}

/// Every label is 0, 1 or 2.
pub open spec fn labels_in_range(genes: Seq<u8>) -> bool {
    forall|v: int| 0 <= v < genes.len() ==> #[trigger] genes[v] <= 2
}

/// Some vertex of `neighbors` is labeled 2.
pub open spec fn has_neighbor_two(genes: Seq<u8>, neighbors: Seq<usize>) -> bool {
    exists|i: int|
        0 <= i < neighbors.len() && (#[trigger] neighbors[i]) < genes.len()
            && genes[neighbors[i] as int] == 2
}

/// Some vertex of `neighbors` has a positive label.
pub open spec fn has_neighbor_positive(genes: Seq<u8>, neighbors: Seq<usize>) -> bool {
    exists|i: int|
        0 <= i < neighbors.len() && (#[trigger] neighbors[i]) < genes.len()
            && genes[neighbors[i] as int] > 0
}

/// The rule of total Roman domination at the vertex `v`: a vertex labeled 0 has a
/// neighbor labeled 2, a vertex labeled 1 or 2 has a neighbor with a positive label, and
/// no other label is accepted.
pub open spec fn satisfied(genes: Seq<u8>, adj: Seq<Seq<usize>>, v: int) -> bool {
    if genes[v] == 0 {
        has_neighbor_two(genes, adj[v])
    } else if genes[v] <= 2 {
        has_neighbor_positive(genes, adj[v])
    } else {
        false
    }
}

/// `genes` labels every vertex of the graph and the rule holds at every vertex.
pub open spec fn is_valid_labeling(genes: Seq<u8>, adj: Seq<Seq<usize>>) -> bool {
    &&& genes.len() == adj.len()
    &&& forall|v: int| 0 <= v < adj.len() ==> #[trigger] satisfied(genes, adj, v)
}

/// The place in `neighbors`, from `start` on, of the first vertex labeled 0;
/// `neighbors.len()` where there is none.
pub open spec fn first_zero_from(genes: Seq<u8>, neighbors: Seq<usize>, start: int) -> int
    decreases neighbors.len() - start,
{
    if start < 0 || start >= neighbors.len() {
        neighbors.len() as int
    } else if genes[neighbors[start] as int] == 0 {
        start
    } else {
        first_zero_from(genes, neighbors, start + 1)
    }
}

/// The neighbor whose label a repair raises: the first one labeled 0, or the first
/// one of all where none is labeled 0.
pub open spec fn repair_target(genes: Seq<u8>, neighbors: Seq<usize>) -> int {
    let k = first_zero_from(genes, neighbors, 0);
    if k < neighbors.len() {
        neighbors[k] as int
    } else {
        neighbors[0] as int
    }
}

/// The labeling after the repair at `v`. Where `v` is labeled 0 and has no neighbor
/// labeled 2, the target neighbor gets the label 2; where `v` has a positive label and no
/// neighbor with a positive label, the target neighbor gets the label 1. A vertex
/// without neighbors cannot be helped and nothing changes.
pub open spec fn repair_at(genes: Seq<u8>, adj: Seq<Seq<usize>>, v: int) -> Seq<u8> {
    let neighbors = adj[v];
    if neighbors.len() == 0 {
        genes
    } else if genes[v] == 0 {
        if has_neighbor_two(genes, neighbors) {
            genes
        } else {
            genes.update(repair_target(genes, neighbors), 2)
        }
    } else {
        if has_neighbor_positive(genes, neighbors) {
            genes
        } else {
            genes.update(repair_target(genes, neighbors), 1)
        }
    }
}

/// The labeling after the repairs at the vertices `0..count`, in ascending order.
pub open spec fn repaired_through(genes: Seq<u8>, adj: Seq<Seq<usize>>, count: nat) -> Seq<u8>
    decreases count,
{
    if count == 0 {
        genes
    } else {
        repair_at(repaired_through(genes, adj, (count - 1) as nat), adj, count - 1)
    }
}

/// The repaired labeling: one pass of repairs over all vertices in ascending order.
/// Repairs only raise labels, and a raised label never breaks the rule at a vertex
/// where it held, so one pass reaches the fixpoint.
pub open spec fn repaired(genes: Seq<u8>, adj: Seq<Seq<usize>>) -> Seq<u8> {
    repaired_through(genes, adj, adj.len())
}

/// No label of `after` is below the label of `before` at its vertex.
pub open spec fn raised_from(before: Seq<u8>, after: Seq<u8>) -> bool {
    &&& after.len() == before.len()
    &&& forall|v: int| 0 <= v < before.len() ==> before[v] <= #[trigger] after[v]
}

/// The rule holds at every vertex that has a neighbor.
pub open spec fn settled(genes: Seq<u8>, adj: Seq<Seq<usize>>) -> bool {
    forall|v: int| 0 <= v < adj.len() && adj[v].len() > 0 ==> #[trigger] satisfied(genes, adj, v)
}

/// Where `first_zero_from` points, and that no vertex labeled 0 stands before it.
pub proof fn lemma_first_zero_from(genes: Seq<u8>, neighbors: Seq<usize>, start: int)
    requires
        0 <= start <= neighbors.len(),
    ensures
        start <= first_zero_from(genes, neighbors, start) <= neighbors.len(),
        ({
            let place = first_zero_from(genes, neighbors, start);
            &&& place < neighbors.len() ==> genes[neighbors[place] as int] == 0
            &&& forall|i: int|
                start <= i < place ==> genes[#[trigger] neighbors[i] as int] != 0
        }),
    decreases neighbors.len() - start,
{
    if start < neighbors.len() && genes[neighbors[start] as int] != 0 {
        lemma_first_zero_from(genes, neighbors, start + 1);
    }
}

/// One repair: the labeling keeps its length and its range, the rule then holds at the
/// repaired vertex if it has a neighbor, the rule still holds wherever it held, and
/// nothing changes where the rule held at the repaired vertex.
pub proof fn lemma_repair_at(genes: Seq<u8>, adj: Seq<Seq<usize>>, v: int)
    requires
        well_formed(adj),
        genes.len() == adj.len(),
        labels_in_range(genes),
        0 <= v < adj.len(),
    ensures
        repair_at(genes, adj, v).len() == genes.len(),
        labels_in_range(repair_at(genes, adj, v)),
        adj[v].len() > 0 ==> satisfied(repair_at(genes, adj, v), adj, v),
        satisfied(genes, adj, v) ==> repair_at(genes, adj, v) == genes,
        forall|w: int|
            0 <= w < adj.len() && satisfied(genes, adj, w) ==> #[trigger] satisfied(
                repair_at(genes, adj, v),
                adj,
                w,
            ),
        raised_from(genes, repair_at(genes, adj, v)),
{
    let neighbors = adj[v];
    let after = repair_at(genes, adj, v);
    let repairs = if genes[v] == 0 {
        !has_neighbor_two(genes, neighbors)
    } else {
        !has_neighbor_positive(genes, neighbors)
    };
    if neighbors.len() > 0 && repairs {
        lemma_first_zero_from(genes, neighbors, 0);
        let k = first_zero_from(genes, neighbors, 0);
        let place = if k < neighbors.len() { k } else { 0 };
        let t = repair_target(genes, neighbors);
        assert(t == neighbors[place]);
        assert(0 <= t < adj.len() && t != v);
        let raised: u8 = if genes[v] == 0 { 2 } else { 1 };
        assert(after == genes.update(t, raised));
        assert(genes[t] < raised) by {
            if genes[v] == 0 {
                assert(!has_neighbor_two(genes, neighbors));
                assert(genes[neighbors[place] as int] != 2);
            } else {
                assert(!has_neighbor_positive(genes, neighbors));
                assert(!(genes[neighbors[place] as int] > 0));
            }
        }
        assert(satisfied(after, adj, v)) by {
            assert(after[neighbors[place] as int] == raised);
        }
        assert forall|w: int|
            0 <= w < adj.len() && satisfied(genes, adj, w) implies #[trigger] satisfied(
            after,
            adj,
            w,
        ) by {
            if genes[w] == 0 {
                let i = choose|i: int|
                    0 <= i < adj[w].len() && (#[trigger] adj[w][i]) < genes.len()
                        && genes[adj[w][i] as int] == 2;
                assert(adj[w][i] != t);
                assert(after[adj[w][i] as int] == 2);
            } else {
                let i = choose|i: int|
                    0 <= i < adj[w].len() && (#[trigger] adj[w][i]) < genes.len()
                        && genes[adj[w][i] as int] > 0;
                assert(after[adj[w][i] as int] > 0);
            }
        }
    }
}

/// The repairs at the vertices `0..count`: the labeling keeps its length and its range,
/// the rule holds at each of these vertices that has a neighbor, and it still holds
/// wherever it held before.
pub proof fn lemma_repaired_through(genes: Seq<u8>, adj: Seq<Seq<usize>>, count: nat)
    requires
        well_formed(adj),
        genes.len() == adj.len(),
        labels_in_range(genes),
        count <= adj.len(),
    ensures
        repaired_through(genes, adj, count).len() == genes.len(),
        labels_in_range(repaired_through(genes, adj, count)),
        forall|w: int|
            0 <= w < count && adj[w].len() > 0 ==> #[trigger] satisfied(
                repaired_through(genes, adj, count),
                adj,
                w,
            ),
        forall|w: int|
            0 <= w < adj.len() && satisfied(genes, adj, w) ==> #[trigger] satisfied(
                repaired_through(genes, adj, count),
                adj,
                w,
            ),
        settled(genes, adj) ==> repaired_through(genes, adj, count) == genes,
        raised_from(genes, repaired_through(genes, adj, count)),
    decreases count,
{
    if count > 0 {
        let before = repaired_through(genes, adj, (count - 1) as nat);
        lemma_repaired_through(genes, adj, (count - 1) as nat);
        lemma_repair_at(before, adj, count - 1);
        let after = repaired_through(genes, adj, count);
        assert forall|v: int| 0 <= v < genes.len() implies genes[v] <= #[trigger] after[v] by {
            assert(genes[v] <= before[v]);
            assert(before[v] <= after[v]);
        }
    }
}

/// Labels that are raised do not add up to less, and do not weigh less.
pub proof fn lemma_raised_weighs_more(before: Seq<u8>, after: Seq<u8>)
    requires
        raised_from(before, after),
    ensures
        gene_sum(before) <= gene_sum(after),
        weight(before) <= weight(after),
    decreases before.len(),
{
    if before.len() > 0 {
        assert(before.last() <= after.last()) by {
            assert(before[before.len() - 1] <= after[before.len() - 1]);
        }
        assert(raised_from(before.drop_last(), after.drop_last())) by {
            assert forall|v: int| 0 <= v < before.drop_last().len() implies before.drop_last()[v]
                <= #[trigger] after.drop_last()[v] by {
                assert(before[v] <= after[v]);
            }
        }
        lemma_raised_weighs_more(before.drop_last(), after.drop_last());
    }
}

/// Repair only raises labels: no label of the repaired labeling is below the one that
/// its vertex had, so the repaired labeling is no lighter.
pub proof fn lemma_repair_raises(genes: Seq<u8>, adj: Seq<Seq<usize>>)
    requires
        well_formed(adj),
        genes.len() == adj.len(),
        labels_in_range(genes),
    ensures
        raised_from(genes, repaired(genes, adj)),
        gene_sum(genes) <= gene_sum(repaired(genes, adj)),
        weight(genes) <= weight(repaired(genes, adj)),
{
    lemma_repaired_through(genes, adj, adj.len());
    lemma_raised_weighs_more(genes, repaired(genes, adj));
}

/// A repaired labeling breaks the rule at no vertex that has a neighbor, so it is valid
/// on every graph without isolated vertices.
pub proof fn lemma_repaired_is_valid(genes: Seq<u8>, adj: Seq<Seq<usize>>)
    requires
        well_formed(adj),
        genes.len() == adj.len(),
        labels_in_range(genes),
    ensures
        repaired(genes, adj).len() == genes.len(),
        labels_in_range(repaired(genes, adj)),
        settled(repaired(genes, adj), adj),
        !has_isolated(adj) ==> is_valid_labeling(repaired(genes, adj), adj),
{
    lemma_repaired_through(genes, adj, adj.len());
}

/// Repairing is idempotent, and it leaves a valid labeling as it is.
pub proof fn lemma_repair_idempotent(genes: Seq<u8>, adj: Seq<Seq<usize>>)
    requires
        well_formed(adj),
        genes.len() == adj.len(),
        labels_in_range(genes),
    ensures
        repaired(repaired(genes, adj), adj) == repaired(genes, adj),
        is_valid_labeling(genes, adj) ==> repaired(genes, adj) == genes,
{
    lemma_repaired_is_valid(genes, adj);
    lemma_repaired_through(repaired(genes, adj), adj, adj.len());
    lemma_repaired_through(genes, adj, adj.len());
}

/// No labeling is valid on a graph with an isolated vertex.
pub proof fn lemma_valid_needs_neighbors(genes: Seq<u8>, adj: Seq<Seq<usize>>)
    requires
        is_valid_labeling(genes, adj),
    ensures
        !has_isolated(adj),
{
    if has_isolated(adj) {
        let v = choose|v: int| 0 <= v < adj.len() && (#[trigger] adj[v]).len() == 0;
        assert(satisfied(genes, adj, v));
    }
}

/// The weight is the exact sum of the labels wherever the sum is a machine number: for
/// every labeling that can be weighed, and for labels in range whenever twice their
/// number is a machine number.
pub proof fn lemma_weight_is_sum(genes: Seq<u8>)
    ensures
        gene_sum(genes) <= 255 * genes.len(),
        weighable(genes.len()) ==> weight(genes) == gene_sum(genes),
        labels_in_range(genes) ==> gene_sum(genes) <= 2 * genes.len(),
        gene_sum(genes) <= usize::MAX ==> weight(genes) == gene_sum(genes),
        labels_in_range(genes) && 2 * genes.len() <= usize::MAX ==> weight(genes) == gene_sum(
            genes,
        ),
    decreases genes.len(),
{
    if genes.len() > 0 {
        lemma_weight_is_sum(genes.drop_last());
        if labels_in_range(genes) {
            let shorter = genes.drop_last();
            assert(labels_in_range(shorter)) by {
                assert forall|v: int| 0 <= v < shorter.len() implies #[trigger] shorter[v]
                    <= 2 by {
                    assert(shorter[v] == genes[v]);
                }
            }
        }
    }
}

/// Every entry of `neighbors` is a place in a labeling of `count` vertices.
pub open spec fn within(neighbors: Seq<usize>, count: nat) -> bool {
    forall|i: int| 0 <= i < neighbors.len() ==> #[trigger] neighbors[i] < count
}

/// Whether some vertex of `neighbors` is labeled 2.
fn neighbor_two(genes: &Vec<u8>, neighbors: &[usize]) -> (found: bool)
    requires
        within(neighbors@, genes@.len()),
    ensures
        found == has_neighbor_two(genes@, neighbors@),
{
    let mut i: usize = 0;
    while i < neighbors.len()
        invariant
            i <= neighbors@.len(),
            within(neighbors@, genes@.len()),
            forall|j: int| 0 <= j < i ==> genes@[#[trigger] neighbors@[j] as int] != 2,
        decreases neighbors@.len() - i,
    {
        if genes[neighbors[i]] == 2 {
            return true;
        }
        i += 1;
    }
    false
}

/// Whether some vertex of `neighbors` has a positive label.
fn neighbor_positive(genes: &Vec<u8>, neighbors: &[usize]) -> (found: bool)
    requires
        within(neighbors@, genes@.len()),
    ensures
        found == has_neighbor_positive(genes@, neighbors@),
{
    let mut i: usize = 0;
    while i < neighbors.len()
        invariant
            i <= neighbors@.len(),
            within(neighbors@, genes@.len()),
            forall|j: int| 0 <= j < i ==> genes@[#[trigger] neighbors@[j] as int] == 0,
        decreases neighbors@.len() - i,
    {
        if genes[neighbors[i]] > 0 {
            return true;
        }
        i += 1;
    }
    false
}

/// The neighbor whose label a repair raises.
fn target_of_repair(genes: &Vec<u8>, neighbors: &[usize]) -> (target: usize)
    requires
        within(neighbors@, genes@.len()),
        neighbors@.len() > 0,
    ensures
        target == repair_target(genes@, neighbors@),
        target < genes@.len(),
{
    let mut i: usize = 0;
    while i < neighbors.len()
        invariant
            i <= neighbors@.len(),
            within(neighbors@, genes@.len()),
            first_zero_from(genes@, neighbors@, 0) == first_zero_from(genes@, neighbors@, i as int),
        decreases neighbors@.len() - i,
    {
        if genes[neighbors[i]] == 0 {
            return neighbors[i];
        }
        i += 1;
    }
    neighbors[0]
}

/// A labeling of the vertices of a graph, one label per vertex.
#[derive(Debug)]
pub struct Chromosome {
    genes: Vec<u8>,
}

impl View for Chromosome {
    type V = Seq<u8>;

    /// The labels, one per vertex.
    closed spec fn view(&self) -> Seq<u8> {
        self.genes@
    }
}

impl Clone for Chromosome {
    /// A full copy: the same labels in a vector of its own.
    fn clone(&self) -> (copy: Self)
        ensures
            copy@ == self@,
    {
        proof {
            use_type_invariant(self);
        }
        Chromosome { genes: self.genes.clone() }
    }
}

impl Chromosome {
    /// The chromosome has so few labels that their sum is a machine number.
    #[verifier::type_invariant]
    pub open spec fn can_be_weighed(self) -> bool {
        weighable(self@.len())
    }

    /// The chromosome with the given labels, which must be so few that their sum is a
    /// machine number whatever they are.
    pub fn new(genes: Vec<u8>) -> (chromosome: Self)
        requires
            weighable(genes@.len()),
        ensures
            chromosome@ == genes@,
    {
        Chromosome { genes }
    }

    /// The labels, one per vertex.
    pub fn genes(&self) -> (genes: &[u8])
        ensures
            genes@ == self@,
    {
        self.genes.as_slice()
    }

    /// Whether the chromosome has one label per vertex of `graph`, each of them 0, 1
    /// or 2: what repair and recombination ask of it.
    pub fn is_labeling(&self, graph: &UndirectedGraph) -> (fits: bool)
        ensures
            fits == (self@.len() == graph@.len() && labels_in_range(self@)),
    {
        if self.genes.len() != graph.order() {
            return false;
        }
        let mut v: usize = 0;
        while v < self.genes.len()
            invariant
                v <= self.genes@.len(),
                forall|w: int| 0 <= w < v ==> #[trigger] self.genes@[w] <= 2,
            decreases self.genes@.len() - v,
        {
            if self.genes[v] > 2 {
                return false;
            }
            v += 1;
        }
        true
    }

    /// Whether the labeling is a total Roman domination labeling of `graph`.
    pub fn is_valid(&self, graph: &UndirectedGraph) -> (valid: bool)
        requires
            graph.wf(),
        ensures
            valid == is_valid_labeling(self@, graph@),
    {
        let n = graph.order();
        if self.genes.len() != n {
            return false;
        }
        let mut v: usize = 0;
        while v < n
            invariant
                v <= n,
                n == graph@.len(),
                self.genes@.len() == n,
                graph.wf(),
                forall|w: int| 0 <= w < v ==> #[trigger] satisfied(self@, graph@, w),
            decreases n - v,
        {
            let neighbors = graph.neighbors(v).unwrap();
            assert(within(neighbors@, n as nat));
            let label = self.genes[v];
            let holds = if label == 0 {
                neighbor_two(&self.genes, neighbors)
            } else if label <= 2 {
                neighbor_positive(&self.genes, neighbors)
            } else {
                false
            };
            if !holds {
                assert(!satisfied(self@, graph@, v as int));
                return false;
            }
            v += 1;
        }
        true
    }

    /// Repairs the labeling for `graph`: visits the vertices in ascending order and,
    /// where the rule fails at a vertex, raises the label of one neighbor, the first one
    /// labeled 0 or else the first one of all, to 2 under a vertex labeled 0 and to 1
    /// under a vertex with a positive label. Afterwards the rule holds at every vertex
    /// that has a neighbor. No label is lowered, so the labeling gets no lighter.
    pub fn fix(&mut self, graph: &UndirectedGraph)
        requires
            graph.wf(),
            old(self)@.len() == graph@.len(),
            labels_in_range(old(self)@),
        ensures
            final(self)@ == repaired(old(self)@, graph@),
            final(self)@.len() == old(self)@.len(),
            labels_in_range(final(self)@),
            settled(final(self)@, graph@),
            !has_isolated(graph@) ==> is_valid_labeling(final(self)@, graph@),
            settled(old(self)@, graph@) ==> final(self)@ == old(self)@,
            forall|v: int|
                0 <= v < old(self)@.len() ==> old(self)@[v] <= #[trigger] final(self)@[v],
            gene_sum(old(self)@) <= gene_sum(final(self)@),
            weight(old(self)@) <= weight(final(self)@),
    {
        proof {
            use_type_invariant(&*self);
        }
        let n = graph.order();
        let mut v: usize = 0;
        while v < n
            invariant
                v <= n,
                n == graph@.len(),
                graph.wf(),
                weighable(n as nat),
                old(self)@.len() == n,
                labels_in_range(old(self)@),
                self.genes@ == repaired_through(old(self)@, graph@, v as nat),
                self.genes@.len() == n,
            decreases n - v,
        {
            let neighbors = graph.neighbors(v).unwrap();
            assert(within(neighbors@, n as nat));
            if neighbors.len() > 0 {
                if self.genes[v] == 0 {
                    if !neighbor_two(&self.genes, neighbors) {
                        let target = target_of_repair(&self.genes, neighbors);
                        self.genes[target] = 2;
                    }
                } else {
                    if !neighbor_positive(&self.genes, neighbors) {
                        let target = target_of_repair(&self.genes, neighbors);
                        self.genes[target] = 1;
                    }
                }
            }
            v += 1;
            proof {
                lemma_repaired_through(old(self)@, graph@, v as nat);
            }
        }
        proof {
            lemma_repaired_is_valid(old(self)@, graph@);
            lemma_repaired_through(old(self)@, graph@, n as nat);
            lemma_repair_raises(old(self)@, graph@);
        }
    }

    /// The weight: the sum of the labels.
    pub fn fitness(&self) -> (fitness: usize)
        ensures
            fitness == gene_sum(self@),
            fitness == weight(self@),
            labels_in_range(self@) ==> fitness <= 2 * self@.len(),
    {
        proof {
            use_type_invariant(self);
        }
        let mut total: usize = 0;
        let mut v: usize = 0;
        while v < self.genes.len()
            invariant
                v <= self.genes@.len(),
                weighable(self.genes@.len()),
                total == gene_sum(self.genes@.take(v as int)),
                total <= 255 * v,
            decreases self.genes@.len() - v,
        {
            proof {
                assert(self.genes@.take(v + 1).drop_last() == self.genes@.take(v as int));
            }
            total = total + self.genes[v] as usize;
            v += 1;
        }
        proof {
            assert(self.genes@.take(v as int) == self.genes@);
            lemma_weight_is_sum(self@);
        }
        total
    }
}

} // verus!
