//! The rounds of the greedy constructions, carried out on vectors and proved to follow
//! the model.

use crate::genetic::chromosome::{first_zero_from, labels_in_range, within};
use crate::genetic::construction::{
    all_vertices, choice_at, claimed, clustered, exhausted, first_live_from, fits,
    has_neighbor_one, heaviest_live, lemma_first_live_from, lemma_state_after,
    lemma_state_reads_prefix, lemma_state_stable, listed, live_degree, live_from,
    next_to_sharing, nth_live, picked, round, seed_labels, settled_through, shares_stranded,
    state_after, stranded, touches_stranded, without_neighborhood, without_stranded,
    working_degree,
};
use crate::genetic::heuristics::Heuristic;
use crate::graph::undirected::{adjacent, UndirectedGraph};
use crate::random::random_choice;
use vstd::prelude::*;

verus! {

/// Counts the unprocessed vertices.
fn count_live(remaining: &Vec<bool>) -> (alive: usize)
    ensures
        alive == live_from(remaining@, 0),
{
    let mut alive: usize = 0;
    let mut i: usize = 0;
    while i < remaining.len()
        invariant
            i <= remaining@.len(),
            alive <= i,
            alive + live_from(remaining@, i as int) == live_from(remaining@, 0),
        decreases remaining@.len() - i,
    {
        if remaining[i] {
            alive += 1;
        }
        i += 1;
    }
    alive
}

/// Finds the unprocessed vertex that has `skip` unprocessed vertices before it.
fn find_nth_live(remaining: &Vec<bool>, skip: usize) -> (v: usize)
    requires
        skip < live_from(remaining@, 0),
    ensures
        v == nth_live(remaining@, 0, skip as nat),
        v < remaining@.len(),
        remaining@[v as int],
{
    let mut i: usize = 0;
    let mut left: usize = skip;
    while i < remaining.len()
        invariant
            i <= remaining@.len(),
            left < live_from(remaining@, i as int),
            nth_live(remaining@, 0, skip as nat) == nth_live(remaining@, i as int, left as nat),
        decreases remaining@.len() - i,
    {
        if remaining[i] {
            if left == 0 {
                return i;
            }
            left -= 1;
        }
        i += 1;
    }
    i
}

/// Counts the unprocessed neighbors of `v`.
fn live_degree_of(graph: &UndirectedGraph, remaining: &Vec<bool>, v: usize) -> (degree: usize)
    requires
        graph.wf(),
        remaining@.len() == graph@.len(),
        v < graph@.len(),
    ensures
        degree == working_degree(graph@, remaining@, v),
{
    let neighbors = graph.neighbors(v).unwrap();
    let mut degree: usize = 0;
    let mut i: usize = 0;
    while i < neighbors.len()
        invariant
            i <= neighbors@.len(),
            degree <= i,
            degree == live_degree(neighbors@, remaining@, i as nat),
            neighbors@ == graph@[v as int],
            graph.wf(),
            remaining@.len() == graph@.len(),
            v < graph@.len(),
        decreases neighbors@.len() - i,
    {
        if remaining[neighbors[i]] {
            degree += 1;
        }
        i += 1;
    }
    degree
}

/// Finds the unprocessed vertex with the most unprocessed neighbors, the first of
/// several.
fn heaviest_vertex(graph: &UndirectedGraph, remaining: &Vec<bool>) -> (best: Option<usize>)
    requires
        graph.wf(),
        remaining@.len() == graph@.len(),
    ensures
        best == heaviest_live(graph@, all_vertices(graph@.len()), remaining@, graph@.len()),
        best.is_some() ==> best.unwrap() < graph@.len(),
{
    let n = graph.order();
    let mut best: Option<usize> = None;
    let mut best_degree: usize = 0;
    let mut v: usize = 0;
    while v < n
        invariant
            v <= n,
            n == graph@.len(),
            graph.wf(),
            remaining@.len() == n,
            best == heaviest_live(graph@, all_vertices(n as nat), remaining@, v as nat),
            best.is_some() ==> best.unwrap() < n && best_degree == working_degree(
                graph@,
                remaining@,
                best.unwrap(),
            ),
        decreases n - v,
    {
        assert(all_vertices(n as nat)[v as int] == v);
        if remaining[v] {
            let degree = live_degree_of(graph, remaining, v);
            if best.is_none() || best_degree < degree {
                best = Some(v);
                best_degree = degree;
            }
        }
        v += 1;
    }
    best
}

/// Finds the unprocessed neighbor of `v` with the most unprocessed neighbors, the
/// first of several.
fn heaviest_neighbor(graph: &UndirectedGraph, remaining: &Vec<bool>, v: usize) -> (best: Option<
    usize,
>)
    requires
        graph.wf(),
        remaining@.len() == graph@.len(),
        v < graph@.len(),
    ensures
        best == heaviest_live(graph@, graph@[v as int], remaining@, graph@[v as int].len()),
{
    let neighbors = graph.neighbors(v).unwrap();
    let mut best: Option<usize> = None;
    let mut best_degree: usize = 0;
    let mut i: usize = 0;
    while i < neighbors.len()
        invariant
            i <= neighbors@.len(),
            neighbors@ == graph@[v as int],
            graph.wf(),
            remaining@.len() == graph@.len(),
            v < graph@.len(),
            best == heaviest_live(graph@, neighbors@, remaining@, i as nat),
            best.is_some() ==> best_degree == working_degree(graph@, remaining@, best.unwrap()),
        decreases neighbors@.len() - i,
    {
        let u = neighbors[i];
        if remaining[u] {
            let degree = live_degree_of(graph, remaining, u);
            if best.is_none() || best_degree < degree {
                best = Some(u);
                best_degree = degree;
            }
        }
        i += 1;
    }
    best
}

/// Finds the first unprocessed vertex of `neighbors`.
fn first_live(neighbors: &[usize], remaining: &Vec<bool>) -> (found: Option<usize>)
    requires
        within(neighbors@, remaining@.len()),
    ensures
        found == first_live_from(neighbors@, remaining@, 0),
{
    let mut i: usize = 0;
    while i < neighbors.len()
        invariant
            i <= neighbors@.len(),
            within(neighbors@, remaining@.len()),
            first_live_from(neighbors@, remaining@, 0) == first_live_from(
                neighbors@,
                remaining@,
                i as int,
            ),
        decreases neighbors@.len() - i,
    {
        if remaining[neighbors[i]] {
            return Some(neighbors[i]);
        }
        i += 1;
    }
    None
}

/// A neighbor list read as adjacency.
proof fn lemma_listed_adjacent(adj: Seq<Seq<usize>>, v: int, w: int)
    requires
        0 <= v < adj.len(),
    ensures
        listed(adj[v], adj[v].len() as int, w) <==> adjacent(adj, v, w),
{
    if listed(adj[v], adj[v].len() as int, w) {
        let i = choose|i: int| 0 <= i < adj[v].len() && #[trigger] adj[v][i] == w;
        assert(adj[v][i] == w);
    }
    if adjacent(adj, v, w) {
        let i = choose|i: int| 0 <= i < adj[v].len() && #[trigger] adj[v][i] == w;
        assert(adj[v][i] == w);
    }
}

/// Labels the round's vertex `v` and its unprocessed neighbors, and takes them out.
fn claim(
    graph: &UndirectedGraph,
    genes: &mut Vec<u8>,
    remaining: &mut Vec<bool>,
    v: usize,
    promoted: Option<usize>,
)
    requires
        graph.wf(),
        fits(old(genes)@, old(remaining)@, graph@.len()),
        v < graph@.len(),
    ensures
        final(genes)@ == claimed(old(genes)@, graph@, old(remaining)@, v, promoted),
        final(remaining)@ == without_neighborhood(graph@, old(remaining)@, v),
{
    let neighbors = graph.neighbors(v).unwrap();
    let ghost n = graph@.len();
    let ghost genes0 = genes@;
    let ghost remaining0 = remaining@;
    let mut i: usize = 0;
    while i < neighbors.len()
        invariant
            i <= neighbors@.len(),
            neighbors@ == graph@[v as int],
            graph.wf(),
            v < n,
            n == graph@.len(),
            fits(genes@, remaining@, n),
            fits(genes0, remaining0, n),
            remaining@ == remaining0,
            forall|w: int|
                0 <= w < n ==> #[trigger] genes@[w] == if remaining0[w] && listed(
                    neighbors@,
                    i as int,
                    w,
                ) {
                    if promoted == Some(w as usize) {
                        1u8
                    } else {
                        0u8
                    }
                } else {
                    genes0[w]
                },
        decreases neighbors@.len() - i,
    {
        let u = neighbors[i];
        let ghost before = genes@;
        if remaining[u] {
            let label: u8 = match promoted {
                Some(p) => if p == u {
                    1
                } else {
                    0
                },
                None => 0,
            };
            genes[u] = label;
        }
        proof {
            assert forall|w: int| 0 <= w < n implies #[trigger] genes@[w] == if remaining0[w]
                && listed(neighbors@, i + 1, w) {
                if promoted == Some(w as usize) {
                    1u8
                } else {
                    0u8
                }
            } else {
                genes0[w]
            } by {
                if listed(neighbors@, i + 1, w) {
                    let j = choose|j: int|
                        0 <= j < i + 1 && j < neighbors@.len() && #[trigger] neighbors@[j] == w;
                    if j < i {
                        assert(listed(neighbors@, i as int, w));
                    }
                }
                if listed(neighbors@, i as int, w) {
                    let j = choose|j: int|
                        0 <= j < i && j < neighbors@.len() && #[trigger] neighbors@[j] == w;
                    assert(neighbors@[j] == w);
                }
                if w == u {
                    assert(neighbors@[i as int] == w);
                }
            }
        }
        i += 1;
    }
    genes[v] = 2;
    let ghost labeled = genes@;
    let mut j: usize = 0;
    while j < neighbors.len()
        invariant
            j <= neighbors@.len(),
            neighbors@ == graph@[v as int],
            graph.wf(),
            v < n,
            n == graph@.len(),
            fits(genes@, remaining@, n),
            fits(genes0, remaining0, n),
            genes@ == labeled,
            forall|w: int|
                0 <= w < n ==> #[trigger] remaining@[w] == (remaining0[w] && !listed(
                    neighbors@,
                    j as int,
                    w,
                )),
        decreases neighbors@.len() - j,
    {
        let u = neighbors[j];
        remaining[u] = false;
        proof {
            assert forall|w: int| 0 <= w < n implies #[trigger] remaining@[w] == (remaining0[w]
                && !listed(neighbors@, j + 1, w)) by {
                if listed(neighbors@, j + 1, w) {
                    let k = choose|k: int|
                        0 <= k < j + 1 && k < neighbors@.len() && #[trigger] neighbors@[k] == w;
                    if k < j {
                        assert(listed(neighbors@, j as int, w));
                    }
                }
                if listed(neighbors@, j as int, w) {
                    let k = choose|k: int|
                        0 <= k < j && k < neighbors@.len() && #[trigger] neighbors@[k] == w;
                    assert(neighbors@[k] == w);
                }
                if w == u {
                    assert(neighbors@[j as int] == w);
                }
            }
        }
        j += 1;
    }
    remaining[v] = false;
    proof {
        let taken = claimed(genes0, graph@, remaining0, v, promoted);
        let left = without_neighborhood(graph@, remaining0, v);
        assert forall|w: int| 0 <= w < n implies genes@[w] == taken[w] by {
            lemma_listed_adjacent(graph@, v as int, w);
        }
        assert forall|w: int| 0 <= w < n implies remaining@[w] == left[w] by {
            lemma_listed_adjacent(graph@, v as int, w);
        }
        assert(genes@ =~= taken);
        assert(remaining@ =~= left);
    }
}

/// Marks the stranded vertices: the unprocessed ones without an unprocessed neighbor.
fn stranded_flags(graph: &UndirectedGraph, remaining: &Vec<bool>) -> (flags: Vec<bool>)
    requires
        graph.wf(),
        remaining@.len() == graph@.len(),
    ensures
        flags@.len() == graph@.len(),
        forall|z: int|
            0 <= z < graph@.len() ==> #[trigger] flags@[z] == stranded(graph@, remaining@, z),
{
    let n = graph.order();
    let mut flags: Vec<bool> = Vec::new();
    let mut z: usize = 0;
    while z < n
        invariant
            z <= n,
            n == graph@.len(),
            graph.wf(),
            remaining@.len() == n,
            flags@.len() == z,
            forall|y: int| 0 <= y < z ==> #[trigger] flags@[y] == stranded(graph@, remaining@, y),
        decreases n - z,
    {
        let neighbors = graph.neighbors(z).unwrap();
        assert(within(neighbors@, n as nat));
        let alone = remaining[z] && first_live(neighbors, remaining).is_none();
        proof {
            lemma_first_live_from(neighbors@, remaining@, 0);
            if first_live_from(neighbors@, remaining@, 0).is_some() {
                let u = first_live_from(neighbors@, remaining@, 0).unwrap();
                let i = choose|i: int| 0 <= i < neighbors@.len() && #[trigger] neighbors@[i] == u;
                assert(remaining@[graph@[z as int][i] as int]);
            }
        }
        flags.push(alone);
        z += 1;
    }
    flags
}

/// Whether some vertex of `neighbors` is labeled 1.
fn neighbor_one(genes: &Vec<u8>, neighbors: &[usize]) -> (found: bool)
    requires
        within(neighbors@, genes@.len()),
    ensures
        found == has_neighbor_one(genes@, neighbors@),
{
    let mut i: usize = 0;
    while i < neighbors.len()
        invariant
            i <= neighbors@.len(),
            within(neighbors@, genes@.len()),
            forall|j: int| 0 <= j < i ==> genes@[#[trigger] neighbors@[j] as int] != 1,
        decreases neighbors@.len() - i,
    {
        if genes[neighbors[i]] == 1 {
            return true;
        }
        i += 1;
    }
    false
}

/// The place in `neighbors` of the first vertex labeled 0, or their number where
/// there is none.
fn first_zero_neighbor(genes: &Vec<u8>, neighbors: &[usize]) -> (place: usize)
    requires
        within(neighbors@, genes@.len()),
    ensures
        place == first_zero_from(genes@, neighbors@, 0),
        place <= neighbors@.len(),
{
    let mut i: usize = 0;
    while i < neighbors.len()
        invariant
            i <= neighbors@.len(),
            within(neighbors@, genes@.len()),
            first_zero_from(genes@, neighbors@, 0) == first_zero_from(genes@, neighbors@, i as int),
        decreases neighbors@.len() - i,
    {
        if genes[neighbors[i]] == 0 {
            return i;
        }
        i += 1;
    }
    i
}

/// Serves the stranded vertices one by one, in ascending order.
fn settle(
    graph: &UndirectedGraph,
    genes: &mut Vec<u8>,
    Ghost(remaining): Ghost<Seq<bool>>,
    flags: &Vec<bool>,
)
    requires
        graph.wf(),
        fits(old(genes)@, remaining, graph@.len()),
        flags@.len() == graph@.len(),
        forall|z: int|
            0 <= z < graph@.len() ==> #[trigger] flags@[z] == stranded(graph@, remaining, z),
    ensures
        final(genes)@ == settled_through(old(genes)@, graph@, remaining, graph@.len()),
        final(genes)@.len() == old(genes)@.len(),
{
    let n = graph.order();
    let ghost genes0 = genes@;
    let mut z: usize = 0;
    while z < n
        invariant
            z <= n,
            n == graph@.len(),
            graph.wf(),
            fits(genes@, remaining, n as nat),
            flags@.len() == n,
            forall|y: int| 0 <= y < n ==> #[trigger] flags@[y] == stranded(graph@, remaining, y),
            genes@ == settled_through(genes0, graph@, remaining, z as nat),
        decreases n - z,
    {
        if flags[z] {
            let neighbors = graph.neighbors(z).unwrap();
            assert(within(neighbors@, n as nat));
            genes[z] = 1;
            if !neighbor_one(genes, neighbors) {
                let place = first_zero_neighbor(genes, neighbors);
                if place < neighbors.len() {
                    let u = neighbors[place];
                    genes[u] = 1;
                }
            }
        }
        z += 1;
    }
}

/// For every vertex, whether it has a stranded neighbor and whether it has two or more.
fn stranded_neighbors(
    graph: &UndirectedGraph,
    Ghost(remaining): Ghost<Seq<bool>>,
    flags: &Vec<bool>,
) -> (found: (Vec<bool>, Vec<bool>))
    requires
        graph.wf(),
        remaining.len() == graph@.len(),
        flags@.len() == graph@.len(),
        forall|z: int|
            0 <= z < graph@.len() ==> #[trigger] flags@[z] == stranded(graph@, remaining, z),
    ensures
        found.0@.len() == graph@.len(),
        found.1@.len() == graph@.len(),
        forall|w: int|
            0 <= w < graph@.len() ==> #[trigger] found.0@[w] == touches_stranded(
                graph@,
                remaining,
                w,
            ),
        forall|w: int|
            0 <= w < graph@.len() ==> #[trigger] found.1@[w] == shares_stranded(
                graph@,
                remaining,
                w,
            ),
{
    let n = graph.order();
    let mut touching: Vec<bool> = Vec::new();
    let mut sharing: Vec<bool> = Vec::new();
    let mut w: usize = 0;
    while w < n
        invariant
            w <= n,
            n == graph@.len(),
            graph.wf(),
            remaining.len() == n,
            flags@.len() == n,
            forall|z: int| 0 <= z < n ==> #[trigger] flags@[z] == stranded(graph@, remaining, z),
            touching@.len() == w,
            sharing@.len() == w,
            forall|x: int|
                0 <= x < w ==> #[trigger] touching@[x] == touches_stranded(graph@, remaining, x),
            forall|x: int|
                0 <= x < w ==> #[trigger] sharing@[x] == shares_stranded(graph@, remaining, x),
        decreases n - w,
    {
        let neighbors = graph.neighbors(w).unwrap();
        let mut seen: usize = 0;
        let ghost mut first: int = 0;
        let ghost mut second: int = 0;
        let mut i: usize = 0;
        while i < neighbors.len() && seen < 2
            invariant
                i <= neighbors@.len(),
                neighbors@ == graph@[w as int],
                w < n,
                n == graph@.len(),
                graph.wf(),
                flags@.len() == n,
                seen <= 2,
                seen == 0 ==> forall|j: int|
                    0 <= j < i ==> !flags@[#[trigger] neighbors@[j] as int],
                seen == 1 ==> 0 <= first < i && flags@[neighbors@[first] as int] && forall|j: int|
                    0 <= j < i && j != first ==> !flags@[#[trigger] neighbors@[j] as int],
                seen == 2 ==> 0 <= first < second < i && flags@[neighbors@[first] as int]
                    && flags@[neighbors@[second] as int],
            decreases neighbors@.len() - i,
        {
            if flags[neighbors[i]] {
                proof {
                    if seen == 0 {
                        first = i as int;
                    } else {
                        second = i as int;
                    }
                }
                seen += 1;
            }
            i += 1;
        }
        proof {
            let adj = graph@;
            if seen >= 1 {
                assert(stranded(adj, remaining, adj[w as int][first] as int));
            }
            if seen == 2 {
                assert(stranded(adj, remaining, adj[w as int][second] as int));
            }
            if seen == 0 && touches_stranded(adj, remaining, w as int) {
                let j = choose|j: int|
                    0 <= j < adj[w as int].len() && stranded(
                        adj,
                        remaining,
                        #[trigger] adj[w as int][j] as int,
                    );
                assert(!flags@[neighbors@[j] as int]);
            }
            if seen < 2 && shares_stranded(adj, remaining, w as int) {
                let (a, b) = choose|a: int, b: int|
                    0 <= a < b < adj[w as int].len() && stranded(
                        adj,
                        remaining,
                        #[trigger] adj[w as int][a] as int,
                    ) && stranded(adj, remaining, #[trigger] adj[w as int][b] as int);
                assert(flags@[neighbors@[a] as int]);
                assert(flags@[neighbors@[b] as int]);
            }
        }
        touching.push(seen >= 1);
        sharing.push(seen >= 2);
        w += 1;
    }
    (touching, sharing)
}

/// Serves the stranded vertices together.
fn cluster(
    graph: &UndirectedGraph,
    genes: &mut Vec<u8>,
    Ghost(remaining): Ghost<Seq<bool>>,
    flags: &Vec<bool>,
)
    requires
        graph.wf(),
        fits(old(genes)@, remaining, graph@.len()),
        flags@.len() == graph@.len(),
        forall|z: int|
            0 <= z < graph@.len() ==> #[trigger] flags@[z] == stranded(graph@, remaining, z),
    ensures
        final(genes)@ == clustered(old(genes)@, graph@, remaining),
{
    let n = graph.order();
    let ghost genes0 = genes@;
    let (touching, sharing) = stranded_neighbors(graph, Ghost(remaining), flags);
    let mut w: usize = 0;
    while w < n
        invariant
            w <= n,
            n == graph@.len(),
            graph.wf(),
            fits(genes@, remaining, n as nat),
            genes0.len() == n,
            flags@.len() == n,
            touching@.len() == n,
            sharing@.len() == n,
            forall|z: int| 0 <= z < n ==> #[trigger] flags@[z] == stranded(graph@, remaining, z),
            forall|x: int|
                0 <= x < n ==> #[trigger] touching@[x] == touches_stranded(graph@, remaining, x),
            forall|x: int|
                0 <= x < n ==> #[trigger] sharing@[x] == shares_stranded(graph@, remaining, x),
            forall|x: int|
                0 <= x < w ==> #[trigger] genes@[x] == clustered(genes0, graph@, remaining)[x],
            forall|x: int| w <= x < n ==> #[trigger] genes@[x] == genes0[x],
        decreases n - w,
    {
        if touching[w] {
            genes[w] = 2;
        } else if flags[w] {
            let neighbors = graph.neighbors(w).unwrap();
            let mut served = false;
            let mut i: usize = 0;
            while i < neighbors.len() && !served
                invariant
                    i <= neighbors@.len(),
                    neighbors@ == graph@[w as int],
                    w < n,
                    n == graph@.len(),
                    graph.wf(),
                    sharing@.len() == n,
                    served ==> next_to_sharing(graph@, remaining, w as int),
                    !served ==> forall|j: int|
                        0 <= j < i ==> !sharing@[#[trigger] neighbors@[j] as int],
                    forall|x: int|
                        0 <= x < n ==> #[trigger] sharing@[x] == shares_stranded(
                            graph@,
                            remaining,
                            x,
                        ),
                decreases neighbors@.len() - i,
            {
                if sharing[neighbors[i]] {
                    served = true;
                    assert(shares_stranded(graph@, remaining, graph@[w as int][i as int] as int));
                }
                i += 1;
            }
            proof {
                if !served && next_to_sharing(graph@, remaining, w as int) {
                    let j = choose|j: int|
                        0 <= j < graph@[w as int].len() && shares_stranded(
                            graph@,
                            remaining,
                            #[trigger] graph@[w as int][j] as int,
                        );
                    assert(!sharing@[neighbors@[j] as int]);
                }
            }
            if served {
                genes[w] = 0;
            }
        }
        w += 1;
    }
    proof {
        assert(genes@ =~= clustered(genes0, graph@, remaining));
    }
}

/// Takes the stranded vertices out.
fn drop_stranded(graph: &UndirectedGraph, remaining: &mut Vec<bool>, flags: &Vec<bool>)
    requires
        old(remaining)@.len() == graph@.len(),
        flags@.len() == graph@.len(),
        forall|z: int|
            0 <= z < graph@.len() ==> #[trigger] flags@[z] == stranded(graph@, old(remaining)@, z),
    ensures
        final(remaining)@ == without_stranded(graph@, old(remaining)@),
{
    let n = remaining.len();
    let ghost remaining0 = remaining@;
    let mut z: usize = 0;
    while z < n
        invariant
            z <= n,
            n == graph@.len(),
            remaining@.len() == n,
            remaining0.len() == n,
            flags@.len() == n,
            forall|y: int| 0 <= y < n ==> #[trigger] flags@[y] == stranded(graph@, remaining0, y),
            forall|y: int| 0 <= y < z ==> #[trigger] remaining@[y] == (remaining0[y] && !flags@[y]),
            forall|y: int| z <= y < n ==> #[trigger] remaining@[y] == remaining0[y],
        decreases n - z,
    {
        if flags[z] {
            remaining[z] = false;
        }
        z += 1;
    }
    proof {
        assert(remaining@ =~= without_stranded(graph@, remaining0));
    }
}

/// Plays one round around the vertex `v`.
fn play_round(
    graph: &UndirectedGraph,
    heuristic: Heuristic,
    genes: &mut Vec<u8>,
    remaining: &mut Vec<bool>,
    v: usize,
)
    requires
        graph.wf(),
        fits(old(genes)@, old(remaining)@, graph@.len()),
        v < graph@.len(),
    ensures
        (final(genes)@, final(remaining)@) == round(
            graph@,
            heuristic,
            old(genes)@,
            old(remaining)@,
            v,
        ),
        fits(final(genes)@, final(remaining)@, graph@.len()),
{
    let promoted = match heuristic {
        Heuristic::RandomGreedy | Heuristic::MaxDegree => {
            let neighbors = graph.neighbors(v).unwrap();
            assert(within(neighbors@, graph@.len()));
            first_live(neighbors, remaining)
        },
        _ => heaviest_neighbor(graph, remaining, v),
    };
    claim(graph, genes, remaining, v, promoted);
    let flags = stranded_flags(graph, remaining);
    match heuristic {
        Heuristic::IsolatedCluster => cluster(graph, genes, Ghost(remaining@), &flags),
        _ => settle(graph, genes, Ghost(remaining@), &flags),
    }
    drop_stranded(graph, remaining, &flags);
}

/// The vertex that the next round of a deterministic run starts from, given the
/// choice for it.
fn pick(
    graph: &UndirectedGraph,
    heuristic: Heuristic,
    remaining: &Vec<bool>,
    choice: usize,
) -> (start: Option<usize>)
    requires
        graph.wf(),
        remaining@.len() == graph@.len(),
    ensures
        start == picked(graph@, heuristic, remaining@, choice),
        start.is_some() ==> start.unwrap() < graph@.len(),
{
    match heuristic {
        Heuristic::RandomGreedy => {
            let alive = count_live(remaining);
            if alive == 0 {
                None
            } else {
                let skip = choice % alive;
                Some(find_nth_live(remaining, skip))
            }
        },
        _ => heaviest_vertex(graph, remaining),
    }
}

/// Builds the labeling of a greedy strategy, round by round.
pub(crate) fn grow(
    graph: &UndirectedGraph,
    heuristic: Heuristic,
    choices: &[usize],
) -> (genes: Vec<u8>)
    requires
        graph.wf(),
        heuristic != Heuristic::Baseline,
    ensures
        genes@ == seed_labels(graph@, heuristic, choices@),
        genes@.len() == graph@.len(),
        labels_in_range(genes@),
{
    let n = graph.order();
    let mut genes: Vec<u8> = vec![0u8; n];
    let mut remaining: Vec<bool> = vec![true; n];
    let mut rounds: usize = 0;
    let mut done = false;
    proof {
        assert(genes@ =~= state_after(graph@, heuristic, choices@, 0).0);
        assert(remaining@ =~= state_after(graph@, heuristic, choices@, 0).1);
    }
    while rounds < n && !done
        invariant
            rounds <= n,
            n == graph@.len(),
            graph.wf(),
            fits(genes@, remaining@, n as nat),
            (genes@, remaining@) == state_after(graph@, heuristic, choices@, rounds as nat),
            done ==> exhausted(graph@, heuristic, remaining@),
        decreases n - rounds + if done { 0int } else { 1int },
    {
        let choice = if rounds < choices.len() {
            choices[rounds]
        } else {
            0
        };
        match pick(graph, heuristic, &remaining, choice) {
            None => {
                done = true;
            },
            Some(v) => {
                play_round(graph, heuristic, &mut genes, &mut remaining, v);
                rounds += 1;
            },
        }
    }
    proof {
        if done {
            lemma_state_stable(graph@, heuristic, choices@, rounds as nat, n as nat);
        }
        lemma_state_after(graph@, heuristic, choices@, n as nat);
    }
    genes
}

/// Builds the labeling of the random strategy, drawing each round's choice from the
/// thread's generator.
pub(crate) fn grow_at_random(graph: &UndirectedGraph) -> (genes: Vec<u8>)
    requires
        graph.wf(),
    ensures
        exists|choices: Seq<usize>| genes@ == seed_labels(graph@, Heuristic::RandomGreedy, choices),
        genes@.len() == graph@.len(),
        labels_in_range(genes@),
{
    let n = graph.order();
    let heuristic = Heuristic::RandomGreedy;
    let mut rng = rand::thread_rng();
    let mut genes: Vec<u8> = vec![0u8; n];
    let mut remaining: Vec<bool> = vec![true; n];
    let ghost mut drawn: Seq<usize> = Seq::empty();
    let mut rounds: usize = 0;
    let mut done = false;
    proof {
        assert(genes@ =~= state_after(graph@, heuristic, drawn, 0).0);
        assert(remaining@ =~= state_after(graph@, heuristic, drawn, 0).1);
    }
    while rounds < n && !done
        invariant
            rounds <= n,
            n == graph@.len(),
            graph.wf(),
            heuristic == Heuristic::RandomGreedy,
            drawn.len() == rounds,
            fits(genes@, remaining@, n as nat),
            (genes@, remaining@) == state_after(graph@, heuristic, drawn, rounds as nat),
            done ==> exhausted(graph@, heuristic, remaining@),
        decreases n - rounds + if done { 0int } else { 1int },
    {
        let alive = count_live(&remaining);
        match random_choice(&mut rng, alive) {
            None => {
                done = true;
            },
            Some(skip) => {
                let v = find_nth_live(&remaining, skip);
                proof {
                    let longer = drawn.push(skip);
                    lemma_state_reads_prefix(graph@, heuristic, drawn, longer, rounds as nat);
                    assert(choice_at(longer, rounds as int) == skip);
                    assert((skip as nat) % (alive as nat) == skip) by (nonlinear_arith)
                        requires
                            skip < alive,
                    ;
                    assert(picked(graph@, heuristic, remaining@, skip) == Some(v));
                    drawn = longer;
                }
                play_round(graph, heuristic, &mut genes, &mut remaining, v);
                rounds += 1;
            },
        }
    }
    proof {
        if done {
            lemma_state_stable(graph@, heuristic, drawn, rounds as nat, n as nat);
        }
        lemma_state_after(graph@, heuristic, drawn, n as nat);
        assert(genes@ == seed_labels(graph@, heuristic, drawn));
    }
    genes
}

} // verus!
