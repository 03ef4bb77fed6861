//! Random edge lists for experiments: every pair of vertices is joined with a given
//! probability, and every vertex that is left without an edge is joined to one more
//! vertex.

use crate::graph::simple_graph::{is_end, is_joined, joins, touches};
use crate::random::{random_below, random_ratio};
use vstd::prelude::*;

verus! {

/// Why no edge list can be generated.
#[derive(Debug, Clone, Copy, PartialEq, Eq, Structural)]
pub enum GeneratorError {
    /// There is no vertex.
    NoVertices,
    /// There is one vertex only, which cannot be joined to another.
    SingleVertex,
}

/// Every edge runs from a vertex to a greater one below `count`.
pub open spec fn proper_edges(edges: Seq<(usize, usize)>, count: nat) -> bool {
    forall|i: int|
        0 <= i < edges.len() ==> (#[trigger] edges[i]).0 < edges[i].1 && edges[i].1 < count
}

/// No edge occurs twice.
pub open spec fn no_repeats(edges: Seq<(usize, usize)>) -> bool {
    forall|i: int, j: int| 0 <= i < j < edges.len() ==> #[trigger] edges[i] != #[trigger] edges[j]
}

/// Every vertex below `count` is an end of an edge.
pub open spec fn covers(edges: Seq<(usize, usize)>, count: nat) -> bool {
    forall|x: usize| x < count ==> #[trigger] is_end(edges, edges.len() as int, x)
}

/// Every two different vertices below `count` are joined by an edge.
pub open spec fn complete(edges: Seq<(usize, usize)>, count: nat) -> bool {
    forall|a: usize, b: usize|
        a < b && b < count ==> #[trigger] is_joined(edges, edges.len() as int, a, b)
}

/// One more edge has its ends in addition to the ends there were, and joins its ends
/// in addition to the vertices that were joined.
proof fn lemma_one_more_edge(edges: Seq<(usize, usize)>, edge: (usize, usize))
    ensures
        forall|x: usize| #[trigger]
            is_end(edges.push(edge), edges.push(edge).len() as int, x) <==> is_end(
                edges,
                edges.len() as int,
                x,
            ) || touches(edge, x),
        forall|a: usize, b: usize| #[trigger]
            is_joined(edges.push(edge), edges.push(edge).len() as int, a, b) <==> is_joined(
                edges,
                edges.len() as int,
                a,
                b,
            ) || joins(edge, a, b),
{
    let more = edges.push(edge);
    assert forall|x: usize| #[trigger]
        is_end(more, more.len() as int, x) <==> is_end(edges, edges.len() as int, x)
            || touches(edge, x) by {
        if is_end(more, more.len() as int, x) {
            let i = choose|i: int|
                0 <= i < more.len() && i < more.len() && #[trigger] touches(more[i], x);
            if i < edges.len() {
                assert(touches(edges[i], x));
            }
        }
        if is_end(edges, edges.len() as int, x) {
            let i = choose|i: int|
                0 <= i < edges.len() && i < edges.len() && #[trigger] touches(edges[i], x);
            assert(touches(more[i], x));
        }
        if touches(edge, x) {
            assert(touches(more[edges.len() as int], x));
        }
    }
    assert forall|a: usize, b: usize| #[trigger]
        is_joined(more, more.len() as int, a, b) <==> is_joined(
            edges,
            edges.len() as int,
            a,
            b,
        ) || joins(edge, a, b) by {
        if is_joined(more, more.len() as int, a, b) {
            let i = choose|i: int|
                0 <= i < more.len() && i < more.len() && #[trigger] joins(more[i], a, b);
            if i < edges.len() {
                assert(joins(edges[i], a, b));
            }
        }
        if is_joined(edges, edges.len() as int, a, b) {
            let i = choose|i: int|
                0 <= i < edges.len() && i < edges.len() && #[trigger] joins(edges[i], a, b);
            assert(joins(more[i], a, b));
        }
        if joins(edge, a, b) {
            assert(joins(more[edges.len() as int], a, b));
        }
    }
}

/// A generator of random edge lists on the vertices `0..vertex_count`, which joins every
/// two vertices with the probability `numerator / denominator`.
#[derive(Debug, Clone, Copy)]
pub struct SimpleGraphGenerator {
    vertex_count: usize,
    numerator: u32,
    denominator: u32,
}

impl SimpleGraphGenerator {
    /// The edge probability is a fraction between 0 and 1.
    #[verifier::type_invariant]
    spec fn is_probability(self) -> bool {
        self.denominator > 0 && self.numerator <= self.denominator
    }

    /// The number of vertices.
    pub closed spec fn order(&self) -> nat {
        self.vertex_count as nat
    }

    /// The probability of an edge as a fraction: numerator and denominator.
    pub closed spec fn edge_probability(&self) -> (nat, nat) {
        (self.numerator as nat, self.denominator as nat)
    }

    /// The generator for `vertex_count` vertices and the edge probability
    /// `numerator / denominator`, which must lie between 0 and 1.
    pub fn new(vertex_count: usize, numerator: u32, denominator: u32) -> (generator: Self)
        requires
            denominator > 0,
            numerator <= denominator,
        ensures
            generator.order() == vertex_count,
            generator.edge_probability() == (numerator as nat, denominator as nat),
    {
        SimpleGraphGenerator { vertex_count, numerator, denominator }
    }

    /// Generates an edge list. Every pair of vertices, in ascending order, is joined
    /// with the generator's probability; then every vertex that is no end of an edge,
    /// in ascending order, is joined to another vertex drawn by chance. The edges run
    /// from the smaller vertex to the greater one, none occurs twice, and every vertex is
    /// an end of one. Refused where there are fewer than two vertices.
    pub fn generate(&self) -> (result: Result<Vec<(usize, usize)>, GeneratorError>)
        ensures
            match result {
                Ok(edges) => {
                    &&& self.order() >= 2
                    &&& proper_edges(edges@, self.order())
                    &&& no_repeats(edges@)
                    &&& covers(edges@, self.order())
                    &&& self.edge_probability().0 == self.edge_probability().1 ==> complete(
                        edges@,
                        self.order(),
                    )
                },
                Err(e) => e == if self.order() == 0 {
                    GeneratorError::NoVertices
                } else {
                    GeneratorError::SingleVertex
                } && self.order() < 2,
            },
    {
        proof {
            use_type_invariant(self);
        }
        let n = self.vertex_count;
        if n == 0 {
            return Err(GeneratorError::NoVertices);
        }
        if n == 1 {
            return Err(GeneratorError::SingleVertex);
        }
        let mut rng = rand::thread_rng();
        let mut edges: Vec<(usize, usize)> = Vec::new();
        let mut connected: Vec<bool> = vec![false; n];
        let certain = self.numerator == self.denominator;
        proof {
            assert forall|x: usize| x < n implies !is_end(edges@, edges@.len() as int, x) by {}
        }
        let mut u: usize = 0;
        while u < n
            invariant
                u <= n,
                n >= 2,
                self.denominator > 0,
                self.numerator <= self.denominator,
                certain == (self.numerator == self.denominator),
                connected@.len() == n,
                proper_edges(edges@, n as nat),
                no_repeats(edges@),
                forall|i: int| 0 <= i < edges@.len() ==> (#[trigger] edges@[i]).0 < u,
                forall|x: usize|
                    x < n ==> (#[trigger] connected@[x as int] <==> is_end(
                        edges@,
                        edges@.len() as int,
                        x,
                    )),
                certain ==> forall|a: usize, b: usize|
                    a < b && b < n && a < u ==> #[trigger] is_joined(
                        edges@,
                        edges@.len() as int,
                        a,
                        b,
                    ),
            decreases n - u,
        {
            let mut v: usize = u + 1;
            while v < n
                invariant
                    u < v <= n,
                    n >= 2,
                    self.denominator > 0,
                    self.numerator <= self.denominator,
                    certain == (self.numerator == self.denominator),
                    connected@.len() == n,
                    proper_edges(edges@, n as nat),
                    no_repeats(edges@),
                    forall|i: int|
                        0 <= i < edges@.len() ==> (#[trigger] edges@[i]).0 < u || (edges@[i].0 == u
                            && edges@[i].1 < v),
                    forall|x: usize|
                        x < n ==> (#[trigger] connected@[x as int] <==> is_end(
                            edges@,
                            edges@.len() as int,
                            x,
                        )),
                    certain ==> forall|a: usize, b: usize|
                        a < b && b < n && (a < u || (a == u && b < v)) ==> #[trigger] is_joined(
                            edges@,
                            edges@.len() as int,
                            a,
                            b,
                        ),
                decreases n - v,
            {
                if random_ratio(&mut rng, self.numerator, self.denominator) {
                    proof {
                        lemma_one_more_edge(edges@, (u, v));
                    }
                    edges.push((u, v));
                    connected[u] = true;
                    connected[v] = true;
                }
                v += 1;
            }
            u += 1;
        }
        let mut u: usize = 0;
        while u < n
            invariant
                u <= n,
                n >= 2,
                connected@.len() == n,
                proper_edges(edges@, n as nat),
                no_repeats(edges@),
                forall|x: usize|
                    x < n ==> (#[trigger] connected@[x as int] <==> is_end(
                        edges@,
                        edges@.len() as int,
                        x,
                    )),
                forall|x: usize| x < u ==> #[trigger] connected@[x as int],
                certain ==> complete(edges@, n as nat),
            decreases n - u,
        {
            if !connected[u] {
                let drawn = random_below(&mut rng, n - 1);
                let other: usize = if drawn >= u {
                    drawn + 1
                } else {
                    drawn
                };
                let edge: (usize, usize) = if u < other {
                    (u, other)
                } else {
                    (other, u)
                };
                proof {
                    lemma_one_more_edge(edges@, edge);
                    assert forall|i: int| 0 <= i < edges@.len() implies #[trigger] edges@[i]
                        != edge by {
                        if edges@[i] == edge {
                            assert(touches(edges@[i], u));
                            assert(is_end(edges@, edges@.len() as int, u));
                        }
                    }
                }
                edges.push(edge);
                connected[u] = true;
                connected[other] = true;
            }
            u += 1;
        }
        proof {
            assert forall|x: usize| x < n implies #[trigger] is_end(
                edges@,
                edges@.len() as int,
                x,
            ) by {
                assert(connected@[x as int]);
            }
        }
        Ok(edges)
    }
}

} // verus!
