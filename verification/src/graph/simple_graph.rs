//! An editable undirected simple graph whose vertices carry arbitrary numbers.

use std::collections::{HashMap, HashSet};
use vstd::prelude::*;
use vstd::std_specs::hash::{spec_hash_keys_iter, spec_hash_map_iter};
use vstd::std_specs::iter::IteratorSpec;

verus! {

broadcast use vstd::std_specs::hash::group_hash_axioms;

/// Why an edit of a graph was refused.
#[derive(Debug, Clone, Copy, PartialEq, Eq, Structural)]
pub enum GraphError {
    /// The vertex to add is a vertex already.
    VertexAlreadyExists,
    /// A vertex that the edit names is no vertex.
    VertexNotFound,
    /// The edge to add is there already.
    EdgeAlreadyExists,
    /// The edge to take away is not there.
    EdgeNotFound,
    /// The edge to add would join a vertex to itself.
    SelfLoopNotAllowed,
}

/// `u` is a vertex and `v` is in its neighbor set.
pub open spec fn linked(adj: Map<usize, Set<usize>>, u: usize, v: usize) -> bool {
    adj.contains_key(u) && adj[u].contains(v)
}

/// Neighbor sets that describe an undirected simple graph: every neighbor is a vertex
/// other than the set's owner, and has the owner as a neighbor.
pub open spec fn simple(adj: Map<usize, Set<usize>>) -> bool {
    forall|u: usize, v: usize| #[trigger]
        linked(adj, u, v) ==> u != v && linked(adj, v, u)
}

/// The neighbor sets with `u` and `v` put into each other's.
pub open spec fn joined(adj: Map<usize, Set<usize>>, u: usize, v: usize) -> Map<usize, Set<usize>> {
    adj.insert(u, adj[u].insert(v)).insert(v, adj[v].insert(u))
}

/// The neighbor sets with `u` and `v` taken out of each other's.
pub open spec fn parted(adj: Map<usize, Set<usize>>, u: usize, v: usize) -> Map<usize, Set<usize>> {
    let first = adj.insert(u, adj[u].remove(v));
    first.insert(v, first[v].remove(u))
}

/// The neighbor sets without the vertex `vertex`: its own set is gone, and it is gone
/// from the sets of its neighbors.
pub open spec fn without_vertex(adj: Map<usize, Set<usize>>, vertex: usize) -> Map<
    usize,
    Set<usize>,
> {
    Map::new(
        |w: usize| w != vertex && adj.contains_key(w),
        |w: usize|
            if adj[vertex].contains(w) {
                adj[w].remove(vertex)
            } else {
                adj[w]
            },
    )
}

/// Why joining `u` and `v` is refused, if it is: a loop first, then a missing vertex,
/// then an edge that is there already.
pub open spec fn join_fault(adj: Map<usize, Set<usize>>, u: usize, v: usize) -> Option<GraphError> {
    if u == v {
        Some(GraphError::SelfLoopNotAllowed)
    } else if !adj.contains_key(u) || !adj.contains_key(v) {
        Some(GraphError::VertexNotFound)
    } else if adj[u].contains(v) {
        Some(GraphError::EdgeAlreadyExists)
    } else {
        None
    }
}

/// Why parting `u` and `v` is refused, if it is: a missing vertex first, then a
/// missing edge.
pub open spec fn part_fault(adj: Map<usize, Set<usize>>, u: usize, v: usize) -> Option<GraphError> {
    if !adj.contains_key(u) || !adj.contains_key(v) {
        Some(GraphError::VertexNotFound)
    } else if !adj[u].contains(v) {
        Some(GraphError::EdgeNotFound)
    } else {
        None
    }
}

/// Adds the number of neighbors of a vertex to a sum.
pub open spec fn degree_adder(adj: Map<usize, Set<usize>>) -> spec_fn(nat, usize) -> nat {
    |sum: nat, v: usize| sum + adj[v].len()
}

/// The sum of the numbers of neighbors of all vertices.
pub open spec fn total_degree(adj: Map<usize, Set<usize>>) -> nat {
    adj.dom().fold(0nat, degree_adder(adj))
}

/// The number of edges as a machine number: half the sum of the numbers of neighbors,
/// or the largest `usize` where that is beyond it.
pub open spec fn half_degree(adj: Map<usize, Set<usize>>) -> usize {
    if total_degree(adj) / 2 <= usize::MAX {
        (total_degree(adj) / 2) as usize
    } else {
        usize::MAX
    }
}

/// The vertices without neighbors.
pub open spec fn isolated_vertices(adj: Map<usize, Set<usize>>) -> Set<usize> {
    Set::new(|v: usize| adj.contains_key(v) && adj[v].len() == 0)
}

/// `x` is an end of one of the first `count` edges.
pub open spec fn is_end(edges: Seq<(usize, usize)>, count: int, x: usize) -> bool {
    exists|i: int| 0 <= i < count && i < edges.len() && #[trigger] touches(edges[i], x)
}

/// `x` is an end of `edge`.
pub open spec fn touches(edge: (usize, usize), x: usize) -> bool {
    edge.0 == x || edge.1 == x
}

/// `edge` joins `a` and `b`, in either direction.
pub open spec fn joins(edge: (usize, usize), a: usize, b: usize) -> bool {
    (edge.0 == a && edge.1 == b) || (edge.0 == b && edge.1 == a)
}

/// One of the first `count` edges joins `a` and `b`.
pub open spec fn is_joined(edges: Seq<(usize, usize)>, count: int, a: usize, b: usize) -> bool {
    exists|i: int| 0 <= i < count && i < edges.len() && #[trigger] joins(edges[i], a, b)
}

/// Why the edge with number `i` cannot be added after those before it: it is a loop,
/// or an earlier edge joins the same two vertices.
pub open spec fn edge_fault(edges: Seq<(usize, usize)>, i: int) -> Option<GraphError> {
    if edges[i].0 == edges[i].1 {
        Some(GraphError::SelfLoopNotAllowed)
    } else if is_joined(edges, i, edges[i].0, edges[i].1) {
        Some(GraphError::EdgeAlreadyExists)
    } else {
        None
    }
}

/// The graph of the first `count` edges: its vertices are their ends, and two vertices
/// are neighbors where one of the edges joins them.
pub open spec fn graph_of(edges: Seq<(usize, usize)>, count: int) -> Map<usize, Set<usize>> {
    Map::new(
        |x: usize| is_end(edges, count, x),
        |x: usize| Set::new(|y: usize| is_joined(edges, count, x, y)),
    )
}

/// Two vertices that an edge joins are ends of it.
proof fn lemma_joined_are_ends(edges: Seq<(usize, usize)>, count: int, a: usize, b: usize)
    requires
        is_joined(edges, count, a, b),
    ensures
        is_end(edges, count, a),
        is_end(edges, count, b),
        is_joined(edges, count, b, a),
{
    let k = choose|k: int| 0 <= k < count && k < edges.len() && #[trigger] joins(edges[k], a, b);
    assert(touches(edges[k], a));
    assert(touches(edges[k], b));
    assert(joins(edges[k], b, a));
}

/// `v` is among the first `count` members handed out.
spec fn member_seen(all: Seq<&usize>, count: int, v: usize) -> bool {
    exists|i: int| 0 <= i < count && i < all.len() && *(#[trigger] all[i]) == v
}

/// `v` is the key of one of the first `count` entries handed out.
spec fn key_seen(all: Seq<(&usize, &HashSet<usize>)>, count: int, v: usize) -> bool {
    exists|i: int| 0 <= i < count && i < all.len() && *(#[trigger] all[i]).0 == v
}

/// The keys of the first `count` entries handed out.
spec fn keys_seen(all: Seq<(&usize, &HashSet<usize>)>, count: int) -> Set<usize> {
    Set::new(|v: usize| key_seen(all, count, v))
}

/// The keys seen grow by one key with every entry, and stay finite.
proof fn lemma_keys_seen(all: Seq<(&usize, &HashSet<usize>)>, count: int)
    requires
        0 <= count <= all.len(),
    ensures
        keys_seen(all, count).finite(),
        count < all.len() ==> keys_seen(all, count + 1) == keys_seen(all, count).insert(
            *all[count].0,
        ),
    decreases count,
{
    if count == 0 {
        assert(keys_seen(all, 0) =~= Set::<usize>::empty());
    } else {
        lemma_keys_seen(all, count - 1);
    }
    if count < all.len() {
        assert forall|v: usize| #[trigger]
            key_seen(all, count + 1, v) <==> v == *all[count].0 || key_seen(all, count, v) by {
            if key_seen(all, count + 1, v) {
                let i = choose|i: int|
                    0 <= i < count + 1 && i < all.len() && *(#[trigger] all[i]).0 == v;
                if i < count {
                    assert(*all[i].0 == v);
                }
            }
            if key_seen(all, count, v) {
                let i = choose|i: int|
                    0 <= i < count && i < all.len() && *(#[trigger] all[i]).0 == v;
                assert(*all[i].0 == v);
            }
            if v == *all[count].0 {
                assert(*all[count].0 == v);
            }
        }
        assert(keys_seen(all, count + 1) =~= keys_seen(all, count).insert(*all[count].0));
    }
}

/// An undirected simple graph on vertices with arbitrary numbers, held as one
/// neighbor set per vertex.
#[derive(Debug)]
pub struct SimpleGraph {
    adjacency_list: HashMap<usize, HashSet<usize>>,
}

impl View for SimpleGraph {
    type V = Map<usize, Set<usize>>;

    /// The neighbor set of every vertex.
    closed spec fn view(&self) -> Map<usize, Set<usize>> {
        Map::new(
            |v: usize| self.adjacency_list@.contains_key(v),
            |v: usize| self.adjacency_list@[v]@,
        )
    }
}

impl SimpleGraph {
    /// The neighbor sets describe an undirected simple graph.
    pub open spec fn wf(&self) -> bool {
        simple(self@)
    }

    /// The graph without vertices.
    pub fn new() -> (graph: Self)
        ensures
            graph@ == Map::<usize, Set<usize>>::empty(),
            graph.wf(),
    {
        let graph = SimpleGraph { adjacency_list: HashMap::new() };
        assert(graph@ =~= Map::<usize, Set<usize>>::empty());
        graph
    }

    /// Adds the vertex `vertex`, without neighbors; refused where it is there already.
    pub fn add_vertex(&mut self, vertex: usize) -> (result: Result<(), GraphError>)
        ensures
            match result {
                Ok(()) => !old(self)@.contains_key(vertex) && final(self)@ == old(self)@.insert(
                    vertex,
                    Set::empty(),
                ),
                Err(e) => e == GraphError::VertexAlreadyExists && old(self)@.contains_key(vertex)
                    && final(self)@ == old(self)@,
            },
            old(self).wf() ==> final(self).wf(),
    {
        if self.adjacency_list.contains_key(&vertex) {
            return Err(GraphError::VertexAlreadyExists);
        }
        self.adjacency_list.insert(vertex, HashSet::new());
        proof {
            assert(self@ =~= old(self)@.insert(vertex, Set::empty()));
            if old(self).wf() {
                assert forall|u: usize, v: usize| #[trigger] linked(self@, u, v) implies u != v
                    && linked(self@, v, u) by {
                    assert(linked(old(self)@, u, v));
                }
            }
        }
        Ok(())
    }

    /// Joins `u` and `v` by an edge; refused for a loop, for a missing vertex and for
    /// an edge that is there already, in this order.
    pub fn add_edge(&mut self, u: usize, v: usize) -> (result: Result<(), GraphError>)
        ensures
            match result {
                Ok(()) => join_fault(old(self)@, u, v).is_none() && final(self)@ == joined(
                    old(self)@,
                    u,
                    v,
                ),
                Err(e) => join_fault(old(self)@, u, v) == Some(e) && final(self)@ == old(self)@,
            },
            old(self).wf() ==> final(self).wf(),
    {
        if u == v {
            return Err(GraphError::SelfLoopNotAllowed);
        }
        if !self.adjacency_list.contains_key(&u) || !self.adjacency_list.contains_key(&v) {
            return Err(GraphError::VertexNotFound);
        }
        let mut of_u = self.adjacency_list.remove(&u).unwrap();
        if of_u.contains(&v) {
            self.adjacency_list.insert(u, of_u);
            assert(self@ =~= old(self)@);
            return Err(GraphError::EdgeAlreadyExists);
        }
        of_u.insert(v);
        self.adjacency_list.insert(u, of_u);
        let mut of_v = self.adjacency_list.remove(&v).unwrap();
        of_v.insert(u);
        self.adjacency_list.insert(v, of_v);
        proof {
            assert(self@ =~= joined(old(self)@, u, v));
            if old(self).wf() {
                assert forall|a: usize, b: usize| #[trigger] linked(self@, a, b) implies a != b
                    && linked(self@, b, a) by {
                    if !((a == u && b == v) || (a == v && b == u)) {
                        assert(linked(old(self)@, a, b));
                        assert(linked(old(self)@, b, a));
                    }
                }
            }
        }
        Ok(())
    }

    /// Takes the edge between `u` and `v` away; refused for a missing vertex and for
    /// a missing edge, in this order.
    pub fn remove_edge(&mut self, u: usize, v: usize) -> (result: Result<(), GraphError>)
        ensures
            match result {
                Ok(()) => part_fault(old(self)@, u, v).is_none() && final(self)@ == parted(
                    old(self)@,
                    u,
                    v,
                ),
                Err(e) => part_fault(old(self)@, u, v) == Some(e) && final(self)@ == old(self)@,
            },
            old(self).wf() ==> final(self).wf(),
    {
        if !self.adjacency_list.contains_key(&u) || !self.adjacency_list.contains_key(&v) {
            return Err(GraphError::VertexNotFound);
        }
        let mut of_u = self.adjacency_list.remove(&u).unwrap();
        if !of_u.contains(&v) {
            self.adjacency_list.insert(u, of_u);
            assert(self@ =~= old(self)@);
            return Err(GraphError::EdgeNotFound);
        }
        of_u.remove(&v);
        self.adjacency_list.insert(u, of_u);
        let mut of_v = self.adjacency_list.remove(&v).unwrap();
        of_v.remove(&u);
        self.adjacency_list.insert(v, of_v);
        proof {
            assert(self@ =~= parted(old(self)@, u, v));
            if old(self).wf() {
                assert forall|a: usize, b: usize| #[trigger] linked(self@, a, b) implies a != b
                    && linked(self@, b, a) by {
                    assert(linked(old(self)@, a, b));
                    assert(linked(old(self)@, b, a));
                }
            }
        }
        Ok(())
    }

    /// Takes the vertex `vertex` away, with its edges; refused where it is no vertex.
    pub fn remove_vertex(&mut self, vertex: usize) -> (result: Result<(), GraphError>)
        ensures
            match result {
                Ok(()) => old(self)@.contains_key(vertex) && final(self)@ == without_vertex(
                    old(self)@,
                    vertex,
                ),
                Err(e) => e == GraphError::VertexNotFound && !old(self)@.contains_key(vertex)
                    && final(self)@ == old(self)@,
            },
            old(self).wf() ==> final(self).wf(),
    {
        let neighbors = match self.adjacency_list.remove(&vertex) {
            Some(neighbors) => neighbors,
            None => {
                assert(self@ =~= old(self)@);
                return Err(GraphError::VertexNotFound);
            },
        };
        let ghost before = old(self)@;
        let ghost all = spec_hash_keys_iter(&neighbors).remaining();
        assert(neighbors@ == before[vertex]);
        for neighbor in it: neighbors.iter()
            invariant
                it.seq() == all,
                all.unref().to_set() == before[vertex],
                before == old(self)@,
                self@ =~= Map::new(
                    |w: usize| w != vertex && before.contains_key(w),
                    |w: usize|
                        if member_seen(all, it.index(), w) {
                            before[w].remove(vertex)
                        } else {
                            before[w]
                        },
                ),
        {
            let ghost index = it.index();
            let ghost earlier = self@;
            match self.adjacency_list.remove(neighbor) {
                Some(set) => {
                    let mut set = set;
                    set.remove(&vertex);
                    self.adjacency_list.insert(*neighbor, set);
                },
                None => {},
            }
            proof {
                assert(*all[index] == *neighbor);
                assert forall|w: usize| w != vertex && before.contains_key(w) implies self@[w] == (
                if member_seen(all, index + 1, w) {
                    before[w].remove(vertex)
                } else {
                    before[w]
                }) by {
                    assert(earlier.contains_key(w));
                    assert(earlier[w] == if member_seen(all, index, w) {
                        before[w].remove(vertex)
                    } else {
                        before[w]
                    });
                    if w == *neighbor {
                        assert(member_seen(all, index + 1, w));
                        assert(self@[w] == earlier[w].remove(vertex));
                        assert(earlier[w].remove(vertex) =~= before[w].remove(vertex));
                    } else {
                        assert(self@[w] == earlier[w]);
                        if member_seen(all, index + 1, w) {
                            let i = choose|i: int|
                                0 <= i < index + 1 && i < all.len() && *(#[trigger] all[i]) == w;
                            assert(i < index);
                            assert(member_seen(all, index, w));
                        }
                        if member_seen(all, index, w) {
                            let i = choose|i: int|
                                0 <= i < index && i < all.len() && *(#[trigger] all[i]) == w;
                            assert(*all[i] == w);
                        }
                    }
                }
            }
        }
        proof {
            let after = without_vertex(before, vertex);
            assert forall|w: usize| w != vertex && before.contains_key(w) implies self@[w]
                == after[w] by {
                if before[vertex].contains(w) {
                    assert(all.unref().to_set().contains(w));
                    let i = choose|i: int| 0 <= i < all.unref().len() && all.unref()[i] == w;
                    assert(*all[i] == w);
                    assert(member_seen(all, all.len() as int, w));
                } else if member_seen(all, all.len() as int, w) {
                    let i = choose|i: int|
                        0 <= i < all.len() && i < all.len() && *(#[trigger] all[i]) == w;
                    assert(all.unref()[i] == w);
                    assert(all.unref().to_set().contains(w));
                }
            }
            assert(self@ =~= after);
            if old(self).wf() {
                assert forall|a: usize, b: usize| #[trigger] linked(self@, a, b) implies a != b
                    && linked(self@, b, a) by {
                    assert(linked(before, a, b));
                    assert(linked(before, b, a));
                    if b == vertex {
                        assert(linked(before, vertex, a));
                    }
                }
            }
        }
        Ok(())
    }

    /// The vertices without neighbors.
    pub fn get_isolated_vertices(&self) -> (isolated: HashSet<usize>)
        ensures
            isolated@ == isolated_vertices(self@),
    {
        let mut isolated: HashSet<usize> = HashSet::new();
        let ghost all = spec_hash_map_iter(&self.adjacency_list).remaining();
        for entry in it: self.adjacency_list.iter()
            invariant
                it.seq() == all,
                isolated@ =~= Set::new(
                    |v: usize|
                        self@.contains_key(v) && self@[v].len() == 0 && key_seen(
                            all,
                            it.index(),
                            v,
                        ),
                ),
        {
            let ghost index = it.index();
            let (vertex, set) = entry;
            assert(all[index] == entry);
            assert(self.adjacency_list@.contains_key(*all[index].0));
            if set.len() == 0 {
                isolated.insert(*vertex);
            }
            proof {
                assert forall|v: usize| #[trigger]
                    key_seen(all, index + 1, v) <==> v == *vertex || key_seen(all, index, v) by {
                    if key_seen(all, index + 1, v) {
                        let i = choose|i: int|
                            0 <= i < index + 1 && i < all.len() && *(#[trigger] all[i]).0 == v;
                        if i < index {
                            assert(*all[i].0 == v);
                        }
                    }
                    if key_seen(all, index, v) {
                        let i = choose|i: int|
                            0 <= i < index && i < all.len() && *(#[trigger] all[i]).0 == v;
                        assert(*all[i].0 == v);
                    }
                    if v == *vertex {
                        assert(*all[index].0 == v);
                    }
                }
            }
        }
        proof {
            assert forall|v: usize| self@.contains_key(v) implies key_seen(
                all,
                all.len() as int,
                v,
            ) by {
                assert(all.contains((&v, &self.adjacency_list@[v])));
                let i = choose|i: int|
                    0 <= i < all.len() && all[i] == (&v, &self.adjacency_list@[v]);
                assert(*all[i].0 == v);
            }
            assert(isolated@ =~= isolated_vertices(self@));
        }
        isolated
    }

    /// The graph of the given edges: its vertices are their ends. Refused, at the first
    /// edge that cannot be added, for a loop and for an edge that joins two vertices
    /// which an earlier edge joins.
    pub fn from_edges(edges: Vec<(usize, usize)>) -> (result: Result<Self, GraphError>)
        ensures
            match result {
                Ok(graph) => {
                    &&& forall|i: int| 0 <= i < edges@.len() ==> edge_fault(edges@, i).is_none()
                    &&& graph@ == graph_of(edges@, edges@.len() as int)
                    &&& graph.wf()
                },
                Err(e) => exists|i: int|
                    0 <= i < edges@.len() && edge_fault(edges@, i) == Some(e) && forall|j: int|
                        0 <= j < i ==> edge_fault(edges@, j).is_none(),
            },
    {
        let mut graph = SimpleGraph::new();
        assert(graph@ =~= graph_of(edges@, 0));
        let mut i: usize = 0;
        while i < edges.len()
            invariant
                i <= edges@.len(),
                graph@ == graph_of(edges@, i as int),
                graph.wf(),
                forall|j: int| 0 <= j < i ==> edge_fault(edges@, j).is_none(),
            decreases edges@.len() - i,
        {
            let (u, v) = edges[i];
            let ghost before = graph@;
            if !graph.adjacency_list.contains_key(&u) {
                let _ = graph.add_vertex(u);
            }
            if !graph.adjacency_list.contains_key(&v) {
                let _ = graph.add_vertex(v);
            }
            let ghost prepared = graph@;
            proof {
                assert forall|a: usize, b: usize| linked(before, a, b) <==> is_joined(
                    edges@,
                    i as int,
                    a,
                    b,
                ) by {
                    if is_joined(edges@, i as int, a, b) {
                        lemma_joined_are_ends(edges@, i as int, a, b);
                    }
                }
                assert forall|x: usize| prepared.contains_key(x) implies prepared[x] == (
                if before.contains_key(x) {
                    before[x]
                } else {
                    Set::<usize>::empty()
                }) by {}
                assert(forall|a: usize, b: usize| linked(prepared, a, b) <==> linked(before, a, b));
            }
            match graph.add_edge(u, v) {
                Ok(()) => {
                    assert(!linked(prepared, u, v));
                    assert(edge_fault(edges@, i as int).is_none());
                },
                Err(e) => {
                    assert(edge_fault(edges@, i as int) == Some(e));
                    return Err(e);
                },
            }
            proof {
                let after = graph_of(edges@, i + 1);
                assert forall|x: usize| is_end(edges@, i + 1, x) <==> is_end(edges@, i as int, x)
                    || x == u || x == v by {
                    if is_end(edges@, i + 1, x) {
                        let k = choose|k: int|
                            0 <= k < i + 1 && k < edges@.len() && #[trigger] touches(edges@[k], x);
                        if k < i {
                            assert(touches(edges@[k], x));
                        }
                    }
                    if is_end(edges@, i as int, x) {
                        let k = choose|k: int|
                            0 <= k < i && k < edges@.len() && #[trigger] touches(edges@[k], x);
                        assert(touches(edges@[k], x));
                    }
                    if x == u || x == v {
                        assert(touches(edges@[i as int], x));
                    }
                }
                assert forall|a: usize, b: usize|
                    is_joined(edges@, i + 1, a, b) <==> is_joined(edges@, i as int, a, b) || joins(
                        (u, v),
                        a,
                        b,
                    ) by {
                    if is_joined(edges@, i + 1, a, b) {
                        let k = choose|k: int|
                            0 <= k < i + 1 && k < edges@.len() && #[trigger] joins(edges@[k], a, b);
                        if k < i {
                            assert(joins(edges@[k], a, b));
                        }
                    }
                    if is_joined(edges@, i as int, a, b) {
                        let k = choose|k: int|
                            0 <= k < i && k < edges@.len() && #[trigger] joins(edges@[k], a, b);
                        assert(joins(edges@[k], a, b));
                    }
                    if joins((u, v), a, b) {
                        assert(joins(edges@[i as int], a, b));
                    }
                }
                assert(graph@.dom() =~= after.dom());
                assert forall|x: usize| graph@.contains_key(x) implies graph@[x] =~= after[x] by {
                    assert forall|y: usize| graph@[x].contains(y) <==> after[x].contains(y) by {
                        assert(linked(before, x, y) <==> is_joined(edges@, i as int, x, y));
                        assert(linked(prepared, x, y) <==> linked(before, x, y));
                        assert(after[x].contains(y) <==> is_joined(edges@, i + 1, x, y));
                    }
                }
                assert(graph@ =~= after);
            }
            i += 1;
        }
        Ok(graph)
    }

    /// The neighbor set of `vertex`; refused where `vertex` is no vertex.
    pub fn neighbors(&self, vertex: usize) -> (result: Result<&HashSet<usize>, GraphError>)
        ensures
            match result {
                Ok(set) => self@.contains_key(vertex) && set@ == self@[vertex],
                Err(e) => e == GraphError::VertexNotFound && !self@.contains_key(vertex),
            },
    {
        match self.adjacency_list.get(&vertex) {
            Some(set) => Ok(set),
            None => Err(GraphError::VertexNotFound),
        }
    }

    /// Whether `u` is a vertex with `v` among its neighbors.
    pub fn has_edge(&self, u: usize, v: usize) -> (found: bool)
        ensures
            found == linked(self@, u, v),
    {
        match self.adjacency_list.get(&u) {
            Some(set) => set.contains(&v),
            None => false,
        }
    }

    /// The number of vertices.
    pub fn vertex_count(&self) -> (count: usize)
        ensures
            count == self@.dom().len(),
            self@.dom().finite(),
    {
        assert(self@.dom() =~= self.adjacency_list@.dom());
        self.adjacency_list.len()
    }

    /// The number of edges: half the sum of the numbers of neighbors.
    pub fn edge_count(&self) -> (count: usize)
        ensures
            count == half_degree(self@),
    {
        let vertices = self.adjacency_list.len();
        let mut total: u128 = 0;
        let ghost all = spec_hash_map_iter(&self.adjacency_list).remaining();
        let ghost adder = degree_adder(self@);
        proof {
            assert(keys_seen(all, 0) =~= Set::<usize>::empty());
            vstd::set::fold::lemma_fold_empty::<usize, nat>(0nat, adder);
            assert(vstd::set::fold::is_fun_commutative(adder));
        }
        for entry in it: self.adjacency_list.iter()
            invariant
                it.seq() == all,
                all.len() == vertices,
                all.no_duplicates(),
                adder == degree_adder(self@),
                vstd::set::fold::is_fun_commutative(adder),
                forall|i: int|
                    0 <= i < all.len() ==> self.adjacency_list@.contains_key(
                        *(#[trigger] all[i]).0,
                    ) && self.adjacency_list@[*all[i].0] == *all[i].1,
                total == keys_seen(all, it.index()).fold(0nat, adder),
                total <= it.index() * usize::MAX,
        {
            let ghost index = it.index();
            let (vertex, set) = entry;
            assert(all[index] == entry);
            let degree = set.len();
            proof {
                lemma_keys_seen(all, index);
                assert(!keys_seen(all, index).contains(*vertex)) by {
                    if key_seen(all, index, *vertex) {
                        let i = choose|i: int|
                            0 <= i < index && i < all.len() && *(#[trigger] all[i]).0 == *vertex;
                        assert(*all[i].1 == *all[index].1);
                        assert(all[i] == all[index]);
                    }
                }
                vstd::set::fold::lemma_fold_insert(keys_seen(all, index), 0nat, adder, *vertex);
                assert(self@[*vertex] == set@);
                assert((index + 1) * usize::MAX <= usize::MAX * usize::MAX) by (nonlinear_arith)
                    requires
                        0 <= index < usize::MAX,
                ;
                assert(index * usize::MAX + usize::MAX == (index + 1) * usize::MAX)
                    by (nonlinear_arith);
                assert(usize::MAX * usize::MAX < u128::MAX) by (nonlinear_arith)
                    requires
                        usize::MAX <= 0xffff_ffff_ffff_ffff,
                        u128::MAX == 0xffff_ffff_ffff_ffff_ffff_ffff_ffff_ffff,
                ;
            }
            total = total + degree as u128;
        }
        proof {
            assert forall|v: usize| self@.contains_key(v) implies key_seen(
                all,
                all.len() as int,
                v,
            ) by {
                assert(all.contains((&v, &self.adjacency_list@[v])));
                let i = choose|i: int|
                    0 <= i < all.len() && all[i] == (&v, &self.adjacency_list@[v]);
                assert(*all[i].0 == v);
            }
            assert forall|v: usize| key_seen(all, all.len() as int, v) implies self@.contains_key(
                v,
            ) by {
                let i = choose|i: int|
                    0 <= i < all.len() && i < all.len() && *(#[trigger] all[i]).0 == v;
                assert(self.adjacency_list@.contains_key(*all[i].0));
            }
            assert(keys_seen(all, all.len() as int) =~= self@.dom());
        }
        let half = total / 2;
        if half > usize::MAX as u128 {
            usize::MAX
        } else {
            half as usize
        }
    }

    /// Whether `vertex` has no neighbor; refused where `vertex` is no vertex.
    pub fn is_isolated(&self, vertex: usize) -> (result: Result<bool, GraphError>)
        ensures
            match result {
                Ok(alone) => self@.contains_key(vertex) && alone == (self@[vertex].len() == 0),
                Err(e) => e == GraphError::VertexNotFound && !self@.contains_key(vertex),
            },
    {
        match self.adjacency_list.get(&vertex) {
            Some(set) => Ok(set.len() == 0),
            None => Err(GraphError::VertexNotFound),
        }
    }
}

impl Clone for SimpleGraph {
    /// A full copy: the same neighbor sets in a map of its own.
    fn clone(&self) -> (copy: Self)
        ensures
            copy@ == self@,
    {
        let copy = SimpleGraph { adjacency_list: self.adjacency_list.clone() };
        proof {
            assert(copy@ =~= self@);
        }
        copy
    }
}

impl Default for SimpleGraph {
    /// The graph without vertices.
    fn default() -> (graph: Self)
        ensures
            graph@ == Map::<usize, Set<usize>>::empty(),
            graph.wf(),
    {
        SimpleGraph::new()
    }
}

} // verus!
