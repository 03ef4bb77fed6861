//! The graph that the search works on: the vertices are the numbers from 0 on, and
//! every vertex knows its neighbors in ascending order.

use crate::graph::simple_graph::{is_joined, joins, linked, GraphError, SimpleGraph};
use vstd::prelude::*;
use vstd::std_specs::hash::spec_hash_keys_iter;
use vstd::std_specs::iter::IteratorSpec;

verus! {

broadcast use vstd::std_specs::hash::group_hash_axioms;

/// Whether `v` occurs in the neighbor list of `u`.
pub open spec fn adjacent(adj: Seq<Seq<usize>>, u: int, v: int) -> bool {
    0 <= u < adj.len() && exists|i: int| 0 <= i < adj[u].len() && #[trigger] adj[u][i] == v
}

/// Neighbor lists that describe an undirected simple graph on the vertices `0..adj.len()`:
/// every entry names a vertex other than the list's owner, every list is strictly
/// ascending, and adjacency is symmetric.
pub open spec fn well_formed(adj: Seq<Seq<usize>>) -> bool {
    &&& forall|v: int, i: int|
        0 <= v < adj.len() && 0 <= i < adj[v].len() ==> #[trigger] adj[v][i] < adj.len()
            && adj[v][i] != v
    &&& forall|v: int, i: int, j: int|
        0 <= v < adj.len() && 0 <= i < j < adj[v].len() ==> #[trigger] adj[v][i]
            < #[trigger] adj[v][j]
    &&& forall|u: int, v: int| #[trigger] adjacent(adj, u, v) ==> adjacent(adj, v, u)
}

/// One byte for each of `count` vertices adds up to a machine number: a labeling of so
/// many vertices can be weighed.
pub open spec fn weighable(count: nat) -> bool {
    255 * count <= usize::MAX
}

/// Whether some vertex has no neighbor.
pub open spec fn has_isolated(adj: Seq<Seq<usize>>) -> bool {
    exists|v: int| 0 <= v < adj.len() && (#[trigger] adj[v]).len() == 0
}

/// Why joining `u` and `v` is refused, if it is.
pub open spec fn rejection(adj: Seq<Seq<usize>>, u: usize, v: usize) -> Option<GraphError> {
    if u == v {
        Some(GraphError::SelfLoopNotAllowed)
    } else if u >= adj.len() || v >= adj.len() {
        Some(GraphError::VertexNotFound)
    } else if adjacent(adj, u as int, v as int) {
        Some(GraphError::EdgeAlreadyExists)
    } else {
        None
    }
}

/// Adjacency read as membership in a neighbor list.
pub proof fn lemma_adjacent_contains(adj: Seq<Seq<usize>>, u: int, v: int)
    ensures
        adjacent(adj, u, v) <==> 0 <= u < adj.len() && 0 <= v <= usize::MAX && adj[u].contains(
            v as usize,
        ),
{
    if adjacent(adj, u, v) {
        let i = choose|i: int| 0 <= i < adj[u].len() && adj[u][i] == v;
        assert(adj[u][i] == v as usize);
    }
    if 0 <= u < adj.len() && 0 <= v <= usize::MAX && adj[u].contains(v as usize) {
        let i = choose|i: int| 0 <= i < adj[u].len() && adj[u][i] == v as usize;
        assert(adj[u][i] == v);
    }
}

/// Why the edge with number `i` cannot be added to a graph of `order` vertices after
/// the edges before it: it is a loop, or one of its ends is no vertex, or an earlier
/// edge joins the same two vertices.
pub open spec fn rejection_at(order: nat, edges: Seq<(usize, usize)>, i: int) -> Option<
    GraphError,
> {
    if edges[i].0 == edges[i].1 {
        Some(GraphError::SelfLoopNotAllowed)
    } else if edges[i].0 >= order || edges[i].1 >= order {
        Some(GraphError::VertexNotFound)
    } else if is_joined(edges, i, edges[i].0, edges[i].1) {
        Some(GraphError::EdgeAlreadyExists)
    } else {
        None
    }
}

/// The numbers below `count`.
pub open spec fn below(count: nat) -> Set<usize> {
    Set::new(|v: usize| v < count)
}

/// There are `count` numbers below `count`.
pub proof fn lemma_below(count: nat)
    requires
        count <= usize::MAX + 1,
    ensures
        below(count).finite(),
        below(count).len() == count,
    decreases count,
{
    if count == 0 {
        assert(below(0) =~= Set::<usize>::empty());
    } else {
        lemma_below((count - 1) as nat);
        assert(below(count) =~= below((count - 1) as nat).insert((count - 1) as usize));
    }
}

/// The vertices of a graph are numbered without gaps: every number below the number of
/// vertices is a vertex.
pub open spec fn compact(adj: Map<usize, Set<usize>>) -> bool {
    forall|v: usize| v < adj.dom().len() ==> adj.contains_key(v)
}

/// The vertices of a compact graph are exactly the numbers below their count.
pub proof fn lemma_compact(adj: Map<usize, Set<usize>>)
    requires
        adj.dom().finite(),
        adj.dom().len() <= usize::MAX,
        compact(adj),
    ensures
        adj.dom() == below(adj.dom().len()),
{
    let n = adj.dom().len();
    lemma_below(n);
    assert(below(n).subset_of(adj.dom()));
    vstd::set_lib::lemma_subset_equality(below(n), adj.dom());
}

/// Strictly ascending order of a list.
pub open spec fn ascending(list: Seq<usize>) -> bool {
    forall|i: int, j: int| 0 <= i < j < list.len() ==> #[trigger] list[i] < #[trigger] list[j]
}

/// The number of entries of an ascending `list` that are smaller than `x`: the place
/// of `x` in it, or the place where `x` would have to be inserted.
fn lower_bound(list: &Vec<usize>, x: usize) -> (k: usize)
    requires
        ascending(list@),
    ensures
        k <= list@.len(),
        forall|i: int| 0 <= i < k ==> #[trigger] list@[i] < x,
        forall|i: int| k <= i < list@.len() ==> #[trigger] list@[i] >= x,
{
    let mut low: usize = 0;
    let mut high: usize = list.len();
    while low < high
        invariant
            low <= high <= list@.len(),
            ascending(list@),
            forall|i: int| 0 <= i < low ==> #[trigger] list@[i] < x,
            forall|i: int| high <= i < list@.len() ==> #[trigger] list@[i] >= x,
        decreases high - low,
    {
        let middle: usize = low + (high - low) / 2;
        if list[middle] < x {
            low = middle + 1;
        } else {
            high = middle;
        }
    }
    low
}

/// Puts `x` into an ascending list that lacks it, at its place in the order.
fn insert_ascending(list: &mut Vec<usize>, x: usize)
    requires
        ascending(old(list)@),
        !old(list)@.contains(x),
    ensures
        ascending(final(list)@),
        final(list)@.len() == old(list)@.len() + 1,
        forall|y: usize| final(list)@.contains(y) <==> old(list)@.contains(y) || y == x,
{
    let k = lower_bound(list, x);
    let ghost before = list@;
    list.insert(k, x);
    proof {
        assert(list@ == before.insert(k as int, x));
        assert forall|y: usize| list@.contains(y) <==> before.contains(y) || y == x by {
            if list@.contains(y) {
                let i = choose|i: int| 0 <= i < list@.len() && list@[i] == y;
                if i < k {
                    assert(before[i] == y);
                } else if i > k {
                    assert(before[i - 1] == y);
                }
            }
            if before.contains(y) {
                let i = choose|i: int| 0 <= i < before.len() && before[i] == y;
                if i < k {
                    assert(list@[i] == y);
                } else {
                    assert(list@[i + 1] == y);
                }
            }
            if y == x {
                assert(list@[k as int] == y);
            }
        }
        assert forall|i: int, j: int| 0 <= i < j < list@.len() implies list@[i] < list@[j] by {
            if k as int <= before.len() - 1 {
                assert(before[k as int] >= x);
                assert(before.contains(before[k as int]));
            }
            if j < k {
            } else if j == k {
                assert(before[i] < x);
            } else if i < k {
                assert(before[i] < x);
                assert(before[j - 1] >= x);
                assert(before.contains(before[j - 1]));
            } else if i == k {
                assert(before[j - 1] >= x);
                assert(before.contains(before[j - 1]));
            } else {
                assert(before[i - 1] < before[j - 1]);
            }
        }
    }
}

/// `x` is among the first `count` members handed out.
spec fn seen(all: Seq<&usize>, count: int, x: usize) -> bool {
    exists|i: int| 0 <= i < count && i < all.len() && *(#[trigger] all[i]) == x
}

/// An undirected simple graph on the vertices `0..n`, held as one ascending neighbor
/// list per vertex.
#[derive(Debug)]
pub struct UndirectedGraph {
    adjacency: Vec<Vec<usize>>,
}

impl View for UndirectedGraph {
    type V = Seq<Seq<usize>>;

    /// The neighbor list of every vertex.
    closed spec fn view(&self) -> Seq<Seq<usize>> {
        Seq::new(self.adjacency@.len(), |v: int| self.adjacency@[v]@)
    }
}

impl Clone for UndirectedGraph {
    /// A full copy: the same neighbor lists in vectors of their own.
    fn clone(&self) -> (copy: Self)
        ensures
            copy@ == self@,
    {
        proof {
            use_type_invariant(self);
        }
        let adjacency = self.adjacency.clone();
        let copy = UndirectedGraph { adjacency };
        proof {
            assert(copy@ =~~= self@);
        }
        copy
    }
}

impl UndirectedGraph {
    /// The graph has so few vertices that a labeling of them can be weighed.
    #[verifier::type_invariant]
    pub open spec fn can_be_weighed(self) -> bool {
        weighable(self@.len())
    }

    /// The neighbor lists describe an undirected simple graph.
    pub open spec fn wf(&self) -> bool {
        well_formed(self@)
    }

    /// Whether a graph can have `order` vertices: whether a labeling of so many
    /// vertices can be weighed.
    pub fn admits(order: usize) -> (admitted: bool)
        ensures
            admitted == weighable(order as nat),
    {
        order <= usize::MAX / 255
    }

    /// The graph with `order` vertices and no edge. There must be so few vertices that a
    /// labeling of them can be weighed.
    pub fn new(order: usize) -> (graph: Self)
        requires
            weighable(order as nat),
        ensures
            graph.wf(),
            graph@.len() == order,
            forall|v: int| 0 <= v < order ==> (#[trigger] graph@[v]).len() == 0,
    {
        let mut adjacency: Vec<Vec<usize>> = Vec::new();
        let mut v: usize = 0;
        while v < order
            invariant
                v <= order,
                adjacency@.len() == v,
                forall|w: int| 0 <= w < v ==> (#[trigger] adjacency@[w])@.len() == 0,
            decreases order - v,
        {
            adjacency.push(Vec::new());
            v += 1;
        }
        UndirectedGraph { adjacency }
    }

    /// The graph with `order` vertices and the given edges. Refused, at the first edge
    /// that cannot be added, as `add_edge` refuses it. There must be so few vertices that
    /// a labeling of them can be weighed.
    pub fn from_edges(order: usize, edges: &[(usize, usize)]) -> (result: Result<Self, GraphError>)
        requires
            weighable(order as nat),
        ensures
            match result {
                Ok(graph) => {
                    &&& graph.wf()
                    &&& graph@.len() == order
                    &&& forall|i: int|
                        0 <= i < edges@.len() ==> rejection_at(order as nat, edges@, i).is_none()
                    &&& forall|a: usize, b: usize|
                        adjacent(graph@, a as int, b as int) <==> is_joined(
                            edges@,
                            edges@.len() as int,
                            a,
                            b,
                        )
                },
                Err(e) => exists|i: int|
                    0 <= i < edges@.len() && rejection_at(order as nat, edges@, i) == Some(e)
                        && forall|j: int|
                        0 <= j < i ==> rejection_at(order as nat, edges@, j).is_none(),
            },
    {
        let mut graph = UndirectedGraph::new(order);
        let mut i: usize = 0;
        proof {
            assert forall|a: usize, b: usize| !adjacent(graph@, a as int, b as int) by {
                if adjacent(graph@, a as int, b as int) {
                    assert(graph@[a as int].len() == 0);
                }
            }
        }
        while i < edges.len()
            invariant
                i <= edges@.len(),
                graph.wf(),
                graph@.len() == order,
                forall|j: int| 0 <= j < i ==> rejection_at(order as nat, edges@, j).is_none(),
                forall|a: usize, b: usize|
                    adjacent(graph@, a as int, b as int) <==> is_joined(edges@, i as int, a, b),
            decreases edges@.len() - i,
        {
            let (u, v) = edges[i];
            let ghost before = graph@;
            match graph.add_edge(u, v) {
                Ok(()) => {},
                Err(e) => {
                    assert(rejection_at(order as nat, edges@, i as int) == Some(e));
                    return Err(e);
                },
            }
            proof {
                assert(rejection_at(order as nat, edges@, i as int).is_none());
                assert forall|a: usize, b: usize|
                    adjacent(graph@, a as int, b as int) <==> is_joined(edges@, i + 1, a, b) by {
                    assert(adjacent(before, a as int, b as int) <==> is_joined(
                        edges@,
                        i as int,
                        a,
                        b,
                    ));
                    if is_joined(edges@, i + 1, a, b) {
                        let k = choose|k: int|
                            0 <= k < i + 1 && k < edges@.len() && #[trigger] joins(edges@[k], a, b);
                        if k < i {
                            assert(joins(edges@[k], a, b));
                        }
                    }
                    if is_joined(edges@, i as int, a, b) {
                        let k = choose|k: int|
                            0 <= k < i && k < edges@.len() && #[trigger] joins(edges@[k], a, b);
                        assert(joins(edges@[k], a, b));
                    }
                    if (a == u && b == v) || (a == v && b == u) {
                        assert(joins(edges@[i as int], a, b));
                    }
                }
            }
            i += 1;
        }
        Ok(graph)
    }

    /// The graph that an editable graph describes, if its vertices are numbered
    /// without gaps and are so few that a labeling of them can be weighed; `None` if
    /// they are not.
    pub fn from_simple_graph(source: &SimpleGraph) -> (result: Option<Self>)
        requires
            source.wf(),
        ensures
            match result {
                Some(graph) => {
                    &&& compact(source@)
                    &&& weighable(source@.dom().len())
                    &&& graph.wf()
                    &&& graph@.len() == source@.dom().len()
                    &&& forall|a: usize, b: usize|
                        adjacent(graph@, a as int, b as int) <==> linked(source@, a, b)
                },
                None => !compact(source@) || !weighable(source@.dom().len()),
            },
    {
        let n = source.vertex_count();
        if !UndirectedGraph::admits(n) {
            return None;
        }
        let mut v: usize = 0;
        while v < n
            invariant
                v <= n,
                n == source@.dom().len(),
                forall|w: usize| w < v ==> source@.contains_key(w),
            decreases n - v,
        {
            if source.neighbors(v).is_err() {
                return None;
            }
            v += 1;
        }
        proof {
            lemma_compact(source@);
        }
        let mut graph = UndirectedGraph::new(n);
        proof {
            assert forall|a: usize, b: usize| !adjacent(graph@, a as int, b as int) by {
                if adjacent(graph@, a as int, b as int) {
                    assert(graph@[a as int].len() == 0);
                }
            }
        }
        let mut v: usize = 0;
        while v < n
            invariant
                v <= n,
                n == source@.dom().len(),
                source.wf(),
                source@.dom() == below(n as nat),
                graph.wf(),
                graph@.len() == n,
                forall|a: usize, b: usize|
                    adjacent(graph@, a as int, b as int) <==> linked(source@, a, b) && (a < v || b
                        < v),
            decreases n - v,
        {
            let set = match source.neighbors(v) {
                Ok(set) => set,
                Err(_) => {
                    assert(below(n as nat).contains(v));
                    return None;
                },
            };
            let ghost all = spec_hash_keys_iter(set).remaining();
            for neighbor in it: set.iter()
                invariant
                    it.seq() == all,
                    all.unref().to_set() == source@[v],
                    v < n,
                    n == source@.dom().len(),
                    source.wf(),
                    source@.dom() == below(n as nat),
                    source@.contains_key(v),
                    graph.wf(),
                    graph@.len() == n,
                    forall|a: usize, b: usize|
                        adjacent(graph@, a as int, b as int) <==> linked(source@, a, b) && (a < v
                            || b < v || (a == v && seen(all, it.index(), b)) || (b == v && seen(
                            all,
                            it.index(),
                            a,
                        ))),
            {
                let ghost index = it.index();
                let u = *neighbor;
                let ghost before = graph@;
                proof {
                    assert(*all[index] == u);
                    assert(all.unref()[index] == u);
                    assert(all.unref().to_set().contains(u));
                    assert(linked(source@, v, u));
                    assert(linked(source@, u, v));
                    assert(below(n as nat).contains(u));
                    assert forall|x: usize| seen(all, index + 1, x) <==> x == u || seen(
                        all,
                        index,
                        x,
                    ) by {
                        if seen(all, index + 1, x) {
                            let k = choose|k: int|
                                0 <= k < index + 1 && k < all.len() && *(#[trigger] all[k]) == x;
                            if k < index {
                                assert(*all[k] == x);
                            }
                        }
                        if seen(all, index, x) {
                            let k = choose|k: int|
                                0 <= k < index && k < all.len() && *(#[trigger] all[k]) == x;
                            assert(*all[k] == x);
                        }
                    }
                }
                if v < u {
                    proof {
                        assert(!seen(all, index, u)) by {
                            if seen(all, index, u) {
                                let k = choose|k: int|
                                    0 <= k < index && k < all.len() && *(#[trigger] all[k]) == u;
                                assert(all[k] == all[index]);
                                assert(all.no_duplicates());
                            }
                        }
                        assert(!adjacent(before, v as int, u as int));
                    }
                    let added = graph.add_edge(v, u);
                    assert(added.is_ok());
                }
            }
            proof {
                assert forall|a: usize, b: usize|
                    adjacent(graph@, a as int, b as int) <==> linked(source@, a, b) && (a < v + 1
                        || b < v + 1) by {
                    if linked(source@, a, b) && a == v {
                        assert(all.unref().to_set().contains(b));
                        let k = choose|k: int| 0 <= k < all.unref().len() && all.unref()[k] == b;
                        assert(*all[k] == b);
                        assert(seen(all, all.len() as int, b));
                    }
                    if linked(source@, a, b) && b == v {
                        assert(linked(source@, b, a));
                        assert(all.unref().to_set().contains(a));
                        let k = choose|k: int| 0 <= k < all.unref().len() && all.unref()[k] == a;
                        assert(*all[k] == a);
                        assert(seen(all, all.len() as int, a));
                    }
                }
            }
            v += 1;
        }
        proof {
            assert forall|a: usize, b: usize|
                adjacent(graph@, a as int, b as int) <==> linked(source@, a, b) by {
                if linked(source@, a, b) {
                    assert(below(n as nat).contains(a));
                }
            }
        }
        Some(graph)
    }

    /// The number of vertices.
    pub fn order(&self) -> (n: usize)
        ensures
            n == self@.len(),
    {
        self.adjacency.len()
    }

    /// The neighbors of `v` in ascending order; `None` where `v` is no vertex.
    pub fn neighbors(&self, v: usize) -> (list: Option<&[usize]>)
        ensures
            v < self@.len() ==> list.is_some() && list.unwrap()@ == self@[v as int],
            v >= self@.len() ==> list.is_none(),
    {
        if v < self.adjacency.len() {
            Some(self.adjacency[v].as_slice())
        } else {
            None
        }
    }

    /// The number of neighbors of `v`; `None` where `v` is no vertex.
    pub fn degree(&self, v: usize) -> (d: Option<usize>)
        ensures
            v < self@.len() ==> d == Some(self@[v as int].len() as usize),
            v >= self@.len() ==> d.is_none(),
    {
        if v < self.adjacency.len() {
            Some(self.adjacency[v].len())
        } else {
            None
        }
    }

    /// Whether `u` and `v` are joined by an edge.
    pub fn contains_edge(&self, u: usize, v: usize) -> (found: bool)
        requires
            self.wf(),
        ensures
            found == adjacent(self@, u as int, v as int),
    {
        if u >= self.adjacency.len() {
            return false;
        }
        let list = &self.adjacency[u];
        assert(list@ == self@[u as int]);
        let k = lower_bound(list, v);
        let found = k < list.len() && list[k] == v;
        proof {
            if !found && adjacent(self@, u as int, v as int) {
                let i = choose|i: int| 0 <= i < list@.len() && list@[i] == v;
                assert(i >= k);
                if i > k {
                    assert(list@[k as int] < list@[i]);
                }
            }
        }
        found
    }

    /// Whether some vertex has no neighbor.
    pub fn has_isolated_vertex(&self) -> (found: bool)
        ensures
            found == has_isolated(self@),
    {
        let mut v: usize = 0;
        while v < self.adjacency.len()
            invariant
                v <= self.adjacency@.len(),
                forall|w: int| 0 <= w < v ==> (#[trigger] self@[w]).len() > 0,
            decreases self.adjacency@.len() - v,
        {
            if self.adjacency[v].len() == 0 {
                assert(self@[v as int].len() == 0);
                return true;
            }
            assert(self@[v as int].len() > 0);
            v += 1;
        }
        false
    }

    /// Joins `u` and `v` by an edge. Refused, in this order, where `u` and `v` are the
    /// same vertex, where one of them is no vertex, and where the edge is there already.
    pub fn add_edge(&mut self, u: usize, v: usize) -> (result: Result<(), GraphError>)
        requires
            old(self).wf(),
        ensures
            final(self).wf(),
            final(self)@.len() == old(self)@.len(),
            match result {
                Ok(()) => {
                    &&& u != v
                    &&& u < old(self)@.len()
                    &&& v < old(self)@.len()
                    &&& !adjacent(old(self)@, u as int, v as int)
                    &&& forall|a: int, b: int|
                        adjacent(final(self)@, a, b) <==> adjacent(old(self)@, a, b) || (a == u
                            && b == v) || (a == v && b == u)
                },
                Err(e) => {
                    &&& final(self)@ == old(self)@
                    &&& e == rejection(old(self)@, u, v).unwrap()
                    &&& rejection(old(self)@, u, v).is_some()
                },
            },
    {
        proof {
            use_type_invariant(&*self);
        }
        if u == v {
            return Err(GraphError::SelfLoopNotAllowed);
        }
        let n = self.adjacency.len();
        if u >= n || v >= n {
            return Err(GraphError::VertexNotFound);
        }
        if self.contains_edge(u, v) {
            return Err(GraphError::EdgeAlreadyExists);
        }
        let ghost before = self@;
        proof {
            assert(!before[u as int].contains(v)) by {
                if before[u as int].contains(v) {
                    let i = choose|i: int|
                        0 <= i < before[u as int].len() && before[u as int][i] == v;
                    assert(adjacent(before, u as int, v as int));
                }
            }
            assert(!before[v as int].contains(u)) by {
                if before[v as int].contains(u) {
                    let i = choose|i: int|
                        0 <= i < before[v as int].len() && before[v as int][i] == u;
                    assert(adjacent(before, v as int, u as int));
                }
            }
            assert(ascending(before[u as int]));
            assert(ascending(before[v as int]));
        }
        insert_ascending(&mut self.adjacency[u], v);
        insert_ascending(&mut self.adjacency[v], u);
        proof {
            let after = self@;
            assert(after.len() == before.len());
            assert forall|w: int| 0 <= w < after.len() && w != u && w != v implies after[w]
                == before[w] by {}
            assert forall|a: int, b: int|
                adjacent(after, a, b) <==> adjacent(before, a, b) || (a == u && b == v) || (a == v
                    && b == u) by {
                lemma_adjacent_contains(after, a, b);
                lemma_adjacent_contains(before, a, b);
            }
            assert forall|w: int, i: int| 0 <= w < after.len() && 0 <= i < after[w].len() implies
                #[trigger] after[w][i] < after.len() && after[w][i] != w by {
                let y = after[w][i];
                assert(after[w].contains(y));
                if w == u || w == v {
                    if before[w].contains(y) {
                        let j = choose|j: int| 0 <= j < before[w].len() && before[w][j] == y;
                        assert(before[w][j] < before.len());
                    }
                }
            }
            assert forall|w: int, i: int, j: int|
                0 <= w < after.len() && 0 <= i < j < after[w].len() implies #[trigger] after[w][i]
                < #[trigger] after[w][j] by {
                assert(ascending(after[w]));
            }
        }
        Ok(())
    }
}

} // verus!
