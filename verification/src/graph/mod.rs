//! Graphs as adjacency lists, with breadth-first and depth-first walks.

pub mod bfs;
pub mod dfs;
pub mod dijkstra;

use core::marker::PhantomData;
use vstd::prelude::*;

verus! {

/// Whether the edges of a graph have a direction.
pub trait Direct {
    /// Whether an edge leads one way only.
    spec fn is_directed() -> bool;

    /// Whether an edge leads one way only.
    fn directed() -> (b: bool)
        ensures
            b == Self::is_directed(),
    ;
}

/// Edges that lead both ways.
pub struct Undirected;

/// Edges that lead one way.
pub struct Directed;

impl Direct for Directed {
    open spec fn is_directed() -> bool {
        true
    }

    fn directed() -> (b: bool) {
        true
    }
}

impl Direct for Undirected {
    open spec fn is_directed() -> bool {
        false
    }

    fn directed() -> (b: bool) {
        false
    }
}

/// Whether the edges of a graph with adjacency entries `T` carry a weight.
pub trait Weigh<T> {
    /// Whether an edge carries a weight.
    spec fn is_weighted() -> bool;

    /// Whether an edge carries a weight.
    fn weighted() -> (b: bool)
        ensures
            b == Self::is_weighted(),
    ;
}

/// Edges without a weight.
pub struct Unweighted;

/// Edges with a weight of type `S`.
pub struct Weighted<S> {
    phantom: PhantomData<S>,
}

impl Weigh<usize> for Unweighted {
    open spec fn is_weighted() -> bool {
        false
    }

    fn weighted() -> (b: bool) {
        false
    }
}

impl<S> Weigh<(usize, S)> for Weighted<S> {
    open spec fn is_weighted() -> bool {
        true
    }

    fn weighted() -> (b: bool) {
        true
    }
}

/// A graph on the vertices `0..n`, with a list of adjacency entries for each
/// vertex.
pub struct ListGraph<S, D: Direct, W: Weigh<S>> {
    _phantom: (PhantomData<D>, PhantomData<W>),
    inner: Vec<Vec<S>>,
}

pub type UnweightedListGraph<D> = ListGraph<usize, D, Unweighted>;

pub type UndirectedUnweightedListGraph = UnweightedListGraph<Undirected>;

pub type DirectedUnweightedListGraph = UnweightedListGraph<Directed>;

pub type WeightedListGraph<S, D> = ListGraph<(usize, S), D, Weighted<S>>;

pub type UndirectedWeightedListGraph<S> = WeightedListGraph<S, Undirected>;

pub type DirectedWeightedListGraph<S> = WeightedListGraph<S, Directed>;

/// The adjacency lists behind a vector of vectors.
pub open spec fn lists<S>(inner: Seq<Vec<S>>) -> Seq<Seq<S>> {
    Seq::new(inner.len(), |i: int| inner[i]@)
}

/// The adjacency lists `adj` with `entry` added to the list of `from`.
pub open spec fn with_entry<S>(adj: Seq<Seq<S>>, from: int, entry: S) -> Seq<Seq<S>> {
    adj.update(from, adj[from].push(entry))
}

/// The adjacency lists `adj` with the edges `edges` added in their order,
/// each both ways unless the graph is directed.
pub open spec fn with_edges(adj: Seq<Seq<usize>>, edges: Seq<(usize, usize)>, directed: bool) -> Seq<
    Seq<usize>,
>
    decreases edges.len(),
{
    if edges.len() == 0 {
        adj
    } else {
        let before = with_edges(adj, edges.drop_last(), directed);
        let e = edges.last();
        let one = with_entry(before, e.0 as int, e.1);
        if directed {
            one
        } else {
            with_entry(one, e.1 as int, e.0)
        }
    }
}

/// The adjacency lists `adj` with the weighted edges `edges` added in their
/// order, each both ways unless the graph is directed.
pub open spec fn with_weighted_edges<S>(
    adj: Seq<Seq<(usize, S)>>,
    edges: Seq<(usize, usize, S)>,
    directed: bool,
) -> Seq<Seq<(usize, S)>>
    decreases edges.len(),
{
    if edges.len() == 0 {
        adj
    } else {
        let before = with_weighted_edges(adj, edges.drop_last(), directed);
        let e = edges.last();
        let one = with_entry(before, e.0 as int, (e.1, e.2));
        if directed {
            one
        } else {
            with_entry(one, e.1 as int, (e.0, e.2))
        }
    }
}

/// Whether every neighbour in `adj` is a vertex.
pub open spec fn is_closed(adj: Seq<Seq<usize>>) -> bool {
    forall|u: int, k: int| 0 <= u < adj.len() && 0 <= k < adj[u].len() ==> adj[u][k] < adj.len()
}

/// `n` empty adjacency lists.
fn empty_lists<S>(n: usize) -> (inner: Vec<Vec<S>>)
    ensures
        inner@.len() == n,
        forall|i: int| 0 <= i < n ==> inner@[i]@.len() == 0,
{
    let mut inner: Vec<Vec<S>> = Vec::new();
    let mut i: usize = 0;
    while i < n
        invariant
            i <= n,
            inner@.len() == i,
            forall|k: int| 0 <= k < i ==> inner@[k]@.len() == 0,
        decreases n - i,
    {
        inner.push(Vec::new());
        i += 1;
    }
    inner
}

/// Adds `entry` to the list of `from`.
fn push_entry<S>(inner: &mut Vec<Vec<S>>, from: usize, entry: S)
    requires
        from < old(inner)@.len(),
    ensures
        lists(final(inner)@) == with_entry(lists(old(inner)@), from as int, entry),
        final(inner)@.len() == old(inner)@.len(),
{
    let mut row: Vec<S> = Vec::new();
    let ghost before = inner@;
    core::mem::swap(&mut row, &mut inner[from]);
    row.push(entry);
    core::mem::swap(&mut row, &mut inner[from]);
    proof {
        assert(lists(inner@) =~= with_entry(lists(before), from as int, entry));
    }
}

impl<S, D: Direct, W: Weigh<S>> ListGraph<S, D, W> {
    /// The adjacency lists.
    pub closed spec fn adj(&self) -> Seq<Seq<S>> {
        lists(self.inner@)
    }
}

impl<D: Direct> UnweightedListGraph<D> {
    /// The graph on `n` vertices without edges.
    pub fn new(n: usize) -> (res: Self)
        ensures
            res.adj().len() == n,
            forall|i: int| 0 <= i < n ==> res.adj()[i].len() == 0,
    {
        Self { _phantom: (PhantomData, PhantomData), inner: empty_lists(n) }
    }

    /// The number of vertices.
    pub fn len(&self) -> (n: usize)
        ensures
            n == self.adj().len(),
    {
        self.inner.len()
    }

    /// The number of neighbours listed for `u`.
    pub fn degree(&self, u: usize) -> (d: usize)
        requires
            u < self.adj().len(),
        ensures
            d == self.adj()[u as int].len(),
    {
        self.inner[u].len()
    }

    /// The `k`-th neighbour listed for `u`.
    pub fn neighbor(&self, u: usize, k: usize) -> (v: usize)
        requires
            u < self.adj().len(),
            k < self.adj()[u as int].len(),
        ensures
            v == self.adj()[u as int][k as int],
    {
        self.inner[u][k]
    }
}

impl UndirectedUnweightedListGraph {
    /// Adds an edge between `from` and `to`.
    pub fn add_edge(&mut self, from: usize, to: usize)
        requires
            from < old(self).adj().len(),
            to < old(self).adj().len(),
        ensures
            final(self).adj() == with_entry(
                with_entry(old(self).adj(), from as int, to),
                to as int,
                from,
            ),
    {
        push_entry(&mut self.inner, from, to);
        push_entry(&mut self.inner, to, from);
    }

    /// The graph on `n` vertices with the edges `edges`.
    pub fn from_edges(n: usize, edges: &[(usize, usize)]) -> (res: Self)
        requires
            forall|i: int| 0 <= i < edges@.len() ==> edges@[i].0 < n && edges@[i].1 < n,
        ensures
            res.adj() == with_edges(Seq::new(n as nat, |i: int| Seq::empty()), edges@, false),
            res.adj().len() == n,
    {
        let mut res = Self::new(n);
        let ghost start = res.adj();
        assert(start =~~= Seq::new(n as nat, |i: int| Seq::empty()));
        let mut i: usize = 0;
        while i < edges.len()
            invariant
                i <= edges@.len(),
                res.adj().len() == n,
                forall|k: int| 0 <= k < edges@.len() ==> edges@[k].0 < n && edges@[k].1 < n,
                res.adj() == with_edges(start, edges@.subrange(0, i as int), false),
            decreases edges@.len() - i,
        {
            let (from, to) = edges[i];
            res.add_edge(from, to);
            proof {
                assert(edges@.subrange(0, i + 1).drop_last() =~= edges@.subrange(0, i as int));
            }
            i += 1;
        }
        proof {
            assert(edges@.subrange(0, edges@.len() as int) =~= edges@);
        }
        res
    }
}

impl DirectedUnweightedListGraph {
    /// Adds an edge from `from` to `to`.
    pub fn add_edge(&mut self, from: usize, to: usize)
        requires
            from < old(self).adj().len(),
        ensures
            final(self).adj() == with_entry(old(self).adj(), from as int, to),
    {
        push_entry(&mut self.inner, from, to);
    }

    /// The graph on `n` vertices with the edges `edges`.
    pub fn from_edges(n: usize, edges: &[(usize, usize)]) -> (res: Self)
        requires
            forall|i: int| 0 <= i < edges@.len() ==> edges@[i].0 < n,
        ensures
            res.adj() == with_edges(Seq::new(n as nat, |i: int| Seq::empty()), edges@, true),
            res.adj().len() == n,
    {
        let mut res = Self::new(n);
        let ghost start = res.adj();
        assert(start =~~= Seq::new(n as nat, |i: int| Seq::empty()));
        let mut i: usize = 0;
        while i < edges.len()
            invariant
                i <= edges@.len(),
                res.adj().len() == n,
                forall|k: int| 0 <= k < edges@.len() ==> edges@[k].0 < n,
                res.adj() == with_edges(start, edges@.subrange(0, i as int), true),
            decreases edges@.len() - i,
        {
            let (from, to) = edges[i];
            res.add_edge(from, to);
            proof {
                assert(edges@.subrange(0, i + 1).drop_last() =~= edges@.subrange(0, i as int));
            }
            i += 1;
        }
        proof {
            assert(edges@.subrange(0, edges@.len() as int) =~= edges@);
        }
        res
    }
}

impl<S: Copy, D: Direct> WeightedListGraph<S, D> {
    /// The graph on `n` vertices without edges.
    pub fn new(n: usize) -> (res: Self)
        ensures
            res.adj().len() == n,
            forall|i: int| 0 <= i < n ==> res.adj()[i].len() == 0,
    {
        Self { _phantom: (PhantomData, PhantomData), inner: empty_lists(n) }
    }

    /// The number of vertices.
    pub fn len(&self) -> (n: usize)
        ensures
            n == self.adj().len(),
    {
        self.inner.len()
    }
}

impl<S: Copy> UndirectedWeightedListGraph<S> {
    /// Adds an edge of weight `weight` between `from` and `to`.
    pub fn add_edge(&mut self, from: usize, to: usize, weight: S)
        requires
            from < old(self).adj().len(),
            to < old(self).adj().len(),
        ensures
            final(self).adj() == with_entry(
                with_entry(old(self).adj(), from as int, (to, weight)),
                to as int,
                (from, weight),
            ),
    {
        push_entry(&mut self.inner, from, (to, weight));
        push_entry(&mut self.inner, to, (from, weight));
    }

    /// The graph on `n` vertices with the edges `edges`.
    pub fn from_edges(n: usize, edges: &[(usize, usize, S)]) -> (res: Self)
        requires
            forall|i: int| 0 <= i < edges@.len() ==> edges@[i].0 < n && edges@[i].1 < n,
        ensures
            res.adj() == with_weighted_edges(
                Seq::new(n as nat, |i: int| Seq::empty()),
                edges@,
                false,
            ),
            res.adj().len() == n,
    {
        let mut res = Self::new(n);
        let ghost start = res.adj();
        assert(start =~~= Seq::new(n as nat, |i: int| Seq::empty()));
        let mut i: usize = 0;
        while i < edges.len()
            invariant
                i <= edges@.len(),
                res.adj().len() == n,
                forall|k: int| 0 <= k < edges@.len() ==> edges@[k].0 < n && edges@[k].1 < n,
                res.adj() == with_weighted_edges(start, edges@.subrange(0, i as int), false),
            decreases edges@.len() - i,
        {
            let (from, to, weight) = edges[i];
            res.add_edge(from, to, weight);
            proof {
                assert(edges@.subrange(0, i + 1).drop_last() =~= edges@.subrange(0, i as int));
            }
            i += 1;
        }
        proof {
            assert(edges@.subrange(0, edges@.len() as int) =~= edges@);
        }
        res
    }
}

impl<S: Copy> DirectedWeightedListGraph<S> {
    /// Adds an edge of weight `weight` from `from` to `to`.
    pub fn add_edge(&mut self, from: usize, to: usize, weight: S)
        requires
            from < old(self).adj().len(),
        ensures
            final(self).adj() == with_entry(old(self).adj(), from as int, (to, weight)),
    {
        push_entry(&mut self.inner, from, (to, weight));
    }

    /// The graph on `n` vertices with the edges `edges`.
    pub fn from_edges(n: usize, edges: &[(usize, usize, S)]) -> (res: Self)
        requires
            forall|i: int| 0 <= i < edges@.len() ==> edges@[i].0 < n,
        ensures
            res.adj() == with_weighted_edges(
                Seq::new(n as nat, |i: int| Seq::empty()),
                edges@,
                true,
            ),
            res.adj().len() == n,
    {
        let mut res = Self::new(n);
        let ghost start = res.adj();
        assert(start =~~= Seq::new(n as nat, |i: int| Seq::empty()));
        let mut i: usize = 0;
        while i < edges.len()
            invariant
                i <= edges@.len(),
                res.adj().len() == n,
                forall|k: int| 0 <= k < edges@.len() ==> edges@[k].0 < n,
                res.adj() == with_weighted_edges(start, edges@.subrange(0, i as int), true),
            decreases edges@.len() - i,
        {
            let (from, to, weight) = edges[i];
            res.add_edge(from, to, weight);
            proof {
                assert(edges@.subrange(0, i + 1).drop_last() =~= edges@.subrange(0, i as int));
            }
            i += 1;
        }
        proof {
            assert(edges@.subrange(0, edges@.len() as int) =~= edges@);
        }
        res
    }
}

} // verus!
