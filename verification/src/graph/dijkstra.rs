//! The start of a search for shortest paths in a graph with weights.

use crate::graph::{Direct, WeightedListGraph};
use vstd::prelude::*;

verus! {

/// Graphs with weights in which shortest paths can be searched.
pub trait Dijkstrable<'a, S: Copy, D: Direct>: Sized {
    /// The number of vertices.
    spec fn size(&self) -> nat;

    /// The state of a search from `start` before its first step. `zero` is
    /// the weight of the path without edges.
    fn dijkstra(&'a self, start: usize, zero: S) -> (search: Dijkstra<'a, S, D>)
        requires
            start < self.size(),
        ensures
            search.origin() == start,
            search.distances().len() == self.size(),
            forall|v: int|
                0 <= v < self.size() ==> search.distances()[v] == if v == start {
                    Some(zero)
                } else {
                    None::<S>
                },
            search.pending() == seq![(zero, start)],
    ;
}

/// The state of a search for shortest paths: the distances found so far and
/// the vertices that wait to be settled, each with the weight it was reached
/// with.
pub struct Dijkstra<'a, S: Copy, D: Direct> {
    graph: &'a WeightedListGraph<S, D>,
    distance: Vec<Option<S>>,
    start: usize,
    p_queue: Vec<(S, usize)>,
}

impl<'a, S: Copy, D: Direct> Dijkstra<'a, S, D> {
    /// The vertex where the search begins.
    pub closed spec fn origin(&self) -> usize {
        self.start
    }

    /// The distance found for each vertex, if one was found.
    pub closed spec fn distances(&self) -> Seq<Option<S>> {
        self.distance@
    }

    /// The vertices that wait to be settled.
    pub closed spec fn pending(&self) -> Seq<(S, usize)> {
        self.p_queue@
    }

    /// The vertex where the search begins.
    pub fn start(&self) -> (s: usize)
        ensures
            s == self.origin(),
    {
        self.start
    }

    /// The distance found for `v`, if one was found.
    pub fn distance_to(&self, v: usize) -> (d: Option<S>)
        requires
            v < self.distances().len(),
        ensures
            d == self.distances()[v as int],
    {
        self.distance[v]
    }
}

impl<'a, S: Copy, D: Direct> Dijkstrable<'a, S, D> for WeightedListGraph<S, D> {
    open spec fn size(&self) -> nat {
        self.adj().len()
    }

    fn dijkstra(&'a self, start: usize, zero: S) -> (search: Dijkstra<'a, S, D>) {
        let n: usize = self.len();
        let mut distance: Vec<Option<S>> = Vec::new();
        let mut i: usize = 0;
        while i < n
            invariant
                i <= n,
                distance@.len() == i,
                forall|k: int| 0 <= k < i ==> distance@[k] == None::<S>,
            decreases n - i,
        {
            distance.push(None);
            i += 1;
        }
        distance.set(start, Some(zero));
        let mut p_queue: Vec<(S, usize)> = Vec::new();
        p_queue.push((zero, start));
        proof {
            assert(p_queue@ =~= seq![(zero, start)]);
        }
        Dijkstra { graph: self, distance, start, p_queue }
    }
}

} // verus!
