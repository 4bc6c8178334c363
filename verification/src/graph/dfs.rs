//! Depth-first walks.

use crate::bitset::{count_true, lemma_count_true_update};
use crate::graph::bfs::{lemma_reach_self, lemma_reach_step, reach};
use crate::graph::{is_closed, Direct, UnweightedListGraph};
use vstd::prelude::*;

verus! {

/// Whether `b` can be reached from `a` by a walk.
pub open spec fn connected(adj: Seq<Seq<usize>>, a: int, b: int) -> bool {
    exists|d: nat| reach(adj, a, b, d)
}

/// Which vertices have not been seen.
pub open spec fn unmarked(visited: Seq<bool>) -> Seq<bool> {
    Seq::new(visited.len(), |i: int| !visited[i])
}

/// The marks and the stack after the walk has gone on from `u` to its
/// neighbours `nbrs` from the `k`-th on: each neighbour without a mark gets
/// one and goes onto the stack with `u` as the vertex it was reached from.
pub open spec fn grown(
    nbrs: Seq<usize>,
    vis: Seq<bool>,
    st: Seq<(usize, Option<usize>)>,
    u: usize,
    k: int,
) -> (Seq<bool>, Seq<(usize, Option<usize>)>)
    decreases nbrs.len() - k,
{
    if k < 0 || k >= nbrs.len() {
        (vis, st)
    } else {
        let w = nbrs[k];
        if !vis[w as int] {
            grown(nbrs, vis.update(w as int, true), st.push((w, Some(u))), u, k + 1)
        } else {
            grown(nbrs, vis, st, u, k + 1)
        }
    }
}

/// The marks and the stack after the top of the stack was taken off and the
/// walk has gone on from its vertex to its neighbours.
pub open spec fn stepped(adj: Seq<Seq<usize>>, vis: Seq<bool>, st: Seq<(usize, Option<usize>)>) -> (
    Seq<bool>,
    Seq<(usize, Option<usize>)>,
) {
    let u = st.last().0;
    grown(adj[u as int], vis, st.drop_last(), u, 0)
}

/// The marks, the stack and the edge that one call for the next edge gives:
/// the walk steps on from the top of the stack and yields the edge by which
/// it had come to it; from the origin, to which no edge has led, it steps on
/// once more. No edge is yielded when the stack is empty.
pub open spec fn walked(adj: Seq<Seq<usize>>, vis: Seq<bool>, st: Seq<(usize, Option<usize>)>) -> (
    Seq<bool>,
    Seq<(usize, Option<usize>)>,
    Option<(usize, usize)>,
) {
    if st.len() == 0 {
        (vis, st, None)
    } else {
        let one = stepped(adj, vis, st);
        match st.last().1 {
            Some(p) => (one.0, one.1, Some((p, st.last().0))),
            None => if one.1.len() == 0 {
                (one.0, one.1, None)
            } else {
                let two = stepped(adj, one.0, one.1);
                match one.1.last().1 {
                    Some(p) => (two.0, two.1, Some((p, one.1.last().0))),
                    None => (two.0, two.1, None),
                }
            },
        }
    }
}

/// The state of the walk after `t` calls for the next edge.
pub open spec fn after(
    adj: Seq<Seq<usize>>,
    vis: Seq<bool>,
    q: Seq<(usize, Option<usize>)>,
    t: nat,
) -> (Seq<bool>, Seq<(usize, Option<usize>)>)
    decreases t,
{
    if t == 0 {
        (vis, q)
    } else {
        let before = after(adj, vis, q, (t - 1) as nat);
        let now = walked(adj, before.0, before.1);
        (now.0, now.1)
    }
}

/// The edge that the call for the next edge yields after `t` calls before
/// it.
pub open spec fn yielded(
    adj: Seq<Seq<usize>>,
    vis: Seq<bool>,
    q: Seq<(usize, Option<usize>)>,
    t: nat,
) -> Option<(usize, usize)> {
    let before = after(adj, vis, q, t);
    walked(adj, before.0, before.1).2
}

/// Whether a search that asks `f` ends with the call after `t` calls: `f`
/// refused the vertices of the edges that the first `t` calls yielded, and
/// the next call yields no edge, for the result `None`, or an edge to a
/// vertex that `f` accepted, for the result that is this vertex.
pub open spec fn found_by<F: Fn(usize) -> bool>(
    adj: Seq<Seq<usize>>,
    vis: Seq<bool>,
    q: Seq<(usize, Option<usize>)>,
    f: F,
    t: nat,
    res: Option<usize>,
) -> bool {
    &&& forall|j: nat|
        j < t ==> (#[trigger] yielded(adj, vis, q, j)) is Some && call_ensures(
            f,
            (yielded(adj, vis, q, j).unwrap().1,),
            false,
        )
    &&& match res {
        Some(to) => yielded(adj, vis, q, t) is Some && yielded(adj, vis, q, t).unwrap().1 == to
            && call_ensures(f, (to,), true),
        None => yielded(adj, vis, q, t) is None,
    }
}

/// Graphs that can be walked depth first.
pub trait Dfsable<'a, D: Direct>: Sized {
    /// The adjacency lists of the graph.
    spec fn edges(&self) -> Seq<Seq<usize>>;

    /// A depth-first walk from `start`.
    fn dfs(&'a self, start: usize) -> (walk: Dfs<'a, D>)
        requires
            start < self.edges().len(),
            is_closed(self.edges()),
        ensures
            walk.wf(),
            walk.edges() == self.edges(),
            walk.origin() == start,
            walk.seen(start as int),
    ;
}

/// A depth-first walk over a graph without weights: it yields the edges by
/// which it first comes to each vertex.
pub struct Dfs<'a, D: Direct> {
    graph: &'a UnweightedListGraph<D>,
    visited: Vec<bool>,
    start: usize,
    stack: Vec<(usize, Option<usize>)>,
}

impl<'a, D: Direct> Dfs<'a, D> {
    /// The adjacency lists of the graph that is walked.
    pub closed spec fn edges(&self) -> Seq<Seq<usize>> {
        self.graph.adj()
    }

    /// The vertex where the walk began.
    pub closed spec fn origin(&self) -> usize {
        self.start
    }

    /// Whether the walk has come to `v`.
    pub closed spec fn seen(&self, v: int) -> bool {
        self.visited@[v]
    }

    /// Which vertices the walk has come to.
    pub closed spec fn marks(&self) -> Seq<bool> {
        self.visited@
    }

    /// The vertices that wait for the walk to go on from them, each with the
    /// vertex it was reached from; the walk goes on from the last.
    pub closed spec fn pending(&self) -> Seq<(usize, Option<usize>)> {
        self.stack@
    }

    /// A bound on the number of steps that the walk still takes.
    pub closed spec fn fuel(&self) -> nat {
        2 * count_true(unmarked(self.visited@)) + self.stack@.len()
    }

    /// The invariant of the walk: each vertex that was seen can be reached
    /// from the origin, and each vertex on the stack was reached by an edge
    /// from the vertex recorded with it.
    pub closed spec fn wf(&self) -> bool {
        let n = self.graph.adj().len();
        &&& is_closed(self.graph.adj())
        &&& self.visited@.len() == n
        &&& self.start < n
        &&& forall|v: int|
            0 <= v < n && #[trigger] self.visited@[v] ==> connected(
                self.graph.adj(),
                self.start as int,
                v,
            )
        &&& forall|i: int|
            0 <= i < self.stack@.len() ==> self.entry_ok(#[trigger] self.stack@[i])
        &&& forall|i: int| 1 <= i < self.stack@.len() ==> (#[trigger] self.stack@[i]).1 is Some
    }

    /// Whether `entry` may stand on the stack.
    pub closed spec fn entry_ok(&self, entry: (usize, Option<usize>)) -> bool {
        let n = self.graph.adj().len();
        let u = entry.0;
        &&& u < n
        &&& self.visited@[u as int]
        &&& entry.1 matches Some(p) ==> self.is_tree_edge(p, u)
    }

    /// Whether `to` was reached from `from` by an edge.
    pub closed spec fn is_tree_edge(&self, from: usize, to: usize) -> bool {
        let n = self.graph.adj().len();
        &&& from < n
        &&& to < n
        &&& self.graph.adj()[from as int].contains(to)
        &&& self.seen(from as int)
        &&& self.seen(to as int)
    }

    /// A vertex that was seen can be reached from the origin.
    pub proof fn lemma_seen_is_connected(&self, v: int)
        requires
            self.wf(),
            0 <= v < self.edges().len(),
            self.seen(v),
        ensures
            connected(self.edges(), self.origin() as int, v),
    {
    }

    /// Marks the neighbours of `u` that the walk has not seen yet and puts
    /// them on the stack.
    fn expand(&mut self, u: usize)
        requires
            old(self).wf(),
            u < old(self).edges().len(),
            old(self).seen(u as int),
        ensures
            final(self).wf(),
            final(self).edges() == old(self).edges(),
            final(self).origin() == old(self).origin(),
            final(self).fuel() <= old(self).fuel(),
            forall|v: int|
                0 <= v < old(self).edges().len() && old(self).seen(v) ==> final(self).seen(v),
            (final(self).visited@, final(self).stack@) == grown(
                old(self).graph.adj()[u as int],
                old(self).visited@,
                old(self).stack@,
                u,
                0,
            ),
            (forall|i: int| 0 <= i < old(self).stack@.len() ==> old(self).stack@[i].1 is Some)
                ==> (forall|i: int|
                0 <= i < final(self).stack@.len() ==> final(self).stack@[i].1 is Some),
    {
        let degree: usize = self.graph.degree(u);
        let mut k: usize = 0;
        while k < degree
            invariant
                self.wf(),
                old(self).wf(),
                grown(self.graph.adj()[u as int], self.visited@, self.stack@, u, k as int)
                    == grown(
                    old(self).graph.adj()[u as int],
                    old(self).visited@,
                    old(self).stack@,
                    u,
                    0,
                ),
                (forall|i: int| 0 <= i < old(self).stack@.len() ==> old(self).stack@[i].1 is Some)
                    ==> (forall|i: int| 0 <= i < self.stack@.len() ==> self.stack@[i].1 is Some),
                self.graph == old(self).graph,
                self.start == old(self).start,
                u < self.graph.adj().len(),
                degree == self.graph.adj()[u as int].len(),
                k <= degree,
                self.visited@[u as int],
                self.fuel() <= old(self).fuel(),
                forall|v: int|
                    0 <= v < self.graph.adj().len() && old(self).seen(v) ==> self.seen(v),
            decreases degree - k,
        {
            let w: usize = self.graph.neighbor(u, k);
            let ghost vis1 = self.visited@;
            let ghost st1 = self.stack@;
            proof {
                assert(self.graph.adj()[u as int].contains(w)) by {
                    assert(self.graph.adj()[u as int][k as int] == w);
                }
            }
            if !self.visited[w] {
                let ghost before = self.visited@;
                let ghost stack_before = self.stack@;
                proof {
                    assert(unmarked(before)[w as int]);
                    lemma_count_true_update(unmarked(before), w as int, false);
                    let adj = self.graph.adj();
                    assert(connected(adj, self.start as int, u as int));
                    let d = choose|d: nat| reach(adj, self.start as int, u as int, d);
                    lemma_reach_step(adj, self.start as int, u as int, w, d);
                    assert(connected(adj, self.start as int, w as int));
                }
                self.visited.set(w, true);
                self.stack.push((w, Some(u)));
                proof {
                    assert(unmarked(self.visited@) =~= unmarked(before).update(w as int, false));
                    assert forall|i: int| 0 <= i < self.stack@.len() implies self.entry_ok(
                        #[trigger] self.stack@[i],
                    ) by {
                        if i < stack_before.len() {
                            assert(self.stack@[i] == stack_before[i]);
                        }
                    }
                }
            }
            proof {
                assert(grown(self.graph.adj()[u as int], vis1, st1, u, k as int) == grown(
                    self.graph.adj()[u as int],
                    self.visited@,
                    self.stack@,
                    u,
                    k + 1,
                ));
            }
            k += 1;
        }
    }

    /// Takes the top entry off the stack and walks on from its vertex.
    fn step(&mut self) -> (res: Option<(usize, Option<usize>)>)
        requires
            old(self).wf(),
        ensures
            final(self).wf(),
            final(self).edges() == old(self).edges(),
            final(self).origin() == old(self).origin(),
            forall|v: int|
                0 <= v < old(self).edges().len() && old(self).seen(v) ==> final(self).seen(v),
            match res {
                Some(entry) => {
                    &&& final(self).fuel() < old(self).fuel()
                    &&& entry.1 matches Some(p) ==> final(self).is_tree_edge(p, entry.0)
                    &&& old(self).stack@.len() > 0
                    &&& entry == old(self).stack@.last()
                    &&& (final(self).visited@, final(self).stack@) == stepped(
                        old(self).graph.adj(),
                        old(self).visited@,
                        old(self).stack@,
                    )
                    &&& entry.1 is None ==> forall|i: int|
                        0 <= i < final(self).stack@.len() ==> final(self).stack@[i].1 is Some
                },
                None => final(self).fuel() == old(self).fuel() && old(self).stack@.len() == 0
                    && final(self).stack@ == old(self).stack@ && final(self).visited@ == old(
                    self).visited@,
            },
    {
        let ghost before = self.stack@;
        match self.stack.pop() {
            None => None,
            Some((u, prev)) => {
                proof {
                    assert(old(self).entry_ok(before[before.len() - 1]));
                    assert forall|i: int| 0 <= i < self.stack@.len() implies self.entry_ok(
                        #[trigger] self.stack@[i],
                    ) by {
                        assert(self.stack@[i] == before[i]);
                        assert(old(self).entry_ok(before[i]));
                    }
                    assert(self.stack@ =~= before.drop_last());
                    assert forall|i: int| 1 <= i < self.stack@.len() implies (
                    #[trigger] self.stack@[i]).1 is Some by {
                        assert(self.stack@[i] == before[i]);
                    }
                    if prev is None {
                        // the one entry without an edge is the lowest
                        if before.len() > 1 {
                            assert(before[before.len() - 1].1 is Some);
                        }
                        assert(self.stack@.len() == 0);
                    }
                }
                self.expand(u);
                Some((u, prev))
            },
        }
    }

    /// The next edge by which the walk comes to a new vertex, or `None` when
    /// the walk is over.
    pub fn next(&mut self) -> (res: Option<(usize, usize)>)
        requires
            old(self).wf(),
        ensures
            final(self).wf(),
            final(self).edges() == old(self).edges(),
            final(self).origin() == old(self).origin(),
            forall|v: int|
                0 <= v < old(self).edges().len() && old(self).seen(v) ==> final(self).seen(v),
            match res {
                Some((from, to)) => final(self).is_tree_edge(from, to) && final(self).fuel() < old(
                    self).fuel(),
                None => final(self).fuel() <= old(self).fuel() && final(self).pending().len() == 0,
            },
            (final(self).marks(), final(self).pending(), res) == walked(
                old(self).edges(),
                old(self).marks(),
                old(self).pending(),
            ),
    {
        match self.step() {
            None => None,
            Some((u, prev)) => {
                match prev {
                    Some(p) => Some((p, u)),
                    None => {
                        match self.step() {
                            None => None,
                            Some((u2, prev2)) => {
                                match prev2 {
                                    Some(p2) => Some((p2, u2)),
                                    None => None,
                                }
                            },
                        }
                    },
                }
            },
        }
    }

    /// The first vertex on the rest of the walk that `f` accepts, or `None`
    /// when the walk ends without one.
    pub fn find<F: Fn(usize) -> bool>(&mut self, f: F) -> (res: Option<usize>)
        requires
            old(self).wf(),
            forall|x: usize| call_requires(f, (x,)),
        ensures
            final(self).wf(),
            final(self).edges() == old(self).edges(),
            final(self).origin() == old(self).origin(),
            res matches Some(to) ==> to < final(self).edges().len() && final(self).seen(to as int)
                && call_ensures(f, (to,), true),
            res is None ==> final(self).pending().len() == 0,
            exists|t: nat|
                #[trigger] found_by(
                    old(self).edges(),
                    old(self).marks(),
                    old(self).pending(),
                    f,
                    t,
                    res,
                ) && (final(self).marks(), final(self).pending()) == after(
                    old(self).edges(),
                    old(self).marks(),
                    old(self).pending(),
                    t + 1,
                ),
    {
        let ghost mut t: nat = 0;
        loop
            invariant
                self.wf(),
                self.edges() == old(self).edges(),
                self.origin() == old(self).origin(),
                forall|x: usize| call_requires(f, (x,)),
                (self.visited@, self.stack@) == after(
                    old(self).graph.adj(),
                    old(self).visited@,
                    old(self).stack@,
                    t,
                ),
                forall|j: nat|
                    j < t ==> (#[trigger] yielded(
                        old(self).graph.adj(),
                        old(self).visited@,
                        old(self).stack@,
                        j,
                    )) is Some && call_ensures(
                        f,
                        (yielded(
                            old(self).graph.adj(),
                            old(self).visited@,
                            old(self).stack@,
                            j,
                        ).unwrap().1,),
                        false,
                    ),
            decreases self.fuel(),
        {
            let ghost adj = old(self).graph.adj();
            let ghost vis0 = old(self).visited@;
            let ghost q0 = old(self).stack@;
            match self.next() {
                None => {
                    proof {
                        assert(yielded(adj, vis0, q0, t) is None);
                        assert((self.visited@, self.stack@) == after(adj, vis0, q0, t + 1));
                        assert(found_by(adj, vis0, q0, f, t, None));
                        assert(found_by(
                            old(self).edges(),
                            old(self).marks(),
                            old(self).pending(),
                            f,
                            t,
                            None,
                        ) && (self.marks(), self.pending()) == after(
                            old(self).edges(),
                            old(self).marks(),
                            old(self).pending(),
                            t + 1,
                        ));
                    }
                    return None;
                },
                Some((_from, to)) => {
                    proof {
                        assert(yielded(adj, vis0, q0, t) == Some((_from, to)));
                        assert((self.visited@, self.stack@) == after(adj, vis0, q0, t + 1));
                    }
                    if f(to) {
                        proof {
                            assert(found_by(adj, vis0, q0, f, t, Some(to)));
                            assert(found_by(
                                old(self).edges(),
                                old(self).marks(),
                                old(self).pending(),
                                f,
                                t,
                                Some(to),
                            ) && (self.marks(), self.pending()) == after(
                                old(self).edges(),
                                old(self).marks(),
                                old(self).pending(),
                                t + 1,
                            ));
                        }
                        return Some(to);
                    }
                    proof {
                        t = t + 1;
                    }
                },
            }
        }
    }
}

impl<'a, D: Direct> Dfsable<'a, D> for UnweightedListGraph<D> {
    open spec fn edges(&self) -> Seq<Seq<usize>> {
        self.adj()
    }

    fn dfs(&'a self, start: usize) -> (walk: Dfs<'a, D>) {
        let n: usize = self.len();
        let mut visited: Vec<bool> = Vec::new();
        let mut i: usize = 0;
        while i < n
            invariant
                i <= n,
                visited@.len() == i,
                forall|k: int| 0 <= k < i ==> !visited@[k],
            decreases n - i,
        {
            visited.push(false);
            i += 1;
        }
        visited.set(start, true);
        let mut stack: Vec<(usize, Option<usize>)> = Vec::new();
        stack.push((start, None));
        let walk = Dfs { graph: self, visited, start, stack };
        proof {
            lemma_reach_self(self.adj(), start as int);
            assert(connected(self.adj(), start as int, start as int));
            assert(walk.entry_ok(walk.stack@[0]));
            assert forall|v: int| 0 <= v < n && #[trigger] walk.visited@[v] implies connected(
                walk.graph.adj(),
                walk.start as int,
                v,
            ) by {
                assert(v == start);
            }
        }
        walk
    }
}

} // verus!
