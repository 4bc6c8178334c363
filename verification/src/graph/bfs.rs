//! Breadth-first walks.

use crate::bitset::{count_true, lemma_count_true_bounds, lemma_count_true_update};
use crate::graph::{is_closed, Direct, UnweightedListGraph};
use std::collections::VecDeque;
use vstd::prelude::*;

verus! {

/// Whether `path` lists the vertices of a walk along edges of `adj`.
pub open spec fn is_walk(adj: Seq<Seq<usize>>, path: Seq<int>) -> bool {
    &&& path.len() >= 1
    &&& forall|i: int| 0 <= i < path.len() ==> 0 <= #[trigger] path[i] < adj.len()
    &&& forall|i: int|
        0 <= i < path.len() - 1 ==> adj[#[trigger] path[i]].contains(path[i + 1] as usize)
}

/// Whether `b` can be reached from `a` by a walk of `d` edges.
pub open spec fn reach(adj: Seq<Seq<usize>>, a: int, b: int, d: nat) -> bool {
    exists|path: Seq<int>|
        #[trigger] is_walk(adj, path) && path.len() == d + 1 && path[0] == a && path[d as int] == b
}

/// A vertex is reached from itself by the walk without edges.
pub proof fn lemma_reach_self(adj: Seq<Seq<usize>>, a: int)
    requires
        0 <= a < adj.len(),
    ensures
        reach(adj, a, a, 0),
{
    let path = seq![a];
    assert(is_walk(adj, path));
}

/// A walk goes on by an edge.
pub proof fn lemma_reach_step(adj: Seq<Seq<usize>>, a: int, m: int, b: usize, d: nat)
    requires
        reach(adj, a, m, d),
        0 <= m < adj.len(),
        adj[m].contains(b),
        b < adj.len(),
    ensures
        reach(adj, a, b as int, d + 1),
{
    let path = choose|path: Seq<int>|
        #[trigger] is_walk(adj, path) && path.len() == d + 1 && path[0] == a && path[d as int] == m;
    let longer = path.push(b as int);
    assert forall|i: int| 0 <= i < longer.len() - 1 implies adj[#[trigger] longer[i]].contains(
        longer[i + 1] as usize,
    ) by {
        if i < path.len() - 1 {
            assert(adj[path[i]].contains(path[i + 1] as usize));
        }
    }
    assert(is_walk(adj, longer));
    assert(longer[(d + 1) as int] == b as int);
}

/// Which vertices have no distance yet.
pub open spec fn unseen(visited: Seq<Option<usize>>) -> Seq<bool> {
    Seq::new(visited.len(), |i: int| visited[i] is None)
}

/// The distances and the queue after the walk has gone on from `u`, which is
/// at distance `d`, to its neighbours `nbrs` from the `k`-th on: each
/// neighbour without a distance gets `d + 1` and joins the queue with `u` as
/// the vertex it was reached from.
pub open spec fn grown(
    nbrs: Seq<usize>,
    vis: Seq<Option<usize>>,
    q: Seq<(usize, Option<usize>)>,
    u: usize,
    d: usize,
    k: int,
) -> (Seq<Option<usize>>, Seq<(usize, Option<usize>)>)
    decreases nbrs.len() - k,
{
    if k < 0 || k >= nbrs.len() {
        (vis, q)
    } else {
        let w = nbrs[k];
        if vis[w as int] is None {
            grown(
                nbrs,
                vis.update(w as int, Some((d + 1) as usize)),
                q.push((w, Some(u))),
                u,
                d,
                k + 1,
            )
        } else {
            grown(nbrs, vis, q, u, d, k + 1)
        }
    }
}

/// The distances and the queue after the first vertex of the queue was
/// taken off and the walk has gone on from it to its neighbours.
pub open spec fn stepped(
    adj: Seq<Seq<usize>>,
    vis: Seq<Option<usize>>,
    q: Seq<(usize, Option<usize>)>,
) -> (Seq<Option<usize>>, Seq<(usize, Option<usize>)>) {
    let u = q[0].0;
    grown(adj[u as int], vis, q.drop_first(), u, vis[u as int].unwrap(), 0)
}

/// The distances, the queue and the edge that one call for the next edge
/// gives: the walk steps on from the first vertex of the queue and yields
/// the edge by which it had come to it; from the origin, to which no edge
/// has led, it steps on once more. No edge is yielded when the queue is
/// empty.
pub open spec fn walked(
    adj: Seq<Seq<usize>>,
    vis: Seq<Option<usize>>,
    q: Seq<(usize, Option<usize>)>,
) -> (Seq<Option<usize>>, Seq<(usize, Option<usize>)>, Option<(usize, usize)>) {
    if q.len() == 0 {
        (vis, q, None)
    } else {
        let one = stepped(adj, vis, q);
        match q[0].1 {
            Some(p) => (one.0, one.1, Some((p, q[0].0))),
            None => if one.1.len() == 0 {
                (one.0, one.1, None)
            } else {
                let two = stepped(adj, one.0, one.1);
                match one.1[0].1 {
                    Some(p) => (two.0, two.1, Some((p, one.1[0].0))),
                    None => (two.0, two.1, None),
                }
            },
        }
    }
}

/// The state of the walk after `t` calls for the next edge.
pub open spec fn after(
    adj: Seq<Seq<usize>>,
    vis: Seq<Option<usize>>,
    q: Seq<(usize, Option<usize>)>,
    t: nat,
) -> (Seq<Option<usize>>, Seq<(usize, Option<usize>)>)
    decreases t,
{
    if t == 0 {
        (vis, q)
    } else {
        let before = after(adj, vis, q, (t - 1) as nat);
        let now = walked(adj, before.0, before.1);
        (now.0, now.1)
    }
}

/// The edge that the call for the next edge yields after `t` calls before
/// it.
pub open spec fn yielded(
    adj: Seq<Seq<usize>>,
    vis: Seq<Option<usize>>,
    q: Seq<(usize, Option<usize>)>,
    t: nat,
) -> Option<(usize, usize)> {
    let before = after(adj, vis, q, t);
    walked(adj, before.0, before.1).2
}

/// Whether a search that asks `f` ends with the call after `t` calls: `f`
/// refused the vertices of the edges that the first `t` calls yielded, and
/// the next call yields no edge, for the result `None`, or an edge to a
/// vertex that `f` accepted, for the result that is this vertex.
pub open spec fn found_by<F: Fn(usize) -> bool>(
    adj: Seq<Seq<usize>>,
    vis: Seq<Option<usize>>,
    q: Seq<(usize, Option<usize>)>,
    f: F,
    t: nat,
    res: Option<usize>,
) -> bool {
    &&& forall|j: nat|
        j < t ==> (#[trigger] yielded(adj, vis, q, j)) is Some && call_ensures(
            f,
            (yielded(adj, vis, q, j).unwrap().1,),
            false,
        )
    &&& match res {
        Some(to) => yielded(adj, vis, q, t) is Some && yielded(adj, vis, q, t).unwrap().1 == to
            && call_ensures(f, (to,), true),
        None => yielded(adj, vis, q, t) is None,
    }
}

/// Whether a search for `goal` ends with the call after `t` calls: the first
/// `t` calls yielded edges to other vertices, and the next call yields no
/// edge, for the result `None`, or an edge to `goal`, for the result that is
/// the distance `now` has for `goal`.
pub open spec fn sought(
    adj: Seq<Seq<usize>>,
    vis: Seq<Option<usize>>,
    q: Seq<(usize, Option<usize>)>,
    goal: usize,
    t: nat,
    res: Option<usize>,
    now: Seq<Option<usize>>,
) -> bool {
    &&& forall|j: nat|
        j < t ==> (#[trigger] yielded(adj, vis, q, j)) is Some && yielded(adj, vis, q, j).unwrap().1
            != goal
    &&& match res {
        Some(d) => yielded(adj, vis, q, t) is Some && yielded(adj, vis, q, t).unwrap().1 == goal
            && now[goal as int] == Some(d),
        None => yielded(adj, vis, q, t) is None,
    }
}

/// Graphs that can be walked breadth first.
pub trait Bfsable<'a, D: Direct>: Sized {
    /// The adjacency lists of the graph.
    spec fn edges(&self) -> Seq<Seq<usize>>;

    /// A breadth-first walk from `start`.
    fn bfs(&'a self, start: usize) -> (walk: Bfs<'a, D>)
        requires
            start < self.edges().len(),
            is_closed(self.edges()),
        ensures
            walk.wf(),
            walk.edges() == self.edges(),
            walk.origin() == start,
            walk.distance(start as int) == Some(0usize),
    ;
}

/// A breadth-first walk over a graph without weights: it yields the edges by
/// which it first comes to each vertex.
pub struct Bfs<'a, D: Direct> {
    graph: &'a UnweightedListGraph<D>,
    visited: Vec<Option<usize>>,
    start: usize,
    queue: VecDeque<(usize, Option<usize>)>,
}

impl<'a, D: Direct> Bfs<'a, D> {
    /// The adjacency lists of the graph that is walked.
    pub closed spec fn edges(&self) -> Seq<Seq<usize>> {
        self.graph.adj()
    }

    /// The vertex where the walk began.
    pub closed spec fn origin(&self) -> usize {
        self.start
    }

    /// The number of edges by which the walk came to `v`, if it has.
    pub closed spec fn distance(&self, v: int) -> Option<usize> {
        self.visited@[v]
    }

    /// The distances of all vertices, as far as the walk has come to them.
    pub closed spec fn distances(&self) -> Seq<Option<usize>> {
        self.visited@
    }

    /// The vertices that wait for the walk to go on from them, each with the
    /// vertex it was reached from.
    pub closed spec fn pending(&self) -> Seq<(usize, Option<usize>)> {
        self.queue@
    }

    /// A bound on the number of steps that the walk still takes.
    pub closed spec fn fuel(&self) -> nat {
        2 * count_true(unseen(self.visited@)) + self.queue@.len()
    }

    /// The invariant of the walk: each distance that is recorded is the
    /// length of a walk from the origin, and each vertex in the queue was
    /// reached by an edge from the vertex recorded with it.
    pub closed spec fn wf(&self) -> bool {
        let n = self.graph.adj().len();
        &&& is_closed(self.graph.adj())
        &&& self.visited@.len() == n
        &&& self.start < n
        &&& self.visited@[self.start as int] == Some(0usize)
        &&& forall|v: int|
            0 <= v < n && (#[trigger] self.visited@[v]) is Some ==> reach(
                self.graph.adj(),
                self.start as int,
                v,
                self.visited@[v].unwrap() as nat,
            ) && self.visited@[v].unwrap() + count_true(unseen(self.visited@)) < n
        &&& forall|i: int|
            0 <= i < self.queue@.len() ==> self.entry_ok(#[trigger] self.queue@[i], i)
    }

    /// Whether `entry` may stand at place `i` of the queue.
    pub closed spec fn entry_ok(&self, entry: (usize, Option<usize>), i: int) -> bool {
        let n = self.graph.adj().len();
        let u = entry.0;
        &&& u < n
        &&& self.visited@[u as int] is Some
        &&& match entry.1 {
            Some(p) => {
                &&& p < n
                &&& self.graph.adj()[p as int].contains(u)
                &&& self.visited@[p as int] is Some
                &&& self.visited@[u as int].unwrap() == self.visited@[p as int].unwrap() + 1
            },
            None => i == 0,
        }
    }

    /// Whether `to` was reached from `from` by an edge, one step further from
    /// the origin.
    pub closed spec fn is_tree_edge(&self, from: usize, to: usize) -> bool {
        let n = self.graph.adj().len();
        &&& from < n
        &&& to < n
        &&& self.graph.adj()[from as int].contains(to)
        &&& self.distance(from as int) is Some
        &&& self.distance(to as int) is Some
        &&& self.distance(to as int).unwrap() == self.distance(from as int).unwrap() + 1
    }

    /// A distance that is recorded is the length of a walk from the origin.
    pub proof fn lemma_distance_is_reached(&self, v: int)
        requires
            self.wf(),
            0 <= v < self.edges().len(),
            self.distance(v) is Some,
        ensures
            reach(self.edges(), self.origin() as int, v, self.distance(v).unwrap() as nat),
    {
    }

    /// The vertex where the walk began.
    pub fn start(&self) -> (s: usize)
        ensures
            s == self.origin(),
    {
        self.start
    }

    /// Records the neighbours of `u` that the walk has not seen yet, one step
    /// further than `u`, and queues them.
    fn expand(&mut self, u: usize)
        requires
            old(self).wf(),
            u < old(self).edges().len(),
            old(self).distance(u as int) is Some,
        ensures
            final(self).wf(),
            final(self).edges() == old(self).edges(),
            final(self).origin() == old(self).origin(),
            final(self).fuel() <= old(self).fuel(),
            forall|v: int|
                0 <= v < old(self).edges().len() && old(self).distance(v) is Some ==> final(self).distance(v) == old(self).distance(v),
            (final(self).visited@, final(self).queue@) == grown(
                old(self).graph.adj()[u as int],
                old(self).visited@,
                old(self).queue@,
                u,
                old(self).visited@[u as int].unwrap(),
                0,
            ),
            (forall|i: int| 0 <= i < old(self).queue@.len() ==> old(self).queue@[i].1 is Some)
                ==> (forall|i: int|
                0 <= i < final(self).queue@.len() ==> final(self).queue@[i].1 is Some),
    {
        let degree: usize = self.graph.degree(u);
        let n: usize = self.visited.len();
        let mut k: usize = 0;
        while k < degree
            invariant
                self.wf(),
                old(self).wf(),
                grown(
                    self.graph.adj()[u as int],
                    self.visited@,
                    self.queue@,
                    u,
                    old(self).visited@[u as int].unwrap(),
                    k as int,
                ) == grown(
                    old(self).graph.adj()[u as int],
                    old(self).visited@,
                    old(self).queue@,
                    u,
                    old(self).visited@[u as int].unwrap(),
                    0,
                ),
                old(self).visited@[u as int] is Some,
                (forall|i: int| 0 <= i < old(self).queue@.len() ==> old(self).queue@[i].1 is Some)
                    ==> (forall|i: int| 0 <= i < self.queue@.len() ==> self.queue@[i].1 is Some),
                n == self.visited@.len(),
                self.graph == old(self).graph,
                self.start == old(self).start,
                u < self.graph.adj().len(),
                degree == self.graph.adj()[u as int].len(),
                k <= degree,
                self.visited@[u as int] is Some,
                self.fuel() <= old(self).fuel(),
                forall|v: int|
                    0 <= v < self.graph.adj().len() && old(self).visited@[v] is Some
                        ==> self.visited@[v] == old(self).visited@[v],
            decreases degree - k,
        {
            let w: usize = self.graph.neighbor(u, k);
            let ghost vis1 = self.visited@;
            let ghost q1 = self.queue@;
            proof {
                assert(self.graph.adj()[u as int].contains(w)) by {
                    assert(self.graph.adj()[u as int][k as int] == w);
                }
                assert(self.visited@[u as int] == old(self).visited@[u as int]);
            }
            if self.visited[w].is_none() {
                let d: usize = self.visited[u].unwrap();
                let ghost before = self.visited@;
                let ghost queue_before = self.queue@;
                proof {
                    assert(unseen(before)[w as int]);
                    lemma_count_true_bounds(unseen(before));
                    lemma_count_true_update(unseen(before), w as int, false);
                    assert(count_true(unseen(before)) >= 1);
                    assert(before[u as int] is Some);
                    assert(d + count_true(unseen(before)) < self.graph.adj().len());
                    assert(reach(self.graph.adj(), self.start as int, u as int, d as nat));
                }
                self.visited.set(w, Some(d + 1));
                self.queue.push_back((w, Some(u)));
                proof {
                    assert(unseen(self.visited@) =~= unseen(before).update(w as int, false));
                    let adj = self.graph.adj();
                    lemma_reach_step(adj, self.start as int, u as int, w, d as nat);
                    assert forall|i: int| 0 <= i < self.queue@.len() implies self.entry_ok(
                        #[trigger] self.queue@[i],
                        i,
                    ) by {
                        if i < queue_before.len() {
                            assert(self.queue@[i] == queue_before[i]);
                        }
                    }
                }
            }
            proof {
                let d0 = old(self).visited@[u as int].unwrap();
                assert(grown(self.graph.adj()[u as int], vis1, q1, u, d0, k as int) == grown(
                    self.graph.adj()[u as int],
                    self.visited@,
                    self.queue@,
                    u,
                    d0,
                    k + 1,
                ));
            }
            k += 1;
        }
    }

    /// The next edge by which the walk comes to a new vertex, or `None` when
    /// the walk is over.
    pub fn next(&mut self) -> (res: Option<(usize, usize)>)
        requires
            old(self).wf(),
        ensures
            final(self).wf(),
            final(self).edges() == old(self).edges(),
            final(self).origin() == old(self).origin(),
            forall|v: int|
                0 <= v < old(self).edges().len() && old(self).distance(v) is Some ==> final(self).distance(v) == old(self).distance(v),
            match res {
                Some((from, to)) => final(self).is_tree_edge(from, to) && final(self).fuel() < old(self).fuel(),
                None => final(self).fuel() <= old(self).fuel() && final(self).pending().len() == 0,
            },
            (final(self).distances(), final(self).pending(), res) == walked(
                old(self).edges(),
                old(self).distances(),
                old(self).pending(),
            ),
    {
        match self.take_front() {
            None => None,
            Some((u, prev)) => {
                self.expand(u);
                match prev {
                    Some(p) => Some((p, u)),
                    None => {
                        match self.take_front() {
                            None => None,
                            Some((u2, prev2)) => {
                                self.expand(u2);
                                match prev2 {
                                    Some(p2) => Some((p2, u2)),
                                    None => None,
                                }
                            },
                        }
                    },
                }
            },
        }
    }

    /// Takes the first entry off the queue.
    fn take_front(&mut self) -> (res: Option<(usize, Option<usize>)>)
        requires
            old(self).wf(),
        ensures
            final(self).wf(),
            final(self).graph == old(self).graph,
            final(self).start == old(self).start,
            final(self).visited == old(self).visited,
            res == if old(self).queue@.len() > 0 {
                Some(old(self).queue@[0])
            } else {
                None
            },
            final(self).queue@ == if old(self).queue@.len() > 0 {
                old(self).queue@.drop_first()
            } else {
                old(self).queue@
            },
            match res {
                Some(entry) => {
                    &&& final(self).fuel() < old(self).fuel()
                    &&& entry.0 < final(self).edges().len()
                    &&& final(self).distance(entry.0 as int) is Some
                    &&& entry.1 matches Some(p) ==> final(self).is_tree_edge(p, entry.0)
                    &&& forall|i: int|
                        0 <= i < final(self).queue@.len() ==> final(self).queue@[i].1 is Some
                },
                None => final(self).fuel() == old(self).fuel(),
            },
    {
        let ghost before = self.queue@;
        let res = self.queue.pop_front();
        proof {
            if before.len() > 0 {
                assert(self.queue@ =~= before.drop_first());
                assert(old(self).entry_ok(before[0], 0));
                assert forall|i: int| 0 <= i < self.queue@.len() implies self.entry_ok(
                    #[trigger] self.queue@[i],
                    i,
                ) && self.queue@[i].1 is Some by {
                    assert(self.queue@[i] == before[i + 1]);
                    assert(old(self).entry_ok(before[i + 1], i + 1));
                }
            }
        }
        res
    }

    /// The first vertex on the rest of the walk that `f` accepts, or `None`
    /// when the walk ends without one.
    pub fn find<F: Fn(usize) -> bool>(&mut self, f: F) -> (res: Option<usize>)
        requires
            old(self).wf(),
            forall|x: usize| call_requires(f, (x,)),
        ensures
            final(self).wf(),
            final(self).edges() == old(self).edges(),
            final(self).origin() == old(self).origin(),
            res matches Some(to) ==> to < final(self).edges().len() && final(self).distance(
                to as int,
            ) is Some && call_ensures(f, (to,), true),
            res is None ==> final(self).pending().len() == 0,
            exists|t: nat|
                #[trigger] found_by(
                    old(self).edges(),
                    old(self).distances(),
                    old(self).pending(),
                    f,
                    t,
                    res,
                ) && (final(self).distances(), final(self).pending()) == after(
                    old(self).edges(),
                    old(self).distances(),
                    old(self).pending(),
                    t + 1,
                ),
    {
        let ghost mut t: nat = 0;
        loop
            invariant
                self.wf(),
                self.edges() == old(self).edges(),
                self.origin() == old(self).origin(),
                forall|x: usize| call_requires(f, (x,)),
                (self.visited@, self.queue@) == after(
                    old(self).graph.adj(),
                    old(self).visited@,
                    old(self).queue@,
                    t,
                ),
                forall|j: nat|
                    j < t ==> (#[trigger] yielded(
                        old(self).graph.adj(),
                        old(self).visited@,
                        old(self).queue@,
                        j,
                    )) is Some && call_ensures(
                        f,
                        (yielded(
                            old(self).graph.adj(),
                            old(self).visited@,
                            old(self).queue@,
                            j,
                        ).unwrap().1,),
                        false,
                    ),
            decreases self.fuel(),
        {
            let ghost adj = old(self).graph.adj();
            let ghost vis0 = old(self).visited@;
            let ghost q0 = old(self).queue@;
            match self.next() {
                None => {
                    proof {
                        assert(yielded(adj, vis0, q0, t) is None);
                        assert((self.visited@, self.queue@) == after(adj, vis0, q0, t + 1));
                        assert(found_by(adj, vis0, q0, f, t, None));
                        assert(found_by(
                            old(self).edges(),
                            old(self).distances(),
                            old(self).pending(),
                            f,
                            t,
                            None,
                        ) && (self.distances(), self.pending()) == after(
                            old(self).edges(),
                            old(self).distances(),
                            old(self).pending(),
                            t + 1,
                        ));
                    }
                    return None;
                },
                Some((_from, to)) => {
                    proof {
                        assert(yielded(adj, vis0, q0, t) == Some((_from, to)));
                        assert((self.visited@, self.queue@) == after(adj, vis0, q0, t + 1));
                    }
                    if f(to) {
                        proof {
                            assert(found_by(adj, vis0, q0, f, t, Some(to)));
                            assert(found_by(
                                old(self).edges(),
                                old(self).distances(),
                                old(self).pending(),
                                f,
                                t,
                                Some(to),
                            ) && (self.distances(), self.pending()) == after(
                                old(self).edges(),
                                old(self).distances(),
                                old(self).pending(),
                                t + 1,
                            ));
                        }
                        return Some(to);
                    }
                    proof {
                        t = t + 1;
                    }
                },
            }
        }
    }

    /// The distance of `goal`, the number of edges by which the walk comes
    /// from its origin to it: 0 for the origin, and for another vertex its
    /// distance when the walk yields an edge to it. `None` when the rest of
    /// the walk yields no edge to `goal`; the walk is then at its end.
    pub fn dist(&mut self, goal: usize) -> (res: Option<usize>)
        requires
            old(self).wf(),
        ensures
            final(self).wf(),
            final(self).edges() == old(self).edges(),
            final(self).origin() == old(self).origin(),
            res matches Some(d) ==> goal < final(self).edges().len() && reach(
                final(self).edges(),
                final(self).origin() as int,
                goal as int,
                d as nat,
            ) && final(self).distance(goal as int) == Some(d),
            res is None ==> goal != final(self).origin() && final(self).pending().len() == 0,
            goal == old(self).origin() ==> res == Some(0usize) && final(self).distances() == old(
                self).distances() && final(self).pending() == old(self).pending(),
            goal != old(self).origin() ==> exists|t: nat|
                #[trigger] sought(
                    old(self).edges(),
                    old(self).distances(),
                    old(self).pending(),
                    goal,
                    t,
                    res,
                    final(self).distances(),
                ) && (final(self).distances(), final(self).pending()) == after(
                    old(self).edges(),
                    old(self).distances(),
                    old(self).pending(),
                    t + 1,
                ),
    {
        if self.start == goal {
            proof {
                lemma_reach_self(self.graph.adj(), self.start as int);
            }
            return Some(0);
        }
        let ghost mut t: nat = 0;
        loop
            invariant
                self.wf(),
                self.edges() == old(self).edges(),
                self.origin() == old(self).origin(),
                self.start != goal,
                (self.visited@, self.queue@) == after(
                    old(self).graph.adj(),
                    old(self).visited@,
                    old(self).queue@,
                    t,
                ),
                forall|j: nat|
                    j < t ==> (#[trigger] yielded(
                        old(self).graph.adj(),
                        old(self).visited@,
                        old(self).queue@,
                        j,
                    )) is Some && yielded(
                        old(self).graph.adj(),
                        old(self).visited@,
                        old(self).queue@,
                        j,
                    ).unwrap().1 != goal,
            decreases self.fuel(),
        {
            let ghost adj = old(self).graph.adj();
            let ghost vis0 = old(self).visited@;
            let ghost q0 = old(self).queue@;
            match self.next() {
                None => {
                    proof {
                        assert(yielded(adj, vis0, q0, t) is None);
                        assert((self.visited@, self.queue@) == after(adj, vis0, q0, t + 1));
                        assert(sought(
                            old(self).edges(),
                            old(self).distances(),
                            old(self).pending(),
                            goal,
                            t,
                            None,
                            self.distances(),
                        ) && (self.distances(), self.pending()) == after(
                            old(self).edges(),
                            old(self).distances(),
                            old(self).pending(),
                            t + 1,
                        ));
                    }
                    return None;
                },
                Some((_from, to)) => {
                    proof {
                        assert(yielded(adj, vis0, q0, t) == Some((_from, to)));
                        assert((self.visited@, self.queue@) == after(adj, vis0, q0, t + 1));
                    }
                    if to == goal {
                        let d: Option<usize> = self.visited[goal];
                        proof {
                            assert(sought(
                                old(self).edges(),
                                old(self).distances(),
                                old(self).pending(),
                                goal,
                                t,
                                d,
                                self.distances(),
                            ) && (self.distances(), self.pending()) == after(
                                old(self).edges(),
                                old(self).distances(),
                                old(self).pending(),
                                t + 1,
                            ));
                        }
                        return d;
                    }
                    proof {
                        t = t + 1;
                    }
                },
            }
        }
    }
}

impl<'a, D: Direct> Bfsable<'a, D> for UnweightedListGraph<D> {
    open spec fn edges(&self) -> Seq<Seq<usize>> {
        self.adj()
    }

    fn bfs(&'a self, start: usize) -> (walk: Bfs<'a, D>) {
        let n: usize = self.len();
        let mut visited: Vec<Option<usize>> = Vec::new();
        let mut i: usize = 0;
        while i < n
            invariant
                i <= n,
                visited@.len() == i,
                forall|k: int| 0 <= k < i ==> visited@[k] is None,
            decreases n - i,
        {
            visited.push(None);
            i += 1;
        }
        let ghost before = visited@;
        visited.set(start, Some(0));
        let mut queue: VecDeque<(usize, Option<usize>)> = VecDeque::new();
        queue.push_back((start, None));
        let walk = Bfs { graph: self, visited, start, queue };
        proof {
            assert(before.len() == n);
            assert(unseen(before)[start as int]);
            lemma_count_true_bounds(unseen(before));
            lemma_count_true_update(unseen(before), start as int, false);
            assert(unseen(walk.visited@) =~= unseen(before).update(start as int, false));
            lemma_reach_self(self.adj(), start as int);
            assert(walk.entry_ok(walk.queue@[0], 0));
            assert forall|v: int|
                0 <= v < n && (#[trigger] walk.visited@[v]) is Some implies reach(
                walk.graph.adj(),
                walk.start as int,
                v,
                walk.visited@[v].unwrap() as nat,
            ) && walk.visited@[v].unwrap() + count_true(unseen(walk.visited@)) < n by {
                assert(v == start);
            }
        }
        walk
    }
}

} // verus!
