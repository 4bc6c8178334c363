//! Linear search with one predicate or with several.

use vstd::prelude::*;

verus! {

/// Whether `d` accepted `x` in the call that was made.
pub open spec fn accepted<U, F: Fn(&U) -> bool>(d: F, x: U) -> bool {
    call_ensures(d, (&x,), true)
}

/// Whether `d` refused `x` in the call that was made.
pub open spec fn refused<U, F: Fn(&U) -> bool>(d: F, x: U) -> bool {
    call_ensures(d, (&x,), false)
}

/// Whether every predicate in `d` accepted `x`.
pub open spec fn accepted_by_all<U, F: Fn(&U) -> bool>(d: Seq<F>, x: U) -> bool {
    forall|k: int| 0 <= k < d.len() ==> accepted(#[trigger] d[k], x)
}

/// Whether some predicate in `d` refused `x`.
pub open spec fn refused_by_one<U, F: Fn(&U) -> bool>(d: Seq<F>, x: U) -> bool {
    exists|k: int| 0 <= k < d.len() && refused(#[trigger] d[k], x)
}

/// Whether `picks` lists places of `a` in ascending order and `res` holds
/// the elements at these places.
pub open spec fn is_selection<U>(a: Seq<U>, picks: Seq<int>, res: Seq<U>) -> bool {
    &&& picks.len() == res.len()
    &&& forall|k: int| 0 <= k < picks.len() ==> 0 <= #[trigger] picks[k] < a.len() && res[k] == a[picks[k]]
    &&& forall|k: int, l: int| 0 <= k < l < picks.len() ==> picks[k] < picks[l]
}

/// The first element of `a` that `d` accepts.
pub fn linear_match<U: Copy, F: Fn(&U) -> bool>(a: &[U], d: F) -> (res: Option<U>)
    requires
        forall|x: U| call_requires(d, (&x,)),
    ensures
        match res {
            Some(x) => exists|i: int|
                0 <= i < a@.len() && #[trigger] a@[i] == x && accepted(d, x) && forall|j: int|
                    0 <= j < i ==> refused(d, #[trigger] a@[j]),
            None => forall|j: int| 0 <= j < a@.len() ==> refused(d, #[trigger] a@[j]),
        },
{
    let mut i: usize = 0;
    while i < a.len()
        invariant
            i <= a@.len(),
            forall|x: U| call_requires(d, (&x,)),
            forall|j: int| 0 <= j < i ==> refused(d, #[trigger] a@[j]),
        decreases a@.len() - i,
    {
        if d(&a[i]) {
            proof {
                assert(a@[i as int] == a@[i as int]);
            }
            return Some(a[i]);
        }
        i += 1;
    }
    None
}

/// The elements of `a` that `d` accepts, in their order.
pub fn linear_matches<U: Copy, F: Fn(&U) -> bool>(a: &[U], d: F) -> (res: Vec<U>)
    requires
        forall|x: U| call_requires(d, (&x,)),
    ensures
        exists|picks: Seq<int>|
            {
                &&& #[trigger] is_selection(a@, picks, res@)
                &&& forall|i: int|
                    0 <= i < a@.len() ==> if picks.contains(i) {
                        accepted(d, #[trigger] a@[i])
                    } else {
                        refused(d, a@[i])
                    }
            },
{
    let mut res: Vec<U> = Vec::new();
    let ghost mut picks: Seq<int> = Seq::empty();
    let mut i: usize = 0;
    while i < a.len()
        invariant
            i <= a@.len(),
            forall|x: U| call_requires(d, (&x,)),
            is_selection(a@, picks, res@),
            forall|k: int| 0 <= k < picks.len() ==> picks[k] < i,
            forall|j: int|
                0 <= j < i ==> if picks.contains(j) {
                    accepted(d, #[trigger] a@[j])
                } else {
                    refused(d, a@[j])
                },
        decreases a@.len() - i,
    {
        let ghost before = picks;
        if d(&a[i]) {
            res.push(a[i]);
            proof {
                picks = picks.push(i as int);
                assert(picks[picks.len() - 1] == i);
                assert forall|j: int| 0 <= j < i + 1 implies if picks.contains(j) {
                    accepted(d, #[trigger] a@[j])
                } else {
                    refused(d, a@[j])
                } by {
                    if j < i {
                        if before.contains(j) {
                            let k = choose|k: int| 0 <= k < before.len() && before[k] == j;
                            assert(picks[k] == j);
                        }
                        if picks.contains(j) {
                            let k = choose|k: int| 0 <= k < picks.len() && picks[k] == j;
                            assert(before[k] == j);
                        }
                    }
                }
            }
        } else {
            proof {
                assert(!picks.contains(i as int)) by {
                    if picks.contains(i as int) {
                        let k = choose|k: int| 0 <= k < picks.len() && picks[k] == i as int;
                        assert(picks[k] < i);
                    }
                }
            }
        }
        i += 1;
    }
    res
}

/// Whether every predicate in `d` accepts `x`; the predicates are asked in
/// their order up to the first that refuses.
pub fn all_accept<U: Copy, F: Fn(&U) -> bool>(d: &[F], x: &U) -> (b: bool)
    requires
        forall|k: int, y: U| 0 <= k < d@.len() ==> #[trigger] call_requires(d@[k], (&y,)),
    ensures
        b ==> accepted_by_all(d@, *x),
        !b ==> refused_by_one(d@, *x),
{
    let mut k: usize = 0;
    while k < d.len()
        invariant
            k <= d@.len(),
            forall|l: int, y: U| 0 <= l < d@.len() ==> #[trigger] call_requires(d@[l], (&y,)),
            forall|l: int| 0 <= l < k ==> accepted(#[trigger] d@[l], *x),
        decreases d@.len() - k,
    {
        let f = &d[k];
        if !f(x) {
            proof {
                assert(refused(d@[k as int], *x));
            }
            return false;
        }
        k += 1;
    }
    true
}

/// The first element of `a` that every predicate in `d` accepts.
pub fn linear_match_all<U: Copy, F: Fn(&U) -> bool>(a: &[U], d: &[F]) -> (res: Option<U>)
    requires
        forall|k: int, y: U| 0 <= k < d@.len() ==> #[trigger] call_requires(d@[k], (&y,)),
    ensures
        match res {
            Some(x) => exists|i: int|
                0 <= i < a@.len() && #[trigger] a@[i] == x && accepted_by_all(d@, x) && forall|
                    j: int,
                | 0 <= j < i ==> refused_by_one(d@, #[trigger] a@[j]),
            None => forall|j: int| 0 <= j < a@.len() ==> refused_by_one(d@, #[trigger] a@[j]),
        },
{
    let mut i: usize = 0;
    while i < a.len()
        invariant
            i <= a@.len(),
            forall|k: int, y: U| 0 <= k < d@.len() ==> #[trigger] call_requires(d@[k], (&y,)),
            forall|j: int| 0 <= j < i ==> refused_by_one(d@, #[trigger] a@[j]),
        decreases a@.len() - i,
    {
        if all_accept(d, &a[i]) {
            proof {
                assert(a@[i as int] == a@[i as int]);
            }
            return Some(a[i]);
        }
        i += 1;
    }
    None
}

/// The elements of `a` that every predicate in `d` accepts, in their order.
pub fn linear_matches_all<U: Copy, F: Fn(&U) -> bool>(a: &[U], d: &[F]) -> (res: Vec<U>)
    requires
        forall|k: int, y: U| 0 <= k < d@.len() ==> #[trigger] call_requires(d@[k], (&y,)),
    ensures
        exists|picks: Seq<int>|
            {
                &&& #[trigger] is_selection(a@, picks, res@)
                &&& forall|i: int|
                    0 <= i < a@.len() ==> if picks.contains(i) {
                        accepted_by_all(d@, #[trigger] a@[i])
                    } else {
                        refused_by_one(d@, a@[i])
                    }
            },
{
    let mut res: Vec<U> = Vec::new();
    let ghost mut picks: Seq<int> = Seq::empty();
    let mut i: usize = 0;
    while i < a.len()
        invariant
            i <= a@.len(),
            forall|k: int, y: U| 0 <= k < d@.len() ==> #[trigger] call_requires(d@[k], (&y,)),
            is_selection(a@, picks, res@),
            forall|k: int| 0 <= k < picks.len() ==> picks[k] < i,
            forall|j: int|
                0 <= j < i ==> if picks.contains(j) {
                    accepted_by_all(d@, #[trigger] a@[j])
                } else {
                    refused_by_one(d@, a@[j])
                },
        decreases a@.len() - i,
    {
        let ghost before = picks;
        if all_accept(d, &a[i]) {
            res.push(a[i]);
            proof {
                picks = picks.push(i as int);
                assert(picks[picks.len() - 1] == i);
                assert forall|j: int| 0 <= j < i + 1 implies if picks.contains(j) {
                    accepted_by_all(d@, #[trigger] a@[j])
                } else {
                    refused_by_one(d@, a@[j])
                } by {
                    if j < i {
                        if before.contains(j) {
                            let k = choose|k: int| 0 <= k < before.len() && before[k] == j;
                            assert(picks[k] == j);
                        }
                        if picks.contains(j) {
                            let k = choose|k: int| 0 <= k < picks.len() && picks[k] == j;
                            assert(before[k] == j);
                        }
                    }
                }
            }
        } else {
            proof {
                assert(!picks.contains(i as int)) by {
                    if picks.contains(i as int) {
                        let k = choose|k: int| 0 <= k < picks.len() && picks[k] == i as int;
                        assert(picks[k] < i);
                    }
                }
            }
        }
        i += 1;
    }
    res
}

} // verus!
