//! Binary search for the place where a predicate on numbers turns false.

use crate::binary_search::Average;
use crate::symbol::Keyed;
use vstd::prelude::*;

verus! {

/// Whether `next` is the number right after `res`, and is `to` or was refused
/// by `f`.
pub open spec fn follows_refused<T: Average, F: Fn(&T) -> bool>(f: F, res: T, next: T, to: T) -> bool {
    next.key() == res.key() + 1 && (next.key() == to.key() || call_ensures(f, (&next,), false))
}

/// Searches `from..to` for the last number that `f` accepts, by halving.
/// `from` itself is taken as accepted and `to` as refused without asking `f`.
/// The result is `from`, or a number that `f` accepted; and the number right
/// after the result is `to`, or one that `f` refused.
pub fn binary_search_by<T: Average, F: Fn(&T) -> bool>(from: T, to: T, f: F) -> (res: T)
    requires
        forall|x: T| call_requires(f, (&x,)),
    ensures
        from.key() <= to.key() ==> from.key() <= res.key() <= to.key(),
        from.key() < to.key() ==> res.key() < to.key(),
        res.key() != from.key() ==> call_ensures(f, (&res,), true),
        from.key() < to.key() ==> exists|next: T| follows_refused(f, res, next, to),
{
    let mut left: T = from;
    let mut right: T = to;
    while T::apart(&left, &right)
        invariant
            forall|x: T| call_requires(f, (&x,)),
            from.key() <= to.key() ==> from.key() <= left.key() <= right.key() <= to.key(),
            from.key() < to.key() ==> left.key() < right.key(),
            left.key() != from.key() ==> call_ensures(f, (&left,), true),
            right.key() != to.key() ==> call_ensures(f, (&right,), false),
            from.key() > to.key() ==> left == from && right == to,
        decreases right.key() - left.key(),
    {
        let mid: T = T::average(&left, &right);
        if f(&mid) {
            left = mid;
        } else {
            right = mid;
        }
    }
    proof {
        if from.key() < to.key() {
            assert(right.key() == left.key() + 1);
            assert(follows_refused(f, left, right, to));
        }
    }
    left
}

} // verus!
