//! Binary search in vectors: the place where a predicate turns false, and the
//! bounds of a value in a sorted vector.

use crate::symbol::Keyed;
use vstd::prelude::*;

verus! {

/// Whether the keys of `v` never descend.
pub open spec fn ascending<T: Keyed>(v: Seq<T>) -> bool {
    forall|i: int, j: int| 0 <= i < j < v.len() ==> v[i].key() <= v[j].key()
}

/// Whether the elements of `s` equal to `v` are exactly the `r` elements from
/// place `lo` on.
pub open spec fn is_block_of<T: Keyed>(s: Seq<T>, v: T, lo: int, r: int) -> bool {
    &&& 0 <= lo
    &&& 0 <= r
    &&& lo + r <= s.len()
    &&& forall|i: int| 0 <= i < s.len() ==> (s[i].key() == v.key() <==> lo <= i < lo + r)
}

/// Sequences that can be searched by halving.
pub trait BinarySearch<T> {
    /// The elements, in order.
    spec fn elems(&self) -> Seq<T>;

    /// The number of elements.
    fn len(&self) -> (n: usize)
        ensures
            n == self.elems().len(),
    ;

    /// The element at `i`, if there is one.
    fn get(&self, i: usize) -> (r: Option<&T>)
        ensures
            match r {
                Some(x) => i < self.elems().len() && *x == self.elems()[i as int],
                None => i >= self.elems().len(),
            },
    ;

    /// A place where `f` turns from accepting to refusing: the element before
    /// it, if there is one, was accepted, and the element at it, if there is
    /// one, was refused. Where `f` accepts a prefix of the elements and
    /// refuses the rest, this is the length of that prefix.
    fn binary_search_by<F: Fn(&T) -> bool>(&self, f: F) -> (r: usize)
        requires
            forall|x: T| call_requires(f, (&x,)),
        ensures
            r <= self.elems().len(),
            r > 0 ==> call_ensures(f, (&self.elems()[r - 1],), true),
            r < self.elems().len() ==> call_ensures(f, (&self.elems()[r as int],), false),
    ;
}

/// Sorted sequences that can be searched for a value.
pub trait ExtBinarySearch<T: Keyed>: BinarySearch<T> {
    /// The number of elements that come before `v`.
    fn lower_bound(&self, v: &T) -> (r: usize)
        requires
            ascending(self.elems()),
        ensures
            r <= self.elems().len(),
            forall|i: int| 0 <= i < r ==> self.elems()[i].key() < v.key(),
            forall|i: int| r <= i < self.elems().len() ==> self.elems()[i].key() >= v.key(),
    ;

    /// The number of elements that do not come after `v`.
    fn upper_bound(&self, v: &T) -> (r: usize)
        requires
            ascending(self.elems()),
        ensures
            r <= self.elems().len(),
            forall|i: int| 0 <= i < r ==> self.elems()[i].key() <= v.key(),
            forall|i: int| r <= i < self.elems().len() ==> self.elems()[i].key() > v.key(),
    ;

    /// The number of elements equal to `v`.
    fn count_lasting(&self, v: &T) -> (r: usize)
        requires
            ascending(self.elems()),
        ensures
            exists|lo: int| is_block_of(self.elems(), *v, lo, r as int),
    ;

    /// The first place of `v`, or where it would have to be inserted.
    fn binary_search(&self, v: &T) -> (r: Result<usize, usize>)
        requires
            ascending(self.elems()),
        ensures
            match r {
                Ok(i) => {
                    &&& i < self.elems().len()
                    &&& self.elems()[i as int] == *v
                    &&& forall|j: int| 0 <= j < i ==> self.elems()[j].key() < v.key()
                },
                Err(i) => {
                    &&& i <= self.elems().len()
                    &&& forall|j: int| 0 <= j < i ==> self.elems()[j].key() < v.key()
                    &&& forall|j: int| i <= j < self.elems().len() ==> self.elems()[j].key() > v.key()
                },
            },
    ;
}

/// A place in `v` where `f` turns from accepting to refusing.
pub fn partition_point<T, F: Fn(&T) -> bool>(v: &Vec<T>, f: F) -> (r: usize)
    requires
        forall|x: T| call_requires(f, (&x,)),
    ensures
        r <= v@.len(),
        r > 0 ==> call_ensures(f, (&v@[r - 1],), true),
        r < v@.len() ==> call_ensures(f, (&v@[r as int],), false),
{
    let mut left: usize = 0;
    let mut right: usize = v.len();
    while left < right
        invariant
            forall|x: T| call_requires(f, (&x,)),
            left <= right <= v@.len(),
            left > 0 ==> call_ensures(f, (&v@[left - 1],), true),
            right < v@.len() ==> call_ensures(f, (&v@[right as int],), false),
        decreases right - left,
    {
        let mid: usize = left + (right - left) / 2;
        if f(&v[mid]) {
            left = mid + 1;
        } else {
            right = mid;
        }
    }
    left
}

/// The number of elements of the sorted vector `s` that come before `v`, or,
/// with `inclusive`, that do not come after it.
pub fn bound_of<T: Keyed>(s: &Vec<T>, v: &T, inclusive: bool) -> (r: usize)
    requires
        ascending(s@),
    ensures
        r <= s@.len(),
        forall|i: int|
            0 <= i < r ==> s@[i].key() < v.key() || (inclusive && s@[i].key() == v.key()),
        forall|i: int|
            r <= i < s@.len() ==> s@[i].key() > v.key() || (!inclusive && s@[i].key() == v.key()),
{
    let mut left: usize = 0;
    let mut right: usize = s.len();
    while left < right
        invariant
            ascending(s@),
            left <= right <= s@.len(),
            forall|i: int|
                0 <= i < left ==> s@[i].key() < v.key() || (inclusive && s@[i].key() == v.key()),
            forall|i: int|
                right <= i < s@.len() ==> s@[i].key() > v.key() || (!inclusive && s@[i].key()
                    == v.key()),
        decreases right - left,
    {
        let mid: usize = left + (right - left) / 2;
        let before: bool = s[mid].less(v) || (inclusive && s[mid].same(v));
        if before {
            left = mid + 1;
        } else {
            right = mid;
        }
    }
    left
}

impl<T: Keyed> BinarySearch<T> for Vec<T> {
    open spec fn elems(&self) -> Seq<T> {
        self@
    }

    fn len(&self) -> (n: usize) {
        Vec::len(self)
    }

    fn get(&self, i: usize) -> (r: Option<&T>) {
        if i < Vec::len(self) {
            Some(&self[i])
        } else {
            None
        }
    }

    fn binary_search_by<F: Fn(&T) -> bool>(&self, f: F) -> (r: usize) {
        partition_point(self, f)
    }
}

impl<T: Keyed> ExtBinarySearch<T> for Vec<T> {
    fn lower_bound(&self, v: &T) -> (r: usize) {
        bound_of(self, v, false)
    }

    fn upper_bound(&self, v: &T) -> (r: usize) {
        bound_of(self, v, true)
    }

    fn count_lasting(&self, v: &T) -> (r: usize) {
        let lo: usize = bound_of(self, v, false);
        let hi: usize = bound_of(self, v, true);
        proof {
            if hi < lo {
                assert(self@[hi as int].key() < v.key());
            }
            assert(is_block_of(self@, *v, lo as int, hi - lo));
        }
        hi - lo
    }

    fn binary_search(&self, v: &T) -> (r: Result<usize, usize>) {
        let i: usize = bound_of(self, v, false);
        if i < Vec::len(self) && self[i].same(v) {
            proof {
                T::lemma_key_injective(self@[i as int], *v);
            }
            Ok(i)
        } else {
            proof {
                assert forall|j: int| i <= j < self@.len() implies self@[j].key() > v.key() by {
                    if j > i {
                        assert(self@[i as int].key() <= self@[j].key());
                    }
                }
            }
            Err(i)
        }
    }
}

} // verus!
