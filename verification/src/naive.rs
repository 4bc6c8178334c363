//! Suffix sorting by comparison: a merge sort of the offsets that compares
//! the suffixes key by key.

use crate::lex::{
    lemma_lex_irreflexive, lemma_lex_transitive, lemma_suffix_total, less_at, suffix_lt,
};
use crate::suffix_order::is_suffix_array;
use crate::symbol::{keys, Keyed};
use vstd::prelude::*;
use vstd::seq_lib::lemma_multiset_commutative;

verus! {

/// Whether the suffix at `a` does not come after the suffix at `b`.
pub open spec fn suffix_le(s: Seq<int>, a: int, b: int) -> bool {
    !suffix_lt(s, b, a)
}

/// Whether no suffix listed in `order` comes after one listed later.
pub open spec fn sorted_le(s: Seq<int>, order: Seq<usize>) -> bool {
    forall|p: int, q: int|
        0 <= p < q < order.len() ==> suffix_le(s, order[p] as int, order[q] as int)
}

/// Whether every offset in `order` is an offset of `s`.
pub open spec fn in_range(s: Seq<int>, order: Seq<usize>) -> bool {
    forall|p: int| 0 <= p < order.len() ==> order[p] <= s.len()
}

/// "Does not come after" is transitive.
pub proof fn lemma_suffix_le_transitive(s: Seq<int>, a: int, b: int, c: int)
    requires
        0 <= a <= s.len(),
        0 <= b <= s.len(),
        0 <= c <= s.len(),
        suffix_le(s, a, b),
        suffix_le(s, b, c),
    ensures
        suffix_le(s, a, c),
{
    if suffix_lt(s, c, a) {
        if a == b {
        } else {
            lemma_suffix_total(s, a, b);
            lemma_lex_transitive(s, c, s, a, s, b);
        }
    }
}

/// The offsets `0..=n` in ascending order.
fn all_offsets(n: usize) -> (v: Vec<usize>)
    requires
        n < usize::MAX,
    ensures
        v@.len() == n + 1,
        forall|i: int| 0 <= i <= n ==> v@[i] == i,
{
    let mut v: Vec<usize> = Vec::new();
    let mut i: usize = 0;
    while i <= n
        invariant
            i <= n + 1,
            n < usize::MAX,
            v@.len() == i,
            forall|k: int| 0 <= k < i ==> v@[k] == k,
        decreases n + 1 - i,
    {
        v.push(i);
        i += 1;
    }
    v
}

/// A copy of `v[from..to]`.
fn copy_range(v: &Vec<usize>, from: usize, to: usize) -> (out: Vec<usize>)
    requires
        from <= to <= v@.len(),
    ensures
        out@ == v@.subrange(from as int, to as int),
{
    let mut out: Vec<usize> = Vec::new();
    let mut i: usize = from;
    while i < to
        invariant
            from <= i <= to <= v@.len(),
            out@ == v@.subrange(from as int, i as int),
        decreases to - i,
    {
        out.push(v[i]);
        proof {
            assert(out@ =~= v@.subrange(from as int, i + 1));
        }
        i += 1;
    }
    out
}

/// Merges two sorted lists of offsets into one.
fn merge<T: Keyed>(s: &[T], left: &Vec<usize>, right: &Vec<usize>) -> (out: Vec<usize>)
    requires
        in_range(keys(s@), left@),
        in_range(keys(s@), right@),
        sorted_le(keys(s@), left@),
        sorted_le(keys(s@), right@),
    ensures
        in_range(keys(s@), out@),
        sorted_le(keys(s@), out@),
        out@.to_multiset() == left@.to_multiset().add(right@.to_multiset()),
{
    broadcast use vstd::seq_lib::group_to_multiset_ensures;
    broadcast use vstd::multiset::group_multiset_axioms;

    let ghost ks = keys(s@);
    let mut out: Vec<usize> = Vec::new();
    let mut i: usize = 0;
    let mut j: usize = 0;
    proof {
        assert(left@.subrange(0, 0) =~= Seq::<usize>::empty());
        assert(right@.subrange(0, 0) =~= Seq::<usize>::empty());
        assert(out@ =~= Seq::<usize>::empty());
        assert(out@.to_multiset() =~= left@.subrange(0, 0).to_multiset().add(
            right@.subrange(0, 0).to_multiset(),
        ));
    }
    while i < left.len() || j < right.len()
        invariant
            ks == keys(s@),
            i <= left@.len(),
            j <= right@.len(),
            in_range(ks, left@),
            in_range(ks, right@),
            sorted_le(ks, left@),
            sorted_le(ks, right@),
            in_range(ks, out@),
            sorted_le(ks, out@),
            forall|p: int, q: int|
                0 <= p < out@.len() && i <= q < left@.len() ==> suffix_le(
                    ks,
                    out@[p] as int,
                    left@[q] as int,
                ),
            forall|p: int, q: int|
                0 <= p < out@.len() && j <= q < right@.len() ==> suffix_le(
                    ks,
                    out@[p] as int,
                    right@[q] as int,
                ),
            out@.to_multiset() == left@.subrange(0, i as int).to_multiset().add(
                right@.subrange(0, j as int).to_multiset(),
            ),
        decreases left@.len() - i + right@.len() - j,
    {
        let take_left: bool = if j >= right.len() {
            true
        } else if i >= left.len() {
            false
        } else {
            !less_at(s, right[j], s, left[i])
        };
        let ghost before = out@;
        if take_left {
            let x: usize = left[i];
            out.push(x);
            proof {
                assert(left@.subrange(0, i + 1) =~= left@.subrange(0, i as int).push(x));
                assert(out@ =~= before.push(x));
                vstd::seq_lib::to_multiset_build(before, x);
                vstd::seq_lib::to_multiset_build(left@.subrange(0, i as int), x);
                assert(out@.to_multiset() =~= left@.subrange(0, i + 1).to_multiset().add(
                    right@.subrange(0, j as int).to_multiset(),
                ));
                assert forall|p: int, q: int|
                    0 <= p < out@.len() && j <= q < right@.len() implies suffix_le(
                    ks,
                    out@[p] as int,
                    right@[q] as int,
                ) by {
                    if p == before.len() {
                        if q > j {
                            assert(suffix_le(ks, right@[j as int] as int, right@[q] as int));
                        } else {
                            lemma_lex_irreflexive(ks, right@[j as int] as int);
                        }
                        lemma_suffix_le_transitive(
                            ks,
                            x as int,
                            right@[j as int] as int,
                            right@[q] as int,
                        );
                    }
                }
                assert forall|p: int, q: int|
                    0 <= p < out@.len() && i + 1 <= q < left@.len() implies suffix_le(
                    ks,
                    out@[p] as int,
                    left@[q] as int,
                ) by {
                    if p == before.len() {
                        assert(suffix_le(ks, left@[i as int] as int, left@[q] as int));
                    }
                }
                assert forall|p: int, q: int| 0 <= p < q < out@.len() implies suffix_le(
                    ks,
                    out@[p] as int,
                    out@[q] as int,
                ) by {
                    if q == before.len() {
                        assert(suffix_le(ks, before[p] as int, left@[i as int] as int));
                    }
                }
            }
            i += 1;
        } else {
            let x: usize = right[j];
            out.push(x);
            proof {
                assert(right@.subrange(0, j + 1) =~= right@.subrange(0, j as int).push(x));
                assert(out@ =~= before.push(x));
                vstd::seq_lib::to_multiset_build(before, x);
                vstd::seq_lib::to_multiset_build(right@.subrange(0, j as int), x);
                assert(out@.to_multiset() =~= left@.subrange(0, i as int).to_multiset().add(
                    right@.subrange(0, j + 1).to_multiset(),
                ));
                lemma_lex_irreflexive(ks, x as int);
                assert forall|p: int, q: int|
                    0 <= p < out@.len() && i <= q < left@.len() implies suffix_le(
                    ks,
                    out@[p] as int,
                    left@[q] as int,
                ) by {
                    if p == before.len() {
                        if q > i {
                            assert(suffix_le(ks, left@[i as int] as int, left@[q] as int));
                        } else {
                            lemma_lex_irreflexive(ks, left@[i as int] as int);
                        }
                        crate::lex::lemma_suffix_asymmetric(ks, x as int, left@[i as int] as int);
                        lemma_suffix_le_transitive(
                            ks,
                            x as int,
                            left@[i as int] as int,
                            left@[q] as int,
                        );
                    }
                }
                assert forall|p: int, q: int|
                    0 <= p < out@.len() && j + 1 <= q < right@.len() implies suffix_le(
                    ks,
                    out@[p] as int,
                    right@[q] as int,
                ) by {
                    if p == before.len() {
                        assert(suffix_le(ks, right@[j as int] as int, right@[q] as int));
                    }
                }
                assert forall|p: int, q: int| 0 <= p < q < out@.len() implies suffix_le(
                    ks,
                    out@[p] as int,
                    out@[q] as int,
                ) by {
                    if q == before.len() {
                        assert(suffix_le(ks, before[p] as int, right@[j as int] as int));
                    }
                }
            }
            j += 1;
        }
    }
    proof {
        assert(left@.subrange(0, i as int) =~= left@);
        assert(right@.subrange(0, j as int) =~= right@);
    }
    out
}

/// Sorts a list of offsets by the suffixes they start.
fn merge_sort<T: Keyed>(s: &[T], v: Vec<usize>) -> (out: Vec<usize>)
    requires
        in_range(keys(s@), v@),
    ensures
        in_range(keys(s@), out@),
        sorted_le(keys(s@), out@),
        out@.to_multiset() == v@.to_multiset(),
    decreases v@.len(),
{
    if v.len() <= 1 {
        return v;
    }
    let mid: usize = v.len() / 2;
    let left: Vec<usize> = copy_range(&v, 0, mid);
    let right: Vec<usize> = copy_range(&v, mid, v.len());
    proof {
        assert(v@ =~= left@ + right@);
        lemma_multiset_commutative(left@, right@);
    }
    let l: Vec<usize> = merge_sort(s, left);
    let r: Vec<usize> = merge_sort(s, right);
    merge(s, &l, &r)
}

/// The suffix array of `s`, by comparison sort.
pub fn sort_suffixes<T: Keyed>(s: &[T]) -> (order: Vec<usize>)
    requires
        s@.len() < usize::MAX,
    ensures
        is_suffix_array(keys(s@), order@),
{
    broadcast use vstd::seq_lib::group_to_multiset_ensures;

    let all: Vec<usize> = all_offsets(s.len());
    let order: Vec<usize> = merge_sort(s, all);
    proof {
        let ks = keys(s@);
        assert forall|p: int, q: int| 0 <= p < all@.len() && 0 <= q < all@.len() && p
            != q implies all@[p] != all@[q] by {}
        all@.lemma_multiset_has_no_duplicates();
        order@.lemma_multiset_has_no_duplicates_conv();
        assert(order@.len() == all@.len()) by {
            assert(order@.to_multiset().len() == all@.to_multiset().len());
        }
        assert forall|i: int, j: int| 0 <= i < j < order@.len() implies suffix_lt(
            ks,
            order@[i] as int,
            order@[j] as int,
        ) by {
            assert(suffix_le(ks, order@[i] as int, order@[j] as int));
            assert(order@[i] != order@[j]);
            lemma_suffix_total(ks, order@[i] as int, order@[j] as int);
        }
    }
    order
}

} // verus!
