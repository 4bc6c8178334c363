//! A suffix array: the start offsets of all suffixes of a sequence, in the
//! lexicographic order of the suffixes, with pattern search on top.

use crate::lex::{
    has_prefix_at, lemma_occurrence, lemma_lex_transitive, lemma_prefix_between, lemma_prefix_not_before, less_at,
    lex_lt_at, starts_with_at, suffix_lt,
};
use crate::naive::sort_suffixes;
use crate::sais::induced_order;
use crate::suffix_order::{is_suffix_array, lemma_suffix_array_permutation};
use crate::symbol::{keys, Keyed};
use crate::text::chars_of;
use core::marker::PhantomData;
use vstd::prelude::*;
use vstd::slice::{slice_subrange, slice_to_vec};

verus! {

/// A way to build the suffix array of a sequence.
pub trait Sort<T: Keyed> {
    /// The start offsets of all suffixes of `s`, the empty one included, in
    /// the lexicographic order of the suffixes.
    fn sort(s: &[T]) -> (order: Vec<usize>)
        requires
            s@.len() < usize::MAX,
        ensures
            is_suffix_array(keys(s@), order@),
    ;
}

/// Suffix sorting by comparison.
#[derive(Debug)]
pub struct DefaultSort;

impl<T: Keyed> Sort<T> for DefaultSort {
    fn sort(s: &[T]) -> (order: Vec<usize>) {
        sort_suffixes(s)
    }
}

/// Suffix sorting by induced sorting (SA-IS).
#[derive(Debug)]
pub struct SaIs;

impl SaIs {
    /// The suffix array of `s`, with the first round of induced sorting
    /// seeded in the order of `seed`. Whatever the seed holds and in whatever
    /// order, the result is the suffix array.
    pub fn sort_with_seed<T: Keyed>(s: &[T], seed: Option<Vec<usize>>) -> (order: Vec<usize>)
        requires
            s@.len() < usize::MAX,
        ensures
            is_suffix_array(keys(s@), order@),
    {
        induced_order(s, seed)
    }
}

impl<T: Keyed> Sort<T> for SaIs {
    fn sort(s: &[T]) -> (order: Vec<usize>) {
        SaIs::sort_with_seed(s, None)
    }
}

/// Values that can be handed over as a vector of elements.
pub trait IntoVec<T> {
    /// The elements that `into` hands over.
    spec fn elements(&self) -> Seq<T>;

    /// The elements as a vector.
    fn into(self) -> (v: Vec<T>)
        ensures
            v@ == self.elements(),
    ;
}

impl IntoVec<char> for &str {
    open spec fn elements(&self) -> Seq<char> {
        self@
    }

    fn into(self) -> (v: Vec<char>) {
        chars_of(self)
    }
}

impl IntoVec<char> for String {
    open spec fn elements(&self) -> Seq<char> {
        self@
    }

    fn into(self) -> (v: Vec<char>) {
        chars_of(self.as_str())
    }
}

impl IntoVec<char> for &String {
    open spec fn elements(&self) -> Seq<char> {
        self@
    }

    fn into(self) -> (v: Vec<char>) {
        chars_of(self.as_str())
    }
}

impl<T: Copy> IntoVec<T> for &[T] {
    open spec fn elements(&self) -> Seq<T> {
        self@
    }

    fn into(self) -> (v: Vec<T>) {
        slice_to_vec(self)
    }
}

impl<T: Copy> IntoVec<T> for Vec<T> {
    open spec fn elements(&self) -> Seq<T> {
        self@
    }

    fn into(self) -> (v: Vec<T>) {
        self
    }
}

impl<T: Copy> IntoVec<T> for &Vec<T> {
    open spec fn elements(&self) -> Seq<T> {
        self@
    }

    fn into(self) -> (v: Vec<T>) {
        slice_to_vec(self.as_slice())
    }
}

/// A sequence together with its suffix array. `T` is the element type and
/// `S` the strategy that sorts the suffixes.
pub struct SuffixArray<T: Keyed, S> {
    phantom: PhantomData<S>,
    raw: Vec<T>,
    inner: Vec<usize>,
}

impl<T: Keyed, S> SuffixArray<T, S> {
    #[verifier::type_invariant]
    closed spec fn wf(&self) -> bool {
        is_suffix_array(keys(self.raw@), self.inner@)
    }

    /// The sequence that was indexed.
    pub closed spec fn text(&self) -> Seq<T> {
        self.raw@
    }

    /// The start offsets of the suffixes, in the order of the suffixes.
    pub closed spec fn order(&self) -> Seq<usize> {
        self.inner@
    }
}

impl<T: Keyed, S: Sort<T>> SuffixArray<T, S> {
    /// Builds the suffix array of `s` with the strategy `S`.
    pub fn new(s: &[T]) -> (res: Self)
        requires
            s@.len() < usize::MAX,
        ensures
            res.text() == s@,
            is_suffix_array(keys(s@), res.order()),
    {
        let inner: Vec<usize> = S::sort(s);
        let raw: Vec<T> = slice_to_vec(s);
        SuffixArray { phantom: PhantomData, raw, inner }
    }

    /// The sequence that was indexed.
    pub fn raw(&self) -> (r: &[T])
        ensures
            r@ == self.text(),
    {
        self.raw.as_slice()
    }

    /// Number of suffixes, the empty one included: one more than the length
    /// of the sequence.
    pub fn len(&self) -> (n: usize)
        ensures
            n == self.text().len() + 1,
            n == self.order().len(),
    {
        proof {
            use_type_invariant(self);
        }
        self.inner.len()
    }

    /// The `n`-th suffix in lexicographic order. The 0-th is the empty one.
    pub fn suffix_nth(&self, n: usize) -> (r: &[T])
        requires
            n < self.order().len(),
        ensures
            r@ == self.text().subrange(self.order()[n as int] as int, self.text().len() as int),
    {
        proof {
            use_type_invariant(self);
        }
        slice_subrange(self.raw.as_slice(), self.inner[n], self.raw.len())
    }

    /// The suffix array: a permutation of `0..=n` in which each suffix comes
    /// strictly before the ones after it.
    pub fn suffix_array(&self) -> (r: &[usize])
        ensures
            r@ == self.order(),
            is_suffix_array(keys(self.text()), r@),
    {
        proof {
            use_type_invariant(self);
        }
        self.inner.as_slice()
    }

    /// The first place in the suffix array whose suffix does not come before
    /// `t`.
    fn lower_bound(&self, t: &[T]) -> (lo: usize)
        ensures
            lo <= self.order().len(),
            forall|i: int|
                0 <= i < lo ==> lex_lt_at(
                    keys(self.text()),
                    self.order()[i] as int,
                    keys(t@),
                    0,
                ),
            forall|i: int|
                lo <= i < self.order().len() ==> !lex_lt_at(
                    keys(self.text()),
                    self.order()[i] as int,
                    keys(t@),
                    0,
                ),
    {
        proof {
            use_type_invariant(self);
        }
        let ghost ks = keys(self.raw@);
        let ghost kt = keys(t@);
        let mut l: usize = 0;
        let mut r: usize = self.inner.len();
        while l < r
            invariant
                ks == keys(self.raw@),
                kt == keys(t@),
                is_suffix_array(ks, self.inner@),
                l <= r <= self.inner@.len(),
                forall|i: int| 0 <= i < l ==> lex_lt_at(ks, self.inner@[i] as int, kt, 0),
                forall|i: int|
                    r <= i < self.inner@.len() ==> !lex_lt_at(ks, self.inner@[i] as int, kt, 0),
            decreases r - l,
        {
            let m: usize = l + (r - l) / 2;
            if less_at(self.raw.as_slice(), self.inner[m], t, 0) {
                proof {
                    assert forall|i: int| 0 <= i < m + 1 implies lex_lt_at(
                        ks,
                        self.inner@[i] as int,
                        kt,
                        0,
                    ) by {
                        if i < m {
                            assert(suffix_lt(ks, self.inner@[i] as int, self.inner@[m as int] as int));
                            lemma_lex_transitive(
                                ks,
                                self.inner@[i] as int,
                                ks,
                                self.inner@[m as int] as int,
                                kt,
                                0,
                            );
                        }
                    }
                }
                l = m + 1;
            } else {
                proof {
                    assert forall|i: int| m <= i < self.inner@.len() implies !lex_lt_at(
                        ks,
                        self.inner@[i] as int,
                        kt,
                        0,
                    ) by {
                        if i > m && lex_lt_at(ks, self.inner@[i] as int, kt, 0) {
                            assert(suffix_lt(ks, self.inner@[m as int] as int, self.inner@[i] as int));
                            lemma_lex_transitive(
                                ks,
                                self.inner@[m as int] as int,
                                ks,
                                self.inner@[i] as int,
                                kt,
                                0,
                            );
                        }
                    }
                }
                r = m;
            }
        }
        l
    }

    /// The first place at or after `lo` in the suffix array whose suffix does
    /// not start with `t`.
    fn upper_bound(&self, t: &[T], lo: usize) -> (hi: usize)
        requires
            lo <= self.order().len(),
            forall|i: int|
                lo <= i < self.order().len() ==> !lex_lt_at(
                    keys(self.text()),
                    self.order()[i] as int,
                    keys(t@),
                    0,
                ),
        ensures
            lo <= hi <= self.order().len(),
            forall|i: int|
                lo <= i < hi ==> has_prefix_at(
                    keys(self.text()),
                    self.order()[i] as int,
                    keys(t@),
                ),
            forall|i: int|
                hi <= i < self.order().len() ==> !has_prefix_at(
                    keys(self.text()),
                    self.order()[i] as int,
                    keys(t@),
                ),
    {
        proof {
            use_type_invariant(self);
        }
        let ghost ks = keys(self.raw@);
        let ghost kt = keys(t@);
        let mut l: usize = lo;
        let mut r: usize = self.inner.len();
        while l < r
            invariant
                ks == keys(self.raw@),
                kt == keys(t@),
                is_suffix_array(ks, self.inner@),
                lo <= l <= r <= self.inner@.len(),
                forall|i: int|
                    lo <= i < self.inner@.len() ==> !lex_lt_at(ks, self.inner@[i] as int, kt, 0),
                forall|i: int| lo <= i < l ==> has_prefix_at(ks, self.inner@[i] as int, kt),
                forall|i: int|
                    r <= i < self.inner@.len() ==> !has_prefix_at(ks, self.inner@[i] as int, kt),
            decreases r - l,
        {
            let m: usize = l + (r - l) / 2;
            if starts_with_at(self.raw.as_slice(), self.inner[m], t) {
                proof {
                    assert forall|i: int| lo <= i < m + 1 implies has_prefix_at(
                        ks,
                        self.inner@[i] as int,
                        kt,
                    ) by {
                        if i < m {
                            assert(suffix_lt(ks, self.inner@[i] as int, self.inner@[m as int] as int));
                            lemma_prefix_between(
                                ks,
                                self.inner@[i] as int,
                                ks,
                                self.inner@[m as int] as int,
                                kt,
                            );
                        }
                    }
                }
                l = m + 1;
            } else {
                proof {
                    assert forall|i: int| m <= i < self.inner@.len() implies !has_prefix_at(
                        ks,
                        self.inner@[i] as int,
                        kt,
                    ) by {
                        if i > m && has_prefix_at(ks, self.inner@[i] as int, kt) {
                            assert(suffix_lt(ks, self.inner@[m as int] as int, self.inner@[i] as int));
                            lemma_prefix_between(
                                ks,
                                self.inner@[m as int] as int,
                                ks,
                                self.inner@[i] as int,
                                kt,
                            );
                        }
                    }
                }
                r = m;
            }
        }
        l
    }

    /// All offsets at which `t` occurs in the sequence, as the block of the
    /// suffix array that holds them: in the order of the suffixes, not of the
    /// offsets.
    pub fn find<V: IntoVec<T>>(&self, t: V) -> (r: &[usize])
        ensures
            forall|k: usize|
                r@.contains(k) <==> k + t.elements().len() <= self.text().len()
                    && self.text().subrange(k as int, k + t.elements().len()) == t.elements(),
            forall|k: usize|
                r@.contains(k) <==> has_prefix_at(keys(self.text()), k as int, keys(t.elements())),
            exists|lo: int, hi: int|
                0 <= lo <= hi <= self.order().len() && r@ == #[trigger] self.order().subrange(
                    lo,
                    hi,
                ),
    {
        proof {
            use_type_invariant(self);
        }
        let pattern: Vec<T> = t.into();
        let lo: usize = self.lower_bound(pattern.as_slice());
        let hi: usize = self.upper_bound(pattern.as_slice(), lo);
        let r: &[usize] = slice_subrange(self.inner.as_slice(), lo, hi);
        proof {
            let ks = keys(self.raw@);
            let kt = keys(pattern@);
            lemma_suffix_array_permutation(ks, self.inner@);
            assert forall|k: usize| r@.contains(k) <==> has_prefix_at(ks, k as int, kt) by {
                if r@.contains(k) {
                    let i = choose|i: int| 0 <= i < r@.len() && r@[i] == k;
                    assert(self.inner@[lo + i] == k);
                }
                if has_prefix_at(ks, k as int, kt) {
                    assert(self.inner@.contains(k));
                    let i = choose|i: int| 0 <= i < self.inner@.len() && self.inner@[i] == k;
                    lemma_prefix_not_before(ks, k as int, kt);
                    assert(lo <= i < hi);
                    assert(r@[i - lo] == k);
                }
            }
            assert(r@ == self.inner@.subrange(lo as int, hi as int));
            assert forall|k: usize|
                r@.contains(k) <==> k + pattern@.len() <= self.raw@.len() && self.raw@.subrange(
                    k as int,
                    k + pattern@.len(),
                ) == pattern@ by {
                lemma_occurrence(self.raw@, k as int, pattern@);
            }
        }
        r
    }
}

impl<S: Sort<char>> SuffixArray<char, S> {
    /// Builds the suffix array of the characters of `s`.
    pub fn from_str(s: &str) -> (res: Self)
        requires
            s@.len() < usize::MAX,
        ensures
            res.text() == s@,
            is_suffix_array(keys(s@), res.order()),
    {
        let raw: Vec<char> = chars_of(s);
        let inner: Vec<usize> = S::sort(raw.as_slice());
        SuffixArray { phantom: PhantomData, raw, inner }
    }
}

} // verus!
