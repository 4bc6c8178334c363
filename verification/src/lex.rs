//! Lexicographic order on sequences of keys, and the comparisons that decide
//! it on slices of ordered values.

use crate::symbol::{keys, Keyed};
use vstd::prelude::*;

verus! {

/// Whether `x[i..]` comes strictly before `y[j..]` in lexicographic order: at
/// the first place where they differ the former has the smaller key, or the
/// former ends there and the latter goes on.
pub open spec fn lex_lt_at(x: Seq<int>, i: int, y: Seq<int>, j: int) -> bool
    recommends
        0 <= i,
        0 <= j,
    decreases x.len() - i,
{
    if j >= y.len() {
        false
    } else if i >= x.len() {
        true
    } else if x[i] != y[j] {
        x[i] < y[j]
    } else {
        lex_lt_at(x, i + 1, y, j + 1)
    }
}

/// Whether `x` comes strictly before `y` in lexicographic order.
pub open spec fn lex_lt(x: Seq<int>, y: Seq<int>) -> bool {
    lex_lt_at(x, 0, y, 0)
}

/// Whether the suffix of `s` at `a` comes strictly before its suffix at `b`.
pub open spec fn suffix_lt(s: Seq<int>, a: int, b: int) -> bool {
    lex_lt_at(s, a, s, b)
}

/// Whether `t` occurs in `x` at `i`.
pub open spec fn has_prefix_at(x: Seq<int>, i: int, t: Seq<int>) -> bool {
    &&& 0 <= i
    &&& i + t.len() <= x.len()
    &&& forall|d: int| 0 <= d < t.len() ==> x[i + d] == t[d]
}

/// The comparison from an offset is the comparison of what follows it.
pub proof fn lemma_lex_lt_at_subrange(x: Seq<int>, i: int, y: Seq<int>, j: int)
    requires
        0 <= i <= x.len(),
        0 <= j <= y.len(),
    ensures
        lex_lt_at(x, i, y, j) == lex_lt(
            x.subrange(i, x.len() as int),
            y.subrange(j, y.len() as int),
        ),
    decreases x.len() - i,
{
    let xs = x.subrange(i, x.len() as int);
    let ys = y.subrange(j, y.len() as int);
    if j < y.len() && i < x.len() && x[i] == y[j] {
        lemma_lex_lt_at_subrange(x, i + 1, y, j + 1);
        lemma_lex_lt_at_shift(xs, 0, ys, 0, x, i, y, j, 1);
    }
}

/// Comparisons that read the same keys give the same answer.
proof fn lemma_lex_lt_at_shift(
    x: Seq<int>,
    i: int,
    y: Seq<int>,
    j: int,
    x2: Seq<int>,
    i2: int,
    y2: Seq<int>,
    j2: int,
    d: int,
)
    requires
        0 <= d,
        0 <= i,
        0 <= j,
        0 <= i2,
        0 <= j2,
        x.len() - i == x2.len() - i2,
        y.len() - j == y2.len() - j2,
        forall|p: int| i <= p < x.len() ==> x[p] == x2[p - i + i2],
        forall|p: int| j <= p < y.len() ==> y[p] == y2[p - j + j2],
    ensures
        lex_lt_at(x, i + d, y, j + d) == lex_lt_at(x2, i2 + d, y2, j2 + d),
    decreases x.len() - i - d,
{
    if j + d < y.len() && i + d < x.len() {
        assert(x[i + d] == x2[i + d - i + i2]);
        assert(y[j + d] == y2[j + d - j + j2]);
        if x[i + d] == y[j + d] {
            lemma_lex_lt_at_shift(x, i, y, j, x2, i2, y2, j2, d + 1);
        }
    }
}

/// Nothing comes strictly before itself.
pub proof fn lemma_lex_irreflexive(x: Seq<int>, i: int)
    requires
        0 <= i,
    ensures
        !lex_lt_at(x, i, x, i),
    decreases x.len() - i,
{
    if i < x.len() {
        lemma_lex_irreflexive(x, i + 1);
    }
}

/// The order is transitive.
pub proof fn lemma_lex_transitive(x: Seq<int>, i: int, y: Seq<int>, j: int, z: Seq<int>, k: int)
    requires
        0 <= i,
        0 <= j,
        0 <= k,
        lex_lt_at(x, i, y, j),
        lex_lt_at(y, j, z, k),
    ensures
        lex_lt_at(x, i, z, k),
    decreases x.len() - i,
{
    if i < x.len() && x[i] == y[j] && y[j] == z[k] {
        lemma_lex_transitive(x, i + 1, y, j + 1, z, k + 1);
    }
}

/// Of two sequences that do not come before one another, each has the keys of
/// the other.
pub proof fn lemma_lex_connected(x: Seq<int>, i: int, y: Seq<int>, j: int)
    requires
        0 <= i <= x.len(),
        0 <= j <= y.len(),
        !lex_lt_at(x, i, y, j),
        !lex_lt_at(y, j, x, i),
    ensures
        x.len() - i == y.len() - j,
        forall|p: int| i <= p < x.len() ==> x[p] == y[p - i + j],
    decreases x.len() - i,
{
    if i < x.len() && j < y.len() {
        lemma_lex_connected(x, i + 1, y, j + 1);
        assert forall|p: int| i <= p < x.len() implies x[p] == y[p - i + j] by {
            if p > i {
                assert(x[p] == y[p - (i + 1) + (j + 1)]);
            }
        }
    }
}

/// Of two different suffixes of one sequence, one comes strictly before the
/// other.
pub proof fn lemma_suffix_total(s: Seq<int>, a: int, b: int)
    requires
        0 <= a <= s.len(),
        0 <= b <= s.len(),
        a != b,
    ensures
        suffix_lt(s, a, b) || suffix_lt(s, b, a),
{
    if !suffix_lt(s, a, b) && !suffix_lt(s, b, a) {
        lemma_lex_connected(s, a, s, b);
    }
}

/// Of two suffixes of one sequence, at most one comes strictly before the
/// other.
pub proof fn lemma_suffix_asymmetric(s: Seq<int>, a: int, b: int)
    requires
        0 <= a,
        0 <= b,
        suffix_lt(s, a, b),
    ensures
        !suffix_lt(s, b, a),
{
    if suffix_lt(s, b, a) {
        lemma_lex_transitive(s, a, s, b, s, a);
        lemma_lex_irreflexive(s, a);
    }
}

/// Whether `x` and `y` have their keys in the same order.
pub open spec fn same_order(x: Seq<int>, y: Seq<int>) -> bool {
    &&& x.len() == y.len()
    &&& forall|i: int, j: int|
        0 <= i < x.len() && 0 <= j < x.len() ==> ((#[trigger] x[i]) < (#[trigger] x[j])) == (y[i]
            < y[j])
}

/// Sequences with their keys in the same order have their suffixes in the
/// same order.
pub proof fn lemma_same_order_suffixes(x: Seq<int>, y: Seq<int>, a: int, b: int)
    requires
        same_order(x, y),
        0 <= a,
        0 <= b,
    ensures
        suffix_lt(x, a, b) == suffix_lt(y, a, b),
    decreases x.len() - a,
{
    if a < x.len() && b < x.len() {
        assert((x[a] < x[b]) == (y[a] < y[b]));
        assert((x[b] < x[a]) == (y[b] < y[a]));
        lemma_same_order_suffixes(x, y, a + 1, b + 1);
    }
}

/// The keys of `t` occur in the keys of `x` at `i` exactly when `t` itself
/// stands in `x` from `i` on.
pub proof fn lemma_occurrence<T: Keyed>(x: Seq<T>, i: int, t: Seq<T>)
    ensures
        has_prefix_at(keys(x), i, keys(t)) <==> (0 <= i && i + t.len() <= x.len() && x.subrange(
            i,
            i + t.len(),
        ) == t),
{
    if has_prefix_at(keys(x), i, keys(t)) {
        let w = x.subrange(i, i + t.len());
        assert forall|d: int| 0 <= d < t.len() implies w[d] == t[d] by {
            assert(keys(x)[i + d] == keys(t)[d]);
            assert(keys(x)[i + d] == x[i + d].key());
            assert(keys(t)[d] == t[d].key());
            T::lemma_key_injective(x[i + d], t[d]);
        }
        assert(w =~= t);
    }
    if 0 <= i && i + t.len() <= x.len() && x.subrange(i, i + t.len()) == t {
        assert forall|d: int| 0 <= d < keys(t).len() implies keys(x)[i + d] == keys(t)[d] by {
            assert(x.subrange(i, i + t.len())[d] == x[i + d]);
        }
    }
}

/// A sequence in which `t` occurs at `i` does not come before `t` from there.
pub proof fn lemma_prefix_not_before(x: Seq<int>, i: int, t: Seq<int>)
    requires
        has_prefix_at(x, i, t),
    ensures
        !lex_lt_at(x, i, t, 0),
{
    lemma_prefix_not_before_from(x, i, t, 0);
}

proof fn lemma_prefix_not_before_from(x: Seq<int>, i: int, t: Seq<int>, d: int)
    requires
        has_prefix_at(x, i, t),
        0 <= d <= t.len(),
    ensures
        !lex_lt_at(x, i + d, t, d),
    decreases t.len() - d,
{
    if d < t.len() {
        lemma_prefix_not_before_from(x, i, t, d + 1);
    }
}

/// What lies between `t` and a sequence that starts with `t` starts with `t`.
pub proof fn lemma_prefix_between(x: Seq<int>, i: int, y: Seq<int>, j: int, t: Seq<int>)
    requires
        0 <= i <= x.len(),
        !lex_lt_at(x, i, t, 0),
        lex_lt_at(x, i, y, j),
        has_prefix_at(y, j, t),
    ensures
        has_prefix_at(x, i, t),
{
    lemma_prefix_between_from(x, i, y, j, t, 0);
}

proof fn lemma_prefix_between_from(x: Seq<int>, i: int, y: Seq<int>, j: int, t: Seq<int>, d: int)
    requires
        0 <= i,
        0 <= d <= t.len(),
        i + d <= x.len(),
        !lex_lt_at(x, i + d, t, d),
        lex_lt_at(x, i + d, y, j + d),
        has_prefix_at(y, j, t),
    ensures
        i + t.len() <= x.len(),
        forall|e: int| d <= e < t.len() ==> x[i + e] == t[e],
    decreases t.len() - d,
{
    if d < t.len() {
        assert(y[j + d] == t[d]);
        lemma_prefix_between_from(x, i, y, j, t, d + 1);
    }
}

/// Whether `x[i..]` comes strictly before `y[j..]`.
pub fn less_at<T: Keyed>(x: &[T], i: usize, y: &[T], j: usize) -> (b: bool)
    requires
        i <= x@.len(),
        j <= y@.len(),
    ensures
        b == lex_lt_at(keys(x@), i as int, keys(y@), j as int),
{
    let mut p: usize = i;
    let mut q: usize = j;
    loop
        invariant
            i <= p <= x@.len(),
            j <= q <= y@.len(),
            lex_lt_at(keys(x@), i as int, keys(y@), j as int) == lex_lt_at(
                keys(x@),
                p as int,
                keys(y@),
                q as int,
            ),
        decreases x@.len() - p,
    {
        if q >= y.len() {
            return false;
        }
        if p >= x.len() {
            return true;
        }
        if !x[p].same(&y[q]) {
            return x[p].less(&y[q]);
        }
        p += 1;
        q += 1;
    }
}

/// Whether `t` occurs in `x` at `i`.
pub fn starts_with_at<T: Keyed>(x: &[T], i: usize, t: &[T]) -> (b: bool)
    requires
        i <= x@.len(),
    ensures
        b == has_prefix_at(keys(x@), i as int, keys(t@)),
{
    if t.len() > x.len() - i {
        return false;
    }
    let mut d: usize = 0;
    while d < t.len()
        invariant
            d <= t@.len(),
            i + t@.len() <= x@.len() <= usize::MAX,
            forall|e: int| 0 <= e < d ==> keys(x@)[i + e] == keys(t@)[e],
        decreases t@.len() - d,
    {
        if !x[i + d].same(&t[d]) {
            assert(keys(x@)[i + d] != keys(t@)[d as int]);
            return false;
        }
        d += 1;
    }
    true
}

} // verus!
