//! What it means for a sequence of offsets to be the suffix array of a
//! sequence of keys, and why there is only one.

use crate::lex::{
    lemma_lex_irreflexive, lemma_lex_transitive, lemma_same_order_suffixes, lemma_suffix_asymmetric,
    same_order, suffix_lt,
};
use vstd::prelude::*;
use vstd::set_lib::{lemma_int_range, lemma_subset_equality, set_int_range};

verus! {

/// Whether `order` lists the start offsets of all suffixes of `s`, the empty
/// one included, each suffix coming strictly before those listed after it.
pub open spec fn is_suffix_array(s: Seq<int>, order: Seq<usize>) -> bool {
    &&& order.len() == s.len() + 1
    &&& forall|i: int| 0 <= i < order.len() ==> order[i] <= s.len()
    &&& forall|i: int, j: int|
        0 <= i < j < order.len() ==> suffix_lt(s, order[i] as int, order[j] as int)
}

/// Whether each suffix listed in `order` comes strictly before the next one.
pub open spec fn adjacent_sorted(s: Seq<int>, order: Seq<usize>) -> bool {
    forall|i: int|
        0 <= i && i + 1 < order.len() ==> suffix_lt(
            s,
            #[trigger] order[i] as int,
            order[i + 1] as int,
        )
}

/// Suffixes that are in order one after another are in order overall.
pub proof fn lemma_adjacent_sorted(s: Seq<int>, order: Seq<usize>, i: int, j: int)
    requires
        adjacent_sorted(s, order),
        0 <= i < j < order.len(),
    ensures
        suffix_lt(s, order[i] as int, order[j] as int),
    decreases j - i,
{
    if i + 1 < j {
        lemma_adjacent_sorted(s, order, i, j - 1);
        assert(suffix_lt(s, order[j - 1] as int, order[j - 1 + 1] as int));
        lemma_lex_transitive(s, order[i] as int, s, order[j - 1] as int, s, order[j] as int);
    }
}

/// A suffix array is a permutation of the offsets `0..=n`: no offset occurs
/// twice and each occurs.
pub proof fn lemma_suffix_array_permutation(s: Seq<int>, order: Seq<usize>)
    requires
        is_suffix_array(s, order),
    ensures
        order.no_duplicates(),
        forall|k: usize| k <= s.len() ==> order.contains(k),
        s.len() <= usize::MAX,
{
    assert forall|i: int, j: int| 0 <= i < order.len() && 0 <= j < order.len() && i != j implies order[i]
        != order[j] by {
        lemma_lex_irreflexive(s, order[i] as int);
        if i < j {
            assert(suffix_lt(s, order[i] as int, order[j] as int));
        } else {
            assert(suffix_lt(s, order[j] as int, order[i] as int));
        }
    }
    let m = order.map_values(|x: usize| x as int);
    assert forall|i: int, j: int| 0 <= i < m.len() && 0 <= j < m.len() && i != j implies m[i]
        != m[j] by {
        assert(order[i] != order[j]);
    }
    m.unique_seq_to_set();
    let range = set_int_range(0, s.len() as int + 1);
    lemma_int_range(0, s.len() as int + 1);
    assert(m.to_set().subset_of(range)) by {
        assert forall|k: int| m.to_set().contains(k) implies range.contains(k) by {
            let i = choose|i: int| 0 <= i < m.len() && m[i] == k;
            assert(order[i] <= s.len());
        }
    }
    vstd::seq_lib::seq_to_set_is_finite(m);
    lemma_subset_equality(m.to_set(), range);
    assert(s.len() <= usize::MAX) by {
        let k = s.len() as int;
        assert(range.contains(k));
        assert(m.to_set().contains(k));
        let i = choose|i: int| 0 <= i < m.len() && m[i] == k;
        assert(order[i] as int == k);
    }
    assert forall|k: usize| k <= s.len() implies order.contains(k) by {
        assert(range.contains(k as int));
        assert(m.to_set().contains(k as int));
        let i = choose|i: int| 0 <= i < m.len() && m[i] == k as int;
        assert(order[i] == k);
    }
}

/// Sequences with their keys in the same order have the same suffix array.
pub proof fn lemma_same_order_same_suffix_array(x: Seq<int>, y: Seq<int>, order: Seq<usize>)
    requires
        same_order(x, y),
        is_suffix_array(x, order),
    ensures
        is_suffix_array(y, order),
{
    assert forall|i: int, j: int| 0 <= i < j < order.len() implies suffix_lt(
        y,
        order[i] as int,
        order[j] as int,
    ) by {
        lemma_same_order_suffixes(x, y, order[i] as int, order[j] as int);
    }
}

/// Two suffix arrays of one sequence agree on their first `m` entries.
proof fn lemma_suffix_array_unique_upto(s: Seq<int>, o1: Seq<usize>, o2: Seq<usize>, m: int)
    requires
        is_suffix_array(s, o1),
        is_suffix_array(s, o2),
        0 <= m <= o1.len(),
    ensures
        forall|i: int| 0 <= i < m ==> o1[i] == o2[i],
    decreases m,
{
    if m > 0 {
        lemma_suffix_array_unique_upto(s, o1, o2, m - 1);
        let i = m - 1;
        let a = o1[i];
        let b = o2[i];
        if a != b {
            lemma_suffix_array_permutation(s, o1);
            lemma_suffix_array_permutation(s, o2);
            assert(o2.contains(a));
            let j = choose|j: int| 0 <= j < o2.len() && o2[j] == a;
            if j < i {
                assert(o1[j] == o2[j]);
                lemma_lex_irreflexive(s, a as int);
            }
            assert(suffix_lt(s, b as int, a as int));
            assert(o1.contains(b));
            let k = choose|k: int| 0 <= k < o1.len() && o1[k] == b;
            if k < i {
                assert(o1[k] == o2[k]);
                lemma_lex_irreflexive(s, b as int);
            }
            assert(suffix_lt(s, a as int, b as int));
            lemma_suffix_asymmetric(s, a as int, b as int);
        }
    }
}

/// A sequence has one suffix array only: however it was built, by whichever
/// strategy and from whatever seed order, the result is the same.
pub proof fn lemma_suffix_array_unique(s: Seq<int>, o1: Seq<usize>, o2: Seq<usize>)
    requires
        is_suffix_array(s, o1),
        is_suffix_array(s, o2),
    ensures
        o1 == o2,
{
    lemma_suffix_array_unique_upto(s, o1, o2, o1.len() as int);
    assert(o1 =~= o2);
}

} // verus!
