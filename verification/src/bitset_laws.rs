//! Laws of the bitset's set algebra, stated over the views of bitsets.

use crate::bitset::{
    bit_at, complement_spec, count_true, disjoint_spec, intersection_spec, subset_spec, union_spec,
    BitSet,
};
use vstd::prelude::*;

verus! {

/// No bit at or beyond the length of a bitset reads as set.
pub proof fn lemma_no_bit_beyond_length(s: BitSet, i: int)
    requires
        i >= s@.len(),
    ensures
        !s.bit(i),
{
}

/// A bitset made from a sequence of booleans reads back as that sequence.
pub proof fn lemma_round_trip(v: Seq<bool>, i: int)
    requires
        0 <= i < v.len(),
    ensures
        bit_at(v, i) == v[i],
{
}

/// Between bitsets of one length the cell-wise intersection is the pairwise
/// one.
pub proof fn lemma_intersection_pairwise(a: Seq<bool>, b: Seq<bool>)
    requires
        a.len() == b.len(),
    ensures
        intersection_spec(a, b) =~= Seq::new(a.len(), |i: int| a[i] && b[i]),
{
}

/// Intersecting a union with one of its operands gives that operand back.
pub proof fn lemma_union_intersection_absorb(a: Seq<bool>, b: Seq<bool>)
    requires
        a.len() == b.len(),
    ensures
        intersection_spec(union_spec(a, b), a) == a,
{
    assert(intersection_spec(union_spec(a, b), a) =~= a);
}

/// A bitset and its complement have nothing in common.
pub proof fn lemma_intersection_complement_empty(a: Seq<bool>)
    ensures
        intersection_spec(a, complement_spec(a)) == Seq::new(a.len(), |i: int| false),
{
    assert(intersection_spec(a, complement_spec(a)) =~= Seq::new(a.len(), |i: int| false));
}

/// The set bits of a union and of an intersection add up to those of the two
/// operands.
pub proof fn lemma_inclusion_exclusion(a: Seq<bool>, b: Seq<bool>)
    requires
        a.len() == b.len(),
    ensures
        count_true(union_spec(a, b)) + count_true(intersection_spec(a, b)) == count_true(a)
            + count_true(b),
    decreases a.len(),
{
    if a.len() > 0 {
        let a1 = a.drop_last();
        let b1 = b.drop_last();
        lemma_inclusion_exclusion(a1, b1);
        assert(union_spec(a, b).drop_last() =~= union_spec(a1, b1));
        assert(intersection_spec(a, b).drop_last() =~= intersection_spec(a1, b1));
    }
}

/// Between bitsets of one length, equality is equality bit by bit.
pub proof fn lemma_equal_length_equality(a: Seq<bool>, b: Seq<bool>)
    requires
        a.len() == b.len(),
    ensures
        (subset_spec(a, b) && subset_spec(b, a)) <==> a == b,
{
    if subset_spec(a, b) && subset_spec(b, a) {
        assert(a =~= b);
    }
}

/// Disjointness does not depend on the side it is asked from.
pub proof fn lemma_disjoint_symmetric(a: Seq<bool>, b: Seq<bool>)
    ensures
        disjoint_spec(a, b) == disjoint_spec(b, a),
{
}

} // verus!
