//! A linear-time check that a sequence of offsets is the suffix array of a
//! sequence: it is a permutation, and each suffix relates to the next one in
//! the list by its first key and by the places of the two suffixes that
//! follow them.

use crate::lex::{lemma_lex_irreflexive, suffix_lt};
use crate::suffix_order::is_suffix_array;
use crate::symbol::{keys, Keyed};
use vstd::prelude::*;

verus! {

/// Whether the suffix at `a` does not come after the suffix at `b` as far as
/// their first `d` keys tell.
pub open spec fn le_within(s: Seq<int>, a: int, b: int, d: nat) -> bool
    decreases d,
{
    if d == 0 {
        true
    } else if a >= s.len() {
        true
    } else if b >= s.len() {
        false
    } else if s[a] != s[b] {
        s[a] < s[b]
    } else {
        le_within(s, a + 1, b + 1, (d - 1) as nat)
    }
}

/// Whether `rank` gives for each offset its place in `order`.
pub open spec fn inverse_of(order: Seq<usize>, rank: Seq<usize>) -> bool {
    &&& rank.len() == order.len()
    &&& forall|i: int|
        0 <= i < order.len() ==> #[trigger] order[i] < rank.len() && rank[order[i] as int] == i
    &&& forall|k: int|
        0 <= k < rank.len() ==> #[trigger] rank[k] < order.len() && order[rank[k] as int] == k
}

/// Whether the suffix at place `i` of `order` is seen to come before the one
/// at place `i + 1`: it is the empty suffix, or it has the smaller first key,
/// or the same first key and the suffix after it has the earlier place.
pub open spec fn step_ok(s: Seq<int>, order: Seq<usize>, rank: Seq<usize>, i: int) -> bool {
    let a = order[i] as int;
    let b = order[i + 1] as int;
    a == s.len() || (a < s.len() && b < s.len() && (s[a] < s[b] || (s[a] == s[b] && rank[a + 1]
        < rank[b + 1])))
}

/// Comparison on the first `d` keys is transitive.
proof fn lemma_le_within_transitive(s: Seq<int>, a: int, b: int, c: int, d: nat)
    requires
        0 <= a,
        0 <= b,
        0 <= c,
        le_within(s, a, b, d),
        le_within(s, b, c, d),
    ensures
        le_within(s, a, c, d),
    decreases d,
{
    if d > 0 && a < s.len() && s[a] == s[b] && s[b] == s[c] {
        lemma_le_within_transitive(s, a + 1, b + 1, c + 1, (d - 1) as nat);
    }
}

/// Comparison on enough keys decides between two different suffixes.
proof fn lemma_le_within_decides(s: Seq<int>, a: int, b: int, d: nat)
    requires
        0 <= a <= s.len(),
        0 <= b <= s.len(),
        a != b,
        d + a > s.len(),
        le_within(s, a, b, d),
    ensures
        suffix_lt(s, a, b),
    decreases d,
{
    if a < s.len() && b < s.len() && s[a] == s[b] {
        lemma_le_within_decides(s, a + 1, b + 1, (d - 1) as nat);
    }
}

/// Where every step is in order, the places are in order on any number of
/// keys.
proof fn lemma_steps_chain(
    s: Seq<int>,
    order: Seq<usize>,
    rank: Seq<usize>,
    d: nat,
    i: int,
    j: int,
)
    requires
        order.len() == s.len() + 1,
        inverse_of(order, rank),
        forall|p: int| 0 <= p < s.len() ==> step_ok(s, order, rank, p),
        0 <= i < j < order.len(),
    ensures
        le_within(s, order[i] as int, order[j] as int, d),
    decreases d, j - i,
{
    if d > 0 {
        let a = order[j - 1] as int;
        let b = order[j] as int;
        assert(step_ok(s, order, rank, j - 1));
        assert(order[j - 1] < rank.len());
        if a < s.len() && s[a] == s[b] {
            let p = rank[a + 1] as int;
            let q = rank[b + 1] as int;
            assert(order[p] == a + 1);
            assert(order[q] == b + 1);
            lemma_steps_chain(s, order, rank, (d - 1) as nat, p, q);
        }
        assert(le_within(s, a, b, d));
        if i < j - 1 {
            lemma_steps_chain(s, order, rank, d, i, j - 1);
            lemma_le_within_transitive(s, order[i] as int, a, b, d);
        }
    }
}

/// A permutation whose every step is in order is the suffix array.
pub proof fn lemma_certificate(s: Seq<int>, order: Seq<usize>, rank: Seq<usize>)
    requires
        order.len() == s.len() + 1,
        inverse_of(order, rank),
        forall|p: int| 0 <= p < s.len() ==> step_ok(s, order, rank, p),
    ensures
        is_suffix_array(s, order),
{
    assert forall|i: int, j: int| 0 <= i < j < order.len() implies suffix_lt(
        s,
        order[i] as int,
        order[j] as int,
    ) by {
        let d = (s.len() + 1) as nat;
        lemma_steps_chain(s, order, rank, d, i, j);
        assert(order[i] < rank.len() && rank[order[i] as int] == i);
        assert(order[j] < rank.len() && rank[order[j] as int] == j);
        lemma_le_within_decides(s, order[i] as int, order[j] as int, d);
    }
    assert forall|i: int| 0 <= i < order.len() implies order[i] <= s.len() by {
        assert(order[i] < rank.len());
    }
}

/// In a suffix array every step is in order.
pub proof fn lemma_certificate_complete(s: Seq<int>, order: Seq<usize>, rank: Seq<usize>, p: int)
    requires
        is_suffix_array(s, order),
        inverse_of(order, rank),
        0 <= p < s.len(),
    ensures
        step_ok(s, order, rank, p),
{
    let a = order[p] as int;
    let b = order[p + 1] as int;
    assert(suffix_lt(s, a, b));
    if a < s.len() && s[a] == s[b] {
        let x = rank[a + 1] as int;
        let y = rank[b + 1] as int;
        assert(order[x] == a + 1);
        assert(order[y] == b + 1);
        assert(suffix_lt(s, a + 1, b + 1));
        if x == y {
            lemma_lex_irreflexive(s, a + 1);
        } else if y < x {
            assert(suffix_lt(s, order[y] as int, order[x] as int));
            crate::lex::lemma_suffix_asymmetric(s, a + 1, b + 1);
        }
    }
}

/// A vector of `n` entries `x`.
fn filled(n: usize, x: usize) -> (v: Vec<usize>)
    ensures
        v@.len() == n,
        forall|i: int| 0 <= i < n ==> v@[i] == x,
{
    let mut v: Vec<usize> = Vec::new();
    let mut i: usize = 0;
    while i < n
        invariant
            i <= n,
            v@.len() == i,
            forall|j: int| 0 <= j < i ==> v@[j] == x,
        decreases n - i,
    {
        v.push(x);
        i += 1;
    }
    v
}

/// The place of each offset in `order`, or `None` when `order` is not a
/// permutation of the offsets `0..order.len()`.
pub fn inverse(order: &Vec<usize>) -> (res: Option<Vec<usize>>)
    ensures
        match res {
            Some(rank) => inverse_of(order@, rank@),
            None => !exists|rank: Seq<usize>| inverse_of(order@, rank),
        },
{
    let len: usize = order.len();
    let mut rank: Vec<usize> = filled(len, len);
    let mut i: usize = 0;
    while i < len
        invariant
            len == order@.len(),
            rank@.len() == len,
            i <= len,
            forall|p: int| 0 <= p < i ==> #[trigger] order@[p] < len && rank@[order@[p] as int] == p,
            forall|k: int|
                0 <= k < len ==> #[trigger] rank@[k] == len || (rank@[k] < i
                    && order@[rank@[k] as int] == k),
        decreases len - i,
    {
        let k: usize = order[i];
        if k >= len {
            proof {
                assert forall|r: Seq<usize>| !inverse_of(order@, r) by {
                    if inverse_of(order@, r) {
                        assert(order@[i as int] < r.len());
                    }
                }
            }
            return None;
        }
        if rank[k] != len {
            proof {
                let p = rank@[k as int] as int;
                assert(order@[p] == k);
                assert forall|r: Seq<usize>| !inverse_of(order@, r) by {
                    if inverse_of(order@, r) {
                        assert(order@[p] < r.len() && r[order@[p] as int] == p);
                        assert(order@[i as int] < r.len() && r[order@[i as int] as int] == i);
                    }
                }
            }
            return None;
        }
        rank.set(k, i);
        i += 1;
    }
    let mut k: usize = 0;
    while k < len
        invariant
            len == order@.len(),
            rank@.len() == len,
            k <= len,
            forall|p: int|
                0 <= p < len ==> #[trigger] order@[p] < len && rank@[order@[p] as int] == p,
            forall|c: int|
                0 <= c < len ==> #[trigger] rank@[c] == len || (rank@[c] < len
                    && order@[rank@[c] as int] == c),
            forall|c: int| 0 <= c < k ==> #[trigger] rank@[c] != len,
        decreases len - k,
    {
        if rank[k] == len {
            proof {
                assert forall|r: Seq<usize>| !inverse_of(order@, r) by {
                    if inverse_of(order@, r) {
                        let p = r[k as int] as int;
                        assert(r[k as int] < order@.len() && order@[p] == k);
                        assert(order@[p] < len && rank@[order@[p] as int] == p);
                    }
                }
            }
            return None;
        }
        k += 1;
    }
    Some(rank)
}

/// Whether `order` is the suffix array of `s`.
pub fn is_suffix_array_of<T: Keyed>(s: &[T], order: &Vec<usize>) -> (ok: bool)
    ensures
        ok == is_suffix_array(keys(s@), order@),
{
    let n: usize = s.len();
    let ghost ks = keys(s@);
    if order.len() == 0 || order.len() - 1 != n {
        return false;
    }
    let rank: Vec<usize> = match inverse(order) {
        Some(r) => r,
        None => {
            proof {
                if is_suffix_array(ks, order@) {
                    lemma_inverse_exists(ks, order@);
                }
            }
            return false;
        },
    };
    let mut i: usize = 0;
    while i < n
        invariant
            ks == keys(s@),
            n == s@.len(),
            order@.len() == n + 1,
            inverse_of(order@, rank@),
            i <= n,
            forall|p: int| 0 <= p < i ==> step_ok(ks, order@, rank@, p),
        decreases n - i,
    {
        let a: usize = order[i];
        let b: usize = order[i + 1];
        proof {
            assert(order@[i as int] < rank@.len());
            assert(order@[i + 1] < rank@.len());
        }
        let good: bool = if a == n {
            true
        } else if b == n {
            false
        } else if s[a].less(&s[b]) {
            true
        } else if s[a].same(&s[b]) {
            rank[a + 1] < rank[b + 1]
        } else {
            false
        };
        proof {
            if a < n && b < n {
                assert(ks[a as int] == s@[a as int].key());
                assert(ks[b as int] == s@[b as int].key());
            }
            assert(good == step_ok(ks, order@, rank@, i as int));
        }
        if !good {
            proof {
                if is_suffix_array(ks, order@) {
                    lemma_certificate_complete(ks, order@, rank@, i as int);
                }
            }
            return false;
        }
        i += 1;
    }
    proof {
        lemma_certificate(ks, order@, rank@);
    }
    true
}

/// A suffix array has an inverse.
proof fn lemma_inverse_exists(s: Seq<int>, order: Seq<usize>)
    requires
        is_suffix_array(s, order),
    ensures
        exists|rank: Seq<usize>| inverse_of(order, rank),
{
    crate::suffix_order::lemma_suffix_array_permutation(s, order);
    let rank = Seq::new(
        order.len(),
        |k: int| (choose|i: int| 0 <= i < order.len() && order[i] == k as usize) as usize,
    );
    assert forall|k: int| 0 <= k < rank.len() implies #[trigger] rank[k] < order.len()
        && order[rank[k] as int] == k by {
        assert(order.contains(k as usize));
    }
    assert forall|i: int| 0 <= i < order.len() implies #[trigger] order[i] < rank.len()
        && rank[order[i] as int] == i by {
        let k = order[i] as int;
        assert(order.contains(k as usize));
        let j = rank[k] as int;
        assert(order[j] == order[i]);
    }
    assert(inverse_of(order, rank));
}

} // verus!
