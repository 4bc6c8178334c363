//! Small arithmetic helpers.

use vstd::arithmetic::power2::{lemma_pow2_unfold, pow2};
use vstd::prelude::*;

verus! {

/// The least `p` with `n <= 2^p`.
pub fn ceil_pow(n: usize) -> (p: usize)
    requires
        n <= usize::MAX / 2 + 1,
    ensures
        n <= pow2(p as nat),
        p > 0 ==> pow2((p - 1) as nat) < n,
        p < usize::BITS,
{
    let mut p: usize = 0;
    let mut w: usize = 1;
    proof {
        vstd::arithmetic::power2::lemma2_to64();
    }
    while w < n
        invariant
            w == pow2(p as nat),
            w >= 1,
            n <= usize::MAX / 2 + 1,
            p > 0 ==> pow2((p - 1) as nat) < n,
            w <= usize::MAX / 2 + 1,
            p < usize::BITS,
            w == usize::MAX / 2 + 1 ==> p == usize::BITS - 1,
            w < usize::MAX / 2 + 1 ==> p < usize::BITS - 1,
        decreases usize::BITS - p,
    {
        proof {
            lemma_pow2_unfold((p + 1) as nat);
            vstd::arithmetic::power2::lemma2_to64();
            lemma_half_is_power((p + 1) as nat);
        }
        w = w * 2;
        p += 1;
    }
    p
}

/// Below the top power of two of a word, doubling a power of two stays within
/// the word; and only the top exponent gives the top power.
proof fn lemma_half_is_power(p: nat)
    requires
        p < usize::BITS,
    ensures
        pow2(p) <= usize::MAX / 2 + 1,
        pow2(p) == usize::MAX / 2 + 1 <==> p == usize::BITS - 1,
{
    vstd::arithmetic::power2::lemma2_to64();
    vstd::arithmetic::power2::lemma2_to64_rest();
    if p < usize::BITS - 1 {
        vstd::arithmetic::power2::lemma_pow2_strictly_increases(p, (usize::BITS - 1) as nat);
    }
}

} // verus!
