//! Numbers written in a given base.

pub mod dynamic;
pub mod fixed;

use vstd::prelude::*;

verus! {

/// The digits of `n` in base `d`, most significant first; none for 0.
pub open spec fn digits_of(n: nat, d: nat) -> Seq<u32>
    decreases n,
    via digits_of_decreases
{
    if n == 0 || d < 2 {
        Seq::empty()
    } else {
        digits_of(n / d, d).push((n % d) as u32)
    }
}

#[via_fn]
proof fn digits_of_decreases(n: nat, d: nat) {
    if n > 0 && d >= 2 {
        assert(n / d < n) by (nonlinear_arith)
            requires
                n > 0,
                d >= 2,
        ;
    }
}

/// The number that the digits `v` spell in base `d`.
pub open spec fn digits_value(v: Seq<u32>, d: nat) -> nat
    decreases v.len(),
{
    if v.len() == 0 {
        0
    } else {
        digits_value(v.drop_last(), d) * d + v.last() as nat
    }
}

/// The digits of a number spell that number, each is below the base, and the
/// first is not 0.
pub proof fn lemma_digits_of(n: nat, d: nat)
    requires
        2 <= d <= u32::MAX,
    ensures
        digits_value(digits_of(n, d), d) == n,
        forall|i: int| 0 <= i < digits_of(n, d).len() ==> digits_of(n, d)[i] < d,
        n > 0 ==> digits_of(n, d).len() > 0 && digits_of(n, d)[0] != 0,
    decreases n,
{
    if n > 0 {
        let q = n / d;
        let r = n % d;
        assert(q < n) by (nonlinear_arith)
            requires
                n > 0,
                d >= 2,
                q == n / d,
        ;
        lemma_digits_of(q, d);
        let v = digits_of(n, d);
        assert(v.drop_last() =~= digits_of(q, d));
        assert(q * d + r == n) by (nonlinear_arith)
            requires
                d > 0,
                q == n / d,
                r == n % d,
        ;
        assert(r < d) by (nonlinear_arith)
            requires
                d > 0,
                r == n % d,
        ;
        if q == 0 {
            assert(r == n);
        }
    }
}

/// The digits of `n` in base `d`, most significant first.
pub fn into(n: u64, d: u32) -> (res: Vec<u32>)
    requires
        d >= 2,
    ensures
        res@ == digits_of(n as nat, d as nat),
{
    let mut low_first: Vec<u32> = Vec::new();
    let mut m: u64 = n;
    while m > 0
        invariant
            d >= 2,
            digits_of(n as nat, d as nat) == digits_of(m as nat, d as nat) + low_first@.reverse(),
        decreases m,
    {
        let rem: u64 = m % (d as u64);
        let ghost before = low_first@;
        low_first.push(rem as u32);
        proof {
            let q = (m / (d as u64)) as nat;
            assert(low_first@.reverse() =~= seq![rem as u32] + before.reverse());
            assert(digits_of(m as nat, d as nat) =~= digits_of(q, d as nat).push(rem as u32));
            assert(digits_of(m as nat, d as nat) + before.reverse() =~= digits_of(q, d as nat)
                + low_first@.reverse());
        }
        m = m / (d as u64);
    }
    let mut res: Vec<u32> = Vec::new();
    let mut i: usize = low_first.len();
    while i > 0
        invariant
            i <= low_first@.len(),
            res@.len() == low_first@.len() - i,
            forall|j: int| 0 <= j < res@.len() ==> res@[j] == low_first@[low_first@.len() - 1 - j],
        decreases i,
    {
        i -= 1;
        res.push(low_first[i]);
    }
    proof {
        assert(res@ =~= low_first@.reverse());
        assert(digits_of(0, d as nat) + res@ =~= res@);
    }
    res
}

/// The character for a digit: `0` to `9`, then `A` to `Z`.
pub open spec fn digit_char(c: u32) -> char
    recommends
        c < 36,
{
    if c < 10 {
        (48 + c) as char
    } else {
        (55 + c) as char
    }
}

/// The character for a digit below 36.
pub fn digit_to_char(c: u32) -> (ch: char)
    requires
        c < 36,
    ensures
        ch == digit_char(c),
{
    let table: [char; 36] = [
        '0', '1', '2', '3', '4', '5', '6', '7', '8', '9', 'A', 'B', 'C', 'D', 'E', 'F', 'G', 'H',
        'I', 'J', 'K', 'L', 'M', 'N', 'O', 'P', 'Q', 'R', 'S', 'T', 'U', 'V', 'W', 'X', 'Y', 'Z',
    ];
    table[c as usize]
}

/// The characters for the digits `v`.
pub fn digits_to_chars(v: &Vec<u32>) -> (out: Vec<char>)
    requires
        forall|i: int| 0 <= i < v@.len() ==> v@[i] < 36,
    ensures
        out@.len() == v@.len(),
        forall|i: int| 0 <= i < v@.len() ==> out@[i] == digit_char(v@[i]),
{
    let mut out: Vec<char> = Vec::new();
    let mut i: usize = 0;
    while i < v.len()
        invariant
            i <= v@.len(),
            out@.len() == i,
            forall|j: int| 0 <= j < v@.len() ==> v@[j] < 36,
            forall|j: int| 0 <= j < i ==> out@[j] == digit_char(v@[j]),
        decreases v@.len() - i,
    {
        out.push(digit_to_char(v[i]));
        i += 1;
    }
    out
}

} // verus!
