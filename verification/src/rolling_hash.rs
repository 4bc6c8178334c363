//! A rolling hash: the polynomial hash of every prefix of a sequence, from
//! which the hash of any window follows in constant time.

use crate::shuffle::random_in;
use crate::text::chars_of;
use core::marker::PhantomData;
use vstd::arithmetic::div_mod::{
    lemma_add_mod_noop, lemma_add_mod_noop_right, lemma_mod_bound, lemma_mul_mod_noop_general,
    lemma_small_mod,
};
use vstd::prelude::*;
use vstd::slice::slice_to_vec;

verus! {

/// The modulus of the hash: the Mersenne prime `2^61 - 1`.
pub const MOD: u64 = 2305843009213693951;

/// Sources of the base of a hash.
pub trait Base {
    /// A base.
    fn base() -> u64;
}

/// The source of a base drawn at random.
#[derive(Debug)]
pub struct RandomBase;

impl Base for RandomBase {
    fn base() -> (b: u64)
        ensures
            2 <= b <= MOD,
    {
        random_in(2, MOD)
    }
}

/// Values that enter a hash by a number.
pub trait Hashable: Copy {
    /// The number that stands for the value.
    spec fn code(&self) -> nat;

    /// The number that stands for the value.
    fn to_code(&self) -> (c: u128)
        ensures
            c == self.code(),
    ;
}

impl Hashable for u8 {
    open spec fn code(&self) -> nat {
        *self as nat
    }

    fn to_code(&self) -> (c: u128) {
        *self as u128
    }
}

impl Hashable for u16 {
    open spec fn code(&self) -> nat {
        *self as nat
    }

    fn to_code(&self) -> (c: u128) {
        *self as u128
    }
}

impl Hashable for u32 {
    open spec fn code(&self) -> nat {
        *self as nat
    }

    fn to_code(&self) -> (c: u128) {
        *self as u128
    }
}

impl Hashable for u64 {
    open spec fn code(&self) -> nat {
        *self as nat
    }

    fn to_code(&self) -> (c: u128) {
        *self as u128
    }
}

impl Hashable for u128 {
    open spec fn code(&self) -> nat {
        *self as nat
    }

    fn to_code(&self) -> (c: u128) {
        *self
    }
}

impl Hashable for char {
    open spec fn code(&self) -> nat {
        *self as nat
    }

    fn to_code(&self) -> (c: u128) {
        proof {
            crate::symbol::lemma_char_range(*self);
        }
        *self as u32 as u128
    }
}

/// The numbers that stand for the values of `s`.
pub open spec fn codes<T: Hashable>(s: Seq<T>) -> Seq<nat> {
    Seq::new(s.len(), |i: int| s[i].code())
}

/// `base` to the power of `e`, modulo `MOD`.
pub open spec fn pow_mod(base: nat, e: nat) -> nat
    decreases e,
{
    if e == 0 {
        1
    } else {
        (pow_mod(base, (e - 1) as nat) * base) % (MOD as nat)
    }
}

/// The polynomial hash of `s[from..to]` with base `base`: the sum of the
/// numbers, each times the base to the power of its distance from the end of
/// the window, modulo `MOD`.
pub open spec fn window_hash(s: Seq<nat>, base: nat, from: int, to: int) -> nat
    decreases to - from,
{
    if to <= from {
        0
    } else {
        (window_hash(s, base, from, to - 1) * base + s[to - 1]) % (MOD as nat)
    }
}

/// Hashes and powers are below the modulus.
pub proof fn lemma_hash_bounds(s: Seq<nat>, base: nat, from: int, to: int, e: nat)
    ensures
        window_hash(s, base, from, to) < MOD,
        pow_mod(base, e) < MOD,
{
    if to > from {
        lemma_mod_bound(
            (window_hash(s, base, from, to - 1) * base + s[to - 1]) as int,
            MOD as int,
        );
    }
    if e > 0 {
        lemma_mod_bound((pow_mod(base, (e - 1) as nat) * base) as int, MOD as int);
    }
}

/// Extending a hash that is a shifted hash plus a window hash extends the
/// shift and the window.
proof fn lemma_hash_step(m: int, h: int, p: int, w: int, b: int, x: int)
    requires
        m > 0,
    ensures
        (((h * p + w) % m) * b + x) % m == (h * ((p * b) % m) + (w * b + x) % m) % m,
{
    let left = ((h * p + w) % m) * b;
    let full = (h * p + w) * b;
    lemma_mul_mod_noop_general(h * p + w, b, m);
    assert(left % m == full % m);
    lemma_add_mod_noop(left, x, m);
    lemma_add_mod_noop(full, x, m);
    assert((left + x) % m == (full + x) % m);
    let shifted = h * ((p * b) % m);
    let plain = h * (p * b);
    lemma_mul_mod_noop_general(h, p * b, m);
    assert(shifted % m == plain % m);
    lemma_add_mod_noop(shifted, (w * b + x) % m, m);
    lemma_add_mod_noop(plain, w * b + x, m);
    vstd::arithmetic::div_mod::lemma_mod_twice(w * b + x, m);
    assert((shifted + (w * b + x) % m) % m == (plain + (w * b + x)) % m);
    assert(full + x == plain + (w * b + x)) by (nonlinear_arith)
        requires
            full == (h * p + w) * b,
            plain == h * (p * b),
    ;
}

/// The hash of a prefix is the hash of a shorter prefix, shifted by the
/// length of the window between them, plus the hash of that window.
pub proof fn lemma_hash_concat(s: Seq<nat>, base: nat, from: int, to: int)
    requires
        0 <= from <= to,
    ensures
        window_hash(s, base, 0, to) == (window_hash(s, base, 0, from) * pow_mod(
            base,
            (to - from) as nat,
        ) + window_hash(s, base, from, to)) % (MOD as nat),
    decreases to - from,
{
    let m = MOD as int;
    let h = window_hash(s, base, 0, from) as int;
    lemma_hash_bounds(s, base, 0, from, 0);
    if to == from {
        lemma_small_mod(h as nat, MOD as nat);
        assert(h * 1 + 0 == h);
    } else {
        lemma_hash_concat(s, base, from, to - 1);
        let k = (to - 1 - from) as nat;
        let p = pow_mod(base, k) as int;
        let w = window_hash(s, base, from, to - 1) as int;
        let x = s[to - 1] as int;
        let b = base as int;
        let ht = window_hash(s, base, 0, to - 1) as int;
        assert(ht == (h * p + w) % m);
        assert(window_hash(s, base, 0, to) == (ht * b + x) % m);
        assert(pow_mod(base, (to - from) as nat) == (p * b) % m);
        assert(window_hash(s, base, from, to) == (w * b + x) % m);
        lemma_hash_step(m, h, p, w, b, x);
    }
}

/// The powers of `base` modulo `MOD`, from the 0th to the `n`th.
pub fn powering(base: u64, n: usize) -> (pows: Vec<u64>)
    requires
        n < usize::MAX,
    ensures
        pows@.len() == n + 1,
        forall|i: int| 0 <= i <= n ==> pows@[i] == pow_mod(base as nat, i as nat),
{
    let mut pows: Vec<u64> = Vec::new();
    pows.push(1);
    let mut i: usize = 0;
    while i < n
        invariant
            i <= n < usize::MAX,
            pows@.len() == i + 1,
            forall|k: int| 0 <= k <= i ==> pows@[k] == pow_mod(base as nat, k as nat),
        decreases n - i,
    {
        proof {
            lemma_hash_bounds(Seq::empty(), base as nat, 0, 0, i as nat);
            lemma_mod_bound(pows@[i as int] as int * base as int, MOD as int);
        }
        let prd: u128 = pows[i] as u128;
        assert(prd * (base as u128) <= u128::MAX) by (nonlinear_arith)
            requires
                prd < 0x2000_0000_0000_0000,
                base <= 0xffff_ffff_ffff_ffff,
        ;
        let next: u128 = prd * (base as u128) % (MOD as u128);
        pows.push(next as u64);
        i += 1;
    }
    pows
}

/// The hashes of the prefixes of `s`, from the empty one to `s` itself.
pub fn rolling(s: &[u128], base: u64) -> (hashed: Vec<u64>)
    requires
        s@.len() < usize::MAX,
    ensures
        hashed@.len() == s@.len() + 1,
        forall|i: int|
            0 <= i <= s@.len() ==> hashed@[i] == window_hash(
                s@.map_values(|x: u128| x as nat),
                base as nat,
                0,
                i,
            ),
{
    let ghost sn = s@.map_values(|x: u128| x as nat);
    let mut hashed: Vec<u64> = Vec::new();
    hashed.push(0);
    let mut i: usize = 0;
    while i < s.len()
        invariant
            i <= s@.len() < usize::MAX,
            sn == s@.map_values(|x: u128| x as nat),
            hashed@.len() == i + 1,
            forall|k: int| 0 <= k <= i ==> hashed@[k] == window_hash(sn, base as nat, 0, k),
        decreases s@.len() - i,
    {
        proof {
            lemma_hash_bounds(sn, base as nat, 0, i as int, 0);
        }
        let h: u128 = hashed[i] as u128;
        assert(h * (base as u128) <= 0x2000_0000_0000_0000_0000_0000_0000_0000) by (nonlinear_arith)
            requires
                h < 0x2000_0000_0000_0000,
                base <= 0xffff_ffff_ffff_ffff,
        ;
        let x: u128 = s[i] % (MOD as u128);
        let next: u128 = (h * (base as u128) + x) % (MOD as u128);
        proof {
            lemma_add_mod_noop_right(h as int * base as int, s@[i as int] as int, MOD as int);
            assert(sn[i as int] == s@[i as int] as nat);
            lemma_mod_bound(h as int * base as int + x as int, MOD as int);
        }
        hashed.push(next as u64);
        i += 1;
    }
    hashed
}

/// A sequence with the hashes of its prefixes. `B` is the source of the
/// base.
pub struct RollingHash<B, T: Hashable> {
    phantom: PhantomData<B>,
    raw: Vec<T>,
    base: u64,
    pow_of_base: Vec<u64>,
    hashed: Vec<u64>,
}

impl<B, T: Hashable> RollingHash<B, T> {
    #[verifier::type_invariant]
    closed spec fn wf(&self) -> bool {
        &&& self.raw@.len() < usize::MAX
        &&& self.pow_of_base@.len() == self.raw@.len() + 1
        &&& self.hashed@.len() == self.raw@.len() + 1
        &&& forall|i: int|
            0 <= i <= self.raw@.len() ==> #[trigger] self.pow_of_base@[i] == pow_mod(
                self.base as nat,
                i as nat,
            )
        &&& forall|i: int|
            0 <= i <= self.raw@.len() ==> #[trigger] self.hashed@[i] == window_hash(
                codes(self.raw@),
                self.base as nat,
                0,
                i,
            )
    }

    /// The sequence that is hashed.
    pub closed spec fn text(&self) -> Seq<T> {
        self.raw@
    }

    /// The base of the hash.
    pub closed spec fn radix(&self) -> u64 {
        self.base
    }

    /// The hash of the window `from..to`.
    pub open spec fn hash_of(&self, from: int, to: int) -> nat {
        window_hash(codes(self.text()), self.radix() as nat, from, to)
    }
}

impl<B: Base, T: Hashable> RollingHash<B, T> {
    /// The base of the hash.
    pub fn base(&self) -> (b: u64)
        ensures
            b == self.radix(),
    {
        self.base
    }

    /// The sequence that is hashed.
    pub fn raw(&self) -> (r: &[T])
        ensures
            r@ == self.text(),
    {
        self.raw.as_slice()
    }

    /// The length of the sequence.
    pub fn len(&self) -> (n: usize)
        ensures
            n == self.text().len(),
    {
        self.raw.len()
    }

    /// The hash of the window `from..to`.
    pub fn hash_sub(&self, from: usize, to: usize) -> (h: u64)
        requires
            from <= to <= self.text().len(),
        ensures
            h == self.hash_of(from as int, to as int),
    {
        proof {
            use_type_invariant(self);
            let s = codes(self.raw@);
            let b = self.base as nat;
            lemma_hash_concat(s, b, from as int, to as int);
            lemma_hash_bounds(s, b, 0, from as int, (to - from) as nat);
            lemma_hash_bounds(s, b, 0, to as int, 0);
            lemma_hash_bounds(s, b, from as int, to as int, 0);
            let m = MOD as int;
            let hf = window_hash(s, b, 0, from as int) as int;
            let p = pow_mod(b, (to - from) as nat) as int;
            let w = window_hash(s, b, from as int, to as int) as int;
            let a = (hf * p) % m;
            lemma_mod_bound(hf * p, m);
            lemma_add_mod_noop(hf * p, w, m);
            lemma_small_mod(w as nat, MOD as nat);
            assert((a + w) % m == (hf * p + w) % m);
            assert(hf * p >= 0) by (nonlinear_arith)
                requires
                    hf >= 0,
                    p >= 0,
            ;
        }
        let hf: u128 = self.hashed[from] as u128;
        let p: u128 = self.pow_of_base[to - from] as u128;
        assert(hf * p <= u128::MAX) by (nonlinear_arith)
            requires
                hf < 0x2000_0000_0000_0000,
                p < 0x2000_0000_0000_0000,
        ;
        let a: u64 = (hf * p % (MOD as u128)) as u64;
        ((self.hashed[to] + MOD) - a) % MOD
    }

    /// The hash of the window `from..to`.
    pub fn hash(&self, from: usize, to: usize) -> (h: u64)
        requires
            from <= to <= self.text().len(),
        ensures
            h == self.hash_of(from as int, to as int),
    {
        self.hash_sub(from, to)
    }

    /// Whether the windows `from1..to1` and `from2..to2` have one length and
    /// one hash. Equal windows have; windows that have are equal but for a
    /// collision of the hash.
    pub fn same(&self, from1: usize, to1: usize, from2: usize, to2: usize) -> (b: bool)
        requires
            from1 <= to1 <= self.text().len(),
            from2 <= to2 <= self.text().len(),
        ensures
            b == (to1 - from1 == to2 - from2 && self.hash_of(from1 as int, to1 as int)
                == self.hash_of(from2 as int, to2 as int)),
    {
        (to1 - from1) == (to2 - from2) && self.hash_sub(from1, to1) == self.hash_sub(from2, to2)
    }

    /// The start of the window `from1..to1` as far as its hash agrees with
    /// that of the start of the window `from2..to2`, found by halving: the
    /// result has a length `l` at which the hashes of the two starts agree,
    /// and either `l` is the length of the shorter window or the hashes of the
    /// starts of length `l + 1` differ.
    pub fn longest_common_prefix(&self, from1: usize, to1: usize, from2: usize, to2: usize) -> (r:
        &[T])
        requires
            from1 <= to1 <= self.text().len(),
            from2 <= to2 <= self.text().len(),
        ensures
            r@ == self.text().subrange(from1 as int, from1 + r@.len()),
            r@.len() <= to1 - from1,
            r@.len() <= to2 - from2,
            self.hash_of(from1 as int, from1 + r@.len()) == self.hash_of(
                from2 as int,
                from2 + r@.len(),
            ),
            r@.len() == to1 - from1 || r@.len() == to2 - from2 || self.hash_of(
                from1 as int,
                from1 + r@.len() + 1,
            ) != self.hash_of(from2 as int, from2 + r@.len() + 1),
    {
        proof {
            use_type_invariant(self);
        }
        let shorter: usize = if to1 - from1 <= to2 - from2 {
            to1 - from1
        } else {
            to2 - from2
        };
        let mut l: usize = 0;
        let mut r: usize = shorter;
        // l: a length at which the hashes agree; r: the shorter length, or
        // one less than a length at which they differ
        while l < r
            invariant
                l <= r <= shorter,
                shorter < usize::MAX,
                shorter <= to1 - from1,
                shorter <= to2 - from2,
                from1 <= to1 <= self.text().len(),
                from2 <= to2 <= self.text().len(),
                shorter == to1 - from1 || shorter == to2 - from2,
                self.hash_of(from1 as int, from1 + l) == self.hash_of(from2 as int, from2 + l),
                r == shorter || self.hash_of(from1 as int, from1 + r + 1) != self.hash_of(
                    from2 as int,
                    from2 + r + 1,
                ),
            decreases r - l,
        {
            let m: usize = l + (r - l + 1) / 2;
            if self.hash(from1, from1 + m) == self.hash(from2, from2 + m) {
                l = m;
            } else {
                r = m - 1;
            }
        }
        vstd::slice::slice_subrange(self.raw.as_slice(), from1, from1 + l)
    }

    /// Hashes the sequence `s` with a base from `B`.
    pub fn from_slice(s: &[T]) -> (res: Self)
        requires
            s@.len() < usize::MAX,
        ensures
            res.text() == s@,
    {
        let raw: Vec<T> = slice_to_vec(s);
        Self::from_vec(raw)
    }

    /// Hashes the sequence `raw` with a base from `B`.
    fn from_vec(raw: Vec<T>) -> (res: Self)
        requires
            raw@.len() < usize::MAX,
        ensures
            res.text() == raw@,
    {
        let base: u64 = B::base();
        let pow_of_base: Vec<u64> = powering(base, raw.len());
        let mut t: Vec<u128> = Vec::new();
        let mut i: usize = 0;
        while i < raw.len()
            invariant
                i <= raw@.len(),
                t@.len() == i,
                forall|k: int| 0 <= k < i ==> t@[k] == raw@[k].code(),
            decreases raw@.len() - i,
        {
            t.push(raw[i].to_code());
            i += 1;
        }
        let hashed: Vec<u64> = rolling(t.as_slice(), base);
        proof {
            assert(t@.map_values(|x: u128| x as nat) =~= codes(raw@));
        }
        RollingHash { phantom: PhantomData, raw, base, pow_of_base, hashed }
    }
}

impl<B: Base> RollingHash<B, char> {
    /// Hashes the characters of `s` with a base from `B`.
    pub fn from_str(s: &str) -> (res: Self)
        requires
            s@.len() < usize::MAX,
        ensures
            res.text() == s@,
    {
        Self::from_vec(chars_of(s))
    }
}

} // verus!
