//! Primality by trial division, factorization, and sieves.

pub mod atkin;
pub mod erathosthnes;

use vstd::arithmetic::power::pow;
use vstd::prelude::*;

verus! {

/// Whether `x` is a prime number: at least 2 and divisible by no number
/// between 1 and itself.
pub open spec fn is_prime(x: nat) -> bool {
    x >= 2 && forall|d: nat| 2 <= d < x ==> #[trigger] (x % d) != 0
}

/// The number that the factors `f` multiply to, each taken to its power.
pub open spec fn product_of(f: Seq<(usize, usize)>) -> int
    decreases f.len(),
{
    if f.len() == 0 {
        1
    } else {
        product_of(f.drop_last()) * pow(f.last().0 as int, f.last().1 as nat)
    }
}

/// Whether `f` is a factorization of `x`: the factors are at least 2, their
/// exponents at least 1, and they multiply to `x`. Numbers below 2 have the
/// empty factorization.
pub open spec fn is_factorization(x: nat, f: Seq<(usize, usize)>) -> bool {
    &&& forall|i: int| 0 <= i < f.len() ==> (#[trigger] f[i]).0 >= 2 && f[i].1 >= 1
    &&& x >= 1 ==> product_of(f) == x
    &&& x < 2 ==> f.len() == 0
}

/// A divisor of `x` other than 1 and `x` comes with a cofactor of the same
/// kind.
pub proof fn lemma_cofactor(x: nat, d: nat)
    requires
        2 <= d < x,
        x % d == 0,
    ensures
        (x / d) * d == x,
        2 <= x / d < x,
        x % (x / d) == 0,
{
    let e = x / d;
    vstd::arithmetic::div_mod::lemma_fundamental_div_mod(x as int, d as int);
    assert(e * d == x) by (nonlinear_arith)
        requires
            x == d * e + 0,
    ;
    assert(e >= 2 && e < x) by (nonlinear_arith)
        requires
            e * d == x,
            2 <= d < x,
    ;
    vstd::arithmetic::div_mod::lemma_mod_multiples_basic(d as int, e as int);
    assert(d * e == e * d) by (nonlinear_arith);
}

/// A number without a divisor `d >= 2` with `d * d <= x` is prime.
pub proof fn lemma_prime_by_small_divisors(x: nat, k: nat)
    requires
        x >= 2,
        k * k > x,
        forall|d: nat| 2 <= d < k ==> #[trigger] (x % d) != 0,
    ensures
        is_prime(x),
{
    assert forall|d: nat| 2 <= d < x implies #[trigger] (x % d) != 0 by {
        if d >= k && x % d == 0 {
            lemma_cofactor(x, d);
            let e = x / d;
            assert(e < k) by (nonlinear_arith)
                requires
                    e * d == x,
                    d >= k,
                    k * k > x,
            ;
            assert(x % e != 0);
        }
    }
}

/// Whether `x` is prime, by trial division.
pub fn trial_division(x: usize) -> (b: bool)
    ensures
        b == is_prime(x as nat),
{
    if x < 2 {
        return false;
    }
    let mut k: usize = 2;
    while k <= x / k
        invariant
            2 <= k <= x,
            forall|d: nat| 2 <= d < k ==> #[trigger] (x as nat % d) != 0,
        decreases x - k,
    {
        proof {
            assert(k * k <= x) by (nonlinear_arith)
                requires
                    k <= x / k,
                    k >= 2,
            ;
            assert(k < x) by (nonlinear_arith)
                requires
                    k * k <= x,
                    k >= 2,
            ;
        }
        if x % k == 0 {
            assert((x as nat) % (k as nat) == 0);
            return false;
        }
        k += 1;
    }
    proof {
        assert(k * k > x) by (nonlinear_arith)
            requires
                k > x / k,
                k >= 2,
        ;
        lemma_prime_by_small_divisors(x as nat, k as nat);
    }
    true
}

/// Divides `x` by `p` as often as it goes: the rest and the number of
/// divisions.
pub fn divide_out(x: usize, p: usize) -> (res: (usize, usize))
    requires
        x >= 1,
        p >= 2,
    ensures
        res.0 >= 1,
        res.0 * pow(p as int, res.1 as nat) == x,
        res.0 % p != 0,
        res.1 >= 1 ==> res.0 < x,
{
    let mut rest: usize = x;
    let mut e: usize = 0;
    proof {
        vstd::arithmetic::power::lemma_pow0(p as int);
    }
    while rest % p == 0
        invariant
            p >= 2,
            rest >= 1,
            rest * pow(p as int, e as nat) == x,
            e + rest <= x,
            e >= 1 ==> rest < x,
        decreases rest,
    {
        let next: usize = rest / p;
        proof {
            vstd::arithmetic::div_mod::lemma_fundamental_div_mod(rest as int, p as int);
            assert(next * p == rest) by (nonlinear_arith)
                requires
                    rest == p * next + 0,
            ;
            assert(1 <= next < rest) by (nonlinear_arith)
                requires
                    next * p == rest,
                    p >= 2,
                    rest >= 1,
            ;
            vstd::arithmetic::power::lemma_pow1(p as int);
            vstd::arithmetic::power::lemma_pow_adds(p as int, 1, e as nat);
            let q = pow(p as int, e as nat);
            assert(next * (p * q) == rest * q) by (nonlinear_arith)
                requires
                    next * p == rest,
            ;
        }
        rest = next;
        e += 1;
    }
    (rest, e)
}

/// The factors of `x`. Candidates are 2, 3 and 5 and then the numbers that
/// none of these divides, as long as their square is not beyond `x`; what is
/// left above 1 in the end is the last factor.
pub fn factorize(x: usize) -> (res: Vec<(usize, usize)>)
    ensures
        is_factorization(x as nat, res@),
{
    let mut res: Vec<(usize, usize)> = Vec::new();
    if x < 2 {
        return res;
    }
    let mut rest: usize = x;
    let small: [usize; 3] = [2, 3, 5];
    let mut t: usize = 0;
    while t < 3
        invariant
            t <= 3,
            small@ == seq![2usize, 3usize, 5usize],
            x >= 2,
            1 <= rest <= x,
            product_of(res@) * rest == x,
            forall|i: int| 0 <= i < res@.len() ==> (#[trigger] res@[i]).0 >= 2 && res@[i].1 >= 1,
        decreases 3 - t,
    {
        rest = record(&mut res, rest, small[t], Ghost(x as int));
        t += 1;
    }
    let wheel: [usize; 8] = [1, 7, 11, 13, 17, 19, 23, 29];
    let mut i: usize = 0;
    loop
        invariant
            wheel@ == seq![1usize, 7usize, 11usize, 13usize, 17usize, 19usize, 23usize, 29usize],
            x >= 2,
            1 <= rest <= x,
            i <= x,
            product_of(res@) * rest == x,
            forall|k: int| 0 <= k < res@.len() ==> (#[trigger] res@[k]).0 >= 2 && res@[k].1 >= 1,
        decreases x - i,
    {
        let mut j: usize = 0;
        while j < 8
            invariant
                j <= 8,
                wheel@ == seq![
                    1usize,
                    7usize,
                    11usize,
                    13usize,
                    17usize,
                    19usize,
                    23usize,
                    29usize,
                ],
                x >= 2,
            1 <= rest <= x,
                i <= x,
                product_of(res@) * rest == x,
                forall|k: int|
                    0 <= k < res@.len() ==> (#[trigger] res@[k]).0 >= 2 && res@[k].1 >= 1,
            decreases 8 - j,
        {
            let beyond: bool = match i.checked_mul(30) {
                Some(base) => match base.checked_add(wheel[j]) {
                    Some(p) => p > x / p,
                    None => true,
                },
                None => true,
            };
            if beyond {
                if rest > 1 {
                    let ghost before = res@;
                    res.push((rest, 1));
                    proof {
                        assert(res@.drop_last() =~= before);
                        vstd::arithmetic::power::lemma_pow1(rest as int);
                    }
                }
                proof {
                    if rest == 1 {
                        assert(product_of(res@) * 1 == product_of(res@)) by (nonlinear_arith);
                    }
                }
                return res;
            }
            let p: usize = i * 30 + wheel[j];
            if p != 1 {
                rest = record(&mut res, rest, p, Ghost(x as int));
            }
            j += 1;
        }
        if i >= x {
            // a candidate beyond `x` has ended the search before this round
            proof {
                if rest == 1 {
                    assert(product_of(res@) * 1 == product_of(res@)) by (nonlinear_arith);
                }
            }
            if rest > 1 {
                let ghost before = res@;
                res.push((rest, 1));
                proof {
                    assert(res@.drop_last() =~= before);
                    vstd::arithmetic::power::lemma_pow1(rest as int);
                }
            }
            return res;
        }
        i += 1;
    }
}

/// The factors `f` with `p` to the power of `e` added, where `e` is not 0.
pub open spec fn recorded(f: Seq<(usize, usize)>, p: usize, e: usize) -> Seq<(usize, usize)> {
    if e > 0 {
        f.push((p, e))
    } else {
        f
    }
}

/// Divides `rest` by `p` as often as it goes and records the factor, if it
/// is one: what is left is `rest` without its power of `p`, and that power
/// is added to the factors.
fn record(res: &mut Vec<(usize, usize)>, rest: usize, p: usize, Ghost(x): Ghost<int>) -> (left:
    usize)
    requires
        rest >= 1,
        p >= 2,
        product_of(old(res)@) * rest == x,
        forall|i: int|
            0 <= i < old(res)@.len() ==> (#[trigger] old(res)@[i]).0 >= 2 && old(res)@[i].1 >= 1,
    ensures
        left % p != 0,
        exists|e: usize|
            left * pow(p as int, e as nat) == rest && final(res)@ == #[trigger] recorded(
                old(res)@,
                p,
                e,
            ),
        1 <= left <= rest,
        product_of(final(res)@) * left == x,
        forall|i: int|
            0 <= i < final(res)@.len() ==> (#[trigger] final(res)@[i]).0 >= 2 && final(res)@[i].1
                >= 1,
{
    let (left, e) = divide_out(rest, p);
    proof {
        vstd::arithmetic::power::lemma_pow_positive(p as int, e as nat);
        let q = pow(p as int, e as nat);
        assert(left <= rest) by (nonlinear_arith)
            requires
                left * q == rest,
                q >= 1,
                left >= 1,
        ;
    }
    if e > 0 {
        let ghost before = res@;
        res.push((p, e));
        proof {
            assert(res@.drop_last() =~= before);
            let q = pow(p as int, e as nat);
            let b = product_of(before);
            assert((b * q) * left == b * (left * q)) by (nonlinear_arith);
        }
    } else {
        proof {
            vstd::arithmetic::power::lemma_pow0(p as int);
        }
    }
    proof {
        assert(res@ == recorded(old(res)@, p, e));
    }
    left
}

/// Tables of the primes up to a limit.
pub trait Sieve {
    /// The numbers that the table answers for: those below this bound.
    spec fn bound(&self) -> nat;

    /// Whether `x` is prime, for `x` below the bound; beyond it no number
    /// that is not prime is taken for one.
    fn is_prime(&self, x: usize) -> (b: bool)
        ensures
            x < self.bound() ==> b == self::is_prime(x as nat),
            b ==> self::is_prime(x as nat),
    ;

    /// Primes in ascending order, among them every prime below the bound.
    fn primes(&self) -> (v: Vec<usize>)
        ensures
            forall|i: int| 0 <= i < v@.len() ==> self::is_prime(#[trigger] v@[i] as nat),
            forall|i: int, j: int| 0 <= i < j < v@.len() ==> v@[i] < v@[j],
            forall|p: usize| p < self.bound() && self::is_prime(p as nat) ==> v@.contains(p),
    ;

    /// The factors of `x`, the candidates being the primes of the table as
    /// long as their square is not beyond `x`; what is left above 1 in the
    /// end is the last factor.
    fn factorize(&self, x: usize) -> (res: Vec<(usize, usize)>)
        ensures
            is_factorization(x as nat, res@),
    {
        let mut res: Vec<(usize, usize)> = Vec::new();
        if x < 2 {
            return res;
        }
        let primes: Vec<usize> = self.primes();
        let mut rest: usize = x;
        let mut t: usize = 0;
        while t < primes.len()
            invariant
                t <= primes@.len(),
                1 <= rest <= x,
                product_of(res@) * rest == x,
                forall|i: int| 0 <= i < primes@.len() ==> self::is_prime(#[trigger] primes@[i] as nat),
                forall|k: int|
                    0 <= k < res@.len() ==> (#[trigger] res@[k]).0 >= 2 && res@[k].1 >= 1,
            decreases primes@.len() - t,
        {
            let p: usize = primes[t];
            if p > x / p || rest == 1 {
                break ;
            }
            rest = record(&mut res, rest, p, Ghost(x as int));
            t += 1;
        }
        if rest > 1 {
            let ghost before = res@;
            res.push((rest, 1));
            proof {
                assert(res@.drop_last() =~= before);
                vstd::arithmetic::power::lemma_pow1(rest as int);
            }
        } else {
            proof {
                assert(product_of(res@) * 1 == product_of(res@)) by (nonlinear_arith);
            }
        }
        res
    }
}

/// Numbers that can be tested and factorized by trial division.
pub trait Prime {
    /// The number.
    spec fn number(&self) -> nat;

    /// Whether the number is prime.
    fn is_prime(self) -> (b: bool)
        ensures
            b == self::is_prime(self.number()),
    ;

    /// The factors of the number.
    fn factorize(self) -> (res: Vec<(usize, usize)>)
        ensures
            is_factorization(self.number(), res@),
    ;
}

impl Prime for usize {
    open spec fn number(&self) -> nat {
        *self as nat
    }

    fn is_prime(self) -> (b: bool) {
        trial_division(self)
    }

    fn factorize(self) -> (res: Vec<(usize, usize)>) {
        self::factorize(self)
    }
}

impl Prime for u32 {
    open spec fn number(&self) -> nat {
        *self as nat
    }

    fn is_prime(self) -> (b: bool) {
        trial_division(self as usize)
    }

    fn factorize(self) -> (res: Vec<(usize, usize)>) {
        self::factorize(self as usize)
    }
}

impl Prime for u16 {
    open spec fn number(&self) -> nat {
        *self as nat
    }

    fn is_prime(self) -> (b: bool) {
        trial_division(self as usize)
    }

    fn factorize(self) -> (res: Vec<(usize, usize)>) {
        self::factorize(self as usize)
    }
}

impl Prime for u8 {
    open spec fn number(&self) -> nat {
        *self as nat
    }

    fn is_prime(self) -> (b: bool) {
        trial_division(self as usize)
    }

    fn factorize(self) -> (res: Vec<(usize, usize)>) {
        self::factorize(self as usize)
    }
}

} // verus!
