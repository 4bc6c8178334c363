//! The sieve of Eratosthenes over the odd numbers.

use crate::bitset::BitSet;
use crate::prime::{is_prime, lemma_cofactor, Sieve};
use vstd::prelude::*;

verus! {

/// Whether `d` is an odd number from 3 on that divides `x` and whose square
/// is not beyond `x`.
pub open spec fn odd_divisor(x: nat, d: nat) -> bool {
    d >= 3 && d % 2 == 1 && d * d <= x && x % d == 0
}

/// Whether the sieve strikes `x` out before it comes to `bound`: `x` has an
/// odd divisor below `bound` whose square is not beyond `x`.
pub open spec fn struck(x: nat, bound: nat) -> bool {
    exists|d: nat| #[trigger] odd_divisor(x, d) && d < bound
}

/// A product is divisible by its factors.
proof fn lemma_multiple_is_divisible(q: nat, m: nat)
    requires
        q > 0,
    ensures
        (q * m) % q == 0,
{
    vstd::arithmetic::div_mod::lemma_mod_multiples_basic(m as int, q as int);
    assert(m * q == q * m) by (nonlinear_arith);
}

/// What a number divides is a multiple of it.
proof fn lemma_divisible_is_multiple(x: nat, q: nat)
    requires
        q > 0,
        x % q == 0,
    ensures
        x == q * (x / q),
{
    vstd::arithmetic::div_mod::lemma_fundamental_div_mod(x as int, q as int);
}

/// Coming from an odd bound to the next, the sieve strikes what the bound
/// itself strikes.
proof fn lemma_struck_step(x: nat, q: nat)
    requires
        q % 2 == 1,
    ensures
        struck(x, q + 2) == (struck(x, q) || odd_divisor(x, q)),
{
    if struck(x, q + 2) {
        let d = choose|d: nat| #[trigger] odd_divisor(x, d) && d < q + 2;
        if d != q {
            assert(d < q);
        }
    }
    if struck(x, q) {
        let d = choose|d: nat| #[trigger] odd_divisor(x, d) && d < q;
        assert(odd_divisor(x, d) && d < q + 2);
    }
    if odd_divisor(x, q) {
        assert(odd_divisor(x, q) && q < q + 2);
    }
}

/// What a struck number would strike was struck before.
proof fn lemma_struck_by_factor(x: nat, q: nat, d: nat)
    requires
        odd_divisor(q, d),
        d < q,
        odd_divisor(x, q),
    ensures
        struck(x, q),
{
    lemma_divisible_is_multiple(x, q);
    lemma_divisible_is_multiple(q, d);
    let a = x / q;
    let b = q / d;
    assert(x == d * (b * a)) by (nonlinear_arith)
        requires
            x == q * a,
            q == d * b,
    ;
    lemma_multiple_is_divisible(d, b * a);
    assert(d * d <= x) by (nonlinear_arith)
        requires
            d * d <= q,
            q * q <= x,
            q >= 3,
    ;
    assert(odd_divisor(x, d));
}

/// Two odd numbers that an odd `q` divides and that are less than `2 * q`
/// apart are one number.
proof fn lemma_no_multiple_between(q: nat, j: nat, k: nat)
    requires
        q % 2 == 1,
        q >= 3,
        (2 * j + 1) % q == 0,
        (2 * k + 1) % q == 0,
        j <= k < j + q,
    ensures
        k == j,
{
    if j < k {
        lemma_divisible_is_multiple(2 * j + 1, q);
        lemma_divisible_is_multiple(2 * k + 1, q);
        let a = (2 * j + 1) / q;
        let b = (2 * k + 1) / q;
        assert(q * b - q * a == q * (b - a)) by (nonlinear_arith);
        assert(b - a == 1) by (nonlinear_arith)
            requires
                q * (b - a) == 2 * (k - j),
                0 < 2 * (k - j) < 2 * q,
                q >= 3,
        ;
        assert(q * 1 == q) by (nonlinear_arith);
    }
}

/// The first number that the odd number `2 * i + 1` strikes is its square.
proof fn lemma_first_multiple(i: nat, k: nat)
    requires
        odd_divisor(2 * k + 1, 2 * i + 1),
    ensures
        k >= 2 * i * (i + 1),
{
    assert((2 * i + 1) * (2 * i + 1) == 2 * (2 * i * (i + 1)) + 1) by (nonlinear_arith);
}

/// A struck number is not prime.
proof fn lemma_struck_is_composite(x: nat, bound: nat)
    requires
        struck(x, bound),
    ensures
        !is_prime(x),
{
    let d = choose|d: nat| #[trigger] odd_divisor(x, d) && d < bound;
    assert(d < x) by (nonlinear_arith)
        requires
            d >= 3,
            d * d <= x,
    ;
    assert(x % d == 0);
}

/// An odd number from 3 on that is not prime is struck before the sieve
/// comes to a bound whose half has a square beyond half the number.
proof fn lemma_composite_is_struck(x: nat, i: nat)
    requires
        x % 2 == 1,
        x >= 3,
        !is_prime(x),
        x < 2 * (i * i),
    ensures
        struck(x, 2 * i + 1),
{
    let d = choose|d: nat| 2 <= d < x && #[trigger] (x % d) == 0;
    lemma_cofactor(x, d);
    let e = x / d;
    let a = if d <= e {
        d
    } else {
        e
    };
    let b = if d <= e {
        e
    } else {
        d
    };
    assert(a * b == x) by (nonlinear_arith)
        requires
            e * d == x,
            (a == d && b == e) || (a == e && b == d),
    ;
    assert(a * a <= x) by (nonlinear_arith)
        requires
            a * b == x,
            a <= b,
    ;
    if a % 2 == 0 {
        let h = a / 2;
        assert(x == 2 * (h * b)) by (nonlinear_arith)
            requires
                a * b == x,
                a == 2 * h,
        ;
    }
    assert(a < 2 * i + 1) by (nonlinear_arith)
        requires
            a * a <= x,
            x < 2 * (i * i),
    ;
    assert(x % a == 0);
    assert(odd_divisor(x, a));
}

/// 2 is prime, and 0 and 1 are not.
pub proof fn lemma_small_primes()
    ensures
        is_prime(2),
        !is_prime(0),
        !is_prime(1),
{
}

/// A table of the odd numbers below a bound: it holds the primes among them.
pub struct Erathosthnes {
    n: usize,
    table: BitSet,
}

impl Erathosthnes {
    #[verifier::type_invariant]
    closed spec fn wf(&self) -> bool {
        &&& self.table@.len() == self.n
        &&& self.n >= 1
        &&& self.n <= usize::MAX / 2
        &&& !self.table@[0]
        &&& forall|j: int| 1 <= j < self.n ==> self.table@[j] == is_prime((2 * j + 1) as nat)
    }

    /// The number of odd numbers in the table: the table answers for the
    /// numbers below twice as many.
    pub closed spec fn size(&self) -> nat {
        self.n as nat
    }

    /// The sieve for the numbers up to `limit`.
    pub fn new(limit: usize) -> (res: Self)
        requires
            1 <= limit <= usize::MAX / 2,
        ensures
            res.size() == (limit + 1) / 2,
    {
        let n: usize = (limit + 1) / 2;
        let mut table = BitSet::ones(n);
        table.remove(0);
        proof {
            assert forall|j: int| 1 <= j < n implies table@[j] == !struck((2 * j + 1) as nat, 3) by {
                if struck((2 * j + 1) as nat, 3) {
                    let d = choose|d: nat| #[trigger] odd_divisor((2 * j + 1) as nat, d) && d < 3;
                }
            }
        }
        let mut i: usize = 1;
        while i < n && i <= (n - 1) / i
            invariant
                1 <= i,
                n >= 1,
                n <= usize::MAX / 4 + 1,
                table@.len() == n,
                !table@[0],
                forall|j: int|
                    1 <= j < n ==> table@[j] == !struck((2 * j + 1) as nat, (2 * i + 1) as nat),
            decreases n - i,
        {
            let q: usize = 2 * i + 1;
            proof {
                let bound = (n - 1) as int;
                let step = i as int;
                assert(step * step <= bound) by (nonlinear_arith)
                    requires
                        step <= bound / step,
                        step >= 1,
                ;
                assert(i <= bound) by (nonlinear_arith)
                    requires
                        step * step <= bound,
                        step >= 1,
                        i == step,
                ;
            }
            if table.get(i) {
                let square: usize = i * i;
                let start: usize = 2 * square + 2 * i;
                proof {
                    assert(start == 2 * i * (i + 1)) by (nonlinear_arith)
                        requires
                            start == 2 * (i * i) + 2 * i,
                    ;
                    assert(2 * start + 1 == q * q) by (nonlinear_arith)
                        requires
                            start == 2 * (i * i) + 2 * i,
                            q == 2 * i + 1,
                    ;
                    assert forall|k: int| 1 <= k < n implies table@[k] == !(struck(
                        (2 * k + 1) as nat,
                        q as nat,
                    ) || (odd_divisor((2 * k + 1) as nat, q as nat) && k < start)) by {
                        if odd_divisor((2 * k + 1) as nat, q as nat) {
                            lemma_first_multiple(i as nat, k as nat);
                        }
                    }
                }
                let mut j: usize = start;
                let ghost mut m: nat = q as nat;
                while j < n
                    invariant
                        q == 2 * i + 1,
                        q >= 3,
                        1 <= i < n,
                        n <= usize::MAX / 4 + 1,
                        table@.len() == n,
                        !table@[0],
                        j >= 1,
                        j < n ==> m >= q && 2 * j + 1 == q * m,
                        forall|k: int|
                            1 <= k < n ==> table@[k] == !(struck((2 * k + 1) as nat, q as nat) || (
                            odd_divisor((2 * k + 1) as nat, q as nat) && k < j)),
                    decreases n - j,
                {
                    let ghost before = table@;
                    let ghost old_j = j;
                    proof {
                        lemma_multiple_is_divisible(q as nat, m);
                        assert(q * q <= q * m) by (nonlinear_arith)
                            requires
                                m >= q,
                        ;
                        assert(odd_divisor((2 * j + 1) as nat, q as nat));
                    }
                    table.remove(j);
                    if q > n - 1 - j {
                        j = n;
                    } else {
                        proof {
                            assert(2 * (j + q) + 1 == q * (m + 2)) by (nonlinear_arith)
                                requires
                                    2 * j + 1 == q * m,
                            ;
                            m = m + 2;
                        }
                        j += q;
                    }
                    proof {
                        assert forall|k: int| 1 <= k < n implies table@[k] == !(struck(
                            (2 * k + 1) as nat,
                            q as nat,
                        ) || (odd_divisor((2 * k + 1) as nat, q as nat) && k < j)) by {
                            if k == old_j {
                            } else {
                                assert(table@[k] == before[k]);
                                if old_j < k && k < j && odd_divisor(
                                    (2 * k + 1) as nat,
                                    q as nat,
                                ) {
                                    lemma_no_multiple_between(q as nat, old_j as nat, k as nat);
                                }
                            }
                        }
                    }
                }
                proof {
                    assert forall|k: int| 1 <= k < n implies table@[k] == !struck(
                        (2 * k + 1) as nat,
                        (2 * (i + 1) + 1) as nat,
                    ) by {
                        lemma_struck_step((2 * k + 1) as nat, q as nat);
                    }
                }
            } else {
                proof {
                    assert(struck((2 * i + 1) as nat, q as nat));
                    let d = choose|d: nat| #[trigger] odd_divisor(q as nat, d) && d < q;
                    assert forall|k: int| 1 <= k < n implies table@[k] == !struck(
                        (2 * k + 1) as nat,
                        (2 * (i + 1) + 1) as nat,
                    ) by {
                        lemma_struck_step((2 * k + 1) as nat, q as nat);
                        if odd_divisor((2 * k + 1) as nat, q as nat) {
                            lemma_struck_by_factor((2 * k + 1) as nat, q as nat, d);
                        }
                    }
                }
            }
            i += 1;
        }
        proof {
            let half = i as nat;
            assert(half * half >= n) by (nonlinear_arith)
                requires
                    half >= 1,
                    half >= n || half > (n - 1) as nat / half,
                    n >= 1,
            ;
            assert forall|j: int| 1 <= j < n implies table@[j] == is_prime((2 * j + 1) as nat) by {
                let x = (2 * j + 1) as nat;
                if struck(x, (2 * i + 1) as nat) {
                    lemma_struck_is_composite(x, (2 * i + 1) as nat);
                }
                if !is_prime(x) {
                    assert(x < 2 * (half * half)) by (nonlinear_arith)
                        requires
                            x == 2 * j + 1,
                            j < n,
                            half * half >= n,
                    ;
                    lemma_composite_is_struck(x, half);
                }
            }
        }
        Self { n, table }
    }

    /// The number of odd numbers in the table.
    pub fn len(&self) -> (n: usize)
        ensures
            n == self.size(),
    {
        self.n
    }

    /// Whether `x` is prime, for `x` below twice the size of the table; an
    /// odd number beyond that is taken for no prime.
    pub fn is_prime(&self, x: usize) -> (b: bool)
        ensures
            x < 2 * self.size() ==> b == is_prime(x as nat),
            b ==> is_prime(x as nat),
    {
        proof {
            use_type_invariant(self);
            lemma_small_primes();
            if x % 2 == 0 {
                if x > 2 {
                    assert((x as nat) % 2 == 0);
                }
            } else {
                let j = x as int / 2;
                assert(x == 2 * j + 1);
            }
        }
        if x % 2 == 1 {
            self.table.get(x / 2)
        } else {
            x == 2
        }
    }

    /// The primes below twice the size of the table, 2 first and always, as
    /// a walk.
    pub fn primes(&self) -> (it: Primes)
        ensures
            it.position() == 0,
            is_prime_list(it.rest(), 2 * self.size()),
    {
        let v: Vec<usize> = self.held();
        Primes { inner: v, cur: 0 }
    }

    /// The primes below twice the size of the table, in ascending order; 2
    /// is always among them.
    fn held(&self) -> (v: Vec<usize>)
        ensures
            is_prime_list(v@, 2 * self.size()),
    {
        proof {
            use_type_invariant(self);
            lemma_small_primes();
        }
        let mut v: Vec<usize> = Vec::new();
        v.push(2);
        let mut j: usize = 1;
        while j < self.n
            invariant
                1 <= j <= self.n,
                self.n <= usize::MAX / 2,
                self.table@.len() == self.n,
                forall|k: int| 1 <= k < self.n ==> self.table@[k] == is_prime((2 * k + 1) as nat),
                v@.len() >= 1,
                v@[0] == 2,
                forall|i: int|
                    0 <= i < v@.len() ==> 2 <= #[trigger] v@[i] < 2 * j + 1 && is_prime(
                        v@[i] as nat,
                    ),
                forall|i: int, k: int| 0 <= i < k < v@.len() ==> v@[i] < v@[k],
                forall|k: int|
                    1 <= k < j && #[trigger] odd_prime_at(k) ==> v@.contains((2 * k + 1) as usize),
            decreases self.n - j,
        {
            if self.table.get(j) {
                let ghost before = v@;
                v.push(2 * j + 1);
                proof {
                    assert(v@[v@.len() - 1] == 2 * j + 1);
                    assert(v@.contains((2 * j + 1) as usize));
                    assert forall|k: int|
                        1 <= k < j + 1 && #[trigger] odd_prime_at(k) implies v@.contains(
                        (2 * k + 1) as usize,
                    ) by {
                        if k < j {
                            assert(before.contains((2 * k + 1) as usize));
                            let w = choose|w: int|
                                0 <= w < before.len() && before[w] == (2 * k + 1) as usize;
                            assert(v@[w] == (2 * k + 1) as usize);
                        }
                    }
                }
            } else {
                proof {
                    assert(!is_prime((2 * j + 1) as nat));
                    assert forall|k: int|
                        1 <= k < j + 1 && #[trigger] odd_prime_at(k) implies v@.contains(
                        (2 * k + 1) as usize,
                    ) by {
                        assert(k < j);
                    }
                }
            }
            j += 1;
        }
        proof {
            assert forall|p: usize| p < 2 * self.size() && is_prime(p as nat) implies v@.contains(
                p,
            ) by {
                if p == 2 {
                    assert(v@[0] == p);
                } else if p % 2 == 0 {
                    assert((p as nat) % 2 == 0);
                } else {
                    let k = p as int / 2;
                    assert(p == 2 * k + 1);
                    assert(odd_prime_at(k));
                }
            }
        }
        v
    }
}

/// Whether the odd number `2 * k + 1` is prime.
pub open spec fn odd_prime_at(k: int) -> bool {
    is_prime((2 * k + 1) as nat)
}

/// Whether `v` lists primes in ascending order, among them every prime
/// below `bound`.
pub open spec fn is_prime_list(v: Seq<usize>, bound: nat) -> bool {
    &&& forall|i: int| 0 <= i < v.len() ==> is_prime(#[trigger] v[i] as nat)
    &&& forall|i: int, j: int| 0 <= i < j < v.len() ==> v[i] < v[j]
    &&& forall|p: usize| p < bound && is_prime(p as nat) ==> v.contains(p)
}

impl Sieve for Erathosthnes {
    open spec fn bound(&self) -> nat {
        2 * self.size()
    }

    fn is_prime(&self, x: usize) -> (b: bool) {
        Erathosthnes::is_prime(self, x)
    }

    fn primes(&self) -> (v: Vec<usize>) {
        let v: Vec<usize> = self.held();
        proof {
            assert forall|p: usize| p < self.bound() && is_prime(p as nat) implies v@.contains(
                p,
            ) by {
                assert(p < 2 * self.size());
            }
        }
        v
    }
}

/// A walk over the numbers that a sieve holds, in ascending order.
pub struct Primes {
    inner: Vec<usize>,
    cur: usize,
}

impl Primes {
    /// The numbers of the walk.
    pub closed spec fn rest(&self) -> Seq<usize> {
        self.inner@
    }

    /// The number of steps taken.
    pub closed spec fn position(&self) -> nat {
        self.cur as nat
    }

    /// The next number, or `None` after the last one.
    pub fn next(&mut self) -> (res: Option<usize>)
        ensures
            final(self).rest() == old(self).rest(),
            match res {
                Some(p) => old(self).position() < old(self).rest().len() && p == old(
                    self,
                ).rest()[old(self).position() as int] && final(self).position() == old(
                    self,
                ).position() + 1,
                None => old(self).position() >= old(self).rest().len() && final(self).position()
                    == old(self).position(),
            },
    {
        if self.cur < self.inner.len() {
            let p: usize = self.inner[self.cur];
            self.cur += 1;
            Some(p)
        } else {
            None
        }
    }

    /// The numbers that are left, in ascending order.
    pub fn to_vec(&mut self) -> (v: Vec<usize>)
        ensures
            final(self).rest() == old(self).rest(),
            final(self).position() >= old(self).rest().len(),
            old(self).position() <= old(self).rest().len() ==> v@ == old(self).rest().subrange(
                old(self).position() as int,
                old(self).rest().len() as int,
            ),
            old(self).position() > old(self).rest().len() ==> v@.len() == 0,
    {
        let mut v: Vec<usize> = Vec::new();
        let ghost start = self.cur;
        while self.cur < self.inner.len()
            invariant
                self.inner == old(self).inner,
                start == old(self).cur,
                start <= self.cur,
                self.cur <= self.inner@.len() || self.cur == start,
                start <= self.inner@.len() ==> v@ == self.inner@.subrange(
                    start as int,
                    self.cur as int,
                ),
                start > self.inner@.len() ==> v@.len() == 0,
            decreases self.inner@.len() - self.cur,
        {
            v.push(self.inner[self.cur]);
            proof {
                assert(v@ =~= self.inner@.subrange(start as int, self.cur + 1));
            }
            self.cur += 1;
        }
        v
    }
}

} // verus!
