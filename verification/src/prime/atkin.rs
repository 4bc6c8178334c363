//! The sieve of Atkin.

use crate::bitset::BitSet;
use vstd::prelude::*;

verus! {

/// `a * x * x + y * y`, or `a * x * x - y * y` with `minus`, where the
/// squares, the product and the result are numbers of the machine.
pub open spec fn form_of(a: usize, x: usize, y: usize, minus: bool) -> Option<usize> {
    if x * x > usize::MAX || y * y > usize::MAX || a * (x * x) > usize::MAX {
        None
    } else if minus {
        if a * (x * x) >= y * y {
            Some((a * (x * x) - y * y) as usize)
        } else {
            None
        }
    } else {
        if a * (x * x) + y * y <= usize::MAX {
            Some((a * (x * x) + y * y) as usize)
        } else {
            None
        }
    }
}

/// `a * x * x + y * y`, or `a * x * x - y * y` with `minus`, where the
/// squares, the product and the result are numbers of the machine.
fn form(a: usize, x: usize, y: usize, minus: bool) -> (res: Option<usize>)
    ensures
        res == form_of(a, x, y, minus),
        res matches Some(m) ==> m == if minus {
            a * x * x - y * y
        } else {
            a * x * x + y * y
        },
{
    let xx: usize = match x.checked_mul(x) {
        Some(v) => v,
        None => {
            return None;
        },
    };
    let yy: usize = match y.checked_mul(y) {
        Some(v) => v,
        None => {
            return None;
        },
    };
    let axx: usize = match a.checked_mul(xx) {
        Some(v) => v,
        None => {
            return None;
        },
    };
    proof {
        assert(a * x * x == a * (x * x)) by (nonlinear_arith);
    }
    if minus {
        axx.checked_sub(yy)
    } else {
        axx.checked_add(yy)
    }
}

/// Whether `x * x < n`.
fn square_below(x: usize, n: usize) -> (b: bool)
    ensures
        b == (x * x < n),
        b ==> x < n,
{
    match x.checked_mul(x) {
        Some(v) => {
            proof {
                if v < n {
                    assert(x < n) by (nonlinear_arith)
                        requires
                            x * x < n,
                    ;
                }
            }
            v < n
        },
        None => false,
    }
}

/// `x + step`, where that is not beyond `n`.
fn advance(x: usize, step: usize, n: usize) -> (res: Option<usize>)
    ensures
        match res {
            Some(next) => next == x + step && next <= n,
            None => x + step > n,
        },
{
    if step > n || x > n - step {
        None
    } else {
        Some(x + step)
    }
}

/// The table after the entries at the values `a * x * x ± y * y` were
/// flipped for `x`, `x + step`, `x + 2 * step`, ...: the walk ends where
/// `x * x` is not below `n`, where the value is no number of the machine or is
/// beyond `n`, or where the next `x` would be beyond `n`.
pub open spec fn flipped_forms(
    table: Seq<bool>,
    n: usize,
    a: usize,
    y: usize,
    minus: bool,
    x: usize,
    step: usize,
) -> Seq<bool>
    decreases n - x,
{
    if step < 1 || x * x >= n || x >= n {
        table
    } else {
        match form_of(a, x, y, minus) {
            None => table,
            Some(m) => if m > n {
                table
            } else {
                let flipped = table.update(m as int, !table[m as int]);
                if x + step > n {
                    flipped
                } else {
                    flipped_forms(flipped, n, a, y, minus, (x + step) as usize, step)
                }
            },
        }
    }
}

/// Flips the entries at the values `a * x * x ± y * y` for `x = first,
/// first + step, ...` as long as `x * x < n` and the value is not beyond `n`.
#[verifier::loop_isolation(false)]
fn flip_forms(table: &mut BitSet, n: usize, a: usize, y: usize, minus: bool, first: usize, step:
    usize)
    requires
        old(table)@.len() == n + 1,
        step >= 1,
    ensures
        final(table)@ == flipped_forms(old(table)@, n, a, y, minus, first, step),
        final(table)@.len() == n + 1,
{
    let mut x: usize = first;
    while square_below(x, n)
        invariant
            table@.len() == n + 1,
            step >= 1,
            flipped_forms(table@, n, a, y, minus, x, step) == flipped_forms(
                old(table)@,
                n,
                a,
                y,
                minus,
                first,
                step,
            ),
        decreases n - x,
    {
        let ghost before = table@;
        match form(a, x, y, minus) {
            Some(m) => {
                if m > n {
                    proof {
                        assert(flipped_forms(before, n, a, y, minus, x, step) == before);
                    }
                    return ;
                }
                table.flip(m);
            },
            None => {
                proof {
                    assert(flipped_forms(before, n, a, y, minus, x, step) == before);
                }
                return ;
            },
        }
        match advance(x, step, n) {
            Some(next) => {
                proof {
                    assert(flipped_forms(before, n, a, y, minus, x, step) == flipped_forms(
                        table@,
                        n,
                        a,
                        y,
                        minus,
                        next,
                        step,
                    ));
                }
                x = next;
            },
            None => {
                proof {
                    assert(flipped_forms(before, n, a, y, minus, x, step) == table@);
                }
                return ;
            },
        }
    }
    proof {
        assert(flipped_forms(table@, n, a, y, minus, x, step) == table@);
    }
}

/// A table of the numbers up to a limit, filled by the sieve of Atkin.
pub struct Atkin {
    n: usize,
    table: BitSet,
}

impl Atkin {
    #[verifier::type_invariant]
    closed spec fn wf(&self) -> bool {
        self.table@.len() == self.n + 1 && 3 <= self.n < usize::MAX
    }

    /// The limit of the table.
    pub closed spec fn limit(&self) -> usize {
        self.n
    }

    /// Whether the table holds `x`.
    pub closed spec fn holds(&self, x: int) -> bool {
        0 <= x <= self.n && self.table@[x]
    }

    /// The sieve for the numbers up to `n`.
    pub fn new(n: usize) -> (res: Self)
        requires
            3 <= n < usize::MAX,
        ensures
            res.limit() == n,
            res.holds(2),
            res.holds(3),
    {
        let mut table = BitSet::zeros(n + 1);
        let mut z: usize = 1;
        while z <= 5
            invariant
                table@.len() == n + 1,
                z == 1 || z == 5 || z == 9,
            decreases 9 - z,
        {
            let mut y: usize = z;
            while square_below(y, n)
                invariant
                    table@.len() == n + 1,
                decreases n - y,
            {
                flip_forms(&mut table, n, 4, y, false, 1, 1);
                if y < usize::MAX {
                    flip_forms(&mut table, n, 3, y, true, y + 1, 2);
                }
                match advance(y, 6, n) {
                    Some(next) => {
                        y = next;
                    },
                    None => {
                        break ;
                    },
                }
            }
            z += 4;
        }
        let mut z: usize = 2;
        while z <= 4
            invariant
                table@.len() == n + 1,
                z == 2 || z == 4 || z == 6,
            decreases 6 - z,
        {
            let mut y: usize = z;
            while square_below(y, n)
                invariant
                    table@.len() == n + 1,
                decreases n - y,
            {
                flip_forms(&mut table, n, 3, y, false, 1, 2);
                if y < usize::MAX {
                    flip_forms(&mut table, n, 3, y, true, y + 1, 2);
                }
                match advance(y, 6, n) {
                    Some(next) => {
                        y = next;
                    },
                    None => {
                        break ;
                    },
                }
            }
            z += 2;
        }
        let mut y: usize = 3;
        while square_below(y, n)
            invariant
                table@.len() == n + 1,
            decreases n - y,
        {
            flip_forms(&mut table, n, 4, y, false, 1, 3);
            flip_forms(&mut table, n, 4, y, false, 2, 3);
            match advance(y, 6, n) {
                Some(next) => {
                    y = next;
                },
                None => {
                    break ;
                },
            }
        }
        let mut x: usize = 5;
        while square_below(x, n)
            invariant
                table@.len() == n + 1,
                x >= 5,
            decreases n - x,
        {
            if table.get(x) {
                let xx: usize = x * x;
                proof {
                    assert(xx >= 1) by (nonlinear_arith)
                        requires
                            xx == x * x,
                            x >= 5,
                    ;
                }
                let mut m: usize = xx;
                while m < n
                    invariant
                        table@.len() == n + 1,
                        xx >= 1,
                    decreases n - m,
                {
                    table.remove(m);
                    match advance(m, xx, n) {
                        Some(next) => {
                            m = next;
                        },
                        None => {
                            break ;
                        },
                    }
                }
            }
            x += 1;
        }
        table.entry(2);
        table.entry(3);
        Self { n, table }
    }

    /// The limit of the table.
    pub fn len(&self) -> (n: usize)
        ensures
            n == self.limit(),
    {
        self.n
    }

    /// Whether the table holds `x`.
    pub fn is_prime(&self, x: usize) -> (b: bool)
        requires
            x <= self.limit(),
        ensures
            b == self.holds(x as int),
    {
        proof {
            use_type_invariant(self);
        }
        self.table.get(x)
    }

    /// The numbers from 2 on that the table holds, in ascending order.
    pub fn primes(&self) -> (v: Vec<usize>)
        ensures
            forall|i: int| 0 <= i < v@.len() ==> 2 <= v@[i] <= self.limit() && self.holds(v@[i] as int),
            forall|i: int, j: int| 0 <= i < j < v@.len() ==> v@[i] < v@[j],
            forall|x: int| 2 <= x <= self.limit() && self.holds(x) ==> v@.contains(x as usize),
    {
        proof {
            use_type_invariant(self);
        }
        let mut v: Vec<usize> = Vec::new();
        let mut x: usize = 2;
        while x <= self.n
            invariant
                2 <= x,
                x <= self.n + 1,
                self.n < usize::MAX,
                forall|i: int|
                    0 <= i < v@.len() ==> 2 <= #[trigger] v@[i] < x && self.holds(v@[i] as int),
                forall|i: int, j: int| 0 <= i < j < v@.len() ==> v@[i] < v@[j],
                forall|y: int| 2 <= y < x && self.holds(y) ==> v@.contains(y as usize),
            decreases self.n + 1 - x,
        {
            if self.is_prime(x) {
                let ghost before = v@;
                v.push(x);
                proof {
                    assert(v@[v@.len() - 1] == x);
                    assert forall|y: int| 2 <= y < x + 1 && self.holds(y) implies v@.contains(
                        y as usize,
                    ) by {
                        if y < x {
                            assert(before.contains(y as usize));
                            let w = choose|w: int| 0 <= w < before.len() && before[w] == y as usize;
                            assert(v@[w] == y as usize);
                        }
                    }
                }
            }
            x += 1;
        }
        v
    }
}

} // verus!
