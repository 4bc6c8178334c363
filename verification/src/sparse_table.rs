//! A sparse table: range folds of an associative, idempotent operation in
//! constant time.

use crate::math::ceil_pow;
use crate::symbol::Keyed;
use core::marker::PhantomData;
use vstd::arithmetic::power2::{lemma_pow2_strictly_increases, lemma_pow2_unfold, pow2};
use vstd::prelude::*;
use vstd::slice::slice_to_vec;

verus! {

/// An associative and idempotent binary operation, such as a minimum or a
/// maximum.
pub trait Band {
    /// The values that the operation works on.
    type S: Copy;

    /// The operation.
    spec fn op(x: Self::S, y: Self::S) -> Self::S;

    /// The operation is associative.
    proof fn lemma_associative(x: Self::S, y: Self::S, z: Self::S)
        ensures
            Self::op(Self::op(x, y), z) == Self::op(x, Self::op(y, z)),
    ;

    /// The operation is idempotent.
    proof fn lemma_idempotent(x: Self::S)
        ensures
            Self::op(x, x) == x,
    ;

    /// Applies the operation.
    fn binary_operation(x: &Self::S, y: &Self::S) -> (r: Self::S)
        ensures
            r == Self::op(*x, *y),
    ;
}

/// The greater of two values; the second of two equal ones.
pub struct Max<S>(PhantomData<S>);

impl<S: Keyed> Band for Max<S> {
    type S = S;

    open spec fn op(x: S, y: S) -> S {
        if y.key() < x.key() {
            x
        } else {
            y
        }
    }

    proof fn lemma_associative(x: S, y: S, z: S) {
    }

    proof fn lemma_idempotent(x: S) {
    }

    fn binary_operation(x: &S, y: &S) -> (r: S) {
        if y.less(x) {
            *x
        } else {
            *y
        }
    }
}

/// The lesser of two values; the first of two equal ones.
pub struct Min<S>(PhantomData<S>);

impl<S: Keyed> Band for Min<S> {
    type S = S;

    open spec fn op(x: S, y: S) -> S {
        if y.key() < x.key() {
            y
        } else {
            x
        }
    }

    proof fn lemma_associative(x: S, y: S, z: S) {
    }

    proof fn lemma_idempotent(x: S) {
    }

    fn binary_operation(x: &S, y: &S) -> (r: S) {
        if y.less(x) {
            *y
        } else {
            *x
        }
    }
}

/// The fold of `v[from..to]` by the operation of `B`, from the left.
pub open spec fn fold_range<B: Band>(v: Seq<B::S>, from: int, to: int) -> B::S
    recommends
        0 <= from < to <= v.len(),
    decreases to - from,
{
    if to - from <= 1 {
        v[from]
    } else {
        B::op(fold_range::<B>(v, from, to - 1), v[to - 1])
    }
}

/// The fold of a range is the operation on the folds of its two parts.
pub proof fn lemma_fold_split<B: Band>(v: Seq<B::S>, a: int, b: int, c: int)
    requires
        a < b < c,
    ensures
        fold_range::<B>(v, a, c) == B::op(fold_range::<B>(v, a, b), fold_range::<B>(v, b, c)),
    decreases c - b,
{
    if c - b > 1 {
        lemma_fold_split::<B>(v, a, b, c - 1);
        B::lemma_associative(fold_range::<B>(v, a, b), fold_range::<B>(v, b, c - 1), v[c - 1]);
    }
}

/// The operation on the folds of two ranges that overlap or touch is the
/// fold of the range that they cover.
pub proof fn lemma_fold_overlap<B: Band>(v: Seq<B::S>, a: int, b: int, c: int, d: int)
    requires
        a <= b <= c <= d,
        a < c,
        b < d,
    ensures
        B::op(fold_range::<B>(v, a, c), fold_range::<B>(v, b, d)) == fold_range::<B>(v, a, d),
{
    if b == c {
        lemma_fold_split::<B>(v, a, c, d);
    } else {
        let y = fold_range::<B>(v, b, c);
        B::lemma_idempotent(y);
        if a < b {
            let x = fold_range::<B>(v, a, b);
            lemma_fold_split::<B>(v, a, b, c);
            if c < d {
                let z = fold_range::<B>(v, c, d);
                lemma_fold_split::<B>(v, b, c, d);
                lemma_fold_split::<B>(v, a, b, d);
                B::lemma_associative(x, y, B::op(y, z));
                B::lemma_associative(y, y, z);
            } else {
                B::lemma_associative(x, y, y);
            }
        } else {
            if c < d {
                let z = fold_range::<B>(v, c, d);
                lemma_fold_split::<B>(v, b, c, d);
                B::lemma_associative(y, y, z);
            }
        }
    }
}

/// Two to the power of `p`.
fn two_pow(p: usize) -> (w: usize)
    requires
        pow2(p as nat) <= usize::MAX,
    ensures
        w == pow2(p as nat),
{
    let mut w: usize = 1;
    let mut i: usize = 0;
    proof {
        vstd::arithmetic::power2::lemma2_to64();
    }
    while i < p
        invariant
            i <= p,
            w == pow2(i as nat),
            pow2(p as nat) <= usize::MAX,
        decreases p - i,
    {
        proof {
            lemma_pow2_unfold((i + 1) as nat);
            if i + 1 < p {
                lemma_pow2_strictly_increases((i + 1) as nat, p as nat);
            }
        }
        w = w * 2;
        i += 1;
    }
    w
}

/// A table of the folds of all windows of `v` whose width is a power of two.
pub struct SparseTable<B: Band> {
    inner: Vec<Vec<B::S>>,
}

impl<B: Band> SparseTable<B> {
    #[verifier::type_invariant]
    closed spec fn wf(&self) -> bool {
        &&& self.inner@.len() >= 1
        &&& self.inner@[0]@.len() <= pow2(self.inner@.len())
        &&& self.inner@[0]@.len() <= usize::MAX / 2 + 1
        &&& forall|i: int|
            0 <= i < self.inner@.len() ==> level_ok::<B>(self.inner@[0]@, (#[trigger] self.inner@[i])@, i)
    }

    /// The sequence that the table is about.
    pub closed spec fn values(&self) -> Seq<B::S> {
        self.inner@[0]@
    }

    /// Builds the table of `v`.
    pub fn new(v: &[B::S]) -> (res: Self)
        requires
            v@.len() <= usize::MAX / 2 + 1,
        ensures
            res.values() == v@,
    {
        let n: usize = v.len();
        let p: usize = ceil_pow(n);
        let mut inner: Vec<Vec<B::S>> = Vec::new();
        inner.push(slice_to_vec(v));
        proof {
            vstd::arithmetic::power2::lemma2_to64();
            assert(level_ok::<B>(v@, inner@[0]@, 0));
        }
        let mut i: usize = 1;
        let mut half: usize = 1;
        while i < p
            invariant
                1 <= i,
                n == v@.len(),
                inner@.len() == i,
                inner@[0]@ == v@,
                half == pow2((i - 1) as nat),
                half >= 1,
                p > 0 ==> pow2((p - 1) as nat) < n,
                i <= p || i == 1,
                forall|k: int| 0 <= k < i ==> level_ok::<B>(v@, (#[trigger] inner@[k])@, k),
            decreases p - i,
        {
            proof {
                lemma_pow2_unfold(i as nat);
                if i < p - 1 {
                    lemma_pow2_strictly_increases(i as nat, (p - 1) as nat);
                }
                assert(level_ok::<B>(v@, inner@[i - 1]@, i - 1));
                assert(pow2(i as nat) == 2 * half);
                assert(pow2(i as nat) < n);
            }
            let width: usize = half * 2;
            let count: usize = n - width + 1;
            let mut level: Vec<B::S> = Vec::new();
            let mut j: usize = 0;
            while j < count
                invariant
                    j <= count,
                    1 <= i,
                    count == n - width + 1,
                    width == 2 * half,
                    half >= 1,
                    width <= n,
                    n == v@.len(),
                    inner@.len() == i,
                    half == pow2((i - 1) as nat),
                    width == pow2(i as nat),
                    level_ok::<B>(v@, inner@[i - 1]@, i - 1),
                    level@.len() == j,
                    forall|k: int|
                        0 <= k < j ==> level@[k] == fold_range::<B>(v@, k, k + width),
                decreases count - j,
            {
                let prev: &Vec<B::S> = &inner[i - 1];
                let t: B::S = B::binary_operation(&prev[j], &prev[j + half]);
                proof {
                    lemma_fold_split::<B>(v@, j as int, j + half, j + width);
                }
                level.push(t);
                j += 1;
            }
            proof {
                assert(level_ok::<B>(v@, level@, i as int));
            }
            inner.push(level);
            half = width;
            i += 1;
        }
        proof {
            vstd::arithmetic::power2::lemma2_to64();
            assert(n <= pow2(inner@.len()));
        }
        SparseTable { inner }
    }

    /// The length of the sequence.
    pub fn len(&self) -> (n: usize)
        ensures
            n == self.values().len(),
    {
        self.raw().len()
    }

    /// The sequence that the table is about.
    pub fn raw(&self) -> (r: &[B::S])
        ensures
            r@ == self.values(),
    {
        proof {
            use_type_invariant(self);
        }
        self.inner[0].as_slice()
    }

    /// The fold of the values at `from..to`.
    pub fn fold_sub(&self, from: usize, to: usize) -> (r: B::S)
        requires
            from < to <= self.values().len(),
        ensures
            r == fold_range::<B>(self.values(), from as int, to as int),
    {
        proof {
            use_type_invariant(self);
        }
        let d: usize = to - from;
        if d == 1 {
            self.inner[0][from]
        } else {
            proof {
                vstd::arithmetic::power2::lemma2_to64();
            }
            let p: usize = ceil_pow(d) - 1;
            proof {
                let levels = self.inner@.len();
                if p > levels {
                    lemma_pow2_strictly_increases(levels as nat, p as nat);
                }
                assert(p < levels);
                assert(level_ok::<B>(self.inner@[0]@, self.inner@[p as int]@, p as int));
                lemma_pow2_unfold((p + 1) as nat);
            }
            let w: usize = two_pow(p);
            let level: &Vec<B::S> = &self.inner[p];
            let r: B::S = B::binary_operation(&level[from], &level[to - w]);
            proof {
                lemma_fold_overlap::<B>(self.values(), from as int, to - w, from + w, to as int);
            }
            r
        }
    }

    /// The fold of the values at `from..to`.
    pub fn fold(&self, from: usize, to: usize) -> (r: B::S)
        requires
            from < to <= self.values().len(),
        ensures
            r == fold_range::<B>(self.values(), from as int, to as int),
    {
        self.fold_sub(from, to)
    }
}

/// Whether `level` holds the folds of the windows of `v` of width two to the
/// power of `i`.
pub open spec fn level_ok<B: Band>(v: Seq<B::S>, level: Seq<B::S>, i: int) -> bool {
    &&& 0 <= i
    &&& pow2(i as nat) <= v.len() || i == 0
    &&& level.len() == v.len() - pow2(i as nat) + 1 || (i == 0 && level.len() == v.len())
    &&& forall|j: int|
        0 <= j < level.len() ==> #[trigger] level[j] == fold_range::<B>(v, j, j + pow2(i as nat))
}

} // verus!
