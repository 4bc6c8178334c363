//! A bit-packed boolean sequence with set algebra.
//!
//! Storage is a vector of 8-bit cells. Index `i` lives in cell `i / 8` at
//! offset `i % 8`, counted from the most significant bit, so that a cell reads
//! in the same order as the sequence it stores. Bits of the last cell that lie
//! at or beyond the length are always zero: the type keeps this as its
//! invariant, so no operation can leave such a bit set.
//!
//! The length is fixed until `resize` changes it. Reading at or beyond the
//! length gives `false`; writing there is outside the contract of `entry`,
//! `remove`, `set` and `flip`.
//!
//! The set algebra works cell by cell and gives a result of the length of
//! its left operand. Where the operands differ in length, the cells that
//! only the left operand has are left as they are, and bits that the right
//! operand lacks inside its last cell count as `false`; operands of one
//! length combine bit by bit. Inclusion and disjointness are judged over the
//! shorter operand, and two bitsets are equal when each is included in the
//! other.

use vstd::prelude::*;
use vstd::std_specs::cmp::PartialEqSpecImpl;
use vstd::std_specs::convert::FromSpecImpl;
use vstd::std_specs::ops::{BitAndSpecImpl, BitOrSpecImpl, BitXorSpecImpl, NotSpecImpl};

verus! {

/// Whether offset `pos` (counted from the most significant bit) is set in `c`.
pub open spec fn cell_bit(c: u8, pos: u8) -> bool {
    c & (0x80u8 >> pos) != 0
}

/// Whether bit `i` is set in the packed cells `cells`.
pub open spec fn packed_bit(cells: Seq<u8>, i: int) -> bool
    recommends
        0 <= i < 8 * cells.len(),
{
    cell_bit(cells[i / 8], (i % 8) as u8)
}

/// Number of cells that hold `len` bits.
pub open spec fn cells_for(len: int) -> int {
    (len + 7) / 8
}

/// The cell that keeps the first `keep` offsets of an all-ones cell.
pub open spec fn head_mask(keep: u8) -> u8 {
    if keep >= 8 {
        0xffu8
    } else {
        !(0xffu8 >> keep)
    }
}

/// Number of `true` entries of `s`.
pub open spec fn count_true(s: Seq<bool>) -> nat
    decreases s.len(),
{
    if s.len() == 0 {
        0
    } else {
        count_true(s.drop_last()) + if s.last() {
            1nat
        } else {
            0nat
        }
    }
}

/// The empty cell has no offset set.
proof fn lemma_cell_bit_zero(pos: u8)
    by (bit_vector)
    requires
        pos < 8,
    ensures
        !cell_bit(0u8, pos),
{
}

/// The full cell has every offset set.
proof fn lemma_cell_bit_ones(pos: u8)
    by (bit_vector)
    requires
        pos < 8,
    ensures
        cell_bit(0xffu8, pos),
{
}

/// Or-ing a mask in sets its offset and leaves the others.
proof fn lemma_cell_bit_set(c: u8, pos: u8, q: u8)
    by (bit_vector)
    requires
        pos < 8,
        q < 8,
    ensures
        cell_bit(c | (0x80u8 >> pos), q) == (q == pos || cell_bit(c, q)),
{
}

/// And-ing the complement of a mask clears its offset and leaves the others.
proof fn lemma_cell_bit_unset(c: u8, pos: u8, q: u8)
    by (bit_vector)
    requires
        pos < 8,
        q < 8,
    ensures
        cell_bit(c & (0xffu8 ^ (0x80u8 >> pos)), q) == (q != pos && cell_bit(c, q)),
{
}

/// An offset is set in `a & b` when it is set in both.
proof fn lemma_cell_bit_and(a: u8, b: u8, q: u8)
    by (bit_vector)
    requires
        q < 8,
    ensures
        cell_bit(a & b, q) == (cell_bit(a, q) && cell_bit(b, q)),
{
}

/// An offset is set in `a | b` when it is set in one of them.
proof fn lemma_cell_bit_or(a: u8, b: u8, q: u8)
    by (bit_vector)
    requires
        q < 8,
    ensures
        cell_bit(a | b, q) == (cell_bit(a, q) || cell_bit(b, q)),
{
}

/// An offset is set in `a ^ b` when the two differ on it.
proof fn lemma_cell_bit_xor(a: u8, b: u8, q: u8)
    by (bit_vector)
    requires
        q < 8,
    ensures
        cell_bit(a ^ b, q) == (cell_bit(a, q) != cell_bit(b, q)),
{
}

/// An offset is set in `!a` when it is not set in `a`.
proof fn lemma_cell_bit_not(a: u8, q: u8)
    by (bit_vector)
    requires
        q < 8,
    ensures
        cell_bit(!a, q) == !cell_bit(a, q),
{
}

/// The head mask of `keep` has exactly the first `keep` offsets set.
proof fn lemma_cell_bit_head_mask(keep: u8, q: u8)
    by (bit_vector)
    requires
        q < 8,
    ensures
        cell_bit(head_mask(keep), q) == (q < keep),
{
}

/// The first `n` bits of the packed cells `cells`.
pub open spec fn prefix_bits(cells: Seq<u8>, n: int) -> Seq<bool> {
    Seq::new(n as nat, |i: int| packed_bit(cells, i))
}

/// The eight bits of one cell, most significant first.
pub open spec fn cell_bits(c: u8) -> Seq<bool> {
    Seq::new(8, |q: int| cell_bit(c, q as u8))
}

/// Counting is additive over concatenation.
pub proof fn lemma_count_true_concat(a: Seq<bool>, b: Seq<bool>)
    ensures
        count_true(a + b) == count_true(a) + count_true(b),
    decreases b.len(),
{
    if b.len() == 0 {
        assert(a + b =~= a);
    } else {
        lemma_count_true_concat(a, b.drop_last());
        assert((a + b).drop_last() =~= a + b.drop_last());
    }
}

/// A sequence holds at most as many `true` entries as it is long, and none
/// exactly when every entry is `false`.
pub proof fn lemma_count_true_bounds(s: Seq<bool>)
    ensures
        count_true(s) <= s.len(),
        count_true(s) == 0 <==> (forall|i: int| 0 <= i < s.len() ==> !s[i]),
        count_true(s) == s.len() <==> (forall|i: int| 0 <= i < s.len() ==> s[i]),
    decreases s.len(),
{
    if s.len() > 0 {
        let t = s.drop_last();
        lemma_count_true_bounds(t);
        assert forall|i: int| 0 <= i < t.len() implies t[i] == s[i] by {}
        if count_true(s) == 0 {
            assert forall|i: int| 0 <= i < s.len() implies !s[i] by {
                if i < t.len() {
                    assert(!t[i]);
                }
            }
        }
        if count_true(s) == s.len() {
            assert forall|i: int| 0 <= i < s.len() implies s[i] by {
                if i < t.len() {
                    assert(t[i]);
                }
            }
        }
        if forall|i: int| 0 <= i < s.len() ==> !s[i] {
            assert(forall|i: int| 0 <= i < t.len() ==> !t[i]);
        }
        if forall|i: int| 0 <= i < s.len() ==> s[i] {
            assert(forall|i: int| 0 <= i < t.len() ==> t[i]);
        }
    }
}

/// Overwriting one entry changes the count by what left and what came.
pub proof fn lemma_count_true_update(s: Seq<bool>, i: int, b: bool)
    requires
        0 <= i < s.len(),
    ensures
        count_true(s.update(i, b)) == count_true(s) - (if s[i] {
            1int
        } else {
            0int
        }) + (if b {
            1int
        } else {
            0int
        }),
    decreases s.len(),
{
    if i == s.len() - 1 {
        assert(s.update(i, b).drop_last() =~= s.drop_last());
    } else {
        lemma_count_true_update(s.drop_last(), i, b);
        assert(s.update(i, b).drop_last() =~= s.drop_last().update(i, b));
    }
}

/// Bits that are all `false` add nothing to a count.
proof fn lemma_count_prefix_tail(cells: Seq<u8>, a: int, b: int)
    requires
        0 <= a <= b,
        forall|i: int| a <= i < b ==> !packed_bit(cells, i),
    ensures
        count_true(prefix_bits(cells, b)) == count_true(prefix_bits(cells, a)),
    decreases b - a,
{
    if a < b {
        lemma_count_prefix_tail(cells, a, b - 1);
        assert(prefix_bits(cells, b).drop_last() =~= prefix_bits(cells, b - 1));
    }
}

/// The bits up to the end of cell `k` are those before it followed by its own.
proof fn lemma_prefix_bits_step(cells: Seq<u8>, k: int)
    requires
        0 <= k < cells.len(),
    ensures
        prefix_bits(cells, 8 * (k + 1)) =~= prefix_bits(cells, 8 * k) + cell_bits(cells[k]),
{
    let l = prefix_bits(cells, 8 * (k + 1));
    let r = prefix_bits(cells, 8 * k) + cell_bits(cells[k]);
    assert forall|i: int| 0 <= i < l.len() implies l[i] == r[i] by {
        if i >= 8 * k {
            assert(i / 8 == k);
            assert(i % 8 == i - 8 * k);
        }
    }
}

/// Number of set offsets in one cell.
fn ones_in_cell(c: u8) -> (n: usize)
    ensures
        n == count_true(cell_bits(c)),
        n <= 8,
{
    let mut n: usize = 0;
    let mut q: usize = 0;
    while q < 8
        invariant
            q <= 8,
            n <= q,
            n == count_true(cell_bits(c).subrange(0, q as int)),
        decreases 8 - q,
    {
        let m: u8 = offset_mask(q);
        proof {
            let s = cell_bits(c).subrange(0, q + 1);
            assert(s.drop_last() =~= cell_bits(c).subrange(0, q as int));
            assert(s.last() == cell_bit(c, q as u8));
        }
        if c & m != 0 {
            n += 1;
        }
        q += 1;
    }
    proof {
        assert(cell_bits(c).subrange(0, 8) =~= cell_bits(c));
    }
    n
}


/// The part of an all-ones cell `k` that lies below the length `len`.
pub open spec fn cell_mask(len: int, k: int) -> u8 {
    if 8 * (k + 1) <= len {
        0xffu8
    } else if 8 * k >= len {
        0u8
    } else {
        head_mask((len - 8 * k) as u8)
    }
}

proof fn lemma_cell_mask(len: int, k: int, v: u8, q: u8)
    requires
        0 <= k,
        0 <= len,
        q < 8,
    ensures
        cell_bit(v & cell_mask(len, k), q) == (cell_bit(v, q) && 8 * k + q < len),
{
    lemma_cell_bit_and(v, cell_mask(len, k), q);
    if 8 * (k + 1) <= len {
        lemma_cell_bit_ones(q);
    } else if 8 * k >= len {
        lemma_cell_bit_zero(q);
    } else {
        lemma_cell_bit_head_mask((len - 8 * k) as u8, q);
    }
}

/// The pairwise operations behind the set algebra.
#[derive(Clone, Copy)]
pub enum CellOp {
    And,
    Or,
    Xor,
    AndNot,
}

/// What `op` makes of two bits.
pub open spec fn apply_bit(op: CellOp, x: bool, y: bool) -> bool {
    match op {
        CellOp::And => x && y,
        CellOp::Or => x || y,
        CellOp::Xor => x != y,
        CellOp::AndNot => x && !y,
    }
}

/// What `op` makes of two cells.
pub open spec fn apply_cell(op: CellOp, a: u8, b: u8) -> u8 {
    match op {
        CellOp::And => a & b,
        CellOp::Or => a | b,
        CellOp::Xor => a ^ b,
        CellOp::AndNot => a & !b,
    }
}

proof fn lemma_apply_cell(op: CellOp, a: u8, b: u8, q: u8)
    requires
        q < 8,
    ensures
        cell_bit(apply_cell(op, a, b), q) == apply_bit(op, cell_bit(a, q), cell_bit(b, q)),
{
    match op {
        CellOp::And => lemma_cell_bit_and(a, b, q),
        CellOp::Or => lemma_cell_bit_or(a, b, q),
        CellOp::Xor => lemma_cell_bit_xor(a, b, q),
        CellOp::AndNot => {
            lemma_cell_bit_and(a, !b, q);
            lemma_cell_bit_not(b, q);
        },
    }
}

fn combine_cells(op: CellOp, a: u8, b: u8) -> (c: u8)
    ensures
        c == apply_cell(op, a, b),
{
    match op {
        CellOp::And => a & b,
        CellOp::Or => a | b,
        CellOp::Xor => a ^ b,
        CellOp::AndNot => a & !b,
    }
}

/// The entry of `a` at `i`, `false` where `a` has none.
pub open spec fn bit_at(a: Seq<bool>, i: int) -> bool {
    0 <= i < a.len() && a[i]
}

/// The sequence with every entry inverted.
pub open spec fn complement_spec(a: Seq<bool>) -> Seq<bool> {
    Seq::new(a.len(), |i: int| !a[i])
}

/// The first `len` entries of `a`, with `false` where `a` has none.
pub open spec fn resized_spec(a: Seq<bool>, len: int) -> Seq<bool> {
    Seq::new(len as nat, |i: int| bit_at(a, i))
}

/// `a` combined with `b` by `op`, cell by cell: inside the cells that both
/// have, entries combine pairwise, an entry that `b` lacks counting as
/// `false`; beyond them the entries of `a` stay.
pub open spec fn combined_spec(op: CellOp, a: Seq<bool>, b: Seq<bool>) -> Seq<bool> {
    Seq::new(
        a.len(),
        |i: int|
            if i < 8 * cells_for(b.len() as int) {
                apply_bit(op, a[i], bit_at(b, i))
            } else {
                a[i]
            },
    )
}

/// The union: an entry is set when it is set in `a` or in `b`.
pub open spec fn union_spec(a: Seq<bool>, b: Seq<bool>) -> Seq<bool> {
    Seq::new(a.len(), |i: int| a[i] || bit_at(b, i))
}

/// The intersection, cell by cell: entries of `a` beyond the last cell of `b`
/// stay as they are.
pub open spec fn intersection_spec(a: Seq<bool>, b: Seq<bool>) -> Seq<bool> {
    combined_spec(CellOp::And, a, b)
}

/// The difference: an entry is set when it is set in `a` and not in `b`.
pub open spec fn difference_spec(a: Seq<bool>, b: Seq<bool>) -> Seq<bool> {
    Seq::new(a.len(), |i: int| a[i] && !bit_at(b, i))
}

/// The symmetric difference: an entry is set when `a` and `b` differ on it.
pub open spec fn symmetric_difference_spec(a: Seq<bool>, b: Seq<bool>) -> Seq<bool> {
    Seq::new(a.len(), |i: int| a[i] != bit_at(b, i))
}

/// Inclusion, judged from the shorter side: every set entry of the shorter
/// sequence is set in the other one.
pub open spec fn subset_spec(a: Seq<bool>, b: Seq<bool>) -> bool {
    if a.len() <= b.len() {
        forall|i: int| 0 <= i < a.len() ==> (a[i] ==> b[i])
    } else {
        forall|i: int| 0 <= i < b.len() ==> (b[i] ==> a[i])
    }
}

/// No index is set in both.
pub open spec fn disjoint_spec(a: Seq<bool>, b: Seq<bool>) -> bool {
    forall|i: int| 0 <= i < a.len() && 0 <= i < b.len() ==> !(a[i] && b[i])
}

/// The low `width` bits of `x`, most significant first.
pub open spec fn uint_bits(x: u64, width: int) -> Seq<bool> {
    Seq::new(width as nat, |i: int| uint_bit(x, (width - 1 - i) as u64))
}

/// Whether bit `i` of `x`, counted from the least significant, is set.
pub open spec fn uint_bit(x: u64, i: u64) -> bool {
    x & (1u64 << i) != 0
}

/// A growable, bit-packed boolean sequence.
pub struct BitSet {
    inner: Vec<u8>,
    len: usize,
}

impl View for BitSet {
    type V = Seq<bool>;

    closed spec fn view(&self) -> Seq<bool> {
        Seq::new(self.len as nat, |i: int| packed_bit(self.inner@, i))
    }
}

impl BitSet {
    /// The representation invariant: exactly as many cells as the length
    /// needs, and no bit set at or beyond the length.
    #[verifier::type_invariant]
    closed spec fn wf(&self) -> bool {
        &&& self.inner@.len() == cells_for(self.len as int)
        &&& forall|i: int| self.len <= i < 8 * self.inner@.len() ==> !packed_bit(self.inner@, i)
    }

    /// The bit at `i`, `false` at and beyond the length.
    pub open spec fn bit(&self, i: int) -> bool {
        bit_at(self@, i)
    }

    /// Creates a bitset of `len` bits, all `false`.
    pub fn new(len: usize) -> (res: Self)
        ensures
            res@.len() == len,
            forall|i: int| 0 <= i < len ==> !res@[i],
    {
        Self::zeros(len)
    }

    /// Creates a bitset of `len` bits, all `false`.
    pub fn zeros(len: usize) -> (res: Self)
        ensures
            res@.len() == len,
            forall|i: int| 0 <= i < len ==> !res@[i],
    {
        let n: usize = cell_count(len);
        let mut inner: Vec<u8> = Vec::new();
        let mut k: usize = 0;
        while k < n
            invariant
                k <= n,
                inner@.len() == k,
                forall|j: int| 0 <= j < k ==> inner@[j] == 0u8,
            decreases n - k,
        {
            inner.push(0u8);
            k += 1;
        }
        proof {
            assert forall|i: int| 0 <= i < 8 * inner@.len() implies !packed_bit(inner@, i) by {
                lemma_cell_bit_zero((i % 8) as u8);
            }
        }
        BitSet { inner, len }
    }

    /// Creates a bitset of `len` bits, all `true`.
    pub fn ones(len: usize) -> (res: Self)
        ensures
            res@.len() == len,
            forall|i: int| 0 <= i < len ==> res@[i],
    {
        let mut res = Self::zeros(len);
        res.fill();
        res
    }

    /// Number of storage cells.
    pub fn cell(&self) -> (n: usize)
        ensures
            n == cells_for(self@.len() as int),
    {
        proof {
            use_type_invariant(self);
        }
        self.inner.len()
    }

    /// Number of bits.
    pub fn len(&self) -> (n: usize)
        ensures
            n == self@.len(),
    {
        self.len
    }

    /// Splits an index into its cell and its offset in that cell, or `None`
    /// when the index is at or beyond the length.
    fn assert_index(&self, idx: usize) -> (res: Option<(usize, usize)>)
        ensures
            match res {
                Some((cell, position)) => idx < self@.len() && cell == idx / 8 && position == idx
                    % 8,
                None => idx >= self@.len(),
            },
    {
        if self.len <= idx {
            None
        } else {
            Some((idx / 8, idx % 8))
        }
    }

    /// Reads the bit at `idx`; an index at or beyond the length reads `false`.
    pub fn get(&self, idx: usize) -> (b: bool)
        ensures
            b == self.bit(idx as int),
    {
        proof {
            use_type_invariant(self);
        }
        match self.assert_index(idx) {
            Some((cell, position)) => {
                let m: u8 = offset_mask(position);
                self.inner[cell] & m != 0
            },
            None => false,
        }
    }

    /// Overwrites cell `k` with the part of `v` that lies below the length.
    fn put_cell(&mut self, k: usize, v: u8)
        requires
            k < cells_for(old(self)@.len() as int),
        ensures
            final(self)@.len() == old(self)@.len(),
            forall|i: int|
                0 <= i < old(self)@.len() ==> final(self)@[i] == if i / 8 == k {
                    cell_bit(v, (i % 8) as u8)
                } else {
                    old(self)@[i]
                },
    {
        proof {
            use_type_invariant(&*self);
        }
        let m: u8 = mask_of(self.len, k);
        let mut taken = BitSet { inner: Vec::new(), len: 0 };
        core::mem::swap(self, &mut taken);
        let len: usize = taken.len;
        let mut cells: Vec<u8> = taken.inner;
        let ghost before = cells@;
        cells.set(k, v & m);
        proof {
            assert(before == old(self).inner@);
            assert(len == old(self).len);
            assert forall|i: int| 0 <= i < 8 * cells@.len() implies packed_bit(cells@, i) == if i
                / 8 == k {
                cell_bit(v, (i % 8) as u8) && i < len
            } else {
                packed_bit(before, i)
            } by {
                if i / 8 == k {
                    lemma_cell_mask(len as int, k as int, v, (i % 8) as u8);
                }
            }
            assert forall|i: int| len <= i < 8 * cells@.len() implies !packed_bit(cells@, i) by {
                if i / 8 != k {
                    assert(!packed_bit(before, i));
                }
            }
        }
        *self = BitSet { inner: cells, len };
    }

    /// Sets the bit at `idx`.
    pub fn entry(&mut self, idx: usize)
        requires
            idx < old(self)@.len(),
        ensures
            final(self)@ == old(self)@.update(idx as int, true),
    {
        proof {
            use_type_invariant(&*self);
        }
        let cell: usize = idx / 8;
        let m: u8 = offset_mask(idx % 8);
        let c: u8 = self.inner[cell];
        self.put_cell(cell, c | m);
        proof {
            assert forall|i: int| 0 <= i < self@.len() implies self@[i] == old(self)@.update(
                idx as int,
                true,
            )[i] by {
                if i / 8 == cell {
                    lemma_cell_bit_set(c, (idx % 8) as u8, (i % 8) as u8);
                }
            }
            assert(self@ =~= old(self)@.update(idx as int, true));
        }
    }

    /// Clears the bit at `idx`.
    pub fn remove(&mut self, idx: usize)
        requires
            idx < old(self)@.len(),
        ensures
            final(self)@ == old(self)@.update(idx as int, false),
    {
        proof {
            use_type_invariant(&*self);
        }
        let cell: usize = idx / 8;
        let m: u8 = offset_mask(idx % 8);
        let c: u8 = self.inner[cell];
        self.put_cell(cell, c & (0xffu8 ^ m));
        proof {
            assert forall|i: int| 0 <= i < self@.len() implies self@[i] == old(self)@.update(
                idx as int,
                false,
            )[i] by {
                if i / 8 == cell {
                    lemma_cell_bit_unset(c, (idx % 8) as u8, (i % 8) as u8);
                }
            }
            assert(self@ =~= old(self)@.update(idx as int, false));
        }
    }

    /// Writes `value` to the bit at `idx`.
    pub fn set(&mut self, idx: usize, value: bool)
        requires
            idx < old(self)@.len(),
        ensures
            final(self)@ == old(self)@.update(idx as int, value),
    {
        if value {
            self.entry(idx);
        } else {
            self.remove(idx);
        }
    }

    /// Inverts the bit at `idx`.
    pub fn flip(&mut self, idx: usize)
        requires
            idx < old(self)@.len(),
        ensures
            final(self)@ == old(self)@.update(idx as int, !old(self)@[idx as int]),
    {
        let b: bool = self.get(idx);
        self.set(idx, !b);
    }

    /// Overwrites every cell with the part of `v` that lies below the length.
    fn put_all(&mut self, v: u8)
        ensures
            final(self)@.len() == old(self)@.len(),
            forall|i: int| 0 <= i < old(self)@.len() ==> final(self)@[i] == cell_bit(v, (i % 8) as u8),
    {
        let n: usize = self.cell();
        let mut k: usize = 0;
        while k < n
            invariant
                k <= n,
                n == cells_for(self@.len() as int),
                self@.len() == old(self)@.len(),
                forall|i: int| 0 <= i < self@.len() && i / 8 < k ==> self@[i] == cell_bit(v, (i % 8) as u8),
            decreases n - k,
        {
            self.put_cell(k, v);
            k += 1;
        }
    }

    /// Clears whatever is set at or beyond the length in the last cell. The
    /// writes of this type never leave such a bit, so this changes nothing.
    fn chomp(&mut self)
        ensures
            final(self)@ == old(self)@,
    {
        let n: usize = self.cell();
        if n > 0 {
            proof {
                use_type_invariant(&*self);
            }
            let c: u8 = self.inner[n - 1];
            self.put_cell(n - 1, c);
            assert(self@ =~= old(self)@);
        }
    }

    /// Sets every bit to `false`.
    pub fn clear(&mut self)
        ensures
            final(self)@.len() == old(self)@.len(),
            forall|i: int| 0 <= i < final(self)@.len() ==> !final(self)@[i],
    {
        self.put_all(0u8);
        proof {
            assert forall|i: int| 0 <= i < self@.len() implies !self@[i] by {
                lemma_cell_bit_zero((i % 8) as u8);
            }
        }
    }

    /// Sets every bit to `true`.
    pub fn fill(&mut self)
        ensures
            final(self)@.len() == old(self)@.len(),
            forall|i: int| 0 <= i < final(self)@.len() ==> final(self)@[i],
    {
        self.put_all(0xffu8);
        proof {
            assert forall|i: int| 0 <= i < self@.len() implies self@[i] by {
                lemma_cell_bit_ones((i % 8) as u8);
            }
        }
        self.chomp();
    }

    /// Inverts every bit.
    pub fn swap(&mut self)
        ensures
            final(self)@ == complement_spec(old(self)@),
    {
        let n: usize = self.cell();
        let mut k: usize = 0;
        while k < n
            invariant
                k <= n,
                n == cells_for(self@.len() as int),
                self@.len() == old(self)@.len(),
                forall|i: int|
                    0 <= i < self@.len() ==> self@[i] == if i / 8 < k {
                        !old(self)@[i]
                    } else {
                        old(self)@[i]
                    },
            decreases n - k,
        {
            proof {
                use_type_invariant(&*self);
            }
            let c: u8 = self.inner[k];
            let ghost before = self@;
            self.put_cell(k, !c);
            proof {
                assert forall|i: int| 0 <= i < self@.len() && i / 8 == k implies self@[i]
                    == !old(self)@[i] by {
                    lemma_cell_bit_not(c, (i % 8) as u8);
                    assert(before[i] == cell_bit(c, (i % 8) as u8));
                }
            }
            k += 1;
        }
        self.chomp();
        assert(self@ =~= complement_spec(old(self)@));
    }

    /// Truncates to `len` bits, or extends to `len` bits with `false`.
    pub fn resize(&mut self, len: usize)
        ensures
            final(self)@ == resized_spec(old(self)@, len as int),
    {
        proof {
            use_type_invariant(&*self);
        }
        let n: usize = cell_count(len);
        let mut inner: Vec<u8> = Vec::new();
        let mut k: usize = 0;
        while k < n
            invariant
                k <= n,
                n == cells_for(len as int),
                inner@.len() == k,
                *self == *old(self),
                forall|j: int|
                    0 <= j < k ==> inner@[j] == if j < self.inner@.len() {
                        self.inner@[j] & cell_mask(len as int, j)
                    } else {
                        0u8
                    },
            decreases n - k,
        {
            if k < self.inner.len() {
                let m: u8 = mask_of(len, k);
                inner.push(self.inner[k] & m);
            } else {
                inner.push(0u8);
            }
            k += 1;
        }
        proof {
            assert forall|i: int| 0 <= i < 8 * n implies packed_bit(inner@, i) == (i < len && i
                < self.len && packed_bit(self.inner@, i)) by {
                if i / 8 < self.inner@.len() {
                    lemma_cell_mask(len as int, i / 8, self.inner@[i / 8], (i % 8) as u8);
                    if i >= self.len {
                        assert(!packed_bit(self.inner@, i));
                    }
                } else {
                    lemma_cell_bit_zero((i % 8) as u8);
                }
            }
        }
        let ghost before = self@;
        *self = BitSet { inner, len };
        assert(self@ =~= resized_spec(before, len as int));
    }

    /// Number of `true` bits.
    pub fn count_ones(&self) -> (n: usize)
        ensures
            n == count_true(self@),
    {
        proof {
            use_type_invariant(self);
        }
        let cells: usize = self.inner.len();
        let mut n: usize = 0;
        let mut k: usize = 0;
        while k < cells
            invariant
                self.wf(),
                cells == self.inner@.len(),
                k <= cells,
                n == count_true(prefix_bits(self.inner@, 8 * k)),
                n <= self.len,
            decreases cells - k,
        {
            let c: usize = ones_in_cell(self.inner[k]);
            proof {
                lemma_prefix_bits_step(self.inner@, k as int);
                lemma_count_true_concat(
                    prefix_bits(self.inner@, 8 * k),
                    cell_bits(self.inner@[k as int]),
                );
                let e: int = 8 * (k + 1);
                if e <= self.len {
                    lemma_count_true_bounds(prefix_bits(self.inner@, e));
                } else {
                    lemma_count_prefix_tail(self.inner@, self.len as int, e);
                    lemma_count_true_bounds(prefix_bits(self.inner@, self.len as int));
                }
            }
            n += c;
            k += 1;
        }
        proof {
            lemma_count_prefix_tail(self.inner@, self.len as int, 8 * cells);
            assert(prefix_bits(self.inner@, self.len as int) =~= self@);
        }
        n
    }

    /// Number of `false` bits below the length.
    pub fn count_zeros(&self) -> (n: usize)
        ensures
            n == self@.len() - count_true(self@),
    {
        proof {
            lemma_count_true_bounds(self@);
        }
        self.len - self.count_ones()
    }

    /// Whether no bit is `true`.
    pub fn is_empty(&self) -> (b: bool)
        ensures
            b == (forall|i: int| 0 <= i < self@.len() ==> !self@[i]),
    {
        proof {
            lemma_count_true_bounds(self@);
        }
        self.count_ones() == 0
    }

    /// Combines the cells that `self` and `other` both have by `op`.
    fn combine(&mut self, other: &BitSet, op: CellOp)
        ensures
            final(self)@ == combined_spec(op, old(self)@, other@),
    {
        let na: usize = self.cell();
        let nb: usize = other.cell();
        let n: usize = if na <= nb {
            na
        } else {
            nb
        };
        let mut k: usize = 0;
        while k < n
            invariant
                k <= n,
                n <= cells_for(self@.len() as int),
                n <= cells_for(other@.len() as int),
                self@.len() == old(self)@.len(),
                forall|i: int|
                    0 <= i < self@.len() ==> self@[i] == if i / 8 < k {
                        apply_bit(op, old(self)@[i], bit_at(other@, i))
                    } else {
                        old(self)@[i]
                    },
            decreases n - k,
        {
            proof {
                use_type_invariant(&*self);
                use_type_invariant(other);
            }
            let a: u8 = self.inner[k];
            let b: u8 = other.inner[k];
            let ghost before = self@;
            self.put_cell(k, combine_cells(op, a, b));
            proof {
                assert forall|i: int| 0 <= i < self@.len() && i / 8 == k implies self@[i]
                    == apply_bit(op, old(self)@[i], bit_at(other@, i)) by {
                    lemma_apply_cell(op, a, b, (i % 8) as u8);
                    assert(before[i] == cell_bit(a, (i % 8) as u8));
                    assert(packed_bit(other.inner@, i) == cell_bit(b, (i % 8) as u8));
                    if i >= other.len {
                        assert(!packed_bit(other.inner@, i));
                    }
                }
            }
            k += 1;
        }
        assert(self@ =~= combined_spec(op, old(self)@, other@));
    }

    /// Whether `self` is included in `other`, judged from the shorter side.
    pub fn is_subset(&self, other: &Self) -> (b: bool)
        ensures
            b == subset_spec(self@, other@),
    {
        if self.len() <= other.len() {
            covered_by(self, other)
        } else {
            covered_by(other, self)
        }
    }

    /// Whether `other` is included in `self`, judged from the shorter side.
    pub fn is_superset(&self, other: &Self) -> (b: bool)
        ensures
            b == subset_spec(other@, self@),
    {
        other.is_subset(self)
    }

    /// Whether no index is set in both.
    pub fn is_disjoint(&self, other: &Self) -> (b: bool)
        ensures
            b == disjoint_spec(self@, other@),
    {
        let n: usize = if self.len() <= other.len() {
            self.len()
        } else {
            other.len()
        };
        let mut i: usize = 0;
        while i < n
            invariant
                i <= n,
                n <= self@.len(),
                n <= other@.len(),
                n == self@.len() || n == other@.len(),
                forall|j: int| 0 <= j < i ==> !(self@[j] && other@[j]),
            decreases n - i,
        {
            if self.get(i) && other.get(i) {
                return false;
            }
            i += 1;
        }
        true
    }

    /// The union of `self` and `other`, of the length of `self`.
    pub fn union(&self, other: &Self) -> (res: Self)
        ensures
            res@ == union_spec(self@, other@),
    {
        let mut res = self.clone();
        res.combine(other, CellOp::Or);
        assert(res@ =~= union_spec(self@, other@));
        res
    }

    /// The intersection of `self` and `other`, of the length of `self`. Bits
    /// of `self` beyond the last cell of `other` are kept.
    pub fn intersection(&self, other: &Self) -> (res: Self)
        ensures
            res@ == intersection_spec(self@, other@),
    {
        let mut res = self.clone();
        res.combine(other, CellOp::And);
        res
    }

    /// The bits of `self` that are not set in `other`.
    pub fn difference(&self, other: &Self) -> (res: Self)
        ensures
            res@ == difference_spec(self@, other@),
    {
        let mut res = self.clone();
        res.combine(other, CellOp::AndNot);
        assert(res@ =~= difference_spec(self@, other@));
        res
    }

    /// The bits on which `self` and `other` differ, of the length of `self`.
    pub fn symmetric_difference(&self, other: &Self) -> (res: Self)
        ensures
            res@ == symmetric_difference_spec(self@, other@),
    {
        let mut res = self.clone();
        res.combine(other, CellOp::Xor);
        assert(res@ =~= symmetric_difference_spec(self@, other@));
        res
    }
}

impl Clone for BitSet {
    fn clone(&self) -> (res: Self)
        ensures
            res@ == self@,
    {
        proof {
            use_type_invariant(self);
        }
        let inner: Vec<u8> = self.inner.clone();
        assert(inner@ =~= self.inner@);
        BitSet { inner, len: self.len }
    }
}

/// Whether every set bit of `short` is set in `long`.
fn covered_by(short: &BitSet, long: &BitSet) -> (b: bool)
    requires
        short@.len() <= long@.len(),
    ensures
        b == (forall|i: int| 0 <= i < short@.len() ==> (short@[i] ==> long@[i])),
{
    let n: usize = short.len();
    let mut i: usize = 0;
    while i < n
        invariant
            i <= n,
            n == short@.len(),
            n <= long@.len(),
            forall|j: int| 0 <= j < i ==> (short@[j] ==> long@[j]),
        decreases n - i,
    {
        if short.get(i) && !long.get(i) {
            return false;
        }
        i += 1;
    }
    true
}

/// Number of cells that hold `len` bits.
fn cell_count(len: usize) -> (n: usize)
    ensures
        n == cells_for(len as int),
{
    if len % 8 == 0 {
        len / 8
    } else {
        len / 8 + 1
    }
}

/// The cell with only offset `position` set.
fn offset_mask(position: usize) -> (m: u8)
    requires
        position < 8,
    ensures
        m == 0x80u8 >> (position as u8),
{
    0x80u8 >> (position as u8)
}

/// The part of an all-ones cell `k` that lies below the length `len`.
fn mask_of(len: usize, k: usize) -> (m: u8)
    requires
        k < cells_for(len as int),
    ensures
        m == cell_mask(len as int, k as int),
{
    let r: usize = len % 8;
    if r != 0 && k == len / 8 {
        !(0xffu8 >> (r as u8))
    } else {
        0xffu8
    }
}


/// The largest entry of `s`, or 0 when `s` is empty.
pub open spec fn seq_max(s: Seq<usize>) -> int
    decreases s.len(),
{
    if s.len() == 0 {
        0
    } else if s.last() > seq_max(s.drop_last()) {
        s.last() as int
    } else {
        seq_max(s.drop_last())
    }
}

/// `seq_max` bounds every entry.
pub proof fn lemma_seq_max(s: Seq<usize>, j: int)
    requires
        0 <= j < s.len(),
    ensures
        s[j] <= seq_max(s),
    decreases s.len(),
{
    if j < s.len() - 1 {
        lemma_seq_max(s.drop_last(), j);
    }
}

impl BitSet {
    /// Creates the bitset that holds exactly the indices in `buf`, one bit
    /// longer than the largest of them.
    pub fn from_iter(buf: Vec<usize>) -> (res: Self)
        requires
            forall|j: int| 0 <= j < buf@.len() ==> buf@[j] < usize::MAX,
        ensures
            res@.len() == seq_max(buf@) + 1,
            forall|i: int| 0 <= i < res@.len() ==> res@[i] == buf@.contains(i as usize),
    {
        let mut top: usize = 0;
        let mut j: usize = 0;
        while j < buf.len()
            invariant
                j <= buf@.len(),
                top == seq_max(buf@.subrange(0, j as int)),
            decreases buf@.len() - j,
        {
            proof {
                assert(buf@.subrange(0, j + 1).drop_last() =~= buf@.subrange(0, j as int));
            }
            if buf[j] > top {
                top = buf[j];
            }
            j += 1;
        }
        proof {
            assert(buf@.subrange(0, buf@.len() as int) =~= buf@);
            assert(top < usize::MAX) by {
                if buf@.len() > 0 {
                    lemma_seq_max_attained(buf@);
                }
            }
        }
        let mut bs = BitSet::new(top + 1);
        let mut j: usize = 0;
        while j < buf.len()
            invariant
                j <= buf@.len(),
                bs@.len() == seq_max(buf@) + 1,
                forall|i: int|
                    0 <= i < bs@.len() ==> bs@[i] == buf@.subrange(0, j as int).contains(
                        i as usize,
                    ),
            decreases buf@.len() - j,
        {
            proof {
                lemma_seq_max(buf@, j as int);
            }
            let ghost before = bs@;
            bs.entry(buf[j]);
            proof {
                let a = buf@.subrange(0, j as int);
                let b = buf@.subrange(0, j + 1);
                assert forall|i: int| 0 <= i < bs@.len() implies bs@[i] == b.contains(
                    i as usize,
                ) by {
                    if b.contains(i as usize) {
                        let w = choose|w: int| 0 <= w < b.len() && b[w] == i as usize;
                        if w < j {
                            assert(a[w] == i as usize);
                        }
                    }
                    if a.contains(i as usize) {
                        let w = choose|w: int| 0 <= w < a.len() && a[w] == i as usize;
                        assert(b[w] == i as usize);
                    }
                    if i == buf@[j as int] {
                        assert(b[j as int] == i as usize);
                    }
                }
            }
            j += 1;
        }
        proof {
            assert(buf@.subrange(0, buf@.len() as int) =~= buf@);
        }
        bs
    }

    /// Creates the bitset of `width` bits that reads as the low `width` bits
    /// of `x`, most significant first.
    pub fn from_low_bits(x: u64, width: usize) -> (res: Self)
        requires
            width <= 64,
        ensures
            res@ == uint_bits(x, width as int),
    {
        let mut res = BitSet::zeros(width);
        let mut i: usize = 0;
        while i < width
            invariant
                i <= width,
                width <= 64,
                res@.len() == width,
                forall|j: int|
                    0 <= j < width ==> res@[j] == (width - 1 - j < i && uint_bit(
                        x,
                        (width - 1 - j) as u64,
                    )),
            decreases width - i,
        {
            let sh: u64 = i as u64;
            if x & (1u64 << sh) != 0 {
                res.entry(width - i - 1);
            }
            i += 1;
        }
        assert(res@ =~= uint_bits(x, width as int));
        res
    }

    /// Creates the bitset of `len` bits that reads as `x` in binary, most
    /// significant bit first. `x` must fit in `len` bits.
    pub fn from_uint_with_len(x: usize, len: usize) -> (res: Self)
        requires
            len < usize::BITS,
            x >> len == 0,
        ensures
            res@ == uint_bits(x as u64, len as int),
    {
        Self::from_low_bits(x as u64, len)
    }

    /// Creates the bitset whose cells are `v`, eight bits for each.
    pub fn from_bytes(v: Vec<u8>) -> (res: Self)
        requires
            8 * v@.len() <= usize::MAX,
        ensures
            res@ == prefix_bits(v@, 8 * (v@.len() as int)),
    {
        let len: usize = v.len() * 8;
        let res = BitSet { inner: v, len };
        assert(res@ =~= prefix_bits(v@, 8 * (v@.len() as int)));
        res
    }

    /// A copy of the storage cells: each bit below the length is the matching
    /// offset of its cell, and no offset at or beyond the length is set.
    pub fn bytes(&self) -> (v: Vec<u8>)
        ensures
            v@.len() == cells_for(self@.len() as int),
            forall|i: int| 0 <= i < 8 * v@.len() ==> packed_bit(v@, i) == self.bit(i),
    {
        proof {
            use_type_invariant(self);
        }
        let v: Vec<u8> = self.inner.clone();
        assert(v@ =~= self.inner@);
        v
    }

    /// The bits as characters, `1` for a set bit and `0` for another.
    pub fn to_chars(&self) -> (out: Vec<char>)
        ensures
            out@.len() == self@.len(),
            forall|i: int| 0 <= i < out@.len() ==> out@[i] == if self@[i] {
                '1'
            } else {
                '0'
            },
    {
        let mut out: Vec<char> = Vec::new();
        let mut i: usize = 0;
        while i < self.len()
            invariant
                i <= self@.len(),
                out@.len() == i,
                forall|j: int| 0 <= j < i ==> out@[j] == if self@[j] {
                    '1'
                } else {
                    '0'
                },
            decreases self@.len() - i,
        {
            if self.get(i) {
                out.push('1');
            } else {
                out.push('0');
            }
            i += 1;
        }
        out
    }

    /// The bits written as a string of `1` and `0`.
    pub fn to_string(&self) -> (out: String)
        ensures
            out@.len() == self@.len(),
            forall|i: int| 0 <= i < out@.len() ==> out@[i] == if self@[i] {
                '1'
            } else {
                '0'
            },
    {
        let chars: Vec<char> = self.to_chars();
        crate::text::string_of(&chars)
    }

    /// An iterator over the indices of the set bits, ascending.
    pub fn iter(&self) -> (it: BitSetIter<'_>)
        ensures
            it.bits() == self@,
            it.position() == 0,
    {
        BitSetIter { inner: self, cur: 0 }
    }
}

/// `seq_max` of a sequence that is not empty is one of its entries.
pub proof fn lemma_seq_max_attained(s: Seq<usize>)
    requires
        s.len() > 0,
    ensures
        s.contains(seq_max(s) as usize),
    decreases s.len(),
{
    if s.last() > seq_max(s.drop_last()) || s.len() == 1 {
        assert(s[s.len() - 1] == s.last());
        if s.len() == 1 && !(s.last() > seq_max(s.drop_last())) {
            assert(s.last() == 0);
        }
    } else {
        lemma_seq_max_attained(s.drop_last());
        let w = choose|w: int| 0 <= w < s.len() - 1 && s.drop_last()[w] == seq_max(s) as usize;
        assert(s[w] == seq_max(s) as usize);
    }
}

/// The indices of the set bits of a bitset, in ascending order, one at a time.
pub struct BitSetIter<'a> {
    inner: &'a BitSet,
    cur: usize,
}

impl<'a> BitSetIter<'a> {
    /// The bits that are walked.
    pub closed spec fn bits(&self) -> Seq<bool> {
        self.inner@
    }

    /// The next index to look at.
    pub closed spec fn position(&self) -> int {
        self.cur as int
    }

    /// The next set index at or after the position, or `None` when there is
    /// none left.
    pub fn next(&mut self) -> (r: Option<usize>)
        ensures
            final(self).bits() == old(self).bits(),
            match r {
                Some(i) => {
                    &&& old(self).position() <= i < old(self).bits().len()
                    &&& old(self).bits()[i as int]
                    &&& forall|j: int| old(self).position() <= j < i ==> !old(self).bits()[j]
                    &&& final(self).position() == i + 1
                },
                None => {
                    &&& forall|j: int|
                        old(self).position() <= j < old(self).bits().len() ==> !old(
                            self,
                        ).bits()[j]
                    &&& final(self).position() >= old(self).bits().len()
                    &&& final(self).position() >= old(self).position()
                },
            },
    {
        let n: usize = self.inner.len();
        while self.cur < n
            invariant
                n == self.inner@.len(),
                self.inner == old(self).inner,
                old(self).cur <= self.cur,
                forall|j: int| old(self).cur <= j < self.cur ==> !self.inner@[j],
            decreases n - self.cur,
        {
            let hit: bool = self.inner.get(self.cur);
            self.cur += 1;
            if hit {
                return Some(self.cur - 1);
            }
        }
        None
    }

    /// The set indices at or after the position, ascending.
    pub fn to_vec(&mut self) -> (v: Vec<usize>)
        ensures
            final(self).bits() == old(self).bits(),
            final(self).position() >= old(self).bits().len(),
            forall|k: int|
                0 <= k < v@.len() ==> old(self).position() <= v@[k] < old(self).bits().len()
                    && old(self).bits()[v@[k] as int],
            forall|k: int, l: int| 0 <= k < l < v@.len() ==> v@[k] < v@[l],
            forall|i: int|
                old(self).position() <= i < old(self).bits().len() && old(self).bits()[i]
                    ==> v@.contains(i as usize),
    {
        let mut v: Vec<usize> = Vec::new();
        loop
            invariant
                self.bits() == old(self).bits(),
                self.position() >= old(self).position(),
                forall|k: int|
                    0 <= k < v@.len() ==> old(self).position() <= v@[k] < self.position()
                        && v@[k] < self.bits().len() && self.bits()[v@[k] as int],
                forall|k: int, l: int| 0 <= k < l < v@.len() ==> v@[k] < v@[l],
                forall|i: int|
                    old(self).position() <= i < self.position() && i < self.bits().len()
                        && self.bits()[i] ==> v@.contains(i as usize),
            decreases self.bits().len() - self.position(),
        {
            let ghost before = v@;
            let ghost start = self.position();
            match self.next() {
                Some(i) => {
                    v.push(i);
                    proof {
                        assert(v@[v@.len() - 1] == i);
                        assert forall|w: int|
                            old(self).position() <= w < self.position() && w
                                < self.bits().len() && self.bits()[w] implies v@.contains(
                            w as usize,
                        ) by {
                            if w < start {
                                let k = choose|k: int|
                                    0 <= k < before.len() && before[k] == w as usize;
                                assert(v@[k] == w as usize);
                            }
                        }
                    }
                },
                None => {
                    proof {
                        assert forall|w: int|
                            old(self).position() <= w < self.bits().len()
                                && self.bits()[w] implies v@.contains(w as usize) by {
                            if w >= start {
                                assert(!self.bits()[w]);
                            }
                        }
                    }
                    return v;
                },
            }
        }
    }
}

impl PartialEq for BitSet {
    /// Two bitsets are equal when each is included in the other, inclusion
    /// being judged from the shorter side.
    fn eq(&self, other: &Self) -> (b: bool) {
        self.is_subset(other) && other.is_subset(self)
    }
}

impl PartialEqSpecImpl for BitSet {
    open spec fn obeys_eq_spec() -> bool {
        true
    }

    open spec fn eq_spec(&self, other: &Self) -> bool {
        subset_spec(self@, other@) && subset_spec(other@, self@)
    }
}

impl From<Vec<bool>> for BitSet {
    /// The bitset with the entries of `v` as its bits.
    fn from(v: Vec<bool>) -> (res: Self)
        ensures
            res@ == v@,
    {
        let mut res = BitSet::zeros(v.len());
        let mut i: usize = 0;
        while i < v.len()
            invariant
                i <= v@.len(),
                res@.len() == v@.len(),
                forall|j: int| 0 <= j < res@.len() ==> res@[j] == (j < i && v@[j]),
            decreases v@.len() - i,
        {
            if v[i] {
                res.entry(i);
            }
            i += 1;
        }
        assert(res@ =~= v@);
        res
    }
}

impl FromSpecImpl<Vec<bool>> for BitSet {
    open spec fn obeys_from_spec() -> bool {
        false
    }

    open spec fn from_spec(v: Vec<bool>) -> Self {
        arbitrary()
    }
}

impl From<u64> for BitSet {
    /// The 64 bits of `x`, most significant first.
    fn from(x: u64) -> (res: Self)
        ensures
            res@ == uint_bits(x, 64),
    {
        BitSet::from_low_bits(x, 64)
    }
}

impl FromSpecImpl<u64> for BitSet {
    open spec fn obeys_from_spec() -> bool {
        false
    }

    open spec fn from_spec(x: u64) -> Self {
        arbitrary()
    }
}

impl From<u32> for BitSet {
    /// The 32 bits of `x`, most significant first.
    fn from(x: u32) -> (res: Self)
        ensures
            res@ == uint_bits(x as u64, 32),
    {
        BitSet::from_low_bits(x as u64, 32)
    }
}

impl FromSpecImpl<u32> for BitSet {
    open spec fn obeys_from_spec() -> bool {
        false
    }

    open spec fn from_spec(x: u32) -> Self {
        arbitrary()
    }
}

impl From<u16> for BitSet {
    /// The 16 bits of `x`, most significant first.
    fn from(x: u16) -> (res: Self)
        ensures
            res@ == uint_bits(x as u64, 16),
    {
        BitSet::from_low_bits(x as u64, 16)
    }
}

impl FromSpecImpl<u16> for BitSet {
    open spec fn obeys_from_spec() -> bool {
        false
    }

    open spec fn from_spec(x: u16) -> Self {
        arbitrary()
    }
}

impl From<u8> for BitSet {
    /// The 8 bits of `x`, most significant first.
    fn from(x: u8) -> (res: Self)
        ensures
            res@ == uint_bits(x as u64, 8),
    {
        BitSet::from_low_bits(x as u64, 8)
    }
}

impl FromSpecImpl<u8> for BitSet {
    open spec fn obeys_from_spec() -> bool {
        false
    }

    open spec fn from_spec(x: u8) -> Self {
        arbitrary()
    }
}

impl From<usize> for BitSet {
    /// The bits of `x`, as many as a word has, most significant first.
    fn from(x: usize) -> (res: Self)
        ensures
            res@ == uint_bits(x as u64, usize::BITS as int),
    {
        BitSet::from_low_bits(x as u64, usize::BITS as usize)
    }
}

impl FromSpecImpl<usize> for BitSet {
    open spec fn obeys_from_spec() -> bool {
        false
    }

    open spec fn from_spec(x: usize) -> Self {
        arbitrary()
    }
}

impl Default for BitSet {
    /// The bitset without bits.
    fn default() -> (res: Self)
        ensures
            res@.len() == 0,
    {
        BitSet::zeros(0)
    }
}

impl core::ops::BitAnd<BitSet> for BitSet {
    type Output = BitSet;

    /// The intersection, of the length of `self`.
    fn bitand(self, rhs: BitSet) -> (res: BitSet)
        ensures
            res@ == intersection_spec(self@, rhs@),
    {
        self.intersection(&rhs)
    }
}

impl BitAndSpecImpl<BitSet> for BitSet {
    open spec fn obeys_bitand_spec() -> bool {
        false
    }

    open spec fn bitand_req(self, rhs: BitSet) -> bool {
        true
    }

    open spec fn bitand_spec(self, rhs: BitSet) -> BitSet {
        arbitrary()
    }
}

impl core::ops::BitOr<BitSet> for BitSet {
    type Output = BitSet;

    /// The union, of the length of `self`.
    fn bitor(self, rhs: BitSet) -> (res: BitSet)
        ensures
            res@ == union_spec(self@, rhs@),
    {
        self.union(&rhs)
    }
}

impl BitOrSpecImpl<BitSet> for BitSet {
    open spec fn obeys_bitor_spec() -> bool {
        false
    }

    open spec fn bitor_req(self, rhs: BitSet) -> bool {
        true
    }

    open spec fn bitor_spec(self, rhs: BitSet) -> BitSet {
        arbitrary()
    }
}

impl core::ops::BitXor<BitSet> for BitSet {
    type Output = BitSet;

    /// The symmetric difference, of the length of `self`.
    fn bitxor(self, rhs: BitSet) -> (res: BitSet)
        ensures
            res@ == symmetric_difference_spec(self@, rhs@),
    {
        self.symmetric_difference(&rhs)
    }
}

impl BitXorSpecImpl<BitSet> for BitSet {
    open spec fn obeys_bitxor_spec() -> bool {
        false
    }

    open spec fn bitxor_req(self, rhs: BitSet) -> bool {
        true
    }

    open spec fn bitxor_spec(self, rhs: BitSet) -> BitSet {
        arbitrary()
    }
}

impl core::ops::Not for BitSet {
    type Output = BitSet;

    /// The complement.
    fn not(self) -> (res: BitSet)
        ensures
            res@ == complement_spec(self@),
    {
        let mut res = self;
        res.swap();
        res
    }
}

impl NotSpecImpl for BitSet {
    open spec fn obeys_not_spec() -> bool {
        false
    }

    open spec fn not_req(self) -> bool {
        true
    }

    open spec fn not_spec(self) -> BitSet {
        arbitrary()
    }
}

} // verus!
