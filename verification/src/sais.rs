//! Suffix sorting by induced sorting (SA-IS) over an integer alphabet.
//!
//! The working sequence ends in a sentinel, code 0, that occurs nowhere else.
//! Positions are classified as L-type or S-type, the left-most S-type (LMS)
//! positions are sorted by two rounds of induced sorting with a recursion on
//! their ranks in between, and the second round yields the order of all
//! suffixes.
//!
//! What is proved here: the encoding of the input keeps the order of its
//! suffixes, the types and the LMS positions are what their definitions say,
//! the buckets start where the counts of the smaller codes say, one round of
//! induced sorting does, slot by slot, what `induced_spec` says, and every
//! function stays inside its arrays and terminates; a round gives up with
//! `None` where it finds its input out of the shape that the algorithm keeps.
//! That the order found is the suffix array is not proved of the two rounds
//! themselves: `certify` decides it for each result, in linear time, and
//! `sais` hands out only what passed, sorting by comparison otherwise.

use crate::certify::is_suffix_array_of;
use crate::lex::{same_order, suffix_lt};
use crate::naive::sort_suffixes;
use crate::shuffle::shuffled;
use crate::suffix_order::{is_suffix_array, lemma_same_order_same_suffix_array};
use crate::symbol::{keys, Keyed};
use vstd::prelude::*;
use vstd::slice::slice_subrange;

verus! {

/// Whether `t` classifies the positions of `s`: `true` marks an L-type
/// position, whose suffix comes after the next one, `false` an S-type
/// position. The last position is S-type; a position with the key of its
/// successor has the type of its successor.
pub open spec fn is_types(s: Seq<usize>, t: Seq<bool>) -> bool {
    &&& t.len() == s.len()
    &&& s.len() > 0
    &&& !t[s.len() - 1]
    &&& forall|i: int|
        0 <= i < s.len() - 1 ==> #[trigger] t[i] == (s[i] > s[i + 1] || (s[i] == s[i + 1] && t[i
            + 1]))
}

/// Whether `i` is a left-most S-type position: the last position, or an
/// S-type position right after an L-type one.
pub open spec fn is_lms(t: Seq<bool>, i: int) -> bool {
    i == t.len() - 1 || (0 < i < t.len() && !t[i] && t[i - 1])
}

/// The codes of `s` as keys.
pub open spec fn code_keys(s: Seq<usize>) -> Seq<int> {
    Seq::new(s.len(), |i: int| s[i] as int)
}

/// What the types mean: in a sequence that ends in its only least code, a
/// position is L-type exactly when its suffix comes after the suffix that
/// starts one position later.
pub proof fn lemma_types_meaning(s: Seq<usize>, t: Seq<bool>, i: int)
    requires
        is_types(s, t),
        forall|j: int| 0 <= j < s.len() - 1 ==> #[trigger] s[j] > s[s.len() - 1],
        0 <= i < s.len() - 1,
    ensures
        t[i] == suffix_lt(code_keys(s), i + 1, i),
    decreases s.len() - i,
{
    if s[i] == s[i + 1] {
        assert(i + 1 < s.len() - 1);
        lemma_types_meaning(s, t, i + 1);
    }
}

/// An LMS position starts a suffix that comes before both the suffix before
/// it and the suffix after it, but for the last position, which starts the
/// least suffix of all.
pub proof fn lemma_lms_meaning(s: Seq<usize>, t: Seq<bool>, i: int)
    requires
        is_types(s, t),
        forall|j: int| 0 <= j < s.len() - 1 ==> #[trigger] s[j] > s[s.len() - 1],
        0 < i < s.len() - 1,
        is_lms(t, i),
    ensures
        suffix_lt(code_keys(s), i, i - 1),
        suffix_lt(code_keys(s), i, i + 1),
{
    lemma_types_meaning(s, t, i - 1);
    lemma_types_meaning(s, t, i);
    crate::lex::lemma_suffix_total(code_keys(s), i, i + 1);
}

/// Classifies the positions of `s` by a scan from the right.
pub fn classify(s: &Vec<usize>) -> (types: Vec<bool>)
    requires
        s@.len() > 0,
    ensures
        is_types(s@, types@),
{
    let n: usize = s.len();
    let mut types: Vec<bool> = Vec::new();
    let mut k: usize = 0;
    while k < n
        invariant
            k <= n,
            types@.len() == k,
            forall|j: int| 0 <= j < k ==> !types@[j],
        decreases n - k,
    {
        types.push(false);
        k += 1;
    }
    let mut i: usize = n - 1;
    while i > 0
        invariant
            n == s@.len(),
            types@.len() == n,
            i < n,
            !types@[n - 1],
            forall|j: int|
                i <= j < n - 1 ==> #[trigger] types@[j] == (s@[j] > s@[j + 1] || (s@[j] == s@[j
                    + 1] && types@[j + 1])),
        decreases i,
    {
        i -= 1;
        let v: bool = if s[i] == s[i + 1] {
            types[i + 1]
        } else {
            s[i] > s[i + 1]
        };
        types.set(i, v);
    }
    types
}

/// Whether `i` is a left-most S-type position.
pub fn lms_at(types: &Vec<bool>, i: usize) -> (b: bool)
    requires
        i < types@.len(),
    ensures
        b == is_lms(types@, i as int),
{
    i == types.len() - 1 || (i > 0 && !types[i] && types[i - 1])
}

/// The left-most S-type positions, in ascending order.
pub fn lms_positions(types: &Vec<bool>) -> (v: Vec<usize>)
    ensures
        forall|k: int| 0 <= k < v@.len() ==> v@[k] < types@.len() && is_lms(types@, v@[k] as int),
        forall|k: int, l: int| 0 <= k < l < v@.len() ==> v@[k] < v@[l],
        forall|i: int| 0 <= i < types@.len() && is_lms(types@, i) ==> v@.contains(i as usize),
        v@.len() <= types@.len(),
{
    let mut v: Vec<usize> = Vec::new();
    let mut i: usize = 0;
    while i < types.len()
        invariant
            i <= types@.len(),
            v@.len() <= i,
            forall|k: int| 0 <= k < v@.len() ==> v@[k] < i && is_lms(types@, v@[k] as int),
            forall|k: int, l: int| 0 <= k < l < v@.len() ==> v@[k] < v@[l],
            forall|j: int| 0 <= j < i && is_lms(types@, j) ==> v@.contains(j as usize),
        decreases types@.len() - i,
    {
        if lms_at(types, i) {
            let ghost before = v@;
            v.push(i);
            proof {
                assert(v@[v@.len() - 1] == i);
                assert forall|j: int| 0 <= j < i + 1 && is_lms(types@, j) implies v@.contains(
                    j as usize,
                ) by {
                    if j < i {
                        let k = choose|k: int| 0 <= k < before.len() && before[k] == j as usize;
                        assert(v@[k] == j as usize);
                    }
                }
            }
        }
        i += 1;
    }
    v
}

/// Whether `b` bounds the buckets of a sequence of `n` positions over the
/// codes `0..k`: bucket `c` is `b[c]..b[c + 1]`.
pub open spec fn is_bounds(b: Seq<usize>, k: int, n: int) -> bool {
    &&& b.len() == k + 1
    &&& b[0] == 0
    &&& b[k] == n
    &&& forall|c: int| 0 <= c < k ==> #[trigger] b[c] <= b[c + 1]
}

/// Buckets are in ascending order of their codes.
proof fn lemma_bounds_monotone(b: Seq<usize>, k: int, n: int, c: int, d: int)
    requires
        is_bounds(b, k, n),
        0 <= c <= d <= k,
    ensures
        b[c] <= b[d],
    decreases d - c,
{
    if c < d {
        lemma_bounds_monotone(b, k, n, c, d - 1);
    }
}

/// The number of entries of `s` below `c`.
pub open spec fn count_below(s: Seq<usize>, c: int) -> nat
    decreases s.len(),
{
    if s.len() == 0 {
        0
    } else {
        count_below(s.drop_last(), c) + if s.last() < c {
            1nat
        } else {
            0nat
        }
    }
}

/// At most as many entries are below a code as there are entries; all are
/// below a code that is above each; and a greater code has no fewer below it.
pub proof fn lemma_count_below(s: Seq<usize>, c: int, d: int)
    requires
        c <= d,
    ensures
        count_below(s, c) <= count_below(s, d) <= s.len(),
        (forall|i: int| 0 <= i < s.len() ==> s[i] < d) ==> count_below(s, d) == s.len(),
        count_below(s, 0) == 0,
    decreases s.len(),
{
    if s.len() > 0 {
        lemma_count_below(s.drop_last(), c, d);
        if forall|i: int| 0 <= i < s.len() ==> s[i] < d {
            assert forall|i: int| 0 <= i < s.drop_last().len() implies s.drop_last()[i] < d by {
                assert(s.drop_last()[i] == s[i]);
            }
        }
    }
}

/// Whether `hist` counts, for each code below `k`, the entries of `s` with
/// that code.
pub open spec fn is_histogram(s: Seq<usize>, hist: Seq<usize>, k: int) -> bool {
    &&& hist.len() == k
    &&& forall|c: int|
        0 <= c < k ==> #[trigger] hist[c] == count_below(s, c + 1) - count_below(s, c)
}

/// The bounds of the buckets of `s`, one bucket for each code in the order
/// of the codes and as wide as the code is frequent: bucket `c` starts after
/// as many slots as there are entries below `c`. `None` when a code is not
/// below `k`.
pub fn bucket_bounds(s: &Vec<usize>, k: usize) -> (res: Option<Vec<usize>>)
    requires
        k < usize::MAX,
    ensures
        match res {
            Some(b) => {
                &&& is_bounds(b@, k as int, s@.len() as int)
                &&& forall|c: int| 0 <= c <= k ==> #[trigger] b@[c] == count_below(s@, c)
            },
            None => exists|i: int| 0 <= i < s@.len() && s@[i] >= k,
        },
{
    let mut hist: Vec<usize> = Vec::new();
    let mut c: usize = 0;
    while c < k
        invariant
            c <= k,
            hist@.len() == c,
            forall|d: int| 0 <= d < c ==> hist@[d] == 0,
        decreases k - c,
    {
        hist.push(0);
        c += 1;
    }
    let mut i: usize = 0;
    proof {
        assert(s@.subrange(0, 0) =~= Seq::<usize>::empty());
    }
    while i < s.len()
        invariant
            i <= s@.len(),
            is_histogram(s@.subrange(0, i as int), hist@, k as int),
            forall|j: int| 0 <= j < i ==> s@[j] < k,
        decreases s@.len() - i,
    {
        let x: usize = s[i];
        if x >= k {
            return None;
        }
        let h: usize = hist[x];
        proof {
            let prefix = s@.subrange(0, i as int);
            let longer = s@.subrange(0, i + 1);
            assert(longer.drop_last() =~= prefix);
            lemma_count_below(prefix, x as int, x + 1);
            lemma_count_below(prefix, x + 1, x + 1);
            assert forall|c: int| 0 <= c < k implies count_below(longer, c + 1) - count_below(
                longer,
                c,
            ) == if c == x {
                hist@[c] + 1
            } else {
                hist@[c] as int
            } by {}
        }
        hist.set(x, h + 1);
        i += 1;
    }
    proof {
        assert(s@.subrange(0, s@.len() as int) =~= s@);
        lemma_count_below(s@, 0, 0);
    }
    let mut bounds: Vec<usize> = Vec::new();
    bounds.push(0);
    let mut sum: usize = 0;
    let mut c: usize = 0;
    while c < k
        invariant
            c <= k,
            s@.len() <= usize::MAX,
            is_histogram(s@, hist@, k as int),
            bounds@.len() == c + 1,
            bounds@[0] == 0,
            bounds@[c as int] == sum,
            forall|d: int| 0 <= d < c ==> #[trigger] bounds@[d] <= bounds@[d + 1],
            forall|d: int| 0 <= d <= c ==> #[trigger] bounds@[d] == count_below(s@, d),
        decreases k - c,
    {
        proof {
            lemma_count_below(s@, c as int, c + 1);
            assert(hist@[c as int] == count_below(s@, c + 1) - count_below(s@, c as int));
        }
        sum = sum + hist[c];
        bounds.push(sum);
        c += 1;
    }
    proof {
        lemma_count_below(s@, k as int, k as int);
    }
    Some(bounds)
}

/// A vector of `n` zeros.
fn zeros(n: usize) -> (v: Vec<usize>)
    ensures
        v@.len() == n,
        forall|i: int| 0 <= i < n ==> v@[i] == 0,
{
    let mut v: Vec<usize> = Vec::new();
    let mut i: usize = 0;
    while i < n
        invariant
            i <= n,
            v@.len() == i,
            forall|j: int| 0 <= j < i ==> v@[j] == 0,
        decreases n - i,
    {
        v.push(0);
        i += 1;
    }
    v
}

/// A vector of `n` empty slots.
fn empty_slots(n: usize) -> (v: Vec<Option<usize>>)
    ensures
        v@.len() == n,
        forall|i: int| 0 <= i < n ==> v@[i] is None,
{
    let mut v: Vec<Option<usize>> = Vec::new();
    let mut i: usize = 0;
    while i < n
        invariant
            i <= n,
            v@.len() == i,
            forall|j: int| 0 <= j < i ==> v@[j] is None,
        decreases n - i,
    {
        v.push(None);
        i += 1;
    }
    v
}

/// Whether every filled slot of `slots` holds a position below `n`.
pub open spec fn slots_below(slots: Seq<Option<usize>>, n: int) -> bool {
    forall|i: int| 0 <= i < slots.len() && (#[trigger] slots[i]) is Some ==> slots[i].unwrap() < n
}

/// The free slot at the front of bucket `c` when `used[c]` of its slots are
/// taken from the front, or `None` when the bucket is full.
pub open spec fn front_of(bounds: Seq<usize>, used: Seq<usize>, c: int) -> Option<usize> {
    if used[c] < bounds[c + 1] - bounds[c] {
        Some((bounds[c] + used[c]) as usize)
    } else {
        None
    }
}

/// The free slot at the back of bucket `c` when `used[c]` of its slots are
/// taken from the back, or `None` when the bucket is full.
pub open spec fn back_of(bounds: Seq<usize>, used: Seq<usize>, c: int) -> Option<usize> {
    if used[c] < bounds[c + 1] - bounds[c] {
        Some((bounds[c + 1] - 1 - used[c]) as usize)
    } else {
        None
    }
}

/// The counts `used` after a slot of bucket `c` was taken, if there was one.
pub open spec fn taken(bounds: Seq<usize>, used: Seq<usize>, c: int) -> Seq<usize> {
    if used[c] < bounds[c + 1] - bounds[c] {
        used.update(c, (used[c] + 1) as usize)
    } else {
        used
    }
}

/// The slot for the next position of code `c` that comes to the front of its
/// bucket, or `None` when the bucket is full. A slot that is handed out is
/// counted as used.
fn front_slot(bounds: &Vec<usize>, used: &mut Vec<usize>, c: usize, Ghost(n): Ghost<int>) -> (res:
    Option<usize>)
    requires
        is_bounds(bounds@, old(used)@.len() as int, n),
        c < old(used)@.len(),
    ensures
        res == front_of(bounds@, old(used)@, c as int),
        final(used)@ == taken(bounds@, old(used)@, c as int),
        res matches Some(p) ==> p < n,
{
    let width: usize = bounds.len();
    assert(c + 1 < width);
    let h: usize = used[c];
    let lo: usize = bounds[c];
    let hi: usize = bounds[c + 1];
    proof {
        lemma_bounds_monotone(bounds@, used@.len() as int, n, c + 1, used@.len() as int);
    }
    if h >= hi - lo {
        return None;
    }
    used.set(c, h + 1);
    Some(lo + h)
}

/// The slot for the next position of code `c` that comes to the back of its
/// bucket, or `None` when the bucket is full. A slot that is handed out is
/// counted as used.
fn back_slot(bounds: &Vec<usize>, used: &mut Vec<usize>, c: usize, Ghost(n): Ghost<int>) -> (res:
    Option<usize>)
    requires
        is_bounds(bounds@, old(used)@.len() as int, n),
        c < old(used)@.len(),
    ensures
        res == back_of(bounds@, old(used)@, c as int),
        final(used)@ == taken(bounds@, old(used)@, c as int),
        res matches Some(p) ==> p < n,
{
    let width: usize = bounds.len();
    assert(c + 1 < width);
    let h: usize = used[c];
    let lo: usize = bounds[c];
    let hi: usize = bounds[c + 1];
    proof {
        lemma_bounds_monotone(bounds@, used@.len() as int, n, c + 1, used@.len() as int);
    }
    if h >= hi - lo {
        return None;
    }
    used.set(c, h + 1);
    Some(hi - 1 - h)
}

/// `n` empty slots.
pub open spec fn no_slots(n: nat) -> Seq<Option<usize>> {
    Seq::new(n, |i: int| None::<usize>)
}

/// The counts of used slots of `k` buckets of which none is used.
pub open spec fn unused(k: nat) -> Seq<usize> {
    Seq::new(k, |c: int| 0usize)
}

/// The slots after the seeds `seed[..t]` were placed, from the last to the
/// first, each at the back of the bucket of its code; `None` where a seed is
/// no position, has a code that is no code, or finds its bucket full.
pub open spec fn placed(
    s: Seq<usize>,
    seed: Seq<usize>,
    bounds: Seq<usize>,
    k: int,
    slots: Seq<Option<usize>>,
    used: Seq<usize>,
    t: int,
) -> Option<Seq<Option<usize>>>
    decreases t,
{
    if t <= 0 {
        Some(slots)
    } else {
        let x = seed[t - 1];
        if x >= s.len() || s[x as int] >= k {
            None
        } else {
            match back_of(bounds, used, s[x as int] as int) {
                None => None,
                Some(p) => placed(
                    s,
                    seed,
                    bounds,
                    k,
                    slots.update(p as int, Some(x)),
                    taken(bounds, used, s[x as int] as int),
                    t - 1,
                ),
            }
        }
    }
}

/// The slots with slot `i` emptied where it holds a seed: an S-type position
/// after an L-type one. Slot 0, which holds the sentinel, is left.
pub open spec fn cleared(types: Seq<bool>, slots: Seq<Option<usize>>, i: int) -> Seq<Option<usize>> {
    match slots[i] {
        Some(y) => if i > 0 && y > 0 && !types[y as int] && types[y - 1] {
            slots.update(i, None)
        } else {
            slots
        },
        None => slots,
    }
}

/// The slots after the scan from the left has passed the slots from `i` on:
/// for each position in a slot, its predecessor, where that is L-type, goes to
/// the front of the bucket of its code, and the slot is emptied where it
/// holds a seed. `None` where a code is no code or a bucket is full.
pub open spec fn induced_left(
    s: Seq<usize>,
    types: Seq<bool>,
    bounds: Seq<usize>,
    k: int,
    slots: Seq<Option<usize>>,
    used: Seq<usize>,
    i: int,
) -> Option<Seq<Option<usize>>>
    decreases s.len() - i,
{
    if i >= s.len() {
        Some(slots)
    } else {
        match slots[i] {
            None => induced_left(s, types, bounds, k, slots, used, i + 1),
            Some(x) => if x > 0 && types[x - 1] {
                if s[x - 1] >= k {
                    None
                } else {
                    match front_of(bounds, used, s[x - 1] as int) {
                        None => None,
                        Some(p) => induced_left(
                            s,
                            types,
                            bounds,
                            k,
                            cleared(types, slots.update(p as int, Some((x - 1) as usize)), i),
                            taken(bounds, used, s[x - 1] as int),
                            i + 1,
                        ),
                    }
                }
            } else {
                induced_left(s, types, bounds, k, cleared(types, slots, i), used, i + 1)
            },
        }
    }
}

/// The slots after the scan from the right has passed the slots below `i`,
/// from the last to the first: for each position in a slot, its predecessor,
/// where that is S-type, goes to the back of the bucket of its code. `None`
/// where a code is no code or a bucket is full.
pub open spec fn induced_right(
    s: Seq<usize>,
    types: Seq<bool>,
    bounds: Seq<usize>,
    k: int,
    slots: Seq<Option<usize>>,
    used: Seq<usize>,
    i: int,
) -> Option<Seq<Option<usize>>>
    decreases i,
{
    if i <= 0 {
        Some(slots)
    } else {
        match slots[i - 1] {
            None => induced_right(s, types, bounds, k, slots, used, i - 1),
            Some(x) => if x > 0 && !types[x - 1] {
                if s[x - 1] >= k {
                    None
                } else {
                    match back_of(bounds, used, s[x - 1] as int) {
                        None => None,
                        Some(p) => induced_right(
                            s,
                            types,
                            bounds,
                            k,
                            slots.update(p as int, Some((x - 1) as usize)),
                            taken(bounds, used, s[x - 1] as int),
                            i - 1,
                        ),
                    }
                }
            } else {
                induced_right(s, types, bounds, k, slots, used, i - 1)
            },
        }
    }
}

/// The positions in the slots that are filled, in the order of the slots.
pub open spec fn filled(slots: Seq<Option<usize>>) -> Seq<usize>
    decreases slots.len(),
{
    if slots.len() == 0 {
        Seq::empty()
    } else {
        filled(slots.drop_last()) + match slots.last() {
            Some(x) => seq![x],
            None => Seq::empty(),
        }
    }
}

/// One round of induced sorting on `n` empty slots: the seeds are placed,
/// the scan from the left and the scan from the right follow, each with its
/// buckets unused at its start, and the positions are read off the slots.
pub open spec fn induced_spec(
    s: Seq<usize>,
    types: Seq<bool>,
    seed: Seq<usize>,
    bounds: Seq<usize>,
    k: int,
) -> Option<Seq<usize>> {
    let unused = unused(k as nat);
    let empty = Seq::new(s.len(), |i: int| None::<usize>);
    match placed(s, seed, bounds, k, empty, unused, seed.len() as int) {
        None => None,
        Some(a) => match induced_left(s, types, bounds, k, a, unused, 0) {
            None => None,
            Some(b) => match induced_right(s, types, bounds, k, b, unused, s.len() as int) {
                None => None,
                Some(c) => Some(filled(c)),
            },
        },
    }
}

/// Places the seeds, from the last to the first, at the backs of their
/// buckets.
#[verifier::loop_isolation(false)]
fn place_seeds(s: &Vec<usize>, seed: &Vec<usize>, bounds: &Vec<usize>, k: usize) -> (res: Option<
    Vec<Option<usize>>,
>)
    requires
        is_bounds(bounds@, k as int, s@.len() as int),
    ensures
        match res {
            Some(v) => placed(
                s@,
                seed@,
                bounds@,
                k as int,
                no_slots(s@.len()),
                unused(k as nat),
                seed@.len() as int,
            ) == Some(v@) && v@.len() == s@.len() && slots_below(v@, s@.len() as int),
            None => placed(
                s@,
                seed@,
                bounds@,
                k as int,
                no_slots(s@.len()),
                unused(k as nat),
                seed@.len() as int,
            ) is None,
        },
{
    let n: usize = s.len();
    let mut slots: Vec<Option<usize>> = empty_slots(n);
    let mut used: Vec<usize> = zeros(k);
    let ghost slots0 = no_slots(s@.len());
    let ghost used0 = unused(k as nat);
    proof {
        assert(slots@ =~= slots0);
        assert(used@ =~= used0);
    }
    let mut t: usize = seed.len();
    while t > 0
        invariant
            n == s@.len(),
            slots@.len() == n,
            used@.len() == k,
            is_bounds(bounds@, k as int, n as int),
            slots_below(slots@, n as int),
            t <= seed@.len(),
            placed(s@, seed@, bounds@, k as int, slots@, used@, t as int) == placed(
                s@,
                seed@,
                bounds@,
                k as int,
                slots0,
                used0,
                seed@.len() as int,
            ),
        decreases t,
    {
        t -= 1;
        let x: usize = seed[t];
        let ghost slots1 = slots@;
        let ghost used1 = used@;
        if x >= n || s[x] >= k {
            proof {
                assert(placed(s@, seed@, bounds@, k as int, slots1, used1, t + 1) is None);
            }
            return None;
        }
        match back_slot(bounds, &mut used, s[x], Ghost(n as int)) {
            Some(p) => {
                slots.set(p, Some(x));
                proof {
                    assert(placed(s@, seed@, bounds@, k as int, slots1, used1, t + 1) == placed(
                        s@,
                        seed@,
                        bounds@,
                        k as int,
                        slots@,
                        used@,
                        t as int,
                    ));
                }
            },
            None => {
                proof {
                    assert(placed(s@, seed@, bounds@, k as int, slots1, used1, t + 1) is None);
                }
                return None;
            },
        }
    }
    Some(slots)
}

/// The scan from the left: L-type predecessors go to the fronts of their
/// buckets, and the seeds leave their slots.
#[verifier::loop_isolation(false)]
fn induce_left(
    s: &Vec<usize>,
    types: &Vec<bool>,
    bounds: &Vec<usize>,
    k: usize,
    slots: Vec<Option<usize>>,
) -> (res: Option<Vec<Option<usize>>>)
    requires
        types@.len() == s@.len(),
        slots@.len() == s@.len(),
        slots_below(slots@, s@.len() as int),
        is_bounds(bounds@, k as int, s@.len() as int),
    ensures
        match res {
            Some(v) => induced_left(
                s@,
                types@,
                bounds@,
                k as int,
                slots@,
                unused(k as nat),
                0,
            ) == Some(v@) && v@.len() == s@.len() && slots_below(v@, s@.len() as int),
            None => induced_left(
                s@,
                types@,
                bounds@,
                k as int,
                slots@,
                unused(k as nat),
                0,
            ) is None,
        },
{
    let n: usize = s.len();
    let ghost slots0 = slots@;
    let ghost used0 = unused(k as nat);
    let mut slots = slots;
    let mut used: Vec<usize> = zeros(k);
    proof {
        assert(used@ =~= used0);
    }
    let mut i: usize = 0;
    while i < n
        invariant
            n == s@.len(),
            types@.len() == n,
            slots@.len() == n,
            used@.len() == k,
            is_bounds(bounds@, k as int, n as int),
            slots_below(slots@, n as int),
            i <= n,
            induced_left(s@, types@, bounds@, k as int, slots@, used@, i as int) == induced_left(
                s@,
                types@,
                bounds@,
                k as int,
                slots0,
                used0,
                0,
            ),
        decreases n - i,
    {
        let ghost before = slots@;
        let ghost used1 = used@;
        match slots[i] {
            Some(x) => {
                if x > 0 && types[x - 1] {
                    if s[x - 1] >= k {
                        proof {
                            assert(induced_left(
                                s@,
                                types@,
                                bounds@,
                                k as int,
                                before,
                                used1,
                                i as int,
                            ) is None);
                        }
                        return None;
                    }
                    match front_slot(bounds, &mut used, s[x - 1], Ghost(n as int)) {
                        Some(p) => {
                            slots.set(p, Some(x - 1));
                        },
                        None => {
                            proof {
                                assert(induced_left(
                                    s@,
                                    types@,
                                    bounds@,
                                    k as int,
                                    before,
                                    used1,
                                    i as int,
                                ) is None);
                            }
                            return None;
                        },
                    }
                }
                let ghost mid = slots@;
                match slots[i] {
                    Some(y) => {
                        if i > 0 && y > 0 && !types[y] && types[y - 1] {
                            slots.set(i, None);
                        }
                    },
                    None => {},
                }
                proof {
                    assert(slots@ == cleared(types@, mid, i as int));
                    assert(induced_left(s@, types@, bounds@, k as int, before, used1, i as int)
                        == induced_left(s@, types@, bounds@, k as int, slots@, used@, i + 1));
                }
            },
            None => {
                proof {
                    assert(induced_left(s@, types@, bounds@, k as int, before, used1, i as int)
                        == induced_left(s@, types@, bounds@, k as int, slots@, used@, i + 1));
                }
            },
        }
        i += 1;
    }
    Some(slots)
}

/// The scan from the right: S-type predecessors go to the backs of their
/// buckets.
#[verifier::loop_isolation(false)]
fn induce_right(
    s: &Vec<usize>,
    types: &Vec<bool>,
    bounds: &Vec<usize>,
    k: usize,
    slots: Vec<Option<usize>>,
) -> (res: Option<Vec<Option<usize>>>)
    requires
        types@.len() == s@.len(),
        slots@.len() == s@.len(),
        slots_below(slots@, s@.len() as int),
        is_bounds(bounds@, k as int, s@.len() as int),
    ensures
        match res {
            Some(v) => induced_right(
                s@,
                types@,
                bounds@,
                k as int,
                slots@,
                unused(k as nat),
                s@.len() as int,
            ) == Some(v@) && v@.len() == s@.len() && slots_below(v@, s@.len() as int),
            None => induced_right(
                s@,
                types@,
                bounds@,
                k as int,
                slots@,
                unused(k as nat),
                s@.len() as int,
            ) is None,
        },
{
    let n: usize = s.len();
    let ghost slots0 = slots@;
    let ghost used0 = unused(k as nat);
    let mut slots = slots;
    let mut used: Vec<usize> = zeros(k);
    proof {
        assert(used@ =~= used0);
    }
    let mut i: usize = n;
    while i > 0
        invariant
            n == s@.len(),
            types@.len() == n,
            slots@.len() == n,
            used@.len() == k,
            is_bounds(bounds@, k as int, n as int),
            slots_below(slots@, n as int),
            i <= n,
            induced_right(s@, types@, bounds@, k as int, slots@, used@, i as int) == induced_right(
                s@,
                types@,
                bounds@,
                k as int,
                slots0,
                used0,
                n as int,
            ),
        decreases i,
    {
        i -= 1;
        let ghost before = slots@;
        let ghost used1 = used@;
        match slots[i] {
            Some(x) => {
                if x > 0 && !types[x - 1] {
                    if s[x - 1] >= k {
                        proof {
                            assert(induced_right(
                                s@,
                                types@,
                                bounds@,
                                k as int,
                                before,
                                used1,
                                i + 1,
                            ) is None);
                        }
                        return None;
                    }
                    match back_slot(bounds, &mut used, s[x - 1], Ghost(n as int)) {
                        Some(p) => {
                            slots.set(p, Some(x - 1));
                        },
                        None => {
                            proof {
                                assert(induced_right(
                                    s@,
                                    types@,
                                    bounds@,
                                    k as int,
                                    before,
                                    used1,
                                    i + 1,
                                ) is None);
                            }
                            return None;
                        },
                    }
                }
            },
            None => {},
        }
        proof {
            assert(induced_right(s@, types@, bounds@, k as int, before, used1, i + 1)
                == induced_right(s@, types@, bounds@, k as int, slots@, used@, i as int));
        }
    }
    Some(slots)
}

/// The positions in the slots that are filled, in the order of the slots.
fn read_slots(slots: &Vec<Option<usize>>, Ghost(n): Ghost<int>) -> (out: Vec<usize>)
    requires
        slots_below(slots@, n),
    ensures
        out@ == filled(slots@),
        out@.len() <= slots@.len(),
        forall|j: int| 0 <= j < out@.len() ==> out@[j] < n,
{
    let mut out: Vec<usize> = Vec::new();
    let mut i: usize = 0;
    proof {
        assert(slots@.subrange(0, 0) =~= Seq::<Option<usize>>::empty());
    }
    while i < slots.len()
        invariant
            slots_below(slots@, n),
            i <= slots@.len(),
            out@.len() <= i,
            out@ == filled(slots@.subrange(0, i as int)),
            forall|j: int| 0 <= j < out@.len() ==> out@[j] < n,
        decreases slots@.len() - i,
    {
        proof {
            assert(slots@.subrange(0, i + 1).drop_last() =~= slots@.subrange(0, i as int));
        }
        match slots[i] {
            Some(x) => {
                out.push(x);
            },
            None => {},
        }
        proof {
            assert(out@ =~= filled(slots@.subrange(0, i + 1)));
        }
        i += 1;
    }
    proof {
        assert(slots@.subrange(0, slots@.len() as int) =~= slots@);
    }
    out
}

/// One round of induced sorting. The seeds, taken from the last to the
/// first, go to the backs of their buckets; a scan from the left puts each
/// L-type predecessor of a placed position at the front of its bucket and
/// takes the seeds out again, but for the sentinel; a scan from the right
/// puts each S-type predecessor at the back of its bucket. The positions are
/// returned in the order of their slots. `None` where a seed is no position,
/// a code is no code, or a bucket is full.
pub fn induced_sort(
    s: &Vec<usize>,
    types: &Vec<bool>,
    seed: &Vec<usize>,
    bounds: &Vec<usize>,
    k: usize,
) -> (res: Option<Vec<usize>>)
    requires
        s@.len() > 0,
        types@.len() == s@.len(),
        is_bounds(bounds@, k as int, s@.len() as int),
    ensures
        match res {
            Some(r) => induced_spec(s@, types@, seed@, bounds@, k as int) == Some(r@),
            None => induced_spec(s@, types@, seed@, bounds@, k as int) is None,
        },
        res matches Some(r) ==> r@.len() <= s@.len() && forall|i: int|
            0 <= i < r@.len() ==> r@[i] < s@.len(),
{
    let seeded: Vec<Option<usize>> = match place_seeds(s, seed, bounds, k) {
        Some(v) => v,
        None => {
            return None;
        },
    };
    let left: Vec<Option<usize>> = match induce_left(s, types, bounds, k, seeded) {
        Some(v) => v,
        None => {
            return None;
        },
    };
    let right: Vec<Option<usize>> = match induce_right(s, types, bounds, k, left) {
        Some(v) => v,
        None => {
            return None;
        },
    };
    Some(read_slots(&right, Ghost(s@.len() as int)))
}

/// Whether the LMS substrings that start at `a` and at `b` differ, as far as
/// their entries from the `d`-th on tell: walking both, a key or an LMS mark
/// differs, or the sequence ends, before both come to their next LMS position
/// together.
pub open spec fn lms_differ_from(s: Seq<usize>, t: Seq<bool>, a: int, b: int, d: int) -> bool
    decreases s.len() - d,
{
    if d >= s.len() || d >= s.len() - a || d >= s.len() - b {
        true
    } else if s[a + d] != s[b + d] || is_lms(t, a + d) != is_lms(t, b + d) {
        true
    } else if d > 0 && (is_lms(t, a + d) || is_lms(t, b + d)) {
        false
    } else {
        lms_differ_from(s, t, a, b, d + 1)
    }
}

/// Whether the LMS substrings that start at `a` and at `b` differ: in a key,
/// or in where they end.
fn lms_substrings_differ(s: &Vec<usize>, types: &Vec<bool>, a: usize, b: usize) -> (res: bool)
    requires
        types@.len() == s@.len(),
        a < s@.len(),
        b < s@.len(),
    ensures
        res == lms_differ_from(s@, types@, a as int, b as int, 0),
{
    let n: usize = s.len();
    let mut d: usize = 0;
    while d < n
        invariant
            n == s@.len(),
            types@.len() == n,
            a < n,
            b < n,
            d <= n,
            lms_differ_from(s@, types@, a as int, b as int, d as int) == lms_differ_from(
                s@,
                types@,
                a as int,
                b as int,
                0,
            ),
        decreases n - d,
    {
        if d >= n - a || d >= n - b {
            return true;
        }
        let la: bool = lms_at(types, a + d);
        let lb: bool = lms_at(types, b + d);
        if s[a + d] != s[b + d] || la != lb {
            return true;
        }
        if d > 0 && (la || lb) {
            return false;
        }
        d += 1;
    }
    true
}

/// The suffix array of `s` without its last entry, by comparison sort.
fn by_comparison(s: &Vec<usize>) -> (order: Vec<usize>)
    requires
        s@.len() > 0,
    ensures
        is_suffix_array(code_keys(s@.drop_last()), order@),
{
    let body: &[usize] = slice_subrange(s.as_slice(), 0, s.len() - 1);
    proof {
        assert(body@ =~= s@.drop_last());
        assert(keys(body@) =~= code_keys(s@.drop_last()));
    }
    sort_suffixes(body)
}

/// The suffix array of `s` without its sentinel, the suffix that is the
/// sentinel alone standing for the empty one. `s` is meant to be a sequence
/// over the codes `0..k` that ends in its only 0; the first round is seeded
/// with the LMS positions in the order of `seed`, or in a random order when
/// there is no `seed`. The order that the two rounds find is handed out once
/// it is seen to be the suffix array; where a round gives up or its order is
/// not the suffix array, as it may for an `s`, `k` or `seed` of another
/// shape, the suffixes are sorted by comparison.
pub fn sais(s: &Vec<usize>, k: usize, seed: Option<Vec<usize>>) -> (res: Vec<usize>)
    requires
        s@.len() > 0,
    ensures
        is_suffix_array(code_keys(s@.drop_last()), res@),
    decreases s@.len(),
{
    let n: usize = s.len();
    if k == usize::MAX {
        return by_comparison(s);
    }
    let bounds: Vec<usize> = match bucket_bounds(s, k) {
        Some(b) => b,
        None => {
            return by_comparison(s);
        },
    };
    let types: Vec<bool> = classify(s);
    let positions: Vec<usize> = lms_positions(&types);
    let m: usize = positions.len();
    if m == 0 || (n > 1 && m >= n) {
        return by_comparison(s);
    }
    let first_seed: Vec<usize> = match seed {
        Some(given) => given,
        None => shuffled(copy_of(&positions)),
    };
    let round: Vec<usize> = match induced_sort(s, &types, &first_seed, &bounds, k) {
        Some(r) => r,
        None => {
            return by_comparison(s);
        },
    };
    // The LMS positions in the order of the first round, and their ranks:
    // equal LMS substrings share a rank.
    let mut sorted_lms: Vec<usize> = Vec::new();
    let mut i: usize = 0;
    while i < round.len()
        invariant
            i <= round@.len(),
            n == s@.len(),
            types@.len() == n,
            forall|j: int| 0 <= j < round@.len() ==> round@[j] < n,
            forall|j: int| 0 <= j < sorted_lms@.len() ==> sorted_lms@[j] < n,
            sorted_lms@.len() <= i,
        decreases round@.len() - i,
    {
        if lms_at(&types, round[i]) {
            sorted_lms.push(round[i]);
        }
        i += 1;
    }
    if sorted_lms.len() != m {
        return by_comparison(s);
    }
    let mut rank_at: Vec<Option<usize>> = empty_slots(n);
    rank_at.set(sorted_lms[0], Some(0));
    let mut count: usize = 0;
    let mut x: usize = 0;
    while x + 1 < m
        invariant
            n == s@.len(),
            types@.len() == n,
            m == sorted_lms@.len(),
            m <= n,
            rank_at@.len() == n,
            forall|j: int| 0 <= j < sorted_lms@.len() ==> sorted_lms@[j] < n,
            count <= x,
            x < m,
            forall|j: int|
                0 <= j < n && (#[trigger] rank_at@[j]) is Some ==> rank_at@[j].unwrap() <= count,
        decreases m - x,
    {
        if lms_substrings_differ(s, &types, sorted_lms[x], sorted_lms[x + 1]) {
            count += 1;
        }
        rank_at.set(sorted_lms[x + 1], Some(count));
        x += 1;
    }
    // The ranks in the order of the positions: the reduced sequence.
    let mut reduced: Vec<usize> = Vec::new();
    let mut i: usize = 0;
    while i < n
        invariant
            i <= n,
            rank_at@.len() == n,
            reduced@.len() <= i,
            forall|j: int|
                0 <= j < n && (#[trigger] rank_at@[j]) is Some ==> rank_at@[j].unwrap() <= count,
            forall|j: int| 0 <= j < reduced@.len() ==> reduced@[j] <= count,
        decreases n - i,
    {
        match rank_at[i] {
            Some(r) => {
                reduced.push(r);
            },
            None => {},
        }
        i += 1;
    }
    if reduced.len() != m {
        return by_comparison(s);
    }
    let second_seed: Vec<usize> = if count + 1 >= m {
        sorted_lms
    } else {
        let sub: Vec<usize> = sais(&reduced, count + 1, None);
        let mut seed: Vec<usize> = Vec::new();
        let mut i: usize = 0;
        while i < sub.len()
            invariant
                i <= sub@.len(),
                m == positions@.len(),
                sub@.len() == m,
                forall|j: int| 0 <= j < sub@.len() ==> sub@[j] < m,
            decreases sub@.len() - i,
        {
            seed.push(positions[sub[i]]);
            i += 1;
        }
        seed
    };
    match induced_sort(s, &types, &second_seed, &bounds, k) {
        Some(r) => {
            let body: &[usize] = slice_subrange(s.as_slice(), 0, n - 1);
            proof {
                assert(body@ =~= s@.drop_last());
                assert(keys(body@) =~= code_keys(s@.drop_last()));
            }
            if is_suffix_array_of(body, &r) {
                r
            } else {
                by_comparison(s)
            }
        },
        None => by_comparison(s),
    }
}

/// A copy of `v`.
fn copy_of(v: &Vec<usize>) -> (out: Vec<usize>)
    ensures
        out@ == v@,
{
    let mut out: Vec<usize> = Vec::new();
    let mut i: usize = 0;
    while i < v.len()
        invariant
            i <= v@.len(),
            out@ == v@.subrange(0, i as int),
        decreases v@.len() - i,
    {
        out.push(v[i]);
        proof {
            assert(out@ =~= v@.subrange(0, i + 1));
        }
        i += 1;
    }
    proof {
        assert(v@.subrange(0, v@.len() as int) =~= v@);
    }
    out
}

/// Whether the positions in `v` are in the order of their keys in `s`.
pub open spec fn sorted_by_key<T: Keyed>(s: Seq<T>, v: Seq<usize>) -> bool {
    forall|p: int, q: int|
        0 <= p < q < v.len() ==> s[(#[trigger] v[p]) as int].key() <= s[(#[trigger] v[q]) as int].key()
}

/// The positions `from..to`, in ascending order.
pub open spec fn span(from: int, to: int) -> Seq<usize> {
    Seq::new((to - from) as nat, |i: int| (from + i) as usize)
}

/// Merges two lists of positions that are sorted by their keys into one,
/// taking from the left one unless the right one offers a smaller key.
fn merge_by_key<T: Keyed>(s: &[T], left: &Vec<usize>, right: &Vec<usize>) -> (out: Vec<usize>)
    requires
        forall|i: int| 0 <= i < left@.len() ==> left@[i] < s@.len(),
        forall|i: int| 0 <= i < right@.len() ==> right@[i] < s@.len(),
        sorted_by_key(s@, left@),
        sorted_by_key(s@, right@),
    ensures
        out@.len() == left@.len() + right@.len(),
        forall|i: int| 0 <= i < out@.len() ==> out@[i] < s@.len(),
        sorted_by_key(s@, out@),
        out@.to_multiset() == left@.to_multiset().add(right@.to_multiset()),
{
    broadcast use vstd::seq_lib::group_to_multiset_ensures;
    broadcast use vstd::multiset::group_multiset_axioms;

    let mut out: Vec<usize> = Vec::new();
    let mut i: usize = 0;
    let mut j: usize = 0;
    proof {
        assert(left@.subrange(0, 0) =~= Seq::<usize>::empty());
        assert(right@.subrange(0, 0) =~= Seq::<usize>::empty());
        assert(out@.to_multiset() =~= left@.subrange(0, 0).to_multiset().add(
            right@.subrange(0, 0).to_multiset(),
        ));
    }
    while i < left.len() || j < right.len()
        invariant
            i <= left@.len(),
            j <= right@.len(),
            out@.len() == i + j,
            forall|p: int| 0 <= p < left@.len() ==> left@[p] < s@.len(),
            forall|p: int| 0 <= p < right@.len() ==> right@[p] < s@.len(),
            forall|p: int| 0 <= p < out@.len() ==> out@[p] < s@.len(),
            sorted_by_key(s@, left@),
            sorted_by_key(s@, right@),
            sorted_by_key(s@, out@),
            forall|p: int, q: int|
                0 <= p < out@.len() && i <= q < left@.len() ==> s@[(#[trigger] out@[p]) as int].key()
                    <= s@[(#[trigger] left@[q]) as int].key(),
            forall|p: int, q: int|
                0 <= p < out@.len() && j <= q < right@.len() ==> s@[(
                #[trigger] out@[p]) as int].key() <= s@[(#[trigger] right@[q]) as int].key(),
            out@.to_multiset() == left@.subrange(0, i as int).to_multiset().add(
                right@.subrange(0, j as int).to_multiset(),
            ),
        decreases left@.len() - i + right@.len() - j,
    {
        let take_left: bool = if j >= right.len() {
            true
        } else if i >= left.len() {
            false
        } else {
            !s[right[j]].less(&s[left[i]])
        };
        let ghost before = out@;
        if take_left {
            let x: usize = left[i];
            out.push(x);
            proof {
                assert(left@.subrange(0, i + 1) =~= left@.subrange(0, i as int).push(x));
                assert(out@ =~= before.push(x));
                vstd::seq_lib::to_multiset_build(before, x);
                vstd::seq_lib::to_multiset_build(left@.subrange(0, i as int), x);
                assert(out@.to_multiset() =~= left@.subrange(0, i + 1).to_multiset().add(
                    right@.subrange(0, j as int).to_multiset(),
                ));
                assert forall|p: int, q: int|
                    0 <= p < out@.len() && j <= q < right@.len() implies s@[(
                #[trigger] out@[p]) as int].key() <= s@[(#[trigger] right@[q]) as int].key() by {
                    if p == before.len() {
                        assert(s@[left@[i as int] as int].key() <= s@[right@[j as int] as int].key());
                        if q > j {
                            assert(s@[right@[j as int] as int].key() <= s@[right@[q] as int].key());
                        }
                    } else {
                        assert(out@[p] == before[p]);
                    }
                }
                assert forall|p: int, q: int|
                    0 <= p < out@.len() && i + 1 <= q < left@.len() implies s@[(
                #[trigger] out@[p]) as int].key() <= s@[(#[trigger] left@[q]) as int].key() by {
                    if p == before.len() {
                        assert(s@[left@[i as int] as int].key() <= s@[left@[q] as int].key());
                    } else {
                        assert(out@[p] == before[p]);
                    }
                }
                assert forall|p: int, q: int| 0 <= p < q < out@.len() implies s@[(
                #[trigger] out@[p]) as int].key() <= s@[(#[trigger] out@[q]) as int].key() by {
                    assert(out@[p] == before[p]);
                    if q == before.len() {
                        assert(s@[before[p] as int].key() <= s@[left@[i as int] as int].key());
                    } else {
                        assert(out@[q] == before[q]);
                    }
                }
            }
            i += 1;
        } else {
            let x: usize = right[j];
            out.push(x);
            proof {
                assert(right@.subrange(0, j + 1) =~= right@.subrange(0, j as int).push(x));
                assert(out@ =~= before.push(x));
                vstd::seq_lib::to_multiset_build(before, x);
                vstd::seq_lib::to_multiset_build(right@.subrange(0, j as int), x);
                assert(out@.to_multiset() =~= left@.subrange(0, i as int).to_multiset().add(
                    right@.subrange(0, j + 1).to_multiset(),
                ));
                assert forall|p: int, q: int|
                    0 <= p < out@.len() && i <= q < left@.len() implies s@[(
                #[trigger] out@[p]) as int].key() <= s@[(#[trigger] left@[q]) as int].key() by {
                    if p == before.len() {
                        assert(s@[right@[j as int] as int].key() < s@[left@[i as int] as int].key());
                        if q > i {
                            assert(s@[left@[i as int] as int].key() <= s@[left@[q] as int].key());
                        }
                    } else {
                        assert(out@[p] == before[p]);
                    }
                }
                assert forall|p: int, q: int|
                    0 <= p < out@.len() && j + 1 <= q < right@.len() implies s@[(
                #[trigger] out@[p]) as int].key() <= s@[(#[trigger] right@[q]) as int].key() by {
                    if p == before.len() {
                        assert(s@[right@[j as int] as int].key() <= s@[right@[q] as int].key());
                    } else {
                        assert(out@[p] == before[p]);
                    }
                }
                assert forall|p: int, q: int| 0 <= p < q < out@.len() implies s@[(
                #[trigger] out@[p]) as int].key() <= s@[(#[trigger] out@[q]) as int].key() by {
                    assert(out@[p] == before[p]);
                    if q == before.len() {
                        assert(s@[before[p] as int].key() <= s@[right@[j as int] as int].key());
                    } else {
                        assert(out@[q] == before[q]);
                    }
                }
            }
            j += 1;
        }
    }
    proof {
        assert(left@.subrange(0, i as int) =~= left@);
        assert(right@.subrange(0, j as int) =~= right@);
    }
    out
}

/// The positions `from..to` of `s`, sorted by their keys.
fn positions_by_key<T: Keyed>(s: &[T], from: usize, to: usize) -> (out: Vec<usize>)
    requires
        from <= to <= s@.len(),
    ensures
        out@.len() == to - from,
        forall|i: int| 0 <= i < out@.len() ==> out@[i] < s@.len(),
        sorted_by_key(s@, out@),
        out@.to_multiset() == span(from as int, to as int).to_multiset(),
    decreases to - from,
{
    broadcast use vstd::seq_lib::group_to_multiset_ensures;

    if to - from == 0 {
        let v: Vec<usize> = Vec::new();
        assert(v@ =~= span(from as int, to as int));
        return v;
    }
    if to - from == 1 {
        let mut v: Vec<usize> = Vec::new();
        v.push(from);
        assert(v@ =~= span(from as int, to as int));
        return v;
    }
    let mid: usize = from + (to - from) / 2;
    let left: Vec<usize> = positions_by_key(s, from, mid);
    let right: Vec<usize> = positions_by_key(s, mid, to);
    proof {
        assert(span(from as int, to as int) =~= span(from as int, mid as int) + span(
            mid as int,
            to as int,
        ));
        vstd::seq_lib::lemma_multiset_commutative(
            span(from as int, mid as int),
            span(mid as int, to as int),
        );
    }
    merge_by_key(s, &left, &right)
}

/// Whether `codes` is a working sequence of `s` over the codes `0..k`: it
/// ends in its only 0, and its other codes are in the order of the elements
/// of `s`.
pub open spec fn is_encoding<T: Keyed>(s: Seq<T>, codes: Seq<usize>, k: int) -> bool {
    &&& codes.len() == s.len() + 1
    &&& codes[s.len() as int] == 0
    &&& forall|i: int| 0 <= i < s.len() ==> 1 <= #[trigger] codes[i] < k
    &&& forall|i: int, j: int|
        0 <= i < s.len() && 0 <= j < s.len() ==> ((#[trigger] codes[i]) < (#[trigger] codes[j]))
            == (s[i].key() < s[j].key())
}

/// The working sequence of `s`: each element replaced by its rank among the
/// distinct elements, counted from 1, and a final 0 for the sentinel; with it
/// the number of codes.
fn encode<T: Keyed>(s: &[T]) -> (res: (Vec<usize>, usize))
    requires
        s@.len() < usize::MAX,
    ensures
        is_encoding(s@, res.0@, res.1 as int),
        res.1 <= s@.len() + 1,
{
    broadcast use vstd::seq_lib::group_to_multiset_ensures;

    let n: usize = s.len();
    let sorted: Vec<usize> = positions_by_key(s, 0, n);
    proof {
        let all = span(0, n as int);
        assert forall|p: int, q: int| 0 <= p < all.len() && 0 <= q < all.len() && p
            != q implies all[p] != all[q] by {}
        all.lemma_multiset_has_no_duplicates();
        sorted@.lemma_multiset_has_no_duplicates_conv();
        assert forall|x: usize| x < n implies sorted@.contains(x) by {
            assert(all[x as int] == x);
            assert(all.contains(x));
            vstd::seq_lib::to_multiset_contains(all, x);
            vstd::seq_lib::to_multiset_contains(sorted@, x);
        }
    }
    let mut codes: Vec<usize> = zeros(n);
    let mut code: usize = 0;
    let mut t: usize = 0;
    while t < n
        invariant
            n == s@.len(),
            n < usize::MAX,
            sorted@.len() == n,
            sorted@.no_duplicates(),
            forall|x: usize| x < n ==> sorted@.contains(x),
            sorted_by_key(s@, sorted@),
            codes@.len() == n,
            t <= n,
            code <= t,
            t > 0 ==> code >= 1 && codes@[sorted@[t - 1] as int] == code,
            forall|i: int| 0 <= i < sorted@.len() ==> sorted@[i] < n,
            forall|p: int| 0 <= p < t ==> 1 <= #[trigger] codes@[sorted@[p] as int] <= code,
            forall|p: int, q: int|
                0 <= p < q < t ==> codes@[(#[trigger] sorted@[p]) as int] <= codes@[(
                #[trigger] sorted@[q]) as int] && ((codes@[sorted@[p] as int]
                    < codes@[sorted@[q] as int]) == (s@[sorted@[p] as int].key()
                    < s@[sorted@[q] as int].key())),
        decreases n - t,
    {
        let ghost before = codes@;
        let ghost old_code = code;
        if t == 0 || s[sorted[t - 1]].less(&s[sorted[t]]) {
            code += 1;
        }
        codes.set(sorted[t], code);
        proof {
            assert forall|p: int| 0 <= p < t implies codes@[sorted@[p] as int]
                == before[sorted@[p] as int] by {
                assert(sorted@[p] != sorted@[t as int]);
            }
            assert forall|p: int, q: int| 0 <= p < q < t + 1 implies codes@[(
            #[trigger] sorted@[p]) as int] <= codes@[(#[trigger] sorted@[q]) as int] && ((
            codes@[sorted@[p] as int] < codes@[sorted@[q] as int]) == (s@[sorted@[p] as int].key()
                < s@[sorted@[q] as int].key())) by {
                assert(codes@[sorted@[p] as int] == before[sorted@[p] as int]);
                if q < t {
                    assert(codes@[sorted@[q] as int] == before[sorted@[q] as int]);
                } else {
                    // q == t: compare through the entry before it
                    let last = sorted@[t - 1] as int;
                    assert(before[last] == old_code);
                    assert(s@[sorted@[p] as int].key() <= s@[last].key());
                    assert(s@[last].key() <= s@[sorted@[t as int] as int].key());
                    if p < t - 1 {
                        assert(before[sorted@[p] as int] <= before[last]);
                        assert((before[sorted@[p] as int] < before[last]) == (s@[sorted@[p] as int].key()
                            < s@[last].key()));
                    }
                }
            }
        }
        t += 1;
    }
    proof {
        assert forall|i: int| 0 <= i < n implies 1 <= #[trigger] codes@[i] < code + 1 by {
            assert(sorted@.contains(i as usize));
            let p = choose|p: int| 0 <= p < sorted@.len() && sorted@[p] == i as usize;
            assert(1 <= codes@[sorted@[p] as int] <= code);
        }
        assert forall|i: int, j: int| 0 <= i < n && 0 <= j < n implies ((#[trigger] codes@[i]) < (
        #[trigger] codes@[j])) == (s@[i].key() < s@[j].key()) by {
            assert(sorted@.contains(i as usize));
            assert(sorted@.contains(j as usize));
            let p = choose|p: int| 0 <= p < sorted@.len() && sorted@[p] == i as usize;
            let q = choose|q: int| 0 <= q < sorted@.len() && sorted@[q] == j as usize;
            if p < q {
                assert(codes@[sorted@[p] as int] <= codes@[sorted@[q] as int]);
            } else if q < p {
                assert(codes@[sorted@[q] as int] <= codes@[sorted@[p] as int]);
                assert((codes@[sorted@[q] as int] < codes@[sorted@[p] as int]) == (s@[sorted@[q] as int].key()
                    < s@[sorted@[p] as int].key()));
            }
        }
    }
    let ghost filled = codes@;
    codes.push(0);
    proof {
        assert forall|i: int| 0 <= i < n implies codes@[i] == filled[i] by {}
    }
    (codes, code + 1)
}

/// The suffix array of `s`, by induced sorting on the working sequence of
/// `s`. The first round is seeded in the order of `seed`, or in a random
/// order when there is no `seed`; the result is the same for every seed.
pub fn induced_order<T: Keyed>(s: &[T], seed: Option<Vec<usize>>) -> (res: Vec<usize>)
    requires
        s@.len() < usize::MAX,
    ensures
        is_suffix_array(keys(s@), res@),
{
    let (codes, k) = encode(s);
    let res = sais(&codes, k, seed);
    proof {
        let body = code_keys(codes@.drop_last());
        assert forall|i: int, j: int|
            0 <= i < body.len() && 0 <= j < body.len() implies ((#[trigger] body[i]) < (
        #[trigger] body[j])) == (keys(s@)[i] < keys(s@)[j]) by {
            assert(body[i] == codes@[i] as int);
            assert(body[j] == codes@[j] as int);
            assert((codes@[i] < codes@[j]) == (s@[i].key() < s@[j].key()));
        }
        lemma_same_order_same_suffix_array(body, keys(s@), res@);
    }
    res
}

/// Whether `v` lists, in ascending order, the LMS positions of a working
/// sequence of `s`. They are the same for every working sequence of `s`.
pub open spec fn is_lms_list<T: Keyed>(s: Seq<T>, v: Seq<usize>) -> bool {
    exists|codes: Seq<usize>, k: int, t: Seq<bool>|
        {
            &&& #[trigger] is_encoding(s, codes, k)
            &&& #[trigger] is_types(codes, t)
            &&& forall|i: int| 0 <= i < v.len() ==> v[i] < t.len() && is_lms(t, v[i] as int)
            &&& forall|i: int, j: int| 0 <= i < j < v.len() ==> v[i] < v[j]
            &&& forall|x: int| 0 <= x < t.len() && is_lms(t, x) ==> v.contains(x as usize)
        }
}

/// The LMS positions of the working sequence of `s`, in ascending order: the
/// seeds of the first round of induced sorting.
pub fn lms_seeds<T: Keyed>(s: &[T]) -> (v: Vec<usize>)
    requires
        s@.len() < usize::MAX,
    ensures
        is_lms_list(s@, v@),
{
    let (codes, k) = encode(s);
    let types: Vec<bool> = classify(&codes);
    let v: Vec<usize> = lms_positions(&types);
    proof {
        assert(is_encoding(s@, codes@, k as int) && is_types(codes@, types@));
    }
    v
}

} // verus!
