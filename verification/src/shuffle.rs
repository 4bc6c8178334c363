//! Random reordering.

use vstd::prelude::*;

verus! {

/// A random number in `low..=high`.
///
/// Calls `rand::Rng::gen_range` on the thread-local generator with the
/// inclusive range `low..=high`. The call panics on an empty range, which
/// `low <= high` rules out, and returns a value inside the range; which one
/// is left open.
#[verifier::external_body]
pub(crate) fn random_in(low: u64, high: u64) -> (r: u64)
    requires
        low <= high,
    ensures
        low <= r <= high,
{
    rand::Rng::gen_range(&mut rand::thread_rng(), low..=high)
}

/// A random index in `0..=upper`.
pub fn random_index(upper: usize) -> (r: usize)
    ensures
        r <= upper,
{
    random_in(0, upper as u64) as usize
}

/// `s` with the entries at `a` and `b` traded.
pub open spec fn traded<T>(s: Seq<T>, a: int, b: int) -> Seq<T> {
    s.update(a, s[b]).update(b, s[a])
}

/// `s` after the Fisher–Yates walk has made the picks `made`: the walk goes
/// from the last place down, and its `t`-th pick names the place with which
/// the place `s.len() - 1 - t` trades its entry.
pub open spec fn dealt<T>(s: Seq<T>, made: Seq<usize>) -> Seq<T>
    decreases made.len(),
{
    if made.len() == 0 {
        s
    } else {
        traded(dealt(s, made.drop_last()), s.len() - made.len(), made.last() as int)
    }
}

/// Whether `made` holds a pick for every place of a sequence of length `n`
/// but the first, each naming its place or one before it.
pub open spec fn is_deal(made: Seq<usize>, n: int) -> bool {
    &&& made.len() == if n >= 1 {
        n - 1
    } else {
        0
    }
    &&& forall|t: int| 0 <= t < made.len() ==> #[trigger] made[t] <= n - 1 - t
}

/// Reorders `v` by the Fisher–Yates walk from the last place down, each
/// place `i` trading its entry with the place that `pick` names for `i`, which
/// is `i` or one before it.
pub fn shuffle_with<T: Copy, F: Fn(usize) -> usize>(v: &mut Vec<T>, pick: F)
    requires
        forall|i: usize| call_requires(pick, (i,)),
        forall|i: usize, r: usize| call_ensures(pick, (i,), r) ==> r <= i,
    ensures
        exists|made: Seq<usize>|
            {
                &&& #[trigger] is_deal(made, old(v)@.len() as int)
                &&& forall|t: int|
                    0 <= t < made.len() ==> call_ensures(
                        pick,
                        ((old(v)@.len() - 1 - t) as usize,),
                        #[trigger] made[t],
                    )
                &&& final(v)@ == dealt(old(v)@, made)
            },
        final(v)@.to_multiset() == old(v)@.to_multiset(),
        final(v)@.len() == old(v)@.len(),
{
    broadcast use vstd::seq_lib::group_to_multiset_ensures;
    broadcast use vstd::multiset::group_multiset_axioms;

    let n: usize = v.len();
    let ghost mut made: Seq<usize> = Seq::empty();
    let mut i: usize = n;
    while i > 1
        invariant
            n == old(v)@.len(),
            i <= v@.len(),
            n >= 1 ==> i >= 1,
            v@.len() == old(v)@.len(),
            v@.to_multiset() == old(v)@.to_multiset(),
            forall|i: usize| call_requires(pick, (i,)),
            forall|i: usize, r: usize| call_ensures(pick, (i,), r) ==> r <= i,
            made.len() == n - i,
            forall|t: int| 0 <= t < made.len() ==> #[trigger] made[t] <= n - 1 - t,
            forall|t: int|
                0 <= t < made.len() ==> call_ensures(pick, ((n - 1 - t) as usize,), #[trigger] made[t]),
            v@ == dealt(old(v)@, made),
        decreases i,
    {
        i -= 1;
        let j: usize = pick(i);
        let a: T = v[i];
        let b: T = v[j];
        let ghost s0 = v@;
        let ghost before = made;
        v.set(i, b);
        let ghost s1 = v@;
        v.set(j, a);
        proof {
            made = before.push(j);
            assert(made.drop_last() =~= before);
            assert(v@ == traded(s0, i as int, j as int));
            assert(v@ == dealt(old(v)@, made));
            assert forall|t: int| 0 <= t < made.len() implies call_ensures(
                pick,
                ((n - 1 - t) as usize,),
                #[trigger] made[t],
            ) && made[t] <= n - 1 - t by {
                if t < before.len() {
                    assert(made[t] == before[t]);
                }
            }
            vstd::seq_lib::to_multiset_update(s0, i as int, b);
            vstd::seq_lib::to_multiset_update(s1, j as int, a);
            assert(s1[j as int] == b);
            assert(s0.contains(a)) by {
                assert(s0[i as int] == a);
            }
            vstd::seq_lib::to_multiset_contains(s0, a);
            assert(s0.to_multiset().count(a) > 0);
            let m1 = s0.to_multiset().insert(b).remove(a);
            assert(s1.to_multiset() == m1);
            assert(v@.to_multiset() == m1.insert(a).remove(b));
            assert forall|x: T| v@.to_multiset().count(x) == s0.to_multiset().count(x) by {
                assert(m1.count(x) == s0.to_multiset().insert(b).count(x) - if x == a {
                    1int
                } else {
                    0int
                });
            }
            assert(v@.to_multiset() =~= s0.to_multiset());
        }
    }
    proof {
        assert(is_deal(made, n as int));
    }
}

/// Reorders `v` at random: by the Fisher–Yates walk, with the places to trade
/// drawn from the thread-local generator.
pub fn shuffle<T: Copy>(v: &mut Vec<T>)
    ensures
        exists|made: Seq<usize>|
            #[trigger] is_deal(made, old(v)@.len() as int) && final(v)@ == dealt(old(v)@, made),
        final(v)@.to_multiset() == old(v)@.to_multiset(),
        final(v)@.len() == old(v)@.len(),
{
    shuffle_with(v, random_index);
}

/// A random reordering of `v`: what the Fisher–Yates walk makes of it.
pub fn shuffled<T: Copy>(v: Vec<T>) -> (res: Vec<T>)
    ensures
        exists|made: Seq<usize>| #[trigger] is_deal(made, v@.len() as int) && res@ == dealt(v@, made),
        res@.to_multiset() == v@.to_multiset(),
        res@.len() == v@.len(),
{
    let mut res = v;
    shuffle(&mut res);
    res
}

/// The characters of `s` in a random order.
pub fn shuffled_string(s: &str) -> (res: String)
    ensures
        res@.to_multiset() == s@.to_multiset(),
        res@.len() == s@.len(),
{
    let chars: Vec<char> = shuffled(crate::text::chars_of(s));
    crate::text::string_of(&chars)
}

} // verus!
