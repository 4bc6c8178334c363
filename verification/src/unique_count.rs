//! Counting how often each value occurs.

use crate::symbol::Keyed;
use vstd::prelude::*;

verus! {

/// The number of entries of `s` that are equal to `x`.
pub open spec fn count_of<T: Keyed>(s: Seq<T>, x: T) -> nat
    decreases s.len(),
{
    if s.len() == 0 {
        0
    } else {
        count_of(s.drop_last(), x) + if s.last().key() == x.key() {
            1nat
        } else {
            0nat
        }
    }
}

/// Whether `res` lists the distinct values of `s` in ascending order, each
/// with the number of times it occurs.
pub open spec fn is_unique_count<T: Keyed>(s: Seq<T>, res: Seq<(T, usize)>) -> bool {
    &&& forall|i: int, j: int|
        0 <= i < j < res.len() ==> (#[trigger] res[i]).0.key() < (#[trigger] res[j]).0.key()
    &&& forall|i: int|
        0 <= i < res.len() ==> (#[trigger] res[i]).1 == count_of(s, res[i].0) && res[i].1 > 0
    &&& forall|k: int| 0 <= k < s.len() ==> has_entry(res, #[trigger] s[k])
}

/// Whether `res` has an entry for `x`.
pub open spec fn has_entry<T: Keyed>(res: Seq<(T, usize)>, x: T) -> bool {
    exists|i: int| 0 <= i < res.len() && (#[trigger] res[i]).0.key() == x.key()
}

/// A value is counted at most as often as the sequence is long, and a value
/// that is counted occurs.
pub proof fn lemma_count_of<T: Keyed>(s: Seq<T>, x: T)
    ensures
        count_of(s, x) <= s.len(),
        count_of(s, x) > 0 ==> exists|k: int| 0 <= k < s.len() && (#[trigger] s[k]).key() == x.key(),
    decreases s.len(),
{
    if s.len() > 0 {
        lemma_count_of(s.drop_last(), x);
        if count_of(s, x) > 0 {
            if s.last().key() == x.key() {
                assert(s[s.len() - 1].key() == x.key());
            } else {
                let k = choose|k: int|
                    0 <= k < s.drop_last().len() && (#[trigger] s.drop_last()[k]).key() == x.key();
                assert(s[k].key() == x.key());
            }
        }
    }
}

/// The distinct values of `s` in ascending order, each with the number of
/// times it occurs.
pub fn unique_count<T: Keyed>(s: &[T]) -> (res: Vec<(T, usize)>)
    ensures
        is_unique_count(s@, res@),
{
    let mut res: Vec<(T, usize)> = Vec::new();
    let mut t: usize = 0;
    proof {
        assert(s@.subrange(0, 0) =~= Seq::<T>::empty());
    }
    while t < s.len()
        invariant
            t <= s@.len(),
            is_unique_count(s@.subrange(0, t as int), res@),
        decreases s@.len() - t,
    {
        let e: T = s[t];
        let ghost prefix = s@.subrange(0, t as int);
        let ghost longer = s@.subrange(0, t + 1);
        let ghost before = res@;
        proof {
            assert(longer.drop_last() =~= prefix);
            assert(longer.last() == e);
        }
        // the first entry that does not come before `e`
        let mut pos: usize = 0;
        while pos < res.len() && res[pos].0.less(&e)
            invariant
                pos <= res@.len(),
                res@ == before,
                forall|i: int| 0 <= i < pos ==> (#[trigger] res@[i]).0.key() < e.key(),
            decreases res@.len() - pos,
        {
            pos += 1;
        }
        if pos < res.len() && res[pos].0.same(&e) {
            let (x, c) = res[pos];
            proof {
                lemma_count_of(prefix, x);
            }
            res.set(pos, (x, c + 1));
            proof {
                assert forall|i: int| 0 <= i < res@.len() implies (#[trigger] res@[i]).1
                    == count_of(longer, res@[i].0) && res@[i].1 > 0 by {
                    if i != pos {
                        assert(res@[i] == before[i]);
                        if i < pos {
                            assert(before[i].0.key() < before[pos as int].0.key());
                        } else {
                            assert(before[pos as int].0.key() < before[i].0.key());
                        }
                    }
                }
                assert forall|k: int| 0 <= k < longer.len() implies has_entry(
                    res@,
                    #[trigger] longer[k],
                ) by {
                    if k < t {
                        assert(has_entry(before, prefix[k]));
                        let i = choose|i: int|
                            0 <= i < before.len() && (#[trigger] before[i]).0.key()
                                == prefix[k].key();
                        assert(res@[i].0.key() == longer[k].key());
                    } else {
                        assert(res@[pos as int].0.key() == longer[k].key());
                    }
                }
                assert forall|i: int, j: int| 0 <= i < j < res@.len() implies (
                #[trigger] res@[i]).0.key() < (#[trigger] res@[j]).0.key() by {
                    assert(before[i].0.key() < before[j].0.key());
                }
            }
        } else {
            proof {
                // no entry has the key of `e`, so `e` did not occur before
                if count_of(prefix, e) > 0 {
                    lemma_count_of(prefix, e);
                    let k = choose|k: int|
                        0 <= k < prefix.len() && (#[trigger] prefix[k]).key() == e.key();
                    assert(has_entry(before, prefix[k]));
                    let i = choose|i: int|
                        0 <= i < before.len() && (#[trigger] before[i]).0.key() == prefix[k].key();
                    if i < pos {
                        assert(before[i].0.key() < e.key());
                    } else if i > pos {
                        assert(before[pos as int].0.key() < before[i].0.key());
                    }
                }
                assert(count_of(prefix, e) == 0);
            }
            res.insert(pos, (e, 1));
            proof {
                assert forall|i: int| 0 <= i < res@.len() implies (#[trigger] res@[i]).1
                    == count_of(longer, res@[i].0) && res@[i].1 > 0 by {
                    if i < pos {
                        assert(res@[i] == before[i]);
                        assert(before[i].0.key() < e.key());
                    } else if i > pos {
                        assert(res@[i] == before[i - 1]);
                        if pos < before.len() {
                            if i - 1 > pos {
                                assert(before[pos as int].0.key() < before[i - 1].0.key());
                            }
                        }
                    }
                }
                assert forall|k: int| 0 <= k < longer.len() implies has_entry(
                    res@,
                    #[trigger] longer[k],
                ) by {
                    if k < t {
                        assert(has_entry(before, prefix[k]));
                        let i = choose|i: int|
                            0 <= i < before.len() && (#[trigger] before[i]).0.key()
                                == prefix[k].key();
                        if i < pos {
                            assert(res@[i].0.key() == longer[k].key());
                        } else {
                            assert(res@[i + 1] == before[i]);
                            assert(res@[i + 1].0.key() == longer[k].key());
                        }
                    } else {
                        assert(res@[pos as int].0.key() == longer[k].key());
                    }
                }
                assert forall|i: int, j: int| 0 <= i < j < res@.len() implies (
                #[trigger] res@[i]).0.key() < (#[trigger] res@[j]).0.key() by {
                    let bi = if i < pos {
                        i
                    } else {
                        i - 1
                    };
                    let bj = if j < pos {
                        j
                    } else {
                        j - 1
                    };
                    if i != pos && j != pos {
                        assert(res@[i] == before[bi]);
                        assert(res@[j] == before[bj]);
                        assert(before[bi].0.key() < before[bj].0.key());
                    } else if i == pos {
                        assert(res@[j] == before[bj]);
                        if bj > pos {
                            assert(before[pos as int].0.key() < before[bj].0.key());
                        }
                    } else {
                        assert(res@[i] == before[bi]);
                        assert(before[bi].0.key() < e.key());
                    }
                }
            }
        }
        t += 1;
    }
    proof {
        assert(s@.subrange(0, s@.len() as int) =~= s@);
    }
    res
}

/// Sequences whose values can be counted.
pub trait UniqueCount<T: Keyed> {
    /// The elements, in order.
    spec fn items(&self) -> Seq<T>;

    /// The distinct values in ascending order, each with the number of times
    /// it occurs.
    fn unique_count(&self) -> (res: Vec<(T, usize)>)
        ensures
            self::is_unique_count(self.items(), res@),
    ;
}

impl<T: Keyed> UniqueCount<T> for &[T] {
    open spec fn items(&self) -> Seq<T> {
        self@
    }

    fn unique_count(&self) -> (res: Vec<(T, usize)>) {
        self::unique_count(self)
    }
}

impl<T: Keyed> UniqueCount<T> for Vec<T> {
    open spec fn items(&self) -> Seq<T> {
        self@
    }

    fn unique_count(&self) -> (res: Vec<(T, usize)>) {
        self::unique_count(self.as_slice())
    }
}

impl<T: Keyed> UniqueCount<T> for &Vec<T> {
    open spec fn items(&self) -> Seq<T> {
        self@
    }

    fn unique_count(&self) -> (res: Vec<(T, usize)>) {
        self::unique_count(self.as_slice())
    }
}

impl UniqueCount<char> for &str {
    open spec fn items(&self) -> Seq<char> {
        self@
    }

    fn unique_count(&self) -> (res: Vec<(char, usize)>) {
        let chars: Vec<char> = crate::text::chars_of(self);
        self::unique_count(chars.as_slice())
    }
}

impl UniqueCount<char> for String {
    open spec fn items(&self) -> Seq<char> {
        self@
    }

    fn unique_count(&self) -> (res: Vec<(char, usize)>) {
        let chars: Vec<char> = crate::text::chars_of(self.as_str());
        self::unique_count(chars.as_slice())
    }
}

impl<T: Keyed> UniqueCount<T> for std::collections::VecDeque<T> {
    open spec fn items(&self) -> Seq<T> {
        self@
    }

    fn unique_count(&self) -> (res: Vec<(T, usize)>) {
        let items: Vec<T> = crate::text::deque_to_vec(self);
        self::unique_count(items.as_slice())
    }
}

} // verus!
