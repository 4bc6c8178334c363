//! Run-length encoding.

use crate::symbol::Keyed;
use vstd::prelude::*;

verus! {

/// The sequence that the runs `runs` stand for: each value as often as its
/// run is long.
pub open spec fn expand<T>(runs: Seq<(T, usize)>) -> Seq<T>
    decreases runs.len(),
{
    if runs.len() == 0 {
        Seq::empty()
    } else {
        expand(runs.drop_last()) + Seq::new(runs.last().1 as nat, |i: int| runs.last().0)
    }
}

/// Whether `runs` is the run-length encoding of `v`: it stands for `v`, no
/// run is empty, and neighbouring runs differ in their value.
pub open spec fn is_rle<T>(v: Seq<T>, runs: Seq<(T, usize)>) -> bool {
    &&& expand(runs) == v
    &&& forall|i: int| 0 <= i < runs.len() ==> (#[trigger] runs[i]).1 > 0
    &&& forall|i: int| 0 <= i < runs.len() - 1 ==> (#[trigger] runs[i]).0 != runs[i + 1].0
}

/// The run-length encoding of `v`: the values of `v` in order, each with the
/// number of times it is repeated in a row.
pub fn rle<T: Keyed>(v: &[T]) -> (res: Vec<(T, usize)>)
    requires
        v@.len() > 0,
    ensures
        is_rle(v@, res@),
{
    let mut res: Vec<(T, usize)> = Vec::new();
    let mut last: T = v[0];
    let mut count: usize = 1;
    let mut i: usize = 1;
    proof {
        assert(expand(res@) + Seq::new(count as nat, |k: int| last) =~= v@.subrange(0, 1));
    }
    while i < v.len()
        invariant
            1 <= i <= v@.len(),
            1 <= count <= i,
            expand(res@) + Seq::new(count as nat, |k: int| last) == v@.subrange(0, i as int),
            forall|k: int| 0 <= k < res@.len() ==> (#[trigger] res@[k]).1 > 0,
            forall|k: int| 0 <= k < res@.len() - 1 ==> (#[trigger] res@[k]).0 != res@[k + 1].0,
            res@.len() > 0 ==> res@[res@.len() - 1].0 != last,
        decreases v@.len() - i,
    {
        let e: T = v[i];
        if last.same(&e) {
            proof {
                T::lemma_key_injective(last, e);
                assert(expand(res@) + Seq::new((count + 1) as nat, |k: int| last) =~= v@.subrange(
                    0,
                    i + 1,
                )) by {
                    let a = expand(res@) + Seq::new(count as nat, |k: int| last);
                    assert(a == v@.subrange(0, i as int));
                    assert(v@.subrange(0, i + 1) =~= a.push(e));
                }
            }
            count += 1;
        } else {
            let ghost before = res@;
            res.push((last, count));
            proof {
                assert(res@.drop_last() =~= before);
                assert(expand(res@) == expand(before) + Seq::new(count as nat, |k: int| last));
                assert(expand(res@) + Seq::new(1, |k: int| e) =~= v@.subrange(0, i + 1)) by {
                    assert(v@.subrange(0, i + 1) =~= v@.subrange(0, i as int).push(e));
                }
            }
            last = e;
            count = 1;
        }
        i += 1;
    }
    let ghost before = res@;
    res.push((last, count));
    proof {
        assert(res@.drop_last() =~= before);
        assert(v@.subrange(0, v@.len() as int) =~= v@);
    }
    res
}

/// Sequences that have a run-length encoding.
pub trait RunLengthEncoding<T> {
    /// The elements, in order.
    spec fn items(&self) -> Seq<T>;

    /// The run-length encoding of the elements.
    fn rle(&self) -> (res: Vec<(T, usize)>)
        requires
            self.items().len() > 0,
        ensures
            is_rle(self.items(), res@),
    ;
}

impl<T: Keyed> RunLengthEncoding<T> for &[T] {
    open spec fn items(&self) -> Seq<T> {
        self@
    }

    fn rle(&self) -> (res: Vec<(T, usize)>) {
        self::rle(self)
    }
}

impl<T: Keyed> RunLengthEncoding<T> for Vec<T> {
    open spec fn items(&self) -> Seq<T> {
        self@
    }

    fn rle(&self) -> (res: Vec<(T, usize)>) {
        self::rle(self.as_slice())
    }
}

impl<T: Keyed> RunLengthEncoding<T> for &Vec<T> {
    open spec fn items(&self) -> Seq<T> {
        self@
    }

    fn rle(&self) -> (res: Vec<(T, usize)>) {
        self::rle(self.as_slice())
    }
}

impl RunLengthEncoding<char> for &str {
    open spec fn items(&self) -> Seq<char> {
        self@
    }

    fn rle(&self) -> (res: Vec<(char, usize)>) {
        let chars: Vec<char> = crate::text::chars_of(self);
        self::rle(chars.as_slice())
    }
}

impl RunLengthEncoding<char> for String {
    open spec fn items(&self) -> Seq<char> {
        self@
    }

    fn rle(&self) -> (res: Vec<(char, usize)>) {
        let chars: Vec<char> = crate::text::chars_of(self.as_str());
        self::rle(chars.as_slice())
    }
}

impl<T: Keyed> RunLengthEncoding<T> for std::collections::VecDeque<T> {
    open spec fn items(&self) -> Seq<T> {
        self@
    }

    fn rle(&self) -> (res: Vec<(T, usize)>) {
        let items: Vec<T> = crate::text::deque_to_vec(self);
        self::rle(items.as_slice())
    }
}

} // verus!
