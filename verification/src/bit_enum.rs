//! All boolean vectors of a given length, in the order of the binary numbers
//! they spell, most significant bit first.

use vstd::prelude::*;

verus! {

/// Whether bit `i` of `x`, counted from the least significant, is set.
pub open spec fn word_bit(x: usize, i: usize) -> bool {
    x & (1usize << i) != 0
}

/// The boolean vectors of length `size`.
#[derive(Debug, Copy, Clone)]
pub struct BitSetIter {
    size: usize,
}

impl BitSetIter {
    /// The length of the vectors.
    pub closed spec fn size(&self) -> usize {
        self.size
    }

    /// The boolean vectors of length `n`.
    pub fn new(n: usize) -> (res: Self)
        ensures
            res.size() == n,
    {
        Self { size: n }
    }

    /// The length of the vectors.
    pub fn len(&self) -> (n: usize)
        ensures
            n == self.size(),
    {
        self.size
    }

    /// The number of vectors: two to the power of their length.
    pub fn combinations(&self) -> (c: usize)
        requires
            self.size() < usize::BITS,
        ensures
            c == 1usize << self.size(),
    {
        1usize << self.size
    }

    /// The walk over the vectors, from all `false` to all `true`.
    pub fn into_iter(self) -> (it: IntoIterBitSet)
        ensures
            it.size() == self.size(),
            it.current() == 0,
    {
        IntoIterBitSet { size: self.len(), current: 0 }
    }
}

/// A walk over the boolean vectors of one length.
#[derive(Copy, Clone, Debug)]
pub struct IntoIterBitSet {
    size: usize,
    current: usize,
}

impl IntoIterBitSet {
    /// The length of the vectors.
    pub closed spec fn size(&self) -> usize {
        self.size
    }

    /// The number that the next vector spells.
    pub closed spec fn current(&self) -> usize {
        self.current
    }

    /// The next vector, or `None` after the last one. Entry `j` of the vector
    /// is bit `size - 1 - j` of the number it spells.
    pub fn next(&mut self) -> (res: Option<Vec<bool>>)
        requires
            old(self).size() < usize::BITS,
            old(self).current() <= 1usize << old(self).size(),
        ensures
            final(self).size() == old(self).size(),
            match res {
                None => old(self).current() == 1usize << old(self).size() && final(self).current()
                    == old(self).current(),
                Some(v) => {
                    &&& old(self).current() < 1usize << old(self).size()
                    &&& final(self).current() == old(self).current() + 1
                    &&& v@.len() == old(self).size()
                    &&& forall|j: int|
                        0 <= j < v@.len() ==> v@[j] == word_bit(
                            old(self).current(),
                            (old(self).size() - 1 - j) as usize,
                        )
                },
            },
    {
        let limit: usize = 1usize << self.size;
        if self.current == limit {
            None
        } else {
            let mut v: Vec<bool> = Vec::new();
            let mut j: usize = 0;
            while j < self.size
                invariant
                    j <= self.size,
                    self.size < usize::BITS,
                    *self == *old(self),
                    v@.len() == j,
                    forall|l: int|
                        0 <= l < j ==> v@[l] == word_bit(
                            self.current,
                            (self.size - 1 - l) as usize,
                        ),
                decreases self.size - j,
            {
                let x: usize = self.size - 1 - j;
                v.push(self.current & (1usize << x) != 0);
                j += 1;
            }
            self.current += 1;
            Some(v)
        }
    }
}

} // verus!
