//! All boolean vectors of a given length, in the order of the binary numbers
//! they spell, least significant bit first.

use crate::bit_enum::word_bit;
use vstd::prelude::*;

verus! {

/// The boolean vectors of one length.
#[derive(Debug, Copy, Clone)]
pub struct BruteBitsBuilder {
    size: usize,
}

impl BruteBitsBuilder {
    /// The length of the vectors.
    pub closed spec fn size(&self) -> usize {
        self.size
    }

    /// The boolean vectors of length `n`.
    pub fn new(n: usize) -> (res: Self)
        ensures
            res.size() == n,
    {
        Self { size: n }
    }

    /// The walk over the vectors, from all `false` to all `true`.
    pub fn into_iter(self) -> (it: BruteBits)
        ensures
            it.size() == self.size(),
            it.current() == 0,
    {
        BruteBits { size: self.size, current: 0 }
    }
}

/// A walk over the boolean vectors of one length.
#[derive(Copy, Clone, Debug)]
pub struct BruteBits {
    size: usize,
    current: usize,
}

impl BruteBits {
    /// The length of the vectors.
    pub closed spec fn size(&self) -> usize {
        self.size
    }

    /// The number that the next vector spells.
    pub closed spec fn current(&self) -> usize {
        self.current
    }

    /// The next vector, or `None` after the last one. Entry `j` of the vector
    /// is bit `j` of the number it spells.
    pub fn next(&mut self) -> (res: Option<Vec<bool>>)
        requires
            old(self).size() < usize::BITS,
            old(self).current() <= 1usize << old(self).size(),
        ensures
            final(self).size() == old(self).size(),
            match res {
                None => old(self).current() == 1usize << old(self).size() && final(self).current()
                    == old(self).current(),
                Some(v) => {
                    &&& old(self).current() < 1usize << old(self).size()
                    &&& final(self).current() == old(self).current() + 1
                    &&& v@.len() == old(self).size()
                    &&& forall|j: int|
                        0 <= j < v@.len() ==> v@[j] == word_bit(old(self).current(), j as usize)
                },
            },
    {
        let limit: usize = 1usize << self.size;
        if self.current == limit {
            None
        } else {
            let mut v: Vec<bool> = Vec::new();
            let mut j: usize = 0;
            while j < self.size
                invariant
                    j <= self.size,
                    self.size < usize::BITS,
                    *self == *old(self),
                    v@.len() == j,
                    forall|l: int| 0 <= l < j ==> v@[l] == word_bit(self.current, l as usize),
                decreases self.size - j,
            {
                v.push((1usize << j) & self.current != 0);
                proof {
                    let c = self.current;
                    assert((1usize << j) & c == c & (1usize << j)) by (bit_vector);
                }
                j += 1;
            }
            self.current += 1;
            Some(v)
        }
    }
}

} // verus!
