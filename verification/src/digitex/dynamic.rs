//! A number with a base chosen at run time.

use crate::digitex::{digit_char, digits_of, digits_to_chars, into, lemma_digits_of};
use crate::text::string_of;
use vstd::prelude::*;

verus! {

/// A number together with the base it is written in.
#[derive(Debug, Clone, Copy, PartialEq, Eq)]
pub struct Digit {
    raw_value: u64,
    base: u32,
}

impl Digit {
    /// The number.
    pub closed spec fn value(&self) -> u64 {
        self.raw_value
    }

    /// The base.
    pub closed spec fn radix(&self) -> u32 {
        self.base
    }

    /// The number `n`, to be written in base `base`.
    pub fn new(n: u64, base: u32) -> (res: Self)
        ensures
            res.value() == n,
            res.radix() == base,
    {
        Self { raw_value: n, base }
    }

    /// The number.
    pub fn raw(&self) -> (n: u64)
        ensures
            n == self.value(),
    {
        self.raw_value
    }

    /// The digits of the number in its base, most significant first.
    pub fn convert(&self) -> (v: Vec<u32>)
        requires
            self.radix() >= 2,
        ensures
            v@ == digits_of(self.value() as nat, self.radix() as nat),
    {
        into(self.raw_value, self.base)
    }

    /// The digits as characters, `0` to `9` and then `A` to `Z`.
    pub fn to_chars(&self) -> (out: Vec<char>)
        requires
            2 <= self.radix() <= 36,
        ensures
            out@.len() == digits_of(self.value() as nat, self.radix() as nat).len(),
            forall|i: int|
                0 <= i < out@.len() ==> out@[i] == digit_char(
                    digits_of(self.value() as nat, self.radix() as nat)[i],
                ),
    {
        proof {
            lemma_digits_of(self.value() as nat, self.radix() as nat);
        }
        let v: Vec<u32> = self.convert();
        digits_to_chars(&v)
    }

    /// The number written in its base.
    pub fn to_string(&self) -> (out: String)
        requires
            2 <= self.radix() <= 36,
        ensures
            out@.len() == digits_of(self.value() as nat, self.radix() as nat).len(),
            forall|i: int|
                0 <= i < out@.len() ==> out@[i] == digit_char(
                    digits_of(self.value() as nat, self.radix() as nat)[i],
                ),
    {
        let chars: Vec<char> = self.to_chars();
        string_of(&chars)
    }
}

} // verus!
