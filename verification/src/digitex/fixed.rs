//! A number with a base fixed in its type.

use crate::digitex::{digit_char, digits_of, digits_to_chars, into, lemma_digits_of};
use crate::text::string_of;
use vstd::prelude::*;

verus! {

/// A number to be written in base `BASE`.
pub struct Digit<const BASE: u32> {
    raw_value: u64,
}

impl<const BASE: u32> Digit<BASE> {
    /// The number.
    pub closed spec fn value(&self) -> u64 {
        self.raw_value
    }

    /// The number `raw`.
    pub fn new(raw: u64) -> (res: Self)
        ensures
            res.value() == raw,
    {
        Self { raw_value: raw }
    }

    /// The number.
    pub fn raw(&self) -> (n: u64)
        ensures
            n == self.value(),
    {
        self.raw_value
    }

    /// The digits of the number in base `BASE`, most significant first.
    pub fn convert(&self) -> (v: Vec<u32>)
        requires
            BASE >= 2,
        ensures
            v@ == digits_of(self.value() as nat, BASE as nat),
    {
        into(self.raw(), BASE)
    }

    /// The digits as characters, for a base up to ten.
    pub fn to_chars(&self) -> (out: Vec<char>)
        requires
            2 <= BASE <= 10,
        ensures
            out@.len() == digits_of(self.value() as nat, BASE as nat).len(),
            forall|i: int|
                0 <= i < out@.len() ==> out@[i] == digit_char(
                    digits_of(self.value() as nat, BASE as nat)[i],
                ),
    {
        proof {
            lemma_digits_of(self.value() as nat, BASE as nat);
        }
        let v: Vec<u32> = self.convert();
        digits_to_chars(&v)
    }

    /// The number written in its base.
    pub fn to_string(&self) -> (out: String)
        requires
            2 <= BASE <= 10,
        ensures
            out@.len() == digits_of(self.value() as nat, BASE as nat).len(),
            forall|i: int|
                0 <= i < out@.len() ==> out@[i] == digit_char(
                    digits_of(self.value() as nat, BASE as nat)[i],
                ),
    {
        let chars: Vec<char> = self.to_chars();
        string_of(&chars)
    }
}

} // verus!
