//! Binary search over ranges of numbers and over sorted vectors.

pub mod range;
pub mod slice;

use crate::symbol::Keyed;
use vstd::prelude::*;

verus! {

/// Numbers that have a midpoint between any two of them.
pub trait Average: Keyed {
    /// The midpoint of `left` and `right`, rounded towards `left`.
    fn average(left: &Self, right: &Self) -> (mid: Self)
        requires
            left.key() < right.key(),
        ensures
            mid.key() == left.key() + (right.key() - left.key()) / 2,
    ;

    /// Whether `left` and `right` are more than one apart.
    fn apart(left: &Self, right: &Self) -> (b: bool)
        ensures
            b == (right.key() - left.key() > 1),
    ;
}

impl Average for u8 {
    fn average(left: &Self, right: &Self) -> (mid: Self) {
        *left + (*right - *left) / 2
    }

    fn apart(left: &Self, right: &Self) -> (b: bool) {
        *right > *left && *right - *left > 1
    }
}

impl Average for u16 {
    fn average(left: &Self, right: &Self) -> (mid: Self) {
        *left + (*right - *left) / 2
    }

    fn apart(left: &Self, right: &Self) -> (b: bool) {
        *right > *left && *right - *left > 1
    }
}

impl Average for u32 {
    fn average(left: &Self, right: &Self) -> (mid: Self) {
        *left + (*right - *left) / 2
    }

    fn apart(left: &Self, right: &Self) -> (b: bool) {
        *right > *left && *right - *left > 1
    }
}

impl Average for u64 {
    fn average(left: &Self, right: &Self) -> (mid: Self) {
        *left + (*right - *left) / 2
    }

    fn apart(left: &Self, right: &Self) -> (b: bool) {
        *right > *left && *right - *left > 1
    }
}

impl Average for u128 {
    fn average(left: &Self, right: &Self) -> (mid: Self) {
        *left + (*right - *left) / 2
    }

    fn apart(left: &Self, right: &Self) -> (b: bool) {
        *right > *left && *right - *left > 1
    }
}

impl Average for usize {
    fn average(left: &Self, right: &Self) -> (mid: Self) {
        *left + (*right - *left) / 2
    }

    fn apart(left: &Self, right: &Self) -> (b: bool) {
        *right > *left && *right - *left > 1
    }
}

} // verus!
