//! Element types with a total order, and their least and greatest values.

use vstd::prelude::*;

verus! {

/// A type whose values are totally ordered, in the order of their keys.
pub trait Keyed: Sized + Copy {
    /// The place of a value in the order. Distinct values have distinct keys.
    spec fn key(&self) -> int;

    /// Values with one key are one value.
    proof fn lemma_key_injective(a: Self, b: Self)
        requires
            a.key() == b.key(),
        ensures
            a == b,
    ;

    /// Whether `self` comes strictly before `other`.
    fn less(&self, other: &Self) -> (b: bool)
        ensures
            b == (self.key() < other.key()),
    ;

    /// Whether `self` and `other` are the same value.
    fn same(&self, other: &Self) -> (b: bool)
        ensures
            b == (self.key() == other.key()),
    ;
}

/// A type with a least value.
pub trait BoundedBelow: Keyed {
    /// The value that none comes before.
    fn min_value() -> (m: Self)
        ensures
            forall|x: Self| m.key() <= x.key(),
    ;
}

/// A type with a greatest value.
pub trait BoundedAbove: Keyed {
    /// The value that none comes after.
    fn max_value() -> (m: Self)
        ensures
            forall|x: Self| x.key() <= m.key(),
    ;
}

/// The keys of a sequence of values.
pub open spec fn keys<T: Keyed>(s: Seq<T>) -> Seq<int> {
    Seq::new(s.len(), |i: int| s[i].key())
}

impl Keyed for u8 {
    open spec fn key(&self) -> int {
        *self as int
    }

    proof fn lemma_key_injective(a: Self, b: Self) {
    }

    fn less(&self, other: &Self) -> (b: bool) {
        *self < *other
    }

    fn same(&self, other: &Self) -> (b: bool) {
        *self == *other
    }
}

impl BoundedBelow for u8 {
    fn min_value() -> (m: Self) {
        u8::MIN
    }
}

impl BoundedAbove for u8 {
    fn max_value() -> (m: Self) {
        u8::MAX
    }
}

impl Keyed for u16 {
    open spec fn key(&self) -> int {
        *self as int
    }

    proof fn lemma_key_injective(a: Self, b: Self) {
    }

    fn less(&self, other: &Self) -> (b: bool) {
        *self < *other
    }

    fn same(&self, other: &Self) -> (b: bool) {
        *self == *other
    }
}

impl BoundedBelow for u16 {
    fn min_value() -> (m: Self) {
        u16::MIN
    }
}

impl BoundedAbove for u16 {
    fn max_value() -> (m: Self) {
        u16::MAX
    }
}

impl Keyed for u32 {
    open spec fn key(&self) -> int {
        *self as int
    }

    proof fn lemma_key_injective(a: Self, b: Self) {
    }

    fn less(&self, other: &Self) -> (b: bool) {
        *self < *other
    }

    fn same(&self, other: &Self) -> (b: bool) {
        *self == *other
    }
}

impl BoundedBelow for u32 {
    fn min_value() -> (m: Self) {
        u32::MIN
    }
}

impl BoundedAbove for u32 {
    fn max_value() -> (m: Self) {
        u32::MAX
    }
}

impl Keyed for u64 {
    open spec fn key(&self) -> int {
        *self as int
    }

    proof fn lemma_key_injective(a: Self, b: Self) {
    }

    fn less(&self, other: &Self) -> (b: bool) {
        *self < *other
    }

    fn same(&self, other: &Self) -> (b: bool) {
        *self == *other
    }
}

impl BoundedBelow for u64 {
    fn min_value() -> (m: Self) {
        u64::MIN
    }
}

impl BoundedAbove for u64 {
    fn max_value() -> (m: Self) {
        u64::MAX
    }
}

impl Keyed for u128 {
    open spec fn key(&self) -> int {
        *self as int
    }

    proof fn lemma_key_injective(a: Self, b: Self) {
    }

    fn less(&self, other: &Self) -> (b: bool) {
        *self < *other
    }

    fn same(&self, other: &Self) -> (b: bool) {
        *self == *other
    }
}

impl BoundedBelow for u128 {
    fn min_value() -> (m: Self) {
        u128::MIN
    }
}

impl BoundedAbove for u128 {
    fn max_value() -> (m: Self) {
        u128::MAX
    }
}

impl Keyed for usize {
    open spec fn key(&self) -> int {
        *self as int
    }

    proof fn lemma_key_injective(a: Self, b: Self) {
    }

    fn less(&self, other: &Self) -> (b: bool) {
        *self < *other
    }

    fn same(&self, other: &Self) -> (b: bool) {
        *self == *other
    }
}

impl BoundedBelow for usize {
    fn min_value() -> (m: Self) {
        usize::MIN
    }
}

impl BoundedAbove for usize {
    fn max_value() -> (m: Self) {
        usize::MAX
    }
}

impl Keyed for i8 {
    open spec fn key(&self) -> int {
        *self as int
    }

    proof fn lemma_key_injective(a: Self, b: Self) {
    }

    fn less(&self, other: &Self) -> (b: bool) {
        *self < *other
    }

    fn same(&self, other: &Self) -> (b: bool) {
        *self == *other
    }
}

impl BoundedBelow for i8 {
    fn min_value() -> (m: Self) {
        i8::MIN
    }
}

impl BoundedAbove for i8 {
    fn max_value() -> (m: Self) {
        i8::MAX
    }
}

impl Keyed for i16 {
    open spec fn key(&self) -> int {
        *self as int
    }

    proof fn lemma_key_injective(a: Self, b: Self) {
    }

    fn less(&self, other: &Self) -> (b: bool) {
        *self < *other
    }

    fn same(&self, other: &Self) -> (b: bool) {
        *self == *other
    }
}

impl BoundedBelow for i16 {
    fn min_value() -> (m: Self) {
        i16::MIN
    }
}

impl BoundedAbove for i16 {
    fn max_value() -> (m: Self) {
        i16::MAX
    }
}

impl Keyed for i32 {
    open spec fn key(&self) -> int {
        *self as int
    }

    proof fn lemma_key_injective(a: Self, b: Self) {
    }

    fn less(&self, other: &Self) -> (b: bool) {
        *self < *other
    }

    fn same(&self, other: &Self) -> (b: bool) {
        *self == *other
    }
}

impl BoundedBelow for i32 {
    fn min_value() -> (m: Self) {
        i32::MIN
    }
}

impl BoundedAbove for i32 {
    fn max_value() -> (m: Self) {
        i32::MAX
    }
}

impl Keyed for i64 {
    open spec fn key(&self) -> int {
        *self as int
    }

    proof fn lemma_key_injective(a: Self, b: Self) {
    }

    fn less(&self, other: &Self) -> (b: bool) {
        *self < *other
    }

    fn same(&self, other: &Self) -> (b: bool) {
        *self == *other
    }
}

impl BoundedBelow for i64 {
    fn min_value() -> (m: Self) {
        i64::MIN
    }
}

impl BoundedAbove for i64 {
    fn max_value() -> (m: Self) {
        i64::MAX
    }
}

impl Keyed for i128 {
    open spec fn key(&self) -> int {
        *self as int
    }

    proof fn lemma_key_injective(a: Self, b: Self) {
    }

    fn less(&self, other: &Self) -> (b: bool) {
        *self < *other
    }

    fn same(&self, other: &Self) -> (b: bool) {
        *self == *other
    }
}

impl BoundedBelow for i128 {
    fn min_value() -> (m: Self) {
        i128::MIN
    }
}

impl BoundedAbove for i128 {
    fn max_value() -> (m: Self) {
        i128::MAX
    }
}

impl Keyed for isize {
    open spec fn key(&self) -> int {
        *self as int
    }

    proof fn lemma_key_injective(a: Self, b: Self) {
    }

    fn less(&self, other: &Self) -> (b: bool) {
        *self < *other
    }

    fn same(&self, other: &Self) -> (b: bool) {
        *self == *other
    }
}

impl BoundedBelow for isize {
    fn min_value() -> (m: Self) {
        isize::MIN
    }
}

impl BoundedAbove for isize {
    fn max_value() -> (m: Self) {
        isize::MAX
    }
}

/// Every character is a code point.
pub proof fn lemma_char_range(x: char)
    ensures
        0 <= x as int <= 0x10ffff,
{
}

impl Keyed for char {
    open spec fn key(&self) -> int {
        *self as int
    }

    proof fn lemma_key_injective(a: Self, b: Self) {
    }

    fn less(&self, other: &Self) -> (b: bool) {
        *self < *other
    }

    fn same(&self, other: &Self) -> (b: bool) {
        *self == *other
    }
}

impl BoundedBelow for char {
    fn min_value() -> (m: Self) {
        assert forall|x: char| 0 <= #[trigger] x.key() by {
            lemma_char_range(x);
        }
        '\0'
    }
}

impl BoundedAbove for char {
    fn max_value() -> (m: Self) {
        assert forall|x: char| #[trigger] x.key() <= 0x10ffff by {
            lemma_char_range(x);
        }
        '\u{10ffff}'
    }
}

} // verus!
