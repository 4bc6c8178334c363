//! Turning the two ends of a range into a pair of bounds.

use crate::symbol::Keyed;
use vstd::prelude::*;

verus! {

/// One end of a range.
#[derive(Debug)]
pub enum Edge<T> {
    /// The range ends at this value and holds it.
    Included(T),
    /// The range ends at this value and does not hold it.
    Excluded(T),
    /// The range has no end on this side.
    Unbounded,
}

/// The first value of a range that starts at `start`, or `min` where the
/// range has no start.
pub open spec fn first_of<T: Keyed>(start: Edge<T>, min: T) -> int {
    match start {
        Edge::Included(a) => a.key(),
        Edge::Excluded(a) => a.key() + 1,
        Edge::Unbounded => min.key(),
    }
}

/// The value right after the last one of a range that ends at `end`, or
/// `max` where the range has no end.
pub open spec fn limit_of<T: Keyed>(end: Edge<T>, max: T) -> int {
    match end {
        Edge::Included(b) => b.key() + 1,
        Edge::Excluded(b) => b.key(),
        Edge::Unbounded => max.key(),
    }
}

/// Numbers whose ranges can be turned into pairs of bounds.
pub trait ExpandRange: Keyed {
    /// The greatest number of the type.
    spec fn greatest() -> int;

    /// The range from `start` to `end` as the pair of its first value and of
    /// the value right after its last, with `min` and `max` standing in for
    /// an end that is not there.
    fn expand_range(start: Edge<Self>, end: Edge<Self>, min: Self, max: Self) -> (r: (Self, Self))
        requires
            start matches Edge::Excluded(a) ==> a.key() < Self::greatest(),
            end matches Edge::Included(b) ==> b.key() < Self::greatest(),
        ensures
            r.0.key() == first_of(start, min),
            r.1.key() == limit_of(end, max),
    ;
}

impl ExpandRange for usize {
    open spec fn greatest() -> int {
        usize::MAX as int
    }

    fn expand_range(start: Edge<Self>, end: Edge<Self>, min: Self, max: Self) -> (r: (Self, Self)) {
        let from: usize = match start {
            Edge::Included(a) => a,
            Edge::Excluded(a) => a + 1,
            Edge::Unbounded => min,
        };
        let to: usize = match end {
            Edge::Included(b) => b + 1,
            Edge::Excluded(b) => b,
            Edge::Unbounded => max,
        };
        (from, to)
    }
}

impl ExpandRange for u8 {
    open spec fn greatest() -> int {
        u8::MAX as int
    }

    fn expand_range(start: Edge<Self>, end: Edge<Self>, min: Self, max: Self) -> (r: (Self, Self)) {
        let from: u8 = match start {
            Edge::Included(a) => a,
            Edge::Excluded(a) => a + 1,
            Edge::Unbounded => min,
        };
        let to: u8 = match end {
            Edge::Included(b) => b + 1,
            Edge::Excluded(b) => b,
            Edge::Unbounded => max,
        };
        (from, to)
    }
}

impl ExpandRange for u16 {
    open spec fn greatest() -> int {
        u16::MAX as int
    }

    fn expand_range(start: Edge<Self>, end: Edge<Self>, min: Self, max: Self) -> (r: (Self, Self)) {
        let from: u16 = match start {
            Edge::Included(a) => a,
            Edge::Excluded(a) => a + 1,
            Edge::Unbounded => min,
        };
        let to: u16 = match end {
            Edge::Included(b) => b + 1,
            Edge::Excluded(b) => b,
            Edge::Unbounded => max,
        };
        (from, to)
    }
}

impl ExpandRange for u32 {
    open spec fn greatest() -> int {
        u32::MAX as int
    }

    fn expand_range(start: Edge<Self>, end: Edge<Self>, min: Self, max: Self) -> (r: (Self, Self)) {
        let from: u32 = match start {
            Edge::Included(a) => a,
            Edge::Excluded(a) => a + 1,
            Edge::Unbounded => min,
        };
        let to: u32 = match end {
            Edge::Included(b) => b + 1,
            Edge::Excluded(b) => b,
            Edge::Unbounded => max,
        };
        (from, to)
    }
}

impl ExpandRange for u64 {
    open spec fn greatest() -> int {
        u64::MAX as int
    }

    fn expand_range(start: Edge<Self>, end: Edge<Self>, min: Self, max: Self) -> (r: (Self, Self)) {
        let from: u64 = match start {
            Edge::Included(a) => a,
            Edge::Excluded(a) => a + 1,
            Edge::Unbounded => min,
        };
        let to: u64 = match end {
            Edge::Included(b) => b + 1,
            Edge::Excluded(b) => b,
            Edge::Unbounded => max,
        };
        (from, to)
    }
}

impl ExpandRange for u128 {
    open spec fn greatest() -> int {
        u128::MAX as int
    }

    fn expand_range(start: Edge<Self>, end: Edge<Self>, min: Self, max: Self) -> (r: (Self, Self)) {
        let from: u128 = match start {
            Edge::Included(a) => a,
            Edge::Excluded(a) => a + 1,
            Edge::Unbounded => min,
        };
        let to: u128 = match end {
            Edge::Included(b) => b + 1,
            Edge::Excluded(b) => b,
            Edge::Unbounded => max,
        };
        (from, to)
    }
}

impl ExpandRange for i8 {
    open spec fn greatest() -> int {
        i8::MAX as int
    }

    fn expand_range(start: Edge<Self>, end: Edge<Self>, min: Self, max: Self) -> (r: (Self, Self)) {
        let from: i8 = match start {
            Edge::Included(a) => a,
            Edge::Excluded(a) => a + 1,
            Edge::Unbounded => min,
        };
        let to: i8 = match end {
            Edge::Included(b) => b + 1,
            Edge::Excluded(b) => b,
            Edge::Unbounded => max,
        };
        (from, to)
    }
}

impl ExpandRange for i16 {
    open spec fn greatest() -> int {
        i16::MAX as int
    }

    fn expand_range(start: Edge<Self>, end: Edge<Self>, min: Self, max: Self) -> (r: (Self, Self)) {
        let from: i16 = match start {
            Edge::Included(a) => a,
            Edge::Excluded(a) => a + 1,
            Edge::Unbounded => min,
        };
        let to: i16 = match end {
            Edge::Included(b) => b + 1,
            Edge::Excluded(b) => b,
            Edge::Unbounded => max,
        };
        (from, to)
    }
}

impl ExpandRange for i32 {
    open spec fn greatest() -> int {
        i32::MAX as int
    }

    fn expand_range(start: Edge<Self>, end: Edge<Self>, min: Self, max: Self) -> (r: (Self, Self)) {
        let from: i32 = match start {
            Edge::Included(a) => a,
            Edge::Excluded(a) => a + 1,
            Edge::Unbounded => min,
        };
        let to: i32 = match end {
            Edge::Included(b) => b + 1,
            Edge::Excluded(b) => b,
            Edge::Unbounded => max,
        };
        (from, to)
    }
}

impl ExpandRange for i64 {
    open spec fn greatest() -> int {
        i64::MAX as int
    }

    fn expand_range(start: Edge<Self>, end: Edge<Self>, min: Self, max: Self) -> (r: (Self, Self)) {
        let from: i64 = match start {
            Edge::Included(a) => a,
            Edge::Excluded(a) => a + 1,
            Edge::Unbounded => min,
        };
        let to: i64 = match end {
            Edge::Included(b) => b + 1,
            Edge::Excluded(b) => b,
            Edge::Unbounded => max,
        };
        (from, to)
    }
}

impl ExpandRange for i128 {
    open spec fn greatest() -> int {
        i128::MAX as int
    }

    fn expand_range(start: Edge<Self>, end: Edge<Self>, min: Self, max: Self) -> (r: (Self, Self)) {
        let from: i128 = match start {
            Edge::Included(a) => a,
            Edge::Excluded(a) => a + 1,
            Edge::Unbounded => min,
        };
        let to: i128 = match end {
            Edge::Included(b) => b + 1,
            Edge::Excluded(b) => b,
            Edge::Unbounded => max,
        };
        (from, to)
    }
}

} // verus!
