//! Ranges of positions.
use vstd::prelude::*;

verus! {

/// One end of a range of positions.
#[derive(Debug, Clone, Copy, PartialEq, Eq, Structural)]
pub enum Bound {
    /// The position belongs to the range.
    Included(usize),
    /// The position does not belong to the range.
    Excluded(usize),
    /// The range has no end on this side.
    Unbounded,
}

/// Start and end indexes of a range.
#[derive(Debug, Clone, Copy, PartialEq, Eq, Structural)]
pub struct Range {
    /// The first position of the range.
    pub start: usize,
    /// The position after the last one of the range.
    pub end: usize,
}

/// The first position of a range.
pub open spec fn first_of(start: Bound) -> int {
    match start {
        Bound::Included(start) => start as int,
        Bound::Excluded(start) => start + 1,
        Bound::Unbounded => 0,
    }
}

/// The position after the last one of a range in `len` values.
pub open spec fn last_of(end: Bound, len: int) -> int {
    match end {
        Bound::Included(end) => end + 1,
        Bound::Excluded(end) => end as int,
        Bound::Unbounded => len,
    }
}

/// A range goes no further than `len` values, and does not end before it starts.
pub open spec fn in_bounds(start: Bound, end: Bound, len: int) -> bool {
    first_of(start) <= last_of(end, len) <= len
}

/// Converts a range into start and end indexes.
pub fn range(start: Bound, end: Bound, len: usize) -> (range: Range)
    requires
        first_of(start) <= len,
        last_of(end, len as int) <= len,
    ensures
        range.start == first_of(start),
        range.end == last_of(end, len as int),
{
    let start: usize = match start {
        Bound::Excluded(start) => start + 1,
        Bound::Included(start) => start,
        Bound::Unbounded => 0,
    };
    let end: usize = match end {
        Bound::Included(end) => end + 1,
        Bound::Excluded(end) => end,
        Bound::Unbounded => len,
    };
    Range { start, end }
}

} // verus!
