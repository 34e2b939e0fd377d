//! Offsets and ranges into a text buffer. An offset counts characters from
//! the start of the buffer it was derived from; a range is an ordered pair
//! of offsets.
use vstd::prelude::*;

verus! {

/// A region of a text buffer, as a pair of character offsets.
///
/// A well-formed range has `start <= end`. Tagged-range extraction only
/// produces well-formed ranges; marker-range extraction hands the two
/// marker offsets back in source order, so a caller whose second marker
/// lands before the first gets `start > end` and must treat that as its
/// own error.
#[derive(Clone, Copy, PartialEq, Eq, Structural, Debug)]
pub struct TextRange {
    pub start: usize,
    pub end: usize,
}

impl TextRange {
    pub open spec fn wf(self) -> bool {
        self.start <= self.end
    }

    /// The sort key of a range: ranges are ordered by start, then end.
    pub open spec fn key_le(self, other: TextRange) -> bool {
        self.start < other.start || (self.start == other.start && self.end <= other.end)
    }

    /// Whether `self` sorts at or before `other` under the `(start, end)` order.
    pub fn le(&self, other: &TextRange) -> (r: bool)
        ensures
            r == self.key_le(*other),
    {
        self.start < other.start || (self.start == other.start && self.end <= other.end)
    }

    pub fn new(start: usize, end: usize) -> (r: TextRange)
        ensures
            r.start == start,
            r.end == end,
    {
        TextRange { start, end }
    }
}

/// A sequence of ranges sorted by `(start, end)`.
pub open spec fn ranges_sorted(rs: Seq<TextRange>) -> bool {
    forall|i: int, j: int| 0 <= i < j < rs.len() ==> #[trigger] rs[i].key_le(#[trigger] rs[j])
}

} // verus!
