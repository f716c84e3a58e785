//! Ranges of source text.
use vstd::prelude::*;

verus! {

/// A half-open range `[start, end)` of byte offsets into a source buffer.
#[derive(Clone, Copy, Debug, PartialEq, Eq, Hash, Structural)]
pub struct TextRange {
    pub start: u32,
    pub end: u32,
}

/// The range `[start, end)`, if it is well-formed and both offsets fit in 32 bits.
pub open spec fn range_of(start: int, end: int) -> Option<TextRange> {
    if 0 <= start <= end <= u32::MAX {
        Some(TextRange { start: start as u32, end: end as u32 })
    } else {
        None
    }
}

impl TextRange {
    pub open spec fn wf(&self) -> bool {
        self.start <= self.end
    }

    /// The range `[start, end)`, or `None` where `start > end` or an offset
    /// does not fit in 32 bits.
    pub fn try_from_offsets(start: usize, end: usize) -> (r: Option<TextRange>)
        ensures
            r == range_of(start as int, end as int),
    {
        if start <= end && end <= u32::MAX as usize {
            Some(TextRange { start: start as u32, end: end as u32 })
        } else {
            None
        }
    }
}

} // verus!
