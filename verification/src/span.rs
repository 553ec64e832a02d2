//! Half-open character-offset intervals `[start, end)` into a page's text.
//!
//! All offsets count characters of the text viewed as a `Seq<char>`; every
//! consumer of a page translates offsets to lines and columns against that
//! same view.

use vstd::prelude::*;

verus! {

/// A half-open interval `[start, end)` of character offsets.
#[derive(Clone, Copy, Debug, PartialEq, Eq, Structural)]
pub struct Span {
    pub start: usize,
    pub end: usize,
}

impl Span {
    /// `start <= end`: the interval is never reversed.
    pub open spec fn wf(self) -> bool {
        self.start <= self.end
    }

    /// The offset `i` lies inside the interval.
    pub open spec fn spec_contains(self, i: int) -> bool {
        self.start <= i < self.end
    }

    pub fn contains(&self, i: usize) -> (r: bool)
        ensures
            r == self.spec_contains(i as int),
    {
        self.start <= i && i < self.end
    }
}

} // verus!
