//! Half-open character ranges over a delta's linearized operation span.

use vstd::prelude::*;

verus! {

/// The half-open range `[start, end)`.
#[derive(Debug, PartialEq, Eq, Structural, Clone, Copy)]
pub struct Interval {
    pub start: usize,
    pub end: usize,
}

impl Interval {
    pub fn new(start: usize, end: usize) -> (r: Interval)
        ensures
            r.start == start,
            r.end == end,
    {
        Interval { start, end }
    }

    /// True when `[start, end)` lies entirely inside this interval.
    pub fn contains_range(&self, start: usize, end: usize) -> (r: bool)
        ensures
            r == (self.start <= start && end <= self.end),
    {
        self.start <= start && end <= self.end
    }
}

} // verus!
