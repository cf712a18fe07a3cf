//! Byte ranges in template sources.

use vstd::prelude::*;

verus! {

/// A half-open range of UTF-8 byte offsets into a template source.
#[derive(Debug, Clone, Copy, PartialEq, Eq, Hash, Structural)]
pub struct Span {
    pub start: usize,
    pub end: usize,
}

impl Span {
    pub fn new(start: usize, end: usize) -> (s: Span)
        ensures
            s.start == start,
            s.end == end,
    {
        Span { start, end }
    }
}

} // verus!
