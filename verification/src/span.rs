//! Source byte ranges.
//!
//! Every syntax node carries the half-open byte range `[start, end)` it
//! occupies in the source text. The analyzer compares a candidate node with
//! an ancestor's designated child slot by span equality, never by structural
//! equality, since a tree may hold structurally identical siblings.

use vstd::prelude::*;

verus! {

/// A half-open byte range `[start, end)` into the source text.
#[derive(Clone, Copy, PartialEq, Eq, Structural, Debug)]
pub struct Span {
    pub start: u32,
    pub end: u32,
}

impl Span {
    pub fn new(start: u32, end: u32) -> (s: Span)
        ensures
            s.start == start,
            s.end == end,
    {
        Span { start, end }
    }
}

} // verus!
