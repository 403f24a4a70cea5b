use vstd::prelude::*;

verus! {

/// A half-open byte range `[start, end)` into the source text.
#[derive(Debug, Clone, Copy, PartialEq, Eq, Structural)]
pub struct Span {
    pub start: usize,
    pub end: usize,
}

impl Span {
    /// The span that reaches from the start of `self` to the end of `last`.
    pub fn through(&self, last: &Span) -> (r: Span)
        ensures
            r == (Span { start: self.start, end: last.end }),
    {
        Span { start: self.start, end: last.end }
    }
}

} // verus!
