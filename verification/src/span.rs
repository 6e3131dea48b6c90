use vstd::prelude::*;

verus! {

/// A half-open byte range `[start, end)` locating a token or syntax node in
/// the document text.
#[derive(Clone, Copy, PartialEq, Eq, Structural, Debug)]
pub struct Span {
    pub start: usize,
    pub end: usize,
}

impl Span {
    /// A span is well formed when it does not run backwards.
    pub open spec fn wf(self) -> bool {
        self.start <= self.end
    }

    /// Whether a byte offset falls inside the half-open range.
    pub open spec fn spec_contains(self, pos: usize) -> bool {
        self.start <= pos && pos < self.end
    }

    pub fn contains(&self, pos: usize) -> (r: bool)
        ensures
            r == self.spec_contains(pos),
    {
        self.start <= pos && pos < self.end
    }

    pub open spec fn spec_len(self) -> int {
        self.end - self.start
    }

    pub fn len(&self) -> (r: usize)
        requires
            self.wf(),
        ensures
            r == self.spec_len(),
    {
        self.end - self.start
    }

    /// Containment of one range in another, used for the parent/child
    /// invariant of the syntax tree.
    pub open spec fn spec_within(self, outer: Span) -> bool {
        outer.start <= self.start && self.end <= outer.end
    }
}

} // verus!
