//! Half-open character ranges over one source text.

use vstd::prelude::*;

verus! {

/// A half-open range `[start, end)` of offsets into the source text.
///
/// Spans that come from one syntax tree are either disjoint or nested,
/// never partially overlapping.
#[derive(Clone, Copy, PartialEq, Eq, Structural, Debug)]
pub struct Span {
    pub start: usize,
    pub end: usize,
}

impl Span {
    /// A well-formed span does not end before it starts.
    pub open spec fn wf(self) -> bool {
        self.start <= self.end
    }

    /// `self` covers every offset that `o` covers.
    pub open spec fn contains(self, o: Span) -> bool {
        self.start <= o.start && o.end <= self.end
    }

    /// `self` covers `o` and the two differ.
    pub open spec fn strictly_contains(self, o: Span) -> bool {
        self.contains(o) && self != o
    }

    /// `self` covers the offset `p`.
    pub open spec fn contains_pos(self, p: int) -> bool {
        self.start <= p < self.end
    }

    /// The two spans share no offset.
    pub open spec fn disjoint(self, o: Span) -> bool {
        self.end <= o.start || o.end <= self.start
    }

    /// Nested or disjoint: the shape every pair of spans from one
    /// syntax tree must have.
    pub open spec fn compatible(self, o: Span) -> bool {
        self.contains(o) || o.contains(self) || self.disjoint(o)
    }

    /// `self` sorts after `o` in the builder's order (start ascending,
    /// end descending), the order that puts an enclosing scope before
    /// every scope nested in it.
    pub open spec fn inner_than(self, o: Span) -> bool {
        self.start > o.start || (self.start == o.start && self.end < o.end)
    }

    /// Weak form of the builder's order.
    pub open spec fn le(self, o: Span) -> bool {
        self.start < o.start || (self.start == o.start && self.end >= o.end)
    }

    pub fn new(start: usize, end: usize) -> (s: Span)
        ensures
            s == (Span { start, end }),
    {
        Span { start, end }
    }

    pub fn is_wf(&self) -> (r: bool)
        ensures
            r == self.wf(),
    {
        self.start <= self.end
    }

    pub fn contains_span(&self, o: &Span) -> (r: bool)
        ensures
            r == self.contains(*o),
    {
        self.start <= o.start && o.end <= self.end
    }

    pub fn contains_at(&self, p: usize) -> (r: bool)
        ensures
            r == self.contains_pos(p as int),
    {
        self.start <= p && p < self.end
    }

    pub fn is_compatible(&self, o: &Span) -> (r: bool)
        ensures
            r == self.compatible(*o),
    {
        self.contains_span(o) || o.contains_span(self) || self.end <= o.start || o.end <= self.start
    }

    pub fn is_inner_than(&self, o: &Span) -> (r: bool)
        ensures
            r == self.inner_than(*o),
    {
        self.start > o.start || (self.start == o.start && self.end < o.end)
    }

    pub fn is_le(&self, o: &Span) -> (r: bool)
        ensures
            r == self.le(*o),
    {
        self.start < o.start || (self.start == o.start && self.end >= o.end)
    }
}

/// A strict container sorts before what it contains.
pub proof fn lemma_container_sorts_first(a: Span, b: Span)
    requires
        a.strictly_contains(b),
    ensures
        b.inner_than(a),
{
}

} // verus!
