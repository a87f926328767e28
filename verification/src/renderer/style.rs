//! Half-open byte spans of a line and the style attached to each.

use vstd::prelude::*;

verus! {

/// Identifier of a registered style.
#[derive(Debug, Clone, Copy, PartialEq, Eq, PartialOrd, Ord, Structural)]
pub struct StyleId(pub usize);

/// Span of a string in bytes, `[start..end)`.
#[derive(Debug, Clone, Copy, PartialEq, Eq, Structural)]
pub struct Span {
    pub start: usize,
    pub end: usize,
}

impl Span {
    /// Whether `idx` lies in `[start, end)`.
    pub open spec fn spec_contains(self, idx: usize) -> bool {
        self.start <= idx && idx < self.end
    }

    pub fn new(start: usize, end: usize) -> (span: Self)
        ensures
            span.start == start,
            span.end == end,
    {
        Self { start, end }
    }

    #[inline]
    pub fn contains(&self, idx: usize) -> (inside: bool)
        ensures
            inside == self.spec_contains(idx),
    {
        self.start <= idx && idx < self.end
    }

    /// The part of the span that lies within the first `len` positions: a
    /// span with `start <= end <= len` that holds the positions below `len`
    /// which this span holds, and no others.
    pub fn clamped(&self, len: usize) -> (within: Span)
        ensures
            within.start <= within.end <= len,
            forall|idx: usize| within.spec_contains(idx) <==> self.spec_contains(idx) && idx < len,
            within.end == if self.end <= len {
                self.end
            } else {
                len
            },
            within.start == if self.start <= within.end {
                self.start
            } else {
                within.end
            },
    {
        let end = if self.end <= len { self.end } else { len };
        let start = if self.start <= end { self.start } else { end };
        Span { start, end }
    }
}

/// A span together with the style that applies to it.
#[derive(Debug, Clone, Copy, PartialEq, Eq, Structural)]
pub struct StyleSpan {
    style: StyleId,
    span: Span,
}

impl StyleSpan {
    pub closed spec fn spec_style(self) -> StyleId {
        self.style
    }

    pub closed spec fn spec_span(self) -> Span {
        self.span
    }

    pub fn new(style: StyleId, span: Span) -> (styled: Self)
        ensures
            styled.spec_style() == style,
            styled.spec_span() == span,
    {
        Self { style, span }
    }

    #[inline]
    pub fn contains(&self, idx: usize) -> (inside: bool)
        ensures
            inside == self.spec_span().spec_contains(idx),
    {
        self.span.contains(idx)
    }

    pub fn style(&self) -> (id: StyleId)
        ensures
            id == self.spec_style(),
    {
        self.style
    }

    pub fn span(&self) -> (span: &Span)
        ensures
            *span == self.spec_span(),
    {
        &self.span
    }

    pub fn start(&self) -> (start: usize)
        ensures
            start == self.spec_span().start,
    {
        self.span.start
    }

    pub fn end(&self) -> (end: usize)
        ensures
            end == self.spec_span().end,
    {
        self.span.end
    }
}

} // verus!
