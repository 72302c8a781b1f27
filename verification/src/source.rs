//! Source-location infrastructure shared by the lexer, parser, and AST.
//!
//! [`Span`] is a byte range into the source text; [`Spanned`] pairs any value
//! with the range it occupies, so diagnostics can point at the originating
//! text.

use vstd::prelude::*;

verus! {

/// A half-open byte span `[start, end)` into the source text.
#[derive(Debug, Clone, Copy, PartialEq, Eq)]
pub struct Span {
    pub start: usize,
    pub end: usize,
}

impl Span {
    /// The span `[start, end)`.
    pub fn new(start: usize, end: usize) -> (r: Span)
        ensures
            r.start == start,
            r.end == end,
    {
        Span { start, end }
    }
}

/// A value paired with the source span it occupies.
#[derive(Debug, Clone, PartialEq)]
pub struct Spanned<T> {
    /// The wrapped value.
    pub value: T,
    /// The source range the value was parsed from.
    pub span: Span,
}

/// A well-formed span: its start does not exceed its end.
pub open spec fn span_ok(s: Span) -> bool {
    s.start <= s.end
}

/// The span `[start, end)`, in specifications.
pub open spec fn spec_span(start: usize, end: usize) -> Span {
    Span { start, end }
}

/// Build a span.
pub fn mk_span(start: usize, end: usize) -> (r: Span)
    ensures
        r == spec_span(start, end),
{
    Span { start, end }
}

} // verus!
