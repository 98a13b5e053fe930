//! Source-position tracking: every leaf value that participates in
//! diagnostics carries the half-open byte range it occupied in the original
//! configuration text. The range serves diagnostics only; validation compares
//! the carried values, never the ranges.

use vstd::prelude::*;

verus! {

/// A half-open byte range `[start, end)` in the configuration source text.
#[derive(Clone, Copy, Debug, PartialEq, Eq, Structural)]
pub struct Span {
    pub start: usize,
    pub end: usize,
}

/// A parsed value paired with the byte range it occupied in the source text.
///
/// The span exists purely so that an error can point back at the offending
/// text; whenever two positioned values are compared during validation, only
/// the inner values are consulted.
#[derive(Clone, Debug)]
pub struct Positioned<T> {
    pub value: T,
    pub span: Span,
}

impl<T> Positioned<T> {
    pub fn new(value: T, span: Span) -> (p: Positioned<T>)
        ensures
            p.value == value,
            p.span == span,
    {
        Positioned { value, span }
    }

    /// The byte range of this value in the source text.
    pub fn span(&self) -> (s: Span)
        ensures
            s == self.span,
    {
        self.span
    }

    /// Discards the position and yields the carried value.
    pub fn into_inner(self) -> (v: T)
        ensures
            v == self.value,
    {
        self.value
    }
}

} // verus!
