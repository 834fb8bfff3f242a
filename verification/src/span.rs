//! Value types: spans, positions and diagnostic contexts.
//!
//! A `TextSpan` addresses a half-open byte range of an input, a
//! `TextPosition` addresses a point as 1-based line and column numbers,
//! and a `TextContext` pairs one source line with an aligned caret
//! pointer.  Spans and positions are ordered lexicographically by
//! `(index, length)` and `(line, column)` respectively.

use core::cmp::Ordering;
use vstd::prelude::*;

verus! {

/// A span of text in an input, as a starting index and a length.
/// The index is 0-based and counts bytes of the input.
#[derive(Debug, Default, Copy, Clone, PartialEq, Eq, Ord, Structural)]
pub struct TextSpan {
    /// The starting index
    pub index: usize,
    /// The length
    pub length: usize,
}

/// True when `a` comes strictly before `b` in the lexicographic order
/// on `(index, length)`.
pub open spec fn span_lt(a: TextSpan, b: TextSpan) -> bool {
    a.index < b.index || (a.index == b.index && a.length < b.length)
}

/// The lexicographic comparison of two spans.
pub open spec fn span_order(a: TextSpan, b: TextSpan) -> Ordering {
    if span_lt(a, b) {
        Ordering::Less
    } else if span_lt(b, a) {
        Ordering::Greater
    } else {
        Ordering::Equal
    }
}

impl PartialOrd for TextSpan {
    fn partial_cmp(&self, other: &TextSpan) -> (r: Option<Ordering>) {
        if self.index < other.index {
            Some(Ordering::Less)
        } else if self.index > other.index {
            Some(Ordering::Greater)
        } else if self.length < other.length {
            Some(Ordering::Less)
        } else if self.length > other.length {
            Some(Ordering::Greater)
        } else {
            Some(Ordering::Equal)
        }
    }
}

impl vstd::std_specs::cmp::PartialOrdSpecImpl for TextSpan {
    open spec fn obeys_partial_cmp_spec() -> bool {
        true
    }

    open spec fn partial_cmp_spec(&self, other: &TextSpan) -> Option<Ordering> {
        Some(span_order(*self, *other))
    }
}

/// Comparing spans follows the strict total order `span_lt`, the
/// lexicographic order on `(index, length)`: it is irreflexive,
/// asymmetric, transitive, and total in the sense that two spans that
/// compare equal are equal.
pub proof fn lemma_span_order_strict_total(a: TextSpan, b: TextSpan, c: TextSpan)
    ensures
        !span_lt(a, a),
        span_lt(a, b) ==> !span_lt(b, a),
        span_lt(a, b) && span_lt(b, c) ==> span_lt(a, c),
        span_lt(a, b) || span_lt(b, a) || a == b,
        span_order(a, b) == Ordering::Less <==> span_lt(a, b),
        span_order(a, b) == Ordering::Greater <==> span_lt(b, a),
        span_order(a, b) == Ordering::Equal <==> a == b,
{
}

/// A position in a text input, as 1-based line and column numbers.
#[derive(Debug, Default, Copy, Clone, PartialEq, Eq, Ord, Structural)]
pub struct TextPosition {
    /// The line number
    pub line: usize,
    /// The column number
    pub column: usize,
}

/// True when `a` comes strictly before `b` in the lexicographic order
/// on `(line, column)`.
pub open spec fn position_lt(a: TextPosition, b: TextPosition) -> bool {
    a.line < b.line || (a.line == b.line && a.column < b.column)
}

/// The lexicographic comparison of two positions.
pub open spec fn position_order(a: TextPosition, b: TextPosition) -> Ordering {
    if position_lt(a, b) {
        Ordering::Less
    } else if position_lt(b, a) {
        Ordering::Greater
    } else {
        Ordering::Equal
    }
}

impl PartialOrd for TextPosition {
    fn partial_cmp(&self, other: &TextPosition) -> (r: Option<Ordering>) {
        if self.line < other.line {
            Some(Ordering::Less)
        } else if self.line > other.line {
            Some(Ordering::Greater)
        } else if self.column < other.column {
            Some(Ordering::Less)
        } else if self.column > other.column {
            Some(Ordering::Greater)
        } else {
            Some(Ordering::Equal)
        }
    }
}

impl vstd::std_specs::cmp::PartialOrdSpecImpl for TextPosition {
    open spec fn obeys_partial_cmp_spec() -> bool {
        true
    }

    open spec fn partial_cmp_spec(&self, other: &TextPosition) -> Option<Ordering> {
        Some(position_order(*self, *other))
    }
}

/// Comparing positions follows the strict total order `position_lt`,
/// the lexicographic order on `(line, column)`: it is irreflexive,
/// asymmetric, transitive, and total in the sense that two positions
/// that compare equal are equal.
pub proof fn lemma_position_order_strict_total(a: TextPosition, b: TextPosition, c: TextPosition)
    ensures
        !position_lt(a, a),
        position_lt(a, b) ==> !position_lt(b, a),
        position_lt(a, b) && position_lt(b, c) ==> position_lt(a, c),
        position_lt(a, b) || position_lt(b, a) || a == b,
        position_order(a, b) == Ordering::Less <==> position_lt(a, b),
        position_order(a, b) == Ordering::Greater <==> position_lt(b, a),
        position_order(a, b) == Ordering::Equal <==> a == b,
{
}

/// The context description of a position in a piece of text: the
/// content of one source line, with its trailing line terminator
/// stripped, and a pointer line made of spaces followed by carets, one
/// caret per pointed-at code point.
#[derive(Debug, Clone, PartialEq, Eq)]
pub struct TextContext<'a> {
    /// The text content being represented
    pub content: &'a str,
    /// The pointer textual representation
    pub pointer: String,
}

} // verus!
