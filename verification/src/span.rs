//! Coordinate types shared by the whole crate.
//!
//! Two coordinate systems are in play: source coordinates (`LineColumn`,
//! `Span`), which point into the original source text, and virtual-text
//! coordinates (`Range`), which are byte offsets into the newline-joined
//! content of a literal set.

use vstd::prelude::*;

verus! {

/// A 1-based source position: line and column.
#[derive(Clone, Copy, Debug, PartialEq, Eq, Structural)]
pub struct LineColumn {
    pub line: usize,
    pub column: usize,
}

/// A source-coordinate extent. `start` is the first covered column,
/// `end.column` is one past the last covered column of the extent.
#[derive(Clone, Copy, Debug, PartialEq, Eq, Structural)]
pub struct Span {
    pub start: LineColumn,
    pub end: LineColumn,
}

/// A half-open byte range `[start, end)` into a virtual text.
#[derive(Clone, Copy, Debug, PartialEq, Eq, Structural)]
pub struct Range {
    pub start: usize,
    pub end: usize,
}

impl Range {
    /// A range is well formed when it does not run backwards.
    pub open spec fn wf(self) -> bool {
        self.start <= self.end
    }

    /// Number of bytes covered.
    pub open spec fn len_spec(self) -> int {
        self.end - self.start
    }

    /// Whether byte position `p` lies inside the range.
    pub open spec fn contains_pos(self, p: int) -> bool {
        self.start <= p < self.end
    }
}

/// The failures the mapping and reflow core can report.
///
/// `OutOfBounds`: an offset or length handed to the offset mapping exceeds
/// the virtual text's size; callers drop the affected suggestion.
/// `MalformedLiteral`: a literal whose padding accounting is inconsistent;
/// such a literal is excluded from its set.
#[derive(Clone, Copy, Debug, PartialEq, Eq, Structural)]
pub enum CoreError {
    OutOfBounds,
    MalformedLiteral,
}

} // verus!
