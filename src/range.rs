//! Source spans and the containment test used to attribute a reference to
//! its enclosing definition.
use vstd::prelude::*;

verus! {

/// A span in (line, column) space.
#[derive(Debug, Clone, Copy, PartialEq, Eq, Structural)]
pub struct SourceRange {
    pub start_line: i32,
    pub start_col: i32,
    pub end_line: i32,
    pub end_col: i32,
}

/// `inner` lies within `outer`: its lines lie within those of `outer`, and
/// on a shared first or last line its columns do too.
pub open spec fn range_contains(outer: SourceRange, inner: SourceRange) -> bool {
    &&& outer.start_line <= inner.start_line
    &&& inner.end_line <= outer.end_line
    &&& (outer.start_line == inner.start_line ==> outer.start_col <= inner.start_col)
    &&& (outer.end_line == inner.end_line ==> inner.end_col <= outer.end_col)
}

/// The range an index occurrence denotes: four numbers give both ends, three
/// give a span on one line, anything else gives the empty range at the origin.
pub open spec fn range_of(r: Seq<i32>) -> SourceRange {
    if r.len() == 3 {
        SourceRange { start_line: r[0], start_col: r[1], end_line: r[0], end_col: r[2] }
    } else if r.len() == 4 {
        SourceRange { start_line: r[0], start_col: r[1], end_line: r[2], end_col: r[3] }
    } else {
        SourceRange { start_line: 0, start_col: 0, end_line: 0, end_col: 0 }
    }
}

/// The size heuristic that orders the definitions of a file, largest first.
pub open spec fn range_size(r: SourceRange) -> int {
    (r.end_line - r.start_line) * 1000 + (r.end_col - r.start_col)
}

impl SourceRange {
    /// Whether `other` is fully contained within `self` (equal ranges
    /// contain each other).
    pub fn contains(&self, other: &SourceRange) -> (r: bool)
        ensures
            r == range_contains(*self, *other),
    {
        if self.start_line > other.start_line || self.end_line < other.end_line {
            return false;
        }
        if self.start_line == other.start_line && self.start_col > other.start_col {
            return false;
        }
        if self.end_line == other.end_line && self.end_col < other.end_col {
            return false;
        }
        true
    }

    /// The size heuristic of [`range_size`], computed without overflow.
    pub fn size(&self) -> (r: i64)
        ensures
            r == range_size(*self),
    {
        (self.end_line as i64 - self.start_line as i64) * 1000 + (self.end_col as i64
            - self.start_col as i64)
    }
}

/// Parse an index range: `[start_line, start_col, end_line, end_col]`, or
/// `[line, start_col, end_col]` for a span on one line.
pub fn parse_scip_range(range: &[i32]) -> (r: SourceRange)
    ensures
        r == range_of(range@),
{
    if range.len() == 3 {
        SourceRange {
            start_line: range[0],
            start_col: range[1],
            end_line: range[0],
            end_col: range[2],
        }
    } else if range.len() == 4 {
        SourceRange {
            start_line: range[0],
            start_col: range[1],
            end_line: range[2],
            end_col: range[3],
        }
    } else {
        SourceRange { start_line: 0, start_col: 0, end_line: 0, end_col: 0 }
    }
}

} // verus!
