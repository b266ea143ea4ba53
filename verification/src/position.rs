//! Row-column positions and ranges inside a document.

use vstd::prelude::*;

verus! {

/// A row-column position in a document.
///
/// Positions are indexed from 0. All Unicode codepoints count for 1 character,
/// so a two-codepoint emoji takes up two logical columns. Legal position
/// columns run up to *and including* the length of the line, because a cursor
/// may stand after the last character of a line.
#[derive(PartialEq, Eq, Clone, Copy, Hash, Debug, Structural)]
pub struct Position {
    pub row: usize,
    pub column: usize,
}

/// A region in a document with a beginning and ending [`Position`].
#[derive(PartialEq, Eq, Clone, Copy, Debug, Structural)]
pub struct Range {
    pub beginning: Position,
    pub ending: Position,
}

/// Lexicographic order on positions: row first, then column.
pub open spec fn pos_le(a: Position, b: Position) -> bool {
    a.row < b.row || (a.row == b.row && a.column <= b.column)
}

/// Strict lexicographic order on positions.
pub open spec fn pos_lt(a: Position, b: Position) -> bool {
    a.row < b.row || (a.row == b.row && a.column < b.column)
}

impl Position {
    /// Returns the position `(row, column)`.
    pub fn from(row: usize, column: usize) -> (r: Position)
        ensures
            r == (Position { row, column }),
    {
        Position { row, column }
    }

    /// Returns whether `self` comes no later than `other` in document order.
    pub fn le(&self, other: &Position) -> (r: bool)
        ensures
            r == pos_le(*self, *other),
    {
        self.row < other.row || (self.row == other.row && self.column <= other.column)
    }

    /// Returns whether `self` comes strictly before `other` in document order.
    pub fn lt(&self, other: &Position) -> (r: bool)
        ensures
            r == pos_lt(*self, *other),
    {
        self.row < other.row || (self.row == other.row && self.column < other.column)
    }
}

impl Range {
    /// Returns the range from `(start_row, start_column)` to `(end_row, end_column)`.
    pub fn from(start_row: usize, start_column: usize, end_row: usize, end_column: usize) -> (r:
        Range)
        ensures
            r == (Range {
                beginning: Position { row: start_row, column: start_column },
                ending: Position { row: end_row, column: end_column },
            }),
    {
        Range {
            beginning: Position { row: start_row, column: start_column },
            ending: Position { row: end_row, column: end_column },
        }
    }

    /// Returns true if the range starts and ends at the same position.
    pub fn empty(&self) -> (r: bool)
        ensures
            r == (self.beginning == self.ending),
    {
        self.beginning.row == self.ending.row && self.beginning.column == self.ending.column
    }
}

} // verus!
