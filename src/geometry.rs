use vstd::prelude::*;

verus! {

/// A position in a buffer snapshot: a 0-based row and a column within that row.
#[derive(Clone, Copy, Debug, PartialEq, Eq, Structural)]
pub struct Point {
    pub row: usize,
    pub column: usize,
}

/// Points are ordered by row first, then by column.
pub open spec fn point_le(a: Point, b: Point) -> bool {
    a.row < b.row || (a.row == b.row && a.column <= b.column)
}

impl Point {
    pub fn new(row: usize, column: usize) -> (p: Point)
        ensures
            p.row == row,
            p.column == column,
    {
        Point { row, column }
    }

    /// The smaller of two points in buffer order.
    pub fn min(a: Point, b: Point) -> (r: Point)
        ensures
            r == (if point_le(a, b) { a } else { b }),
    {
        if a.row < b.row || (a.row == b.row && a.column <= b.column) {
            a
        } else {
            b
        }
    }
}

/// The column a selection tries to return to when moved vertically.
#[derive(Clone, Copy, Debug, PartialEq, Eq, Structural)]
pub enum SelectionGoal {
    Unset,
    Column(usize),
}

/// A selection: two points in buffer order, with `reversed` telling that the
/// caret sits at `start` rather than at `end`.
#[derive(Clone, Copy, Debug, PartialEq, Eq, Structural)]
pub struct Selection {
    pub start: Point,
    pub end: Point,
    pub reversed: bool,
    pub goal: SelectionGoal,
}

impl Selection {
    pub open spec fn spec_is_empty(&self) -> bool {
        self.start == self.end
    }

    /// A selection is empty when it is a bare caret.
    #[verifier::when_used_as_spec(spec_is_empty)]
    pub fn is_empty(&self) -> (r: bool)
        ensures
            r == self.spec_is_empty(),
    {
        self.start == self.end
    }
}

/// A half-open interval `[start, end)` of rows.
#[derive(Clone, Copy, Debug, PartialEq, Eq, Structural)]
pub struct RowRange {
    pub start: usize,
    pub end: usize,
}

impl RowRange {
    pub open spec fn contains(self, row: int) -> bool {
        self.start <= row < self.end
    }
}

} // verus!
