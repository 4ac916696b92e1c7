//! Cells of a diagram, their arms, legs, hooks and contents.
use vstd::prelude::*;
use crate::diagram::{YoungDiagram, count_at_least};
use crate::partition::part_at;

verus! {

/// A cell at `row` and `col`, both counted from 1.
#[derive(Debug, Clone, Copy, PartialEq, Eq, Hash, Structural)]
pub struct Cell {
    pub row: usize,
    pub col: usize,
}

/// The cell lies in the diagram with row lengths `s`.
pub open spec fn cell_in(s: Seq<usize>, c: Cell) -> bool {
    1 <= c.row <= s.len() && c.col <= s[c.row - 1]
}

/// The cell lies in the diagram and has a column of at least 1.
pub open spec fn in_shape(s: Seq<usize>, c: Cell) -> bool {
    c.col >= 1 && cell_in(s, c)
}

/// `a` comes before `b` when cells are read row by row, left to right.
pub open spec fn before(a: Cell, b: Cell) -> bool {
    a.row < b.row || (a.row == b.row && a.col < b.col)
}

/// Cells to the right of `c` in its row (zero when the row is shorter).
pub open spec fn arm_len(s: Seq<usize>, c: Cell) -> int {
    let l = part_at(s, c.row - 1);
    if l > c.col {
        l - c.col
    } else {
        0
    }
}

/// Cells below `c` in its column (zero when the column is shorter).
pub open spec fn leg_len(s: Seq<usize>, c: Cell) -> int {
    let h = count_at_least(s, c.col as int);
    if h > c.row {
        h - c.row
    } else {
        0
    }
}

/// The hook length: arm, leg and the cell itself.
pub open spec fn hook_len(s: Seq<usize>, c: Cell) -> int {
    arm_len(s, c) + leg_len(s, c) + 1
}

impl Cell {
    pub fn new(row: usize, col: usize) -> (r: Self)
        ensures
            r == (Cell { row, col }),
    {
        Cell { row, col }
    }

    /// Whether the cell lies in the diagram (row 0 is outside every diagram's rows).
    pub fn is_in(&self, diag: &YoungDiagram) -> (r: bool)
        requires
            self.row >= 1,
        ensures
            r == cell_in(diag@, *self),
    {
        match diag.row_len(self.row) {
            Some(len) => self.col <= len,
            None => false,
        }
    }

    pub fn arm(&self, diag: &YoungDiagram) -> (r: usize)
        requires
            self.row >= 1,
        ensures
            r == arm_len(diag@, *self),
    {
        let len = match diag.row_len(self.row) {
            Some(len) => len,
            None => 0,
        };
        if len > self.col {
            len - self.col
        } else {
            0
        }
    }

    pub fn leg(&self, diag: &YoungDiagram) -> (r: usize)
        ensures
            r == leg_len(diag@, *self),
    {
        let h = diag.col_height(self.col);
        if h > self.row {
            h - self.row
        } else {
            0
        }
    }

    pub fn hook_length(&self, diag: &YoungDiagram) -> (r: usize)
        requires
            self.row >= 1,
            hook_len(diag@, *self) <= usize::MAX,
        ensures
            r == hook_len(diag@, *self),
    {
        self.arm(diag) + self.leg(diag) + 1
    }

    /// The content: column minus row, both taken as `i64`.
    pub fn content(&self) -> (r: i64)
        requires
            i64::MIN <= (self.col as i64) - (self.row as i64) <= i64::MAX,
        ensures
            r == (self.col as i64) - (self.row as i64),
    {
        self.col as i64 - self.row as i64
    }

    pub fn hook(&self, diag: &YoungDiagram) -> (r: Hook)
        requires
            self.row >= 1,
        ensures
            r.cell == *self,
            r.arm_len == arm_len(diag@, *self),
            r.leg_len == leg_len(diag@, *self),
            r.arm_len + r.leg_len + 1 == hook_len(diag@, *self),
    {
        Hook { cell: *self, arm_len: self.arm(diag), leg_len: self.leg(diag) }
    }
}

/// The content of a cell, as a value of its own.
#[derive(Debug, Clone, Copy, PartialEq, Eq, Structural)]
pub struct Content(pub i64);

/// A cell with the lengths of its arm and leg.
#[derive(Debug, Clone)]
pub struct Hook {
    pub cell: Cell,
    pub arm_len: usize,
    pub leg_len: usize,
}

impl Hook {
    pub fn length(&self) -> (r: usize)
        requires
            self.arm_len + self.leg_len + 1 <= usize::MAX,
        ensures
            r == self.arm_len + self.leg_len + 1,
    {
        self.arm_len + self.leg_len + 1
    }
}

} // verus!
