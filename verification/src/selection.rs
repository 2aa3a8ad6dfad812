use vstd::prelude::*;

verus! {

/// A cell of the shown table, by display row and column.
#[derive(Debug, Clone, Copy, PartialEq, Eq, Structural)]
pub struct Cell {
    pub row: usize,
    pub column: usize,
}

/// A rectangle of cells spanned by an anchor and a focus cell.
#[derive(Debug, Clone, Copy, PartialEq, Eq, Structural)]
pub struct RectSelection {
    pub anchor: Cell,
    pub focus: Cell,
}

/// The smaller of two numbers.
pub open spec fn min_usize(a: usize, b: usize) -> usize {
    if a <= b {
        a
    } else {
        b
    }
}

/// The larger of two numbers.
pub open spec fn max_usize(a: usize, b: usize) -> usize {
    if a >= b {
        a
    } else {
        b
    }
}

impl RectSelection {
    /// A selection of the one cell `cell`.
    pub fn new(cell: Cell) -> (s: Self)
        ensures
            s.anchor == cell,
            s.focus == cell,
    {
        RectSelection { anchor: cell, focus: cell }
    }

    /// Moves the focus to `cell`, keeping the anchor.
    pub fn extend_to(&mut self, cell: Cell)
        ensures
            final(self).anchor == old(self).anchor,
            final(self).focus == cell,
    {
        self.focus = cell;
    }

    /// The rectangle as (top, left, bottom, right), inclusive.
    pub fn bounds(self) -> (b: (usize, usize, usize, usize))
        ensures
            b.0 == min_usize(self.anchor.row, self.focus.row),
            b.1 == min_usize(self.anchor.column, self.focus.column),
            b.2 == max_usize(self.anchor.row, self.focus.row),
            b.3 == max_usize(self.anchor.column, self.focus.column),
            b.0 <= b.2,
            b.1 <= b.3,
    {
        let top = if self.anchor.row <= self.focus.row {
            self.anchor.row
        } else {
            self.focus.row
        };
        let bottom = if self.anchor.row >= self.focus.row {
            self.anchor.row
        } else {
            self.focus.row
        };
        let left = if self.anchor.column <= self.focus.column {
            self.anchor.column
        } else {
            self.focus.column
        };
        let right = if self.anchor.column >= self.focus.column {
            self.anchor.column
        } else {
            self.focus.column
        };
        (top, left, bottom, right)
    }

    /// The rectangle contains a cell.
    pub open spec fn covers(self, cell: Cell) -> bool {
        &&& min_usize(self.anchor.row, self.focus.row) <= cell.row <= max_usize(
            self.anchor.row,
            self.focus.row,
        )
        &&& min_usize(self.anchor.column, self.focus.column) <= cell.column <= max_usize(
            self.anchor.column,
            self.focus.column,
        )
    }
}

/// The rectangle spanned by an anchor and a focus contains both of them.
pub proof fn lemma_rect_covers_ends(rect: RectSelection)
    ensures
        rect.covers(rect.anchor),
        rect.covers(rect.focus),
{
}

/// What is selected: a rectangle of cells, a range of rows, a range of
/// columns, or everything.
#[derive(Debug, Clone, Copy, PartialEq, Eq, Structural)]
pub enum Selection {
    Cell(RectSelection),
    Row { anchor: usize, focus: usize },
    Column { anchor: usize, focus: usize },
    All,
}

impl Default for Selection {
    fn default() -> (s: Self)
        ensures
            s == Selection::Cell(RectSelection { anchor: Cell { row: 0, column: 0 }, focus: Cell { row: 0, column: 0 } }),
    {
        Selection::Cell(RectSelection::new(Cell { row: 0, column: 0 }))
    }
}

/// A position moved by `delta` (saturating at the ends of `usize`) and kept
/// below `limit` (at 0 when the limit is 0).
pub open spec fn stepped(position: usize, delta: isize, limit: usize) -> usize {
    let moved: int = if position + delta < 0 {
        0
    } else if position + delta > usize::MAX {
        usize::MAX as int
    } else {
        position + delta
    };
    let last: int = if limit == 0 {
        0
    } else {
        limit - 1
    };
    (if moved < last {
        moved
    } else {
        last
    }) as usize
}

/// Moves a position by `delta`, saturating, and keeps it below `limit`.
pub fn step_position(position: usize, delta: isize, limit: usize) -> (r: usize)
    ensures
        r == stepped(position, delta, limit),
{
    let moved = match position.checked_add_signed(delta) {
        Some(v) => v,
        None => if delta < 0 {
            0
        } else {
            usize::MAX
        },
    };
    let last = limit.saturating_sub(1);
    if moved < last {
        moved
    } else {
        last
    }
}

/// A stepped position lies below a positive limit.
pub proof fn lemma_stepped_in_range(position: usize, delta: isize, limit: usize)
    requires
        limit > 0,
    ensures
        stepped(position, delta, limit) < limit,
{
}

impl Selection {
    /// The cell that keyboard actions start from.
    pub open spec fn spec_active_cell(self) -> Cell {
        match self {
            Selection::Cell(rect) => rect.focus,
            Selection::Row { focus, .. } => Cell { row: focus, column: 0 },
            Selection::Column { focus, .. } => Cell { row: 0, column: focus },
            Selection::All => Cell { row: 0, column: 0 },
        }
    }

    /// The cell that keyboard actions start from: the focus of a rectangle,
    /// the first cell of the focus row or column, or the first cell.
    pub fn active_cell(&self) -> (c: Cell)
        ensures
            c == self.spec_active_cell(),
    {
        match self {
            Selection::Cell(rect) => rect.focus,
            Selection::Row { focus, .. } => Cell { row: *focus, column: 0 },
            Selection::Column { focus, .. } => Cell { row: 0, column: *focus },
            Selection::All => Cell { row: 0, column: 0 },
        }
    }

    /// Selects the single cell reached by moving the active cell by
    /// `rows` and `columns`, kept inside the table.
    pub fn move_by(&mut self, rows: isize, columns: isize, row_limit: usize, column_limit: usize)
        ensures
            ({
                let a = old(self).spec_active_cell();
                let c = Cell {
                    row: stepped(a.row, rows, row_limit),
                    column: stepped(a.column, columns, column_limit),
                };
                *final(self) == Selection::Cell(RectSelection { anchor: c, focus: c })
            }),
    {
        let active = self.active_cell();
        let row = step_position(active.row, rows, row_limit);
        let column = step_position(active.column, columns, column_limit);
        *self = Selection::Cell(RectSelection::new(Cell { row, column }));
    }

    /// Moves the focus of a rectangle by `rows` and `columns`, kept inside
    /// the table; any other selection becomes the single cell reached.
    pub fn extend_by(&mut self, rows: isize, columns: isize, row_limit: usize, column_limit: usize)
        ensures
            ({
                let a = old(self).spec_active_cell();
                let c = Cell {
                    row: stepped(a.row, rows, row_limit),
                    column: stepped(a.column, columns, column_limit),
                };
                match *old(self) {
                    Selection::Cell(rect) => *final(self) == Selection::Cell(
                        RectSelection { anchor: rect.anchor, focus: c },
                    ),
                    _ => *final(self) == Selection::Cell(RectSelection { anchor: c, focus: c }),
                }
            }),
    {
        let active = self.active_cell();
        let row = step_position(active.row, rows, row_limit);
        let column = step_position(active.column, columns, column_limit);
        match self {
            Selection::Cell(rect) => {
                let mut r = *rect;
                r.extend_to(Cell { row, column });
                *self = Selection::Cell(r);
            },
            _ => {
                *self = Selection::Cell(RectSelection::new(Cell { row, column }));
            },
        }
    }
}

} // verus!
