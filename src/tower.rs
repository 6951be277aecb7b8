use vstd::prelude::*;

use crate::color::Color;

verus! {

/// One tower of the inventory, or the contents of one board cell. A cell whose
/// `inuse` is false is empty, whatever its other fields hold.
#[derive(Clone, Copy, Debug)]
pub struct Tower {
    pub height: i8,
    pub color: Color,
    pub inuse: bool,
}

impl Tower {
    pub fn new(height: i8, color: Color, inuse: bool) -> (r: Tower)
        ensures
            r == (Tower { height, color, inuse }),
    {
        Tower { height: height, color: color, inuse: inuse }
    }
}

/// What identifies a tower: its height and the number of its color.
pub open spec fn key(t: Tower) -> (int, int) {
    (t.height as int, t.color.index())
}

/// A cursor on the board. Rows run 0 to 5 from the top, columns 0 to 5 from the
/// left; a row of -1 marks that the search is over.
#[derive(Clone, Copy, Debug, PartialEq, Eq, Structural)]
pub struct Position {
    pub row: i8,
    pub column: i8,
}

impl Position {
    pub fn new(row: i8, column: i8) -> (r: Position)
        ensures
            r == (Position { row, column }),
    {
        Position { row: row, column: column }
    }
}

/// The cursor names a cell of the board.
pub open spec fn on_grid(p: Position) -> bool {
    0 <= p.row < 6 && 0 <= p.column < 6
}

/// The cursor is the end-of-search mark.
pub open spec fn is_sentinel(p: Position) -> bool {
    p.row == -1 || p.column == -1
}

/// Index of the cursor's cell in the row-major board.
pub open spec fn cell_index(p: Position) -> int {
    p.row * 6 + p.column
}

/// Place of a cell in the serpentine walk: each row is walked from its last
/// column to its first, rows from top to bottom.
pub open spec fn walk_index(p: Position) -> int {
    p.row * 6 + (5 - p.column)
}

/// The cell before `p` in the walk.
pub open spec fn spec_back(p: Position) -> Position {
    if p.column + 1 > 5 {
        Position { row: (p.row - 1) as i8, column: 0 }
    } else {
        Position { row: p.row, column: (p.column + 1) as i8 }
    }
}

/// The cell after `p` in the walk; from the last cell the walk turns back.
pub open spec fn spec_advance(p: Position) -> Position {
    if p.row == 5 && p.column == 0 {
        spec_back(p)
    } else if p.column - 1 < 0 {
        Position { row: (p.row + 1) as i8, column: 5 }
    } else {
        Position { row: p.row, column: (p.column - 1) as i8 }
    }
}

pub fn back_position(p: Position) -> (r: Position)
    requires
        on_grid(p),
    ensures
        r == spec_back(p),
{
    let column = p.column + 1;
    if column > 5 {
        return Position::new(p.row - 1, 0);
    }
    Position::new(p.row, p.column + 1)
}

pub fn advance_position(p: Position) -> (r: Position)
    requires
        on_grid(p),
    ensures
        r == spec_advance(p),
{
    if p.row == 5 && p.column == 0 {
        return back_position(p);
    }
    let column = p.column - 1;
    if column < 0 {
        return Position::new(p.row + 1, 5);
    }
    Position::new(p.row, p.column - 1)
}

/// Stepping back moves one place down the walk; from the first cell it
/// reaches the end-of-search mark, and otherwise it stays on the board.
pub proof fn lemma_back_walk(p: Position)
    requires
        on_grid(p),
    ensures
        walk_index(spec_back(p)) == walk_index(p) - 1,
        walk_index(p) == 0 ==> is_sentinel(spec_back(p)),
        walk_index(p) > 0 ==> on_grid(spec_back(p)),
        0 <= spec_back(p).column < 6,
{
}

/// Stepping forward moves one place up the walk, except from the last cell,
/// where it steps back.
pub proof fn lemma_advance_walk(p: Position)
    requires
        on_grid(p),
    ensures
        walk_index(p) < 35 ==> walk_index(spec_advance(p)) == walk_index(p) + 1
            && on_grid(spec_advance(p)),
        walk_index(p) == 35 ==> spec_advance(p) == spec_back(p),
{
}

} // verus!
