use vstd::prelude::*;

verus! {

/// Number of rows of the board.
pub const ROWS: usize = 10;
/// Number of columns of the board.
pub const COLS: usize = 17;
/// Number of cells of the board.
pub const N_CELLS: usize = 170;
/// Number of axis-aligned rectangles that fit on the board.
pub const N_RECTS: usize = 8415;

/// The first player's identifier.
pub const FIRST: i8 = 1;
/// The second player's identifier.
pub const SECOND: i8 = 2;

/// A move: `(r1, c1, r2, c2)`, the corners of a rectangle, or `PASS`.
pub type Move = (i8, i8, i8, i8);

/// The pass move.
pub const PASS: Move = (-1, -1, -1, -1);

pub open spec fn spec_opponent(player: i8) -> i8 {
    if player == FIRST { SECOND } else { FIRST }
}

/// The player who moves after `player`.
pub fn opponent(player: i8) -> (r: i8)
    ensures
        r == spec_opponent(player),
{
    if player == FIRST { SECOND } else { FIRST }
}

pub open spec fn spec_cell_index(r: int, c: int) -> int {
    r * COLS + c
}

/// Flat index of cell `(r, c)`.
pub fn cell_index(r: usize, c: usize) -> (idx: usize)
    requires
        r < ROWS,
        c < COLS,
    ensures
        idx == spec_cell_index(r as int, c as int),
        idx < N_CELLS,
{
    r * COLS + c
}


/// Whether two moves are the same.
pub fn same_move(a: Move, b: Move) -> (eq: bool)
    ensures
        eq == (a == b),
{
    a.0 == b.0 && a.1 == b.1 && a.2 == b.2 && a.3 == b.3
}

/// Whether `mv` is the pass move.
pub fn is_pass(mv: Move) -> (b: bool)
    ensures
        b == (mv == PASS),
{
    same_move(mv, PASS)
}

} // verus!
