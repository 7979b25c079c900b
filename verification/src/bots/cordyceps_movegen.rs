use vstd::prelude::*;

use crate::board::{live_below, Board};
use crate::bots::cordyceps_board::legal_moves;
use crate::movegen::legal_rects;
use crate::types::{Move, N_CELLS};

verus! {

/// The legal rectangles of the board, as moves, in generation order.
pub fn generate_moves(board: &Board) -> (moves: Vec<Move>)
    ensures
        moves@ == legal_rects(board.values@),
{
    legal_moves(board)
}

/// Number of live cells.
pub fn live_mushrooms(board: &Board) -> (n: i32)
    ensures
        n == live_below(board.values@, N_CELLS as nat),
{
    let mut n = 0i32;
    let mut i: usize = 0;
    while i < N_CELLS
        invariant
            i <= N_CELLS,
            n == live_below(board.values@, i as nat),
            n <= i,
        decreases N_CELLS - i,
    {
        if board.values[i] > 0 {
            n += 1;
        }
        i += 1;
    }
    n
}

} // verus!
