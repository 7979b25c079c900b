use vstd::prelude::*;

use crate::board::Board;
use crate::movegen::{generate_rectangles, legal_rects, moves_of};
use crate::types::Move;

verus! {

/// The legal rectangles of the board, as moves, in generation order.
pub fn legal_moves(board: &Board) -> (moves: Vec<Move>)
    ensures
        moves@ == legal_rects(board.values@),
{
    let rects = generate_rectangles(&board.values);
    let mut moves: Vec<Move> = Vec::new();
    let mut i: usize = 0;
    while i < rects.len()
        invariant
            i <= rects@.len(),
            moves@ == moves_of(rects@).subrange(0, i as int),
        decreases rects@.len() - i,
    {
        moves.push(rects[i].to_move());
        proof {
            assert(moves@ =~= moves_of(rects@).subrange(0, i + 1));
        }
        i += 1;
    }
    proof {
        assert(moves_of(rects@).subrange(0, rects@.len() as int) =~= moves_of(rects@));
    }
    moves
}

/// The game is over: both sides passed in a row.
pub fn is_terminal(board: &Board) -> (t: bool)
    ensures
        t == (board.passes >= 2),
{
    board.passes >= 2
}

} // verus!
