use vstd::prelude::*;

use crate::board::Board;
use crate::eval::{compute_move_features, spec_move_features, MoveFeatures};
use crate::movegen::{rect_in_board, RectInfo};
use crate::types::{Move, PASS};

verus! {

/// The endgame ordering bonus of a move with features `f` on a board with `live` live
/// cells, the side to move owning `mine` cells and its opponent `theirs`: nothing above 12
/// live cells; else 30 per opponent cell taken, 5 per unowned cell, 20 per corner, 12 per
/// border cell, 4 per cell for rectangles of four cells or more, and 40 for taking opponent
/// cells while behind.
pub open spec fn spec_endgame_bonus(f: MoveFeatures, live: int, mine: int, theirs: int) -> int {
    if live > 12 {
        0
    } else {
        f.recaptured * 30 + f.fresh * 5 + f.corner * 20 + f.edge * 12 + (if f.area >= 4 {
            f.area * 4
        } else {
            0
        }) + (if theirs > mine && f.recaptured > 0 {
            40int
        } else {
            0int
        })
    }
}

/// The endgame ordering bonus of `mv`; see `spec_endgame_bonus`.
pub fn endgame_move_bonus(board: &Board, mv: Move, _rects: &[RectInfo]) -> (b: i32)
    requires
        mv == PASS || rect_in_board(mv),
    ensures
        b == spec_endgame_bonus(
            spec_move_features(board.values@, board.owners@, board.player, mv),
            board.live_mask.count() as int,
            board.my_mask.count() as int,
            board.opp_mask.count() as int,
        ),
{
    let features = compute_move_features(board, mv);
    let board_live = board.live_mask.popcount() as i32;
    if board_live > 12 {
        return 0;
    }
    let mut bonus = 0i32;
    bonus += features.recaptured * 30;
    bonus += features.fresh * 5;
    bonus += features.corner * 20;
    bonus += features.edge * 12;
    if features.area >= 4 {
        bonus += features.area * 4;
    }
    let opponent_score = board.opp_mask.popcount() as i32;
    if opponent_score > board.my_mask.popcount() as i32 && features.recaptured > 0 {
        bonus += 40;
    }
    bonus
}

} // verus!
