use vstd::prelude::*;

use crate::board::Board;
use crate::eval::{compute_move_features, spec_move_features, MoveFeatures};
use crate::movegen::{rect_in_board, RectInfo};
use crate::types::{Move, PASS};

verus! {

/// The middle-game ordering bonus of a move with features `f` on a board with `live` live
/// cells: nothing outside 13..=32 live cells; else 10 per opponent cell taken, 3 per unowned
/// cell, 5 per border cell, 3 per cell for rectangles of six cells or more, and with at most
/// 18 live cells 15 per corner and 8 more per opponent cell.
pub open spec fn spec_midgame_bonus(f: MoveFeatures, live: int) -> int {
    if live < 13 || live > 32 {
        0
    } else {
        f.recaptured * 10 + f.fresh * 3 + f.edge * 5 + (if f.area >= 6 {
            f.area * 3
        } else {
            0
        }) + (if live <= 18 {
            f.corner * 15 + f.recaptured * 8
        } else {
            0
        })
    }
}

/// The middle-game ordering bonus of `mv`; see `spec_midgame_bonus`.
pub fn midgame_move_bonus(board: &Board, mv: Move, _rects: &[RectInfo]) -> (b: i32)
    requires
        mv == PASS || rect_in_board(mv),
    ensures
        b == spec_midgame_bonus(
            spec_move_features(board.values@, board.owners@, board.player, mv),
            board.live_mask.count() as int,
        ),
{
    let features = compute_move_features(board, mv);
    let board_live = board.live_mask.popcount() as i32;
    if board_live < 13 || board_live > 32 {
        return 0;
    }
    let mut bonus = 0i32;
    bonus += features.recaptured * 10;
    bonus += features.fresh * 3;
    bonus += features.edge * 5;
    if features.area >= 6 {
        bonus += features.area * 3;
    }
    if board_live <= 18 {
        bonus += features.corner * 15;
        bonus += features.recaptured * 8;
    }
    bonus
}

} // verus!
