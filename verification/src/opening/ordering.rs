use vstd::prelude::*;

use crate::board::Board;
use crate::eval::{compute_move_features, spec_move_features, MoveFeatures};
use crate::movegen::{fixed_rect_id, rect_in_board, spec_fixed_rect_id, RectInfo};
use crate::mquality::MoveQualityTable;
use crate::bots::cordyceps_timeman::trunc_div;
use crate::types::{Move, COLS, PASS, ROWS};

verus! {

/// The opening ordering bonus of rectangle `mv` with features `f` on a board with `live`
/// live cells, before any move-quality bonus: nothing with at most 24 live cells; else 40
/// per corner, 15 per border cell, per cell 14 (ten cells or more), 8 (seven or more) or 3
/// (four or more), 20 per opponent cell taken, less 15 per own cell, 8 per unowned cell, 5
/// per live cell, 50 for spanning the board's height or width, and 50 more per opponent
/// cell inside.
pub open spec fn spec_opening_bonus(f: MoveFeatures, live: int, mv: Move) -> int {
    if live <= 24 {
        0
    } else {
        f.corner * 40 + f.edge * 15 + (if f.area >= 10 {
            f.area * 14
        } else if f.area >= 7 {
            f.area * 8
        } else if f.area >= 4 {
            f.area * 3
        } else {
            0
        }) + f.recaptured * 20 - f.own * 15 + f.fresh * 8 + f.live * 5 + (if (mv.0 == 0 && mv.2
            == ROWS - 1) || (mv.1 == 0 && mv.3 == COLS - 1) {
            50int
        } else {
            0int
        }) + f.recaptured * 50
    }
}

/// The opening ordering bonus of `mv` before any move-quality bonus; see
/// `spec_opening_bonus`.
pub fn opening_move_bonus(board: &Board, mv: Move, rects: &[RectInfo]) -> (b: i32)
    requires
        rect_in_board(mv) || (mv == PASS && board.live_mask.count() <= 24),
    ensures
        b == spec_opening_bonus(
            spec_move_features(board.values@, board.owners@, board.player, mv),
            board.live_mask.count() as int,
            mv,
        ),
{
    let features = compute_move_features(board, mv);
    let board_live = board.live_mask.popcount() as i32;
    if board_live <= 24 {
        return 0;
    }
    let mut bonus = 0i32;
    bonus += features.corner * 40;
    bonus += features.edge * 15;
    if features.area >= 10 {
        bonus += features.area * 14;
    } else if features.area >= 7 {
        bonus += features.area * 8;
    } else if features.area >= 4 {
        bonus += features.area * 3;
    }
    bonus += features.recaptured * 20;
    bonus -= features.own * 15;
    bonus += features.fresh * 8;
    bonus += features.live * 5;
    if (mv.0 == 0 && mv.2 == 9) || (mv.1 == 0 && mv.3 == 16) {
        bonus += 50;
    }
    let opp_cells_nearby = features.recaptured;
    bonus += opp_cells_nearby * 50;
    bonus
}

/// Where the move-quality table is looked up for `mv` in the opening: the rectangle's fixed
/// identifier, the position's phase, and the bucket of `base_score + bonus`.
pub fn opening_mquality_key(board: &Board, mv: Move, rects: &[RectInfo], base_score: i32, bonus: i32) -> (key: (usize, usize, usize))
    requires
        rect_in_board(mv),
        i32::MIN <= base_score + bonus <= i32::MAX,
    ensures
        key.0 == spec_fixed_rect_id(mv.0 as int, mv.1 as int, mv.2 as int, mv.3 as int),
        key.1 == (if board.live_mask.count() <= 12 || rects@.len() <= 10 {
            2usize
        } else if board.live_mask.count() <= 25 || rects@.len() <= 24 {
            1usize
        } else {
            0usize
        }),
        key.2 == ({
            let x = trunc_div(base_score + bonus, 150) + 4;
            if x < 0 {
                0
            } else if x > 7 {
                7
            } else {
                x
            }
        }),
{
    let phase = MoveQualityTable::phase_for_position(board.live_mask.popcount(), rects.len());
    let bucket = MoveQualityTable::score_bucket(base_score + bonus);
    let r_id = fixed_rect_id(mv.0, mv.1, mv.2, mv.3);
    (r_id as usize, phase, bucket)
}

} // verus!
