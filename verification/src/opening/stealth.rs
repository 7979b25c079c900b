use vstd::prelude::*;

use crate::board::Board;
use crate::movegen::{rect_area, rect_in_board};
use crate::types::{is_pass, Move, COLS, PASS, ROWS};

verus! {

/// Distance of a rectangle's middle from the board's centre, squared, on rows and columns
/// (middles and centre rounded down).
pub open spec fn center_dist_sq(mv: Move) -> int {
    let dx = (mv.0 + mv.2) / 2 - ROWS as int / 2;
    let dy = (mv.1 + mv.3) / 2 - COLS as int / 2;
    dx * dx + dy * dy
}

/// The stealth bonus for playing `mv` with `live` live cells, `child_live` left after it:
/// none for the pass or with fewer than 24 live cells; otherwise minus 8 for an area of at
/// least 12 (minus 3 for at least 8), plus 10 when the middle lies within distance 3 of the
/// centre (5 within 6), plus 7 when more than half of the live cells are left.
pub open spec fn spec_stealth_bonus(mv: Move, live: int, child_live: int) -> int {
    if mv == PASS || live < 24 {
        0
    } else {
        let area = rect_area(mv);
        let density = if area >= 12 {
            8int
        } else if area >= 8 {
            3int
        } else {
            0int
        };
        let d = center_dist_sq(mv);
        let center = if d < 9 {
            10int
        } else if d < 36 {
            5int
        } else {
            0int
        };
        let fragmentation = if 2 * child_live > live {
            7int
        } else {
            0int
        };
        center + fragmentation - density
    }
}

/// The stealth bonus for playing `mv` on `board`, which gives `child`; see
/// `spec_stealth_bonus`. With 24 live cells or more the rectangle's area is computed in
/// `i8`, so it must stay below 128.
pub fn stealth_bonus(board: &Board, mv: Move, child: &Board) -> (b: i32)
    requires
        mv == PASS || rect_in_board(mv),
        mv != PASS && board.live_mask.count() >= 24 ==> rect_area(mv) <= i8::MAX,
    ensures
        b == spec_stealth_bonus(mv, board.live_mask.count() as int, child.live_mask.count() as int),
{
    if is_pass(mv) {
        return 0;
    }
    let live = board.live_mask.popcount();
    if live < 24 {
        return 0;
    }
    let (r1, c1, r2, c2) = mv;
    let child_opp_live = child.live_mask.popcount();
    proof {
        assert((r2 - r1 + 1) * (c2 - c1 + 1) == rect_area(mv));
        assert(0 <= (r2 - r1 + 1) * (c2 - c1 + 1)) by (nonlinear_arith)
            requires
                r1 <= r2,
                c1 <= c2,
        ;
    }
    let area: i8 = (r2 - r1 + 1) * (c2 - c1 + 1);
    let density_penalty: i32 = if area >= 12 {
        8
    } else if area >= 8 {
        3
    } else {
        0
    };
    let center_x: i8 = 5;
    let center_y: i8 = 8;
    let dx: i32 = ((r1 + r2) / 2 - center_x) as i32;
    let dy: i32 = ((c1 + c2) / 2 - center_y) as i32;
    assert(-5 <= dx <= 4 && -8 <= dy <= 8);
    assert(0 <= dx * dx <= 25 && 0 <= dy * dy <= 64) by (nonlinear_arith)
        requires
            -5 <= dx <= 4,
            -8 <= dy <= 8,
    ;
    let dist_sq = dx * dx + dy * dy;
    let center_bonus: i32 = if dist_sq < 9 {
        10
    } else if dist_sq < 36 {
        5
    } else {
        0
    };
    let fragmentation_bonus: i32 = if 2 * (child_opp_live as u64) > live as u64 {
        7
    } else {
        0
    };
    -density_penalty + center_bonus + fragmentation_bonus
}

} // verus!
