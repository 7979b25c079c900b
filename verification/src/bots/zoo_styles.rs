use vstd::prelude::*;

use crate::board::{owned_count, Board};
use crate::bots::zoo_keys::KeyKind;
use crate::bots::zoo_rng::ZooRng;
use crate::bots::zoo_search::{
    greedy_balanced_choice, random_top_choice, spec_best_move, spec_random_top,
};
use crate::bots::zoo_utils::{legal_rectangles, live_count};
use crate::movegen::legal_rects;
use crate::types::{opponent, spec_opponent, Move, PASS};

verus! {

/// How many more cells the side to move owns than its opponent.
pub open spec fn lead(b: Board) -> int {
    owned_count(b.owners@, b.player) - owned_count(b.owners@, spec_opponent(b.player))
}

fn lead_of(board: &Board) -> (l: i32)
    requires
        board.wf(),
    ensures
        l == lead(*board),
{
    let opp = opponent(board.player);
    board.score(board.player) - board.score(opp)
}

/// The pass-abusing player: the pass when no rectangle is legal, when leading by 4 or more
/// with at most 6 legal rectangles, or with at most 12 live cells or at most 2 legal
/// rectangles; else the best balanced move.
pub open spec fn spec_pass_abuser(b: Board) -> Move {
    let n = legal_rects(b.values@).len();
    if n == 0 {
        PASS
    } else if lead(b) >= 4 && n <= 6 {
        PASS
    } else if b.live_mask.count() <= 12 || n <= 2 {
        PASS
    } else {
        spec_best_move(KeyKind::Balanced, b)
    }
}

/// The pass-abusing player's move; see `spec_pass_abuser`.
pub fn pass_abuser_choice(board: &Board) -> (mv: Move)
    requires
        board.wf(),
    ensures
        mv == spec_pass_abuser(*board),
{
    let rects = legal_rectangles(board);
    if rects.len() == 0 {
        return PASS;
    }
    let lead = lead_of(board);
    let live = live_count(board);
    if lead >= 4 && rects.len() <= 6 {
        return PASS;
    }
    if live <= 12 || rects.len() <= 2 {
        return PASS;
    }
    greedy_balanced_choice(board)
}

/// The pass-safe player's move: the pass when no rectangle is legal, or when leading by 8
/// or more with at most 18 live cells; else one of the best three balanced moves drawn with
/// `rng` (see `random_top_choice`).
pub fn pass_safe_choice(board: &Board, rng: &mut ZooRng) -> (mv: Move)
    requires
        board.wf(),
    ensures
        legal_rects(board.values@).len() == 0 ==> mv == PASS && final(rng).0 == old(rng).0,
        legal_rects(board.values@).len() > 0 && lead(*board) >= 8 && board.live_mask.count()
            <= 18 ==> mv == PASS && final(rng).0 == old(rng).0,
        legal_rects(board.values@).len() > 0 && !(lead(*board) >= 8 && board.live_mask.count()
            <= 18) ==> (mv, final(rng).0) == spec_random_top(*board, 3, old(rng).0),
{
    let rects = legal_rectangles(board);
    if rects.len() == 0 {
        return PASS;
    }
    let lead = lead_of(board);
    let live = live_count(board);
    if lead >= 8 && live <= 18 {
        return PASS;
    }
    random_top_choice(board, 3, rng)
}

} // verus!
