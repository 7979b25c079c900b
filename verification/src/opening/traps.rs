use vstd::prelude::*;

use crate::board::{spec_action_score, Board};
use crate::movegen::{generate_rectangles, legal_rects, moves_of};
use crate::types::{is_pass, Move, PASS};

verus! {

/// The trap book's bonus for a move that leaves the opponent `replies` legal rectangles and
/// takes the live cells from `live_before` to `live_after`: none for the pass; 50 when the
/// opponent has no reply, 25 with at most two, 10 with at most five; otherwise 15 when at
/// least 20 live cells went, 8 when at least 12 did, and none else.
pub open spec fn spec_trapbook_bonus(mv: Move, live_before: int, live_after: int, replies: int) -> int {
    let drop = if live_before > live_after { live_before - live_after } else { 0 };
    if mv == PASS {
        0
    } else if replies == 0 {
        50
    } else if replies <= 2 {
        25
    } else if replies <= 5 {
        10
    } else if drop >= 20 {
        15
    } else if drop >= 12 {
        8
    } else {
        0
    }
}

/// How dangerous a reply is for a squeeze: 30 per recaptured cell, 10 per fresh cell and
/// 10 per cell of its area.
pub open spec fn squeeze_weight(values: Seq<u8>, owners: Seq<i8>, player: i8, mv: Move) -> int {
    let sc = spec_action_score(values, owners, player, mv);
    sc.1 * 30 + sc.2 * 10 + sc.5 * 10
}

/// The greatest squeeze weight of the moves `replies`, and 0 when that is less or there is
/// no move.
pub open spec fn max_squeeze(values: Seq<u8>, owners: Seq<i8>, player: i8, replies: Seq<Move>) -> int
    decreases replies.len(),
{
    if replies.len() == 0 {
        0
    } else {
        let rest = max_squeeze(values, owners, player, replies.drop_last());
        let last = squeeze_weight(values, owners, player, replies.last());
        if last > rest {
            last
        } else {
            rest
        }
    }
}

/// The squeeze bonus for a best reply of weight `best`: 30 below 60, 15 below 120, 5 below
/// 200, else none.
pub open spec fn spec_squeeze_bonus(best: int) -> int {
    if best < 60 {
        30
    } else if best < 120 {
        15
    } else if best < 200 {
        5
    } else {
        0
    }
}

/// The trap book's bonus for playing `mv` on `board`, which gives `child`; see
/// `spec_trapbook_bonus`.
pub fn trapbook_bonus(board: &Board, mv: Move, child: &Board) -> (b: i32)
    ensures
        b == spec_trapbook_bonus(
            mv,
            board.live_mask.count() as int,
            child.live_mask.count() as int,
            legal_rects(child.values@).len() as int,
        ),
{
    if is_pass(mv) {
        return 0;
    }
    let child_rects = generate_rectangles(&child.values);
    proof {
        assert(moves_of(child_rects@).len() == child_rects@.len());
    }
    let opp_options = child_rects.len();
    if opp_options == 0 {
        return 50;
    }
    if opp_options <= 2 {
        return 25;
    }
    if opp_options <= 5 {
        return 10;
    }
    let before_live = board.live_mask.popcount();
    let after_live = child.live_mask.popcount();
    let live_drop = before_live.saturating_sub(after_live);
    if live_drop >= 20 {
        return 15;
    }
    if live_drop >= 12 {
        return 8;
    }
    0
}

/// The squeeze bonus of the position `child` the opponent has to move in: by the greatest
/// squeeze weight among its legal replies (see `max_squeeze`, `spec_squeeze_bonus`).
pub fn tactical_squeeze_bonus(child: &Board) -> (b: i32)
    requires
        child.wf(),
    ensures
        b == spec_squeeze_bonus(
            max_squeeze(child.values@, child.owners@, child.player, legal_rects(child.values@)),
        ),
{
    let child_rects = generate_rectangles(&child.values);
    let ghost ms = moves_of(child_rects@);
    let ghost v = child.values@;
    let ghost o = child.owners@;
    let ghost p = child.player;
    let mut best: i32 = 0;
    let mut i: usize = 0;
    proof {
        assert(ms.subrange(0, 0) =~= Seq::<Move>::empty());
    }
    while i < child_rects.len()
        invariant
            i <= child_rects@.len(),
            ms == moves_of(child_rects@),
            v == child.values@,
            o == child.owners@,
            p == child.player,
            forall|k: int| 0 <= k < child_rects@.len() ==> (#[trigger] child_rects@[k]).describes(v),
            best == max_squeeze(v, o, p, ms.subrange(0, i as int)),
            0 <= best <= 10 * crate::types::N_CELLS * 5,
        decreases child_rects@.len() - i,
    {
        let m = child_rects[i].to_move();
        proof {
            assert(ms[i as int] == m);
            assert(child_rects@[i as int].describes(v));
            assert(ms.subrange(0, i + 1).drop_last() =~= ms.subrange(0, i as int));
            assert(ms.subrange(0, i + 1).last() == m);
        }
        let sc = child.action_score(m);
        let w = sc.1 * 30 + sc.2 * 10 + sc.5 * 10;
        if w > best {
            best = w;
        }
        i += 1;
    }
    proof {
        assert(ms.subrange(0, child_rects@.len() as int) =~= ms);
    }
    if best < 60 {
        30
    } else if best < 120 {
        15
    } else if best < 200 {
        5
    } else {
        0
    }
}

} // verus!
