use vstd::prelude::*;

use crate::board::{fresh_pred, lemma_count_bound, owned_by_pred, spec_action_score, Board};
use crate::bots::agent_eval::{
    lemma_stable_sorted_ascending, lemma_stable_sorted_keeps, sort_stable, stable_sorted, unkeyed,
    PrioMove,
};
use crate::bots::zoo_rng::{lcg_next, LCG_INC, LCG_MUL};
use crate::movegen::{moves_of, rect_area, rect_in_board, RectInfo};
use crate::types::{spec_opponent, Move, N_CELLS};

verus! {

/// The rollout generator: a linear congruential state.
pub struct Rng(pub u64);

/// The 32-bit output that state `s` (already advanced) gives: its high half.
pub open spec fn high_half(s: u64) -> u32 {
    (s >> 32u64) as u32
}

impl Rng {
    /// A generator with state `seed`.
    pub fn new(seed: u64) -> (g: Rng)
        ensures
            g.0 == seed,
    {
        Rng(seed)
    }

    /// Advances the state one step and returns its high half.
    pub fn next_u32(&mut self) -> (x: u32)
        ensures
            final(self).0 == lcg_next(old(self).0),
            x == high_half(final(self).0),
    {
        self.0 = self.0.wrapping_mul(LCG_MUL).wrapping_add(LCG_INC);
        (self.0 >> 32u64) as u32
    }

    /// 0 when `upper <= 1` (state unchanged); else the next output modulo `upper`.
    pub fn gen_range(&mut self, upper: usize) -> (x: usize)
        ensures
            upper <= 1 ==> x == 0 && final(self).0 == old(self).0,
            upper > 1 ==> final(self).0 == lcg_next(old(self).0) && x == (high_half(
                final(self).0,
            ) as usize) % upper,
            upper > 1 ==> x < upper,
    {
        if upper <= 1 {
            return 0;
        }
        (self.next_u32() as usize) % upper
    }
}

/// The rollout score of `mv` on `b`: the first ordering score, plus 25 per opponent cell,
/// 5 per unowned cell and 3 per cell (see `spec_action_score`).
pub open spec fn rollout_score(b: Board, mv: Move) -> int {
    let s = spec_action_score(b.values@, b.owners@, b.player, mv);
    s.0 + s.1 * 25 + s.2 * 5 + s.5 * 3
}

/// The moves with their rollout scores, keyed for an order by score, highest first.
pub open spec fn rollout_keyed(b: Board, moves: Seq<Move>) -> Seq<(i64, PrioMove)> {
    moves.map_values(
        |mv: Move|
            (
                (-rollout_score(b, mv)) as i64,
                (rollout_score(b, mv) as i32, mv.0, mv.1, mv.2, mv.3),
            ),
    )
}

/// The moves ordered by rollout score, highest first, equal scores in their order.
pub open spec fn rollout_ranked(b: Board, moves: Seq<Move>) -> Seq<PrioMove> {
    unkeyed(stable_sorted(rollout_keyed(b, moves)))
}

/// The rollout score of a rectangle on the board lies in `0..=10000`.
proof fn lemma_rollout_score_range(b: Board, mv: Move)
    requires
        rect_in_board(mv),
    ensures
        0 <= rollout_score(b, mv) <= 10000,
{
    let opp = spec_opponent(b.player);
    lemma_count_bound(mv, fresh_pred(b.owners@), N_CELLS as nat);
    lemma_count_bound(mv, owned_by_pred(b.owners@, opp), N_CELLS as nat);
    assert(rect_area(mv) <= N_CELLS) by (nonlinear_arith)
        requires
            rect_in_board(mv),
    ;
    assert(rect_area(mv) >= 1) by (nonlinear_arith)
        requires
            rect_in_board(mv),
    ;
}

/// The move of a ranked entry.
pub open spec fn ranked_move(e: PrioMove) -> Move {
    (e.1, e.2, e.3, e.4)
}

/// Rollout moves are ranked by rollout score, highest first: for rectangles on the board,
/// the ranking holds as many entries as there are moves, each one of the moves with its
/// rollout score, and the scores never rise along it, so that an entry among the first `n`
/// scores at least as much as every entry after them.
pub proof fn lemma_rollout_ranked_order(b: Board, moves: Seq<Move>)
    requires
        forall|k: int| 0 <= k < moves.len() ==> rect_in_board(#[trigger] moves[k]),
    ensures
        rollout_ranked(b, moves).len() == moves.len(),
        forall|i: int|
            0 <= i < moves.len() ==> moves.contains(ranked_move(#[trigger] rollout_ranked(b, moves)[i]))
                && rollout_ranked(b, moves)[i].0 == rollout_score(
                b,
                ranked_move(rollout_ranked(b, moves)[i]),
            ),
        forall|i: int, j: int|
            0 <= i < j < moves.len() ==> rollout_score(b, ranked_move(#[trigger] rollout_ranked(b, moves)[i]))
                >= rollout_score(b, ranked_move(#[trigger] rollout_ranked(b, moves)[j])),
{
    let keyed = rollout_keyed(b, moves);
    let sorted = stable_sorted(keyed);
    let good = |e: (i64, PrioMove)|
        moves.contains(ranked_move(e.1)) && 0 <= rollout_score(b, ranked_move(e.1)) <= 10000 && e.0 == (
        -rollout_score(b, ranked_move(e.1))) as i64 && e.1.0 == rollout_score(b, ranked_move(e.1));
    assert forall|i: int| 0 <= i < keyed.len() implies #[trigger] good(keyed[i]) by {
        lemma_rollout_score_range(b, moves[i]);
        assert(ranked_move(keyed[i].1) == moves[i]);
    }
    lemma_stable_sorted_ascending(keyed);
    lemma_stable_sorted_keeps(keyed, good);
    let ranked = rollout_ranked(b, moves);
    assert forall|i: int| 0 <= i < moves.len() implies moves.contains(ranked_move(#[trigger] ranked[i]))
        && ranked[i].0 == rollout_score(b, ranked_move(ranked[i])) by {
        assert(good(sorted[i]));
    }
    assert forall|i: int, j: int| 0 <= i < j < moves.len() implies rollout_score(
        b,
        ranked_move(#[trigger] ranked[i]),
    ) >= rollout_score(b, ranked_move(#[trigger] ranked[j])) by {
        assert(good(sorted[i]));
        assert(good(sorted[j]));
        assert(sorted[i].0 <= sorted[j].0);
    }
}

/// The rollout policy's move on `b` among the rectangles `rects`: one of the (up to) four
/// with the best rollout scores, drawn with `rng`.
pub fn choose_rollout_move(board: &Board, rects: &[RectInfo], rng: &mut Rng) -> (mv: Move)
    requires
        rects@.len() > 0,
        forall|k: int| 0 <= k < rects@.len() ==> (#[trigger] rects@[k]).describes(board.values@),
    ensures
        ({
            let ranked = rollout_ranked(*board, moves_of(rects@));
            let top = if rects@.len() < 4 { rects@.len() as int } else { 4 };
            let k = if top <= 1 {
                0
            } else {
                ((high_half(lcg_next(old(rng).0)) as usize) % (top as usize)) as int
            };
            &&& mv == (ranked[k].1, ranked[k].2, ranked[k].3, ranked[k].4)
            &&& moves_of(rects@).contains(mv)
            &&& forall|j: int|
                k <= j < rects@.len() ==> rollout_score(*board, mv) >= rollout_score(
                    *board,
                    ranked_move(#[trigger] ranked[j]),
                )
            &&& top <= 1 ==> final(rng).0 == old(rng).0
            &&& top > 1 ==> final(rng).0 == lcg_next(old(rng).0)
        }),
{
    let ghost ms = moves_of(rects@);
    let ghost all = rollout_keyed(*board, ms);
    let mut scored: Vec<(i64, PrioMove)> = Vec::new();
    let mut i: usize = 0;
    while i < rects.len()
        invariant
            i <= rects@.len(),
            ms == moves_of(rects@),
            all == rollout_keyed(*board, ms),
            forall|k: int| 0 <= k < rects@.len() ==> (#[trigger] rects@[k]).describes(
                board.values@,
            ),
            scored@ == all.subrange(0, i as int),
        decreases rects@.len() - i,
    {
        let mv = rects[i].to_move();
        proof {
            assert(rects@[i as int].describes(board.values@));
            assert(ms[i as int] == mv);
        }
        let (sd, rec, fresh, _live, _net, area) = board.action_score(mv);
        let score = sd + rec * 25 + fresh * 5 + area * 3;
        scored.push((-(score as i64), (score, mv.0, mv.1, mv.2, mv.3)));
        proof {
            assert(scored@ =~= all.subrange(0, i + 1));
        }
        i += 1;
    }
    proof {
        assert(all.subrange(0, rects@.len() as int) =~= all);
    }
    let sorted = sort_stable(&scored);
    proof {
        lemma_stable_sorted_ascending(scored@);
    }
    let top_n = if sorted.len() < 4 {
        sorted.len()
    } else {
        4
    };
    let idx = rng.gen_range(top_n);
    let e = sorted[idx].1;
    proof {
        assert forall|k: int| 0 <= k < ms.len() implies rect_in_board(#[trigger] ms[k]) by {
            assert(rects@[k].describes(board.values@));
        }
        lemma_rollout_ranked_order(*board, ms);
        let ranked = rollout_ranked(*board, ms);
        assert(ranked[idx as int] == e);
    }
    (e.1, e.2, e.3, e.4)
}

} // verus!
