use vstd::prelude::*;

use crate::board::Board;
use crate::bots::zoo_keys::{key_less, key_lt, key_of, move_key, spec_key, Key8, KeyKind};
use crate::bots::zoo_rng::{lcg_next, ZooRng};
use crate::movegen::{generate_rectangles, legal_rects, moves_of, valid_rect};
use crate::types::{Move, PASS};

verus! {

/// Position, among `moves`, of the last move with the greatest key for ranking `kind`.
pub open spec fn last_best(kind: KeyKind, b: Board, moves: Seq<Move>) -> int
    decreases moves.len(),
{
    if moves.len() <= 1 {
        0
    } else {
        let j = last_best(kind, b, moves.drop_last());
        if key_lt(spec_key(kind, b, moves.last()), spec_key(kind, b, moves[j])) {
            j
        } else {
            moves.len() - 1
        }
    }
}

/// The legal rectangle with the greatest key for ranking `kind`, the last such in
/// generation order; the pass when there is none.
pub open spec fn spec_best_move(kind: KeyKind, b: Board) -> Move {
    let ms = legal_rects(b.values@);
    if ms.len() == 0 {
        PASS
    } else {
        ms[last_best(kind, b, ms)]
    }
}

proof fn lemma_last_best_bound(kind: KeyKind, b: Board, moves: Seq<Move>)
    requires
        moves.len() > 0,
    ensures
        0 <= last_best(kind, b, moves) < moves.len(),
    decreases moves.len(),
{
    if moves.len() > 1 {
        lemma_last_best_bound(kind, b, moves.drop_last());
    }
}

/// The legal rectangle with the greatest key for `kind`; see `spec_best_move`.
pub fn best_by_key(board: &Board, kind: KeyKind) -> (mv: Move)
    ensures
        mv == spec_best_move(kind, *board),
{
    let rects = generate_rectangles(&board.values);
    let ghost ms = moves_of(rects@);
    if rects.len() == 0 {
        return PASS;
    }
    let mut best = rects[0].to_move();
    proof {
        assert(rects@[0].describes(board.values@));
    }
    let mut best_key = key_of(&kind, board, best);
    let ghost mut j: int = 0;
    let mut i: usize = 1;
    while i < rects.len()
        invariant
            1 <= i <= rects@.len(),
            ms == moves_of(rects@),
            forall|k: int| 0 <= k < rects@.len() ==> (#[trigger] rects@[k]).describes(
                board.values@,
            ),
            j == last_best(kind, *board, ms.subrange(0, i as int)),
            0 <= j < i,
            best == ms[j],
            best_key == spec_key(kind, *board, best),
        decreases rects@.len() - i,
    {
        let m = rects[i].to_move();
        proof {
            assert(rects@[i as int].describes(board.values@));
            assert(ms.subrange(0, i + 1).drop_last() =~= ms.subrange(0, i as int));
            assert(ms.subrange(0, i + 1).last() == m);
            assert(ms.subrange(0, i + 1)[j] == ms[j]);
        }
        let k = key_of(&kind, board, m);
        if !key_less(k, best_key) {
            best = m;
            best_key = k;
            proof {
                j = i as int;
            }
        }
        i += 1;
    }
    proof {
        assert(ms.subrange(0, rects@.len() as int) =~= ms);
    }
    best
}

/// The legal rectangle with the greatest balanced key; see `spec_best_move`.
pub fn greedy_balanced_choice(board: &Board) -> (mv: Move)
    ensures
        mv == spec_best_move(KeyKind::Balanced, *board),
{
    best_by_key(board, KeyKind::Balanced)
}

/// Where a stable insertion, highest key first, puts key `k` into `s`: just after the last
/// entry, scanning from the end, whose key is not below `k`.
pub open spec fn first_below(s: Seq<(Key8, Move)>, k: Key8) -> int
    decreases s.len(),
{
    if s.len() == 0 {
        0
    } else if key_lt(s.last().0, k) {
        first_below(s.drop_last(), k)
    } else {
        s.len() as int
    }
}

/// `s` sorted by key, highest first, entries with equal keys kept in their order.
pub open spec fn sorted_desc(s: Seq<(Key8, Move)>) -> Seq<(Key8, Move)>
    decreases s.len(),
{
    if s.len() == 0 {
        s
    } else {
        let rest = sorted_desc(s.drop_last());
        rest.insert(first_below(rest, s.last().0), s.last())
    }
}

proof fn lemma_first_below_bound(s: Seq<(Key8, Move)>, k: Key8)
    ensures
        0 <= first_below(s, k) <= s.len(),
    decreases s.len(),
{
    if s.len() > 0 {
        lemma_first_below_bound(s.drop_last(), k);
    }
}

proof fn lemma_sorted_desc_len(s: Seq<(Key8, Move)>)
    ensures
        sorted_desc(s).len() == s.len(),
    decreases s.len(),
{
    if s.len() > 0 {
        lemma_sorted_desc_len(s.drop_last());
        lemma_first_below_bound(sorted_desc(s.drop_last()), s.last().0);
    }
}

/// The legal rectangles keyed by the balanced key, in generation order.
pub open spec fn balanced_keyed(b: Board) -> Seq<(Key8, Move)> {
    legal_rects(b.values@).map_values(|mv: Move| (spec_key(KeyKind::Balanced, b, mv), mv))
}

/// The legal rectangles ordered by the balanced key, highest first (stable).
pub open spec fn ranked_moves(b: Board) -> Seq<Move> {
    sorted_desc(balanced_keyed(b)).map_values(|e: (Key8, Move)| e.1)
}

/// `items` sorted by key, highest first and stable; see `sorted_desc`.
fn sort_desc(items: &Vec<(Key8, Move)>) -> (out: Vec<(Key8, Move)>)
    ensures
        out@ == sorted_desc(items@),
{
    let mut out: Vec<(Key8, Move)> = Vec::new();
    let mut i: usize = 0;
    while i < items.len()
        invariant
            i <= items@.len(),
            out@ == sorted_desc(items@.subrange(0, i as int)),
        decreases items@.len() - i,
    {
        let x = items[i];
        let mut j = out.len();
        proof {
            assert(out@.subrange(0, j as int) =~= out@);
        }
        while j > 0 && key_less(out[j - 1].0, x.0)
            invariant
                j <= out@.len(),
                first_below(out@, x.0) == first_below(out@.subrange(0, j as int), x.0),
            decreases j,
        {
            proof {
                assert(out@.subrange(0, j as int).drop_last() =~= out@.subrange(0, j - 1));
            }
            j -= 1;
        }
        proof {
            assert(items@.subrange(0, i + 1).drop_last() =~= items@.subrange(0, i as int));
            assert(items@.subrange(0, i + 1).last() == x);
            if j == 0 {
                assert(out@.subrange(0, 0) =~= Seq::<(Key8, Move)>::empty());
            }
        }
        out.insert(j, x);
        i += 1;
    }
    proof {
        assert(items@.subrange(0, items@.len() as int) =~= items@);
    }
    out
}

/// The move `random_top_choice` draws with generator state `state`, and the state after:
/// the pass when no rectangle is legal; else, with `top` the number that may be drawn
/// (`top_k`, at least one, at most all), position 0 of the ranked moves when `top` is 1
/// (state unchanged), and otherwise the position the next state gives modulo `top`.
pub open spec fn spec_random_top(b: Board, top_k: usize, state: u64) -> (Move, u64) {
    let ms = ranked_moves(b);
    let n = legal_rects(b.values@).len();
    let top = if top_k < 1 {
        1
    } else if top_k > n {
        n as int
    } else {
        top_k as int
    };
    if n == 0 {
        (PASS, state)
    } else if top <= 1 {
        (ms[0], state)
    } else {
        (ms[((lcg_next(state) as usize) % (top as usize)) as int], lcg_next(state))
    }
}

/// One of the best `top_k` legal rectangles (at least one, at most all) by the balanced
/// key, drawn with `rng`: the pass when there is none; else position 0 when only one may be
/// drawn (the generator untouched), and otherwise the generator's next value modulo the
/// number that may be drawn.
pub fn random_top_choice(board: &Board, top_k: usize, rng: &mut ZooRng) -> (mv: Move)
    ensures
        (mv, final(rng).0) == spec_random_top(*board, top_k, old(rng).0),
{
    let rects = generate_rectangles(&board.values);
    let ghost ms = moves_of(rects@);
    if rects.len() == 0 {
        return PASS;
    }
    let ghost all = balanced_keyed(*board);
    let mut keyed: Vec<(Key8, Move)> = Vec::new();
    let mut i: usize = 0;
    while i < rects.len()
        invariant
            i <= rects@.len(),
            ms == moves_of(rects@),
            ms == legal_rects(board.values@),
            all == balanced_keyed(*board),
            forall|k: int| 0 <= k < rects@.len() ==> (#[trigger] rects@[k]).describes(
                board.values@,
            ),
            keyed@ == all.subrange(0, i as int),
        decreases rects@.len() - i,
    {
        let m = rects[i].to_move();
        proof {
            assert(rects@[i as int].describes(board.values@));
            assert(ms[i as int] == m);
        }
        let k = move_key(board, m);
        keyed.push((k, m));
        proof {
            assert(keyed@ =~= all.subrange(0, i + 1));
        }
        i += 1;
    }
    proof {
        assert(all.subrange(0, rects@.len() as int) =~= all);
    }
    let sorted = sort_desc(&keyed);
    proof {
        lemma_sorted_desc_len(keyed@);
    }
    let n = sorted.len();
    let lo = if top_k > 1 {
        top_k
    } else {
        1
    };
    let top = if lo < n {
        lo
    } else {
        n
    };
    let idx = rng.gen_range(top);
    proof {
        if top > 1 {
            assert((rng.0 as usize) % top < top);
        }
    }
    sorted[idx].1
}

} // verus!
