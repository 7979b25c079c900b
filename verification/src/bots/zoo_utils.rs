use vstd::prelude::*;

use crate::board::{spec_action_score, Board};
use crate::movegen::{generate_rectangles, legal_rects, moves_of, rect_in_board, RectInfo};
use crate::protocol::{
    lemma_int_text_reads_back, lemma_move_text_words, move_text, parse_i8, spec_parse_i8,
    spec_parse_u64, split_ws,
};
use crate::types::{Move, COLS, PASS, ROWS};

verus! {

/// The rectangle touches the border of the board.
pub open spec fn spec_is_edge(mv: Move) -> bool {
    mv.0 == 0 || mv.2 == ROWS - 1 || mv.1 == 0 || mv.3 == COLS - 1
}

/// The rectangle covers a corner of the board.
pub open spec fn spec_is_corner(mv: Move) -> bool {
    ||| (mv.0 == 0 && mv.1 == 0)
    ||| (mv.0 == 0 && mv.3 == COLS - 1)
    ||| (mv.2 == ROWS - 1 && mv.1 == 0)
    ||| (mv.2 == ROWS - 1 && mv.3 == COLS - 1)
}

/// Whether the rectangle touches the border; see `spec_is_edge`.
pub fn is_edge(mv: Move) -> (b: bool)
    ensures
        b == spec_is_edge(mv),
{
    mv.0 == 0 || mv.2 == 9 || mv.1 == 0 || mv.3 == 16
}

/// Whether the rectangle covers a corner; see `spec_is_corner`.
pub fn is_corner(mv: Move) -> (b: bool)
    ensures
        b == spec_is_corner(mv),
{
    (mv.0 == 0 && mv.1 == 0) || (mv.0 == 0 && mv.3 == 16) || (mv.2 == 9 && mv.1 == 0) || (mv.2
        == 9 && mv.3 == 16)
}

/// Number of live cells.
pub fn live_count(board: &Board) -> (n: u32)
    ensures
        n == board.live_mask.count(),
{
    board.live_mask.popcount()
}

/// The legal rectangles of the board, in generation order.
pub fn legal_rectangles(board: &Board) -> (rects: Vec<RectInfo>)
    ensures
        forall|k: int| 0 <= k < rects@.len() ==> (#[trigger] rects@[k]).describes(board.values@),
        moves_of(rects@) == legal_rects(board.values@),
{
    generate_rectangles(&board.values)
}

/// The greatest first ordering score (see `spec_action_score`) of the moves `replies`, for
/// the position given by `values`, `owners` and `player`; 0 for no move.
pub open spec fn max_reply_score(values: Seq<u8>, owners: Seq<i8>, player: i8, replies: Seq<Move>) -> int
    decreases replies.len(),
{
    if replies.len() == 0 {
        0
    } else if replies.len() == 1 {
        spec_action_score(values, owners, player, replies[0]).0
    } else {
        let rest = max_reply_score(values, owners, player, replies.drop_last());
        let last = spec_action_score(values, owners, player, replies.last()).0;
        if last > rest {
            last
        } else {
            rest
        }
    }
}

/// What the opponent can answer to `mv`: the greatest first ordering score among its legal
/// replies after `mv`, and how many replies there are; `(0, 0)` when there is none.
pub fn reply_pressure(board: &Board, mv: Move) -> (rp: (i32, usize))
    requires
        board.wf(),
        mv == PASS || rect_in_board(mv),
        mv == PASS ==> board.passes < 255,
    ensures
        ({
            let (v, o, p, n) = board.after(mv);
            &&& rp.1 == legal_rects(v).len()
            &&& rp.0 == max_reply_score(v, o, p, legal_rects(v))
        }),
{
    let next_state = board.apply_action(mv);
    let replies = generate_rectangles(&next_state.values);
    if replies.len() == 0 {
        proof {
            assert(moves_of(replies@).len() == 0);
        }
        return (0, 0);
    }
    let ghost ms = moves_of(replies@);
    let ghost v = next_state.values@;
    let ghost o = next_state.owners@;
    let ghost p = next_state.player;
    let first = replies[0].to_move();
    proof {
        assert(ms[0] == first);
        assert(replies@[0].describes(v));
        assert(ms.subrange(0, 1) =~= seq![first]);
    }
    let mut best = next_state.action_score(first).0;
    let mut i: usize = 1;
    while i < replies.len()
        invariant
            1 <= i <= replies@.len(),
            ms == moves_of(replies@),
            v == next_state.values@,
            o == next_state.owners@,
            p == next_state.player,
            forall|k: int| 0 <= k < replies@.len() ==> (#[trigger] replies@[k]).describes(v),
            best == max_reply_score(v, o, p, ms.subrange(0, i as int)),
        decreases replies@.len() - i,
    {
        let m = replies[i].to_move();
        proof {
            assert(ms[i as int] == m);
            assert(replies@[i as int].describes(v));
            assert(ms.subrange(0, i + 1).drop_last() =~= ms.subrange(0, i as int));
            assert(ms.subrange(0, i + 1).last() == m);
        }
        let s = next_state.action_score(m).0;
        if s > best {
            best = s;
        }
        i += 1;
    }
    proof {
        assert(ms.subrange(0, replies@.len() as int) =~= ms);
    }
    (best, replies.len())
}

/// A number read from the word `v`, if there is one and it reads as a `u64`.
pub fn parse_u64(v: Option<&String>) -> (r: Option<u64>)
    ensures
        r == match v {
            Some(s) => spec_parse_u64(s@),
            None => None,
        },
{
    match v {
        Some(s) => crate::protocol::parse_u64(s.as_str()),
        None => None,
    }
}

/// The move four words name, when there are four and each reads as an `i8`.
pub open spec fn spec_parse_move(parts: Seq<Seq<char>>) -> Option<Move> {
    if parts.len() < 4 {
        None
    } else {
        match (
            spec_parse_i8(parts[0]),
            spec_parse_i8(parts[1]),
            spec_parse_i8(parts[2]),
            spec_parse_i8(parts[3]),
        ) {
            (Some(a), Some(b), Some(c), Some(d)) => Some((a, b, c, d)),
            _ => None,
        }
    }
}

/// The move the first four words name; see `spec_parse_move`.
pub fn parse_move(parts: &[String]) -> (r: Option<Move>)
    ensures
        r == spec_parse_move(parts@.map_values(|s: String| s@)),
{
    let ghost views = parts@.map_values(|s: String| s@);
    if parts.len() < 4 {
        return None;
    }
    proof {
        assert(views[0] == parts@[0]@);
        assert(views[1] == parts@[1]@);
        assert(views[2] == parts@[2]@);
        assert(views[3] == parts@[3]@);
    }
    let a = parse_i8(parts[0].as_str());
    let b = parse_i8(parts[1].as_str());
    let c = parse_i8(parts[2].as_str());
    let d = parse_i8(parts[3].as_str());
    match (a, b, c, d) {
        (Some(a), Some(b), Some(c), Some(d)) => Some((a, b, c, d)),
        _ => None,
    }
}

/// The text of a move: its four numbers separated by single spaces.
pub fn format_move(mv: Move) -> (s: String)
    ensures
        s@ == crate::protocol::move_text(mv),
{
    crate::protocol::format_move(mv)
}

/// One step of the seed hash: times 131 plus the character, modulo 2^32.
pub open spec fn seed_step(seed: u32, ch: char) -> u32 {
    vstd::wrapping::u32_specs::wrapping_add(
        vstd::wrapping::u32_specs::wrapping_mul(seed, 131),
        ch as u32,
    )
}

/// The seed hash folded over the characters of `s`.
pub open spec fn fold_seed(seed: u32, s: Seq<char>) -> u32
    decreases s.len(),
{
    if s.len() == 0 {
        seed
    } else {
        seed_step(fold_seed(seed, s.drop_last()), s.last())
    }
}

/// The seed hash folded over the rows, in order.
pub open spec fn fold_rows(seed: u32, rows: Seq<Seq<char>>) -> u32
    decreases rows.len(),
{
    if rows.len() == 0 {
        seed
    } else {
        fold_seed(fold_rows(seed, rows.drop_last()), rows.last())
    }
}

/// The seed hash of the low 32 bits of `base`, folded over `mode` and then over the rows.
pub open spec fn spec_stable_seed(mode: Seq<char>, rows: Seq<Seq<char>>, base: u64) -> u64 {
    fold_rows(fold_seed(base as u32, mode), rows) as u64
}

/// Folds the seed hash over the characters of `s`.
fn fold_str(seed: u32, s: &str) -> (r: u32)
    ensures
        r == fold_seed(seed, s@),
{
    let n = s.unicode_len();
    let mut h = seed;
    let mut i: usize = 0;
    while i < n
        invariant
            n == s@.len(),
            i <= n,
            h == fold_seed(seed, s@.subrange(0, i as int)),
        decreases n - i,
    {
        let ch = s.get_char(i);
        proof {
            assert(s@.subrange(0, i + 1).drop_last() =~= s@.subrange(0, i as int));
        }
        h = h.wrapping_mul(131).wrapping_add(ch as u32);
        i += 1;
    }
    proof {
        assert(s@.subrange(0, n as int) =~= s@);
    }
    h
}

/// A seed for mode `mode` on the board rows `rows`; see `spec_stable_seed`.
pub fn stable_seed(mode: &str, rows: &[String], base_seed: u64) -> (seed: u64)
    ensures
        seed == spec_stable_seed(mode@, rows@.map_values(|s: String| s@), base_seed),
{
    let ghost texts = rows@.map_values(|s: String| s@);
    #[verifier::truncate]
    let start = base_seed as u32;
    let mut seed = fold_str(start, mode);
    let ghost after_mode = seed;
    let mut k: usize = 0;
    while k < rows.len()
        invariant
            k <= rows@.len(),
            texts == rows@.map_values(|s: String| s@),
            after_mode == fold_seed(base_seed as u32, mode@),
            seed == fold_rows(after_mode, texts.subrange(0, k as int)),
        decreases rows@.len() - k,
    {
        seed = fold_str(seed, rows[k].as_str());
        proof {
            assert(texts.subrange(0, k + 1).drop_last() =~= texts.subrange(0, k as int));
            assert(texts.subrange(0, k + 1).last() == rows@[k as int]@);
        }
        k += 1;
    }
    proof {
        assert(texts.subrange(0, rows@.len() as int) =~= texts);
    }
    seed as u64
}

/// A move written as text (see `format_move`) reads back as the same move (see
/// `parse_move`): its words are the four numbers, each read as itself.
pub proof fn lemma_move_text_parses(mv: Move)
    ensures
        spec_parse_move(split_ws(move_text(mv))) == Some(mv),
{
    lemma_move_text_words(mv);
    lemma_int_text_reads_back(mv.0 as int);
    lemma_int_text_reads_back(mv.1 as int);
    lemma_int_text_reads_back(mv.2 as int);
    lemma_int_text_reads_back(mv.3 as int);
    let w = split_ws(move_text(mv));
    assert(spec_parse_i8(w[0]) == Some(mv.0));
    assert(spec_parse_i8(w[1]) == Some(mv.1));
    assert(spec_parse_i8(w[2]) == Some(mv.2));
    assert(spec_parse_i8(w[3]) == Some(mv.3));
}

} // verus!
