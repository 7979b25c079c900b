use vstd::prelude::*;

use crate::board::{rows_fit, trimmed, values_from_rows, Board};
use crate::bots::zoo_keys::KeyKind;
use crate::bots::zoo_rng::ZooRng;
use crate::bots::zoo_search::{
    best_by_key, greedy_balanced_choice, random_top_choice, spec_best_move, spec_random_top,
};
use crate::bots::zoo_styles::{lead, pass_abuser_choice, pass_safe_choice, spec_pass_abuser};
use crate::bots::zoo_utils::{
    format_move, legal_rectangles, live_count, parse_move, parse_u64, spec_parse_move,
    spec_stable_seed, stable_seed,
};
use crate::movegen::{legal_rects, valid_rect};
use crate::protocol::{begins_with, move_text, spec_parse_u64, starts_with};
use crate::types::{opponent, Move, COLS, FIRST, PASS, ROWS, SECOND};

verus! {

/// What a zoo player does with its turn: play a move decided here, or run one of the
/// strategies that score with the floating-point evaluation, with their parameters.
#[derive(Clone, Copy, Debug)]
pub enum ZooPlan {
    /// Play this move.
    Play(Move),
    /// Best move by the reply-aware key, with the reply weight in hundredths.
    ReplyAware(u32),
    /// Best move by the defensive key.
    Defensive,
    /// Best move by the defensive-when-losing key.
    DefensiveWhenLosing,
    /// Minimax to this depth.
    Minimax(u8),
    /// The mixed tactical player.
    MixedTactical,
    /// The game-tree search: time budget, depth hint, whether to use the side tuning.
    SearchEngine(u64, u8, bool),
    /// Monte Carlo search: time budget, iteration hint.
    Mcts(u64, u32),
}

/// Whether two texts are equal.
pub fn same_text(a: &str, b: &str) -> (eq: bool)
    ensures
        eq == (a@ == b@),
{
    let n = a.unicode_len();
    if n != b.unicode_len() {
        return false;
    }
    let mut i: usize = 0;
    while i < n
        invariant
            n == a@.len(),
            n == b@.len(),
            i <= n,
            forall|j: int| 0 <= j < i ==> a@[j] == b@[j],
        decreases n - i,
    {
        if a.get_char(i) != b.get_char(i) {
            return false;
        }
        i += 1;
    }
    assert(a@ =~= b@);
    true
}

/// Lower of two budgets.
pub open spec fn min_u64(a: u64, b: u64) -> u64 {
    if a < b {
        a
    } else {
        b
    }
}

/// The plan of the adaptive player: minimax to depth 4 with at most 12 live cells or at
/// most 6 legal rectangles; to depth 3 with at most 20 live cells and 200 ms; the search
/// when behind by 6 or more; minimax to depth 2 with at most 10 legal rectangles; the
/// search on half the budget with 300 ms or more; the pass-safe player when ahead by 6 or
/// more; else the mixed tactical player.
pub open spec fn spec_adaptive(b: Board, budget_ms: u64, state: u64) -> (ZooPlan, u64) {
    let n = legal_rects(b.values@).len();
    let live = b.live_mask.count();
    if n == 0 {
        (ZooPlan::Play(PASS), state)
    } else if live <= 12 || n <= 6 {
        (ZooPlan::Minimax(4), state)
    } else if live <= 20 && budget_ms >= 200 {
        (ZooPlan::Minimax(3), state)
    } else if lead(b) <= -6 {
        (ZooPlan::SearchEngine(budget_ms, 4, false), state)
    } else if n <= 10 {
        (ZooPlan::Minimax(2), state)
    } else if budget_ms >= 300 {
        (ZooPlan::SearchEngine(budget_ms / 2, 3, false), state)
    } else if lead(b) >= 6 {
        if b.live_mask.count() <= 18 && lead(b) >= 8 {
            (ZooPlan::Play(PASS), state)
        } else {
            (ZooPlan::Play(spec_random_top(b, 3, state).0), spec_random_top(b, 3, state).1)
        }
    } else {
        (ZooPlan::MixedTactical, state)
    }
}

/// The plan of player `mode` on `b` with `budget_ms` and generator state `state`, and the
/// state after: the pass when no rectangle is legal; each greedy player its best move by
/// its key; the pass-abusing and pass-safe players their moves; `random_top_k` one of the
/// best `k`; the minimax, search and Monte Carlo players their searches (with the budget
/// capped as each mode says); the endgame expert minimax to depth 4 with at most 20 live
/// cells and else one of the best five; the adaptive player as `spec_adaptive`; any other
/// mode the best balanced move.
pub open spec fn spec_plan(mode: Seq<char>, b: Board, budget_ms: u64, state: u64) -> (ZooPlan, u64) {
    if legal_rects(b.values@).len() == 0 {
        (ZooPlan::Play(PASS), state)
    } else if mode == "greedy_area"@ {
        (ZooPlan::Play(spec_best_move(KeyKind::Area, b)), state)
    } else if mode == "greedy_recapture"@ {
        (ZooPlan::Play(spec_best_move(KeyKind::Recapture, b)), state)
    } else if mode == "greedy_fresh"@ {
        (ZooPlan::Play(spec_best_move(KeyKind::Fresh, b)), state)
    } else if mode == "greedy_edge"@ {
        (ZooPlan::Play(spec_best_move(KeyKind::Edge, b)), state)
    } else if mode == "greedy_corner"@ {
        (ZooPlan::Play(spec_best_move(KeyKind::Corner, b)), state)
    } else if mode == "greedy_net_area"@ {
        (ZooPlan::Play(spec_best_move(KeyKind::NetArea, b)), state)
    } else if mode == "greedy_live_cell"@ {
        (ZooPlan::Play(spec_best_move(KeyKind::LiveCell, b)), state)
    } else if mode == "greedy_position"@ {
        (ZooPlan::Play(spec_best_move(KeyKind::Position, b)), state)
    } else if mode == "reply_aware"@ {
        (ZooPlan::ReplyAware(80), state)
    } else if mode == "reply_aware_strict"@ {
        (ZooPlan::ReplyAware(110), state)
    } else if mode == "reply_aware_light"@ {
        (ZooPlan::ReplyAware(50), state)
    } else if mode == "defensive_when_leading"@ {
        (ZooPlan::Defensive, state)
    } else if mode == "defensive_when_losing"@ {
        (ZooPlan::DefensiveWhenLosing, state)
    } else if mode == "pass_abuser"@ {
        (ZooPlan::Play(spec_pass_abuser(b)), state)
    } else if mode == "pass_safe"@ {
        if lead(b) >= 8 && b.live_mask.count() <= 18 {
            (ZooPlan::Play(PASS), state)
        } else {
            (ZooPlan::Play(spec_random_top(b, 3, state).0), spec_random_top(b, 3, state).1)
        }
    } else if mode == "random_top_1"@ {
        (ZooPlan::Play(spec_random_top(b, 1, state).0), spec_random_top(b, 1, state).1)
    } else if mode == "random_top_3"@ {
        (ZooPlan::Play(spec_random_top(b, 3, state).0), spec_random_top(b, 3, state).1)
    } else if mode == "random_top_5"@ {
        (ZooPlan::Play(spec_random_top(b, 5, state).0), spec_random_top(b, 5, state).1)
    } else if mode == "random_top_7"@ {
        (ZooPlan::Play(spec_random_top(b, 7, state).0), spec_random_top(b, 7, state).1)
    } else if mode == "minimax_depth_1"@ {
        (ZooPlan::Minimax(1), state)
    } else if mode == "minimax_depth_2"@ {
        (ZooPlan::Minimax(2), state)
    } else if mode == "minimax_depth_3"@ {
        (ZooPlan::Minimax(3), state)
    } else if mode == "minimax_depth_4"@ {
        (ZooPlan::Minimax(4), state)
    } else if mode == "greedy_balanced"@ {
        (ZooPlan::Play(spec_best_move(KeyKind::Balanced, b)), state)
    } else if mode == "mixed_tactical"@ {
        (ZooPlan::MixedTactical, state)
    } else if mode == "endgame_expert"@ {
        if b.live_mask.count() <= 20 {
            (ZooPlan::Minimax(4), state)
        } else {
            (ZooPlan::Play(spec_random_top(b, 5, state).0), spec_random_top(b, 5, state).1)
        }
    } else if mode == "search_shallow"@ {
        (ZooPlan::SearchEngine(min_u64(budget_ms, 50), 2, false), state)
    } else if mode == "search_medium"@ {
        (ZooPlan::SearchEngine(min_u64(budget_ms, 200), 4, false), state)
    } else if mode == "search_deep"@ {
        (ZooPlan::SearchEngine(budget_ms, 6, false), state)
    } else if mode == "search_first_side"@ {
        (ZooPlan::SearchEngine(min_u64(budget_ms, 100), 3, true), state)
    } else if mode == "mcts_light"@ {
        (ZooPlan::Mcts(min_u64(budget_ms, 80), 200), state)
    } else if mode == "mcts_deep"@ {
        (ZooPlan::Mcts(budget_ms, 800), state)
    } else if mode == "adaptive_hybrid"@ {
        spec_adaptive(b, budget_ms, state)
    } else {
        (ZooPlan::Play(spec_best_move(KeyKind::Balanced, b)), state)
    }
}

fn adaptive_plan(board: &Board, budget_ms: u64, rng: &mut ZooRng) -> (plan: ZooPlan)
    requires
        board.wf(),
    ensures
        (plan, final(rng).0) == spec_adaptive(*board, budget_ms, old(rng).0),
{
    let rects = legal_rectangles(board);
    if rects.len() == 0 {
        return ZooPlan::Play(PASS);
    }
    let live = live_count(board);
    let num_rects = rects.len();
    let opp = opponent(board.player);
    let lead = board.score(board.player) - board.score(opp);
    if live <= 12 || num_rects <= 6 {
        return ZooPlan::Minimax(4);
    }
    if live <= 20 && budget_ms >= 200 {
        return ZooPlan::Minimax(3);
    }
    if lead <= -6 {
        return ZooPlan::SearchEngine(budget_ms, 4, false);
    }
    if num_rects <= 10 {
        return ZooPlan::Minimax(2);
    }
    if budget_ms >= 300 {
        return ZooPlan::SearchEngine(budget_ms / 2, 3, false);
    }
    if lead >= 6 {
        return ZooPlan::Play(pass_safe_choice(board, rng));
    }
    ZooPlan::MixedTactical
}

/// The plan of player `mode`; see `spec_plan`.
pub fn choose_move(mode: &str, board: &Board, budget_ms: u64, rng: &mut ZooRng) -> (plan: ZooPlan)
    requires
        board.wf(),
    ensures
        (plan, final(rng).0) == spec_plan(mode@, *board, budget_ms, old(rng).0),
{
    let rects = legal_rectangles(board);
    if rects.len() == 0 {
        return ZooPlan::Play(PASS);
    }
    if same_text(mode, "greedy_area") {
        ZooPlan::Play(best_by_key(board, KeyKind::Area))
    } else if same_text(mode, "greedy_recapture") {
        ZooPlan::Play(best_by_key(board, KeyKind::Recapture))
    } else if same_text(mode, "greedy_fresh") {
        ZooPlan::Play(best_by_key(board, KeyKind::Fresh))
    } else if same_text(mode, "greedy_edge") {
        ZooPlan::Play(best_by_key(board, KeyKind::Edge))
    } else if same_text(mode, "greedy_corner") {
        ZooPlan::Play(best_by_key(board, KeyKind::Corner))
    } else if same_text(mode, "greedy_net_area") {
        ZooPlan::Play(best_by_key(board, KeyKind::NetArea))
    } else if same_text(mode, "greedy_live_cell") {
        ZooPlan::Play(best_by_key(board, KeyKind::LiveCell))
    } else if same_text(mode, "greedy_position") {
        ZooPlan::Play(best_by_key(board, KeyKind::Position))
    } else if same_text(mode, "reply_aware") {
        ZooPlan::ReplyAware(80)
    } else if same_text(mode, "reply_aware_strict") {
        ZooPlan::ReplyAware(110)
    } else if same_text(mode, "reply_aware_light") {
        ZooPlan::ReplyAware(50)
    } else if same_text(mode, "defensive_when_leading") {
        ZooPlan::Defensive
    } else if same_text(mode, "defensive_when_losing") {
        ZooPlan::DefensiveWhenLosing
    } else if same_text(mode, "pass_abuser") {
        ZooPlan::Play(pass_abuser_choice(board))
    } else if same_text(mode, "pass_safe") {
        ZooPlan::Play(pass_safe_choice(board, rng))
    } else if same_text(mode, "random_top_1") {
        ZooPlan::Play(random_top_choice(board, 1, rng))
    } else if same_text(mode, "random_top_3") {
        ZooPlan::Play(random_top_choice(board, 3, rng))
    } else if same_text(mode, "random_top_5") {
        ZooPlan::Play(random_top_choice(board, 5, rng))
    } else if same_text(mode, "random_top_7") {
        ZooPlan::Play(random_top_choice(board, 7, rng))
    } else if same_text(mode, "minimax_depth_1") {
        ZooPlan::Minimax(1)
    } else if same_text(mode, "minimax_depth_2") {
        ZooPlan::Minimax(2)
    } else if same_text(mode, "minimax_depth_3") {
        ZooPlan::Minimax(3)
    } else if same_text(mode, "minimax_depth_4") {
        ZooPlan::Minimax(4)
    } else if same_text(mode, "greedy_balanced") {
        ZooPlan::Play(greedy_balanced_choice(board))
    } else if same_text(mode, "mixed_tactical") {
        ZooPlan::MixedTactical
    } else if same_text(mode, "endgame_expert") {
        if live_count(board) <= 20 {
            ZooPlan::Minimax(4)
        } else {
            ZooPlan::Play(random_top_choice(board, 5, rng))
        }
    } else if same_text(mode, "search_shallow") {
        ZooPlan::SearchEngine(if budget_ms < 50 { budget_ms } else { 50 }, 2, false)
    } else if same_text(mode, "search_medium") {
        ZooPlan::SearchEngine(if budget_ms < 200 { budget_ms } else { 200 }, 4, false)
    } else if same_text(mode, "search_deep") {
        ZooPlan::SearchEngine(budget_ms, 6, false)
    } else if same_text(mode, "search_first_side") {
        ZooPlan::SearchEngine(if budget_ms < 100 { budget_ms } else { 100 }, 3, true)
    } else if same_text(mode, "mcts_light") {
        ZooPlan::Mcts(if budget_ms < 80 { budget_ms } else { 80 }, 200)
    } else if same_text(mode, "mcts_deep") {
        ZooPlan::Mcts(budget_ms, 800)
    } else if same_text(mode, "adaptive_hybrid") {
        adaptive_plan(board, budget_ms, rng)
    } else {
        ZooPlan::Play(greedy_balanced_choice(board))
    }
}

/// A zoo player speaking the text protocol: its mode, its generator, the position, its
/// side, and the times left that the last `TIME` line gave.
pub struct ZooProtocolBot {
    pub mode: String,
    pub rng: ZooRng,
    pub state: Option<Board>,
    pub my_player: i8,
    pub my_time_left_ms: Option<u64>,
    pub opp_time_left_ms: Option<u64>,
}

/// The time for one move of player `mode` with `my_time` ms left (25 when unknown), less a
/// 300 ms reserve: a fifth kept within 200..=500 for minimax players, a third within
/// 100..=2000 for search and Monte Carlo players, else a twentieth within 5..=60.
pub open spec fn spec_budget(mode: Seq<char>, my_time: Option<u64>) -> u64 {
    let t = match my_time {
        Some(t) => t,
        None => 25u64,
    };
    let usable = if t > 300 { (t - 300) as u64 } else { 0u64 };
    let (q, lo, hi) = if begins_with(mode, "minimax"@) {
        (usable / 5, 200u64, 500u64)
    } else if begins_with(mode, "search_"@) || begins_with(mode, "mcts_"@) {
        (usable / 3, 100u64, 2000u64)
    } else {
        (usable / 20, 5u64, 60u64)
    };
    if q < lo {
        lo
    } else if q > hi {
        hi
    } else {
        q
    }
}

impl ZooProtocolBot {
    /// The positions it holds are well formed.
    pub open spec fn wf(&self) -> bool {
        self.state matches Some(b) ==> b.wf()
    }

    /// A player of `mode` with generator state `seed`, no position, first side, no times.
    pub fn new(mode: String, seed: u64) -> (bot: ZooProtocolBot)
        ensures
            bot.wf(),
            bot.mode == mode,
            bot.rng.0 == seed,
            bot.state.is_none(),
            bot.my_player == FIRST,
            bot.my_time_left_ms.is_none(),
            bot.opp_time_left_ms.is_none(),
    {
        ZooProtocolBot {
            mode,
            rng: ZooRng::new(seed),
            state: None,
            my_player: FIRST,
            my_time_left_ms: None,
            opp_time_left_ms: None,
        }
    }

    /// The time for one move; see `spec_budget`.
    pub fn budget_ms(&self) -> (b: u64)
        ensures
            b == spec_budget(self.mode@, self.my_time_left_ms),
    {
        let t = match self.my_time_left_ms {
            Some(t) => t,
            None => 25,
        };
        let usable = t.saturating_sub(300);
        let mode = self.mode.as_str();
        if starts_with(mode, "minimax") {
            let q = usable / 5;
            return if q < 200 {
                200
            } else if q > 500 {
                500
            } else {
                q
            };
        }
        if starts_with(mode, "search_") || starts_with(mode, "mcts_") {
            let q = usable / 3;
            return if q < 100 {
                100
            } else if q > 2000 {
                2000
            } else {
                q
            };
        }
        let q = usable / 20;
        if q < 5 {
            5
        } else if q > 60 {
            60
        } else {
            q
        }
    }

    /// The `READY` command: the second side when the word after it is `SECOND`, else the
    /// first; answers `OK`.
    pub fn ready(&mut self, parts: &[String]) -> (reply: String)
        requires
            old(self).wf(),
        ensures
            final(self).wf(),
            final(self).my_player == (if parts@.len() >= 2 && parts@[1]@ == "SECOND"@ {
                SECOND
            } else {
                FIRST
            }),
            final(self).state == old(self).state,
            final(self).mode == old(self).mode,
            final(self).rng == old(self).rng,
            reply@ == "OK"@,
    {
        let second = parts.len() >= 2 && same_text(parts[1].as_str(), "SECOND");
        self.my_player = if second {
            SECOND
        } else {
            FIRST
        };
        String::from_str("OK")
    }

    /// The `INIT` command with its ten rows: the position they give, first player to move,
    /// and the generator reseeded from the mode and the rows (see `spec_stable_seed`).
    pub fn init(&mut self, rows: &[String])
        requires
            old(self).wf(),
            rows@.len() == ROWS,
            rows_fit(rows@.map_values(|s: String| s@)),
        ensures
            final(self).wf(),
            final(self).state matches Some(b) && b.values@ == values_from_rows(
                rows@.map_values(|s: String| s@),
            ) && b.player == FIRST && b.passes == 0,
            final(self).rng.0 == spec_stable_seed(
                old(self).mode@,
                rows@.map_values(|s: String| s@),
                42,
            ),
            final(self).mode == old(self).mode,
            final(self).my_player == old(self).my_player,
    {
        self.state = Some(Board::from_rows(rows));
        let seed = stable_seed(self.mode.as_str(), rows, 42);
        self.rng.reseed(seed);
    }

    /// The start of a `TIME` command: nothing to search when there is no position or the
    /// game is over (the answer is then the pass); else the times left are read from the
    /// next two words and the position and the time for the move are handed out.
    pub fn begin_turn(&mut self, parts: &[String]) -> (turn: Option<(Board, u64)>)
        requires
            old(self).wf(),
        ensures
            final(self).wf(),
            final(self).state == old(self).state,
            final(self).mode == old(self).mode,
            final(self).rng == old(self).rng,
            final(self).my_player == old(self).my_player,
            match old(self).state {
                Some(b) if b.passes < 2 => {
                    &&& final(self).my_time_left_ms == if parts@.len() >= 2 {
                        spec_parse_u64(parts@[1]@)
                    } else {
                        None
                    }
                    &&& final(self).opp_time_left_ms == if parts@.len() >= 3 {
                        spec_parse_u64(parts@[2]@)
                    } else {
                        None
                    }
                    &&& turn == Some((b, spec_budget(old(self).mode@, final(self).my_time_left_ms)))
                },
                _ => turn.is_none() && final(self).my_time_left_ms == old(self).my_time_left_ms
                    && final(self).opp_time_left_ms == old(self).opp_time_left_ms,
            },
    {
        let board = match &self.state {
            Some(state) => {
                if state.is_terminal() {
                    return None;
                }
                *state
            },
            None => {
                return None;
            },
        };
        self.my_time_left_ms = parse_u64(if parts.len() >= 2 {
            Some(&parts[1])
        } else {
            None
        });
        self.opp_time_left_ms = parse_u64(if parts.len() >= 3 {
            Some(&parts[2])
        } else {
            None
        });
        let budget = self.budget_ms();
        Some((board, budget))
    }

    /// The end of a `TIME` command: plays `mv` when it is legal, else the pass, and answers
    /// the move played.
    pub fn finish_turn(&mut self, board: Board, mv: Move) -> (reply: String)
        requires
            board.wf(),
            board.passes < 2,
        ensures
            final(self).wf(),
            ({
                let played = if valid_rect(board.values@, mv) || mv == PASS {
                    mv
                } else {
                    PASS
                };
                &&& reply@ == move_text(played)
                &&& final(self).state matches Some(n) && (n.values@, n.owners@, n.player, n.passes)
                    == board.after(played)
            }),
            final(self).mode == old(self).mode,
            final(self).rng == old(self).rng,
            final(self).my_player == old(self).my_player,
    {
        let mv = if board.is_legal_action(mv) {
            mv
        } else {
            PASS
        };
        self.state = Some(board.apply_action(mv));
        format_move(mv)
    }

    /// The `OPP` command: when there is a position, the game goes on, and the next four
    /// words name a legal move, that move is played; otherwise nothing changes.
    pub fn opp(&mut self, parts: &[String])
        requires
            old(self).wf(),
        ensures
            final(self).wf(),
            final(self).mode == old(self).mode,
            final(self).rng == old(self).rng,
            final(self).my_player == old(self).my_player,
            ({
                let words = parts@.map_values(|s: String| s@);
                match old(self).state {
                    Some(b) => if b.passes < 2 && words.len() >= 5 && spec_parse_move(
                        words.subrange(1, 5),
                    ) is Some && (valid_rect(
                        b.values@,
                        spec_parse_move(words.subrange(1, 5))->0,
                    ) || spec_parse_move(words.subrange(1, 5))->0 == PASS) {
                        final(self).state matches Some(n) && (n.values@, n.owners@, n.player, n.passes)
                            == b.after(spec_parse_move(words.subrange(1, 5))->0)
                    } else {
                        final(self).state == old(self).state
                    },
                    None => final(self).state == old(self).state,
                }
            }),
    {
        let ghost words = parts@.map_values(|s: String| s@);
        if let Some(state) = &self.state {
            if !state.is_terminal() && parts.len() >= 5 {
                let tail = slice_words(parts, 1, 5);
                proof {
                    assert(tail@.map_values(|s: String| s@) =~= words.subrange(1, 5));
                }
                if let Some(mv) = parse_move(tail.as_slice()) {
                    if state.is_legal_action(mv) {
                        let next = state.apply_action(mv);
                        self.state = Some(next);
                    }
                }
            }
        }
    }
}

/// Words `from..to` of `parts`.
fn slice_words(parts: &[String], from: usize, to: usize) -> (out: Vec<String>)
    requires
        from <= to <= parts@.len(),
    ensures
        out@ == parts@.subrange(from as int, to as int),
{
    let mut out: Vec<String> = Vec::new();
    let mut i = from;
    while i < to
        invariant
            from <= i <= to,
            to <= parts@.len(),
            out@ == parts@.subrange(from as int, i as int),
        decreases to - i,
    {
        out.push(parts[i].clone());
        proof {
            assert(out@ =~= parts@.subrange(from as int, i + 1));
        }
        i += 1;
    }
    out
}

} // verus!
