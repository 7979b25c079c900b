use vstd::prelude::*;

use crate::board::{live_below, owned_count, rows_fit, trimmed, values_from_rows};
use crate::bots::agent_board::{move_applies, playable, starts_pass, AgentBoard};
use crate::bots::agent_eval::AgentWeights;
use crate::bots::agent_search::{chosen_move, pos_of, search_best_move};
use crate::bots::agent_zobrist::ZobristKeys;
use crate::bots::cordyceps_timeman::trunc_div;
use crate::movegen::{legal_rects, rect_in_board};
use crate::protocol::{
    begins_with, contains, format_move, move_text, occurs_in, parse_i64, parse_i8, spec_parse_i64,
    spec_parse_i8, split_whitespace, split_ws, starts_with, trim, views,
};
use crate::types::{opponent, spec_opponent, Move, COLS, FIRST, N_CELLS, PASS, ROWS, SECOND};

verus! {

/// The search bot's side of the text protocol: its board, its side, how many times in a row
/// the opponent passed, whether the game goes on, and what its search needs.
pub struct Protocol {
    pub board: AgentBoard,
    pub i_am_first: bool,
    pub opp_consecutive_passes: usize,
    pub running: bool,
    pub weights: AgentWeights,
    pub keys: ZobristKeys,
}

/// The move an `OPP` line names: its second to fifth words read as numbers, -1 for a word
/// that is not one.
pub open spec fn opp_move(words: Seq<Seq<char>>) -> Move {
    (
        match spec_parse_i8(words[1]) {
            Some(v) => v,
            None => -1i8,
        },
        match spec_parse_i8(words[2]) {
            Some(v) => v,
            None => -1i8,
        },
        match spec_parse_i8(words[3]) {
            Some(v) => v,
            None => -1i8,
        },
        match spec_parse_i8(words[4]) {
            Some(v) => v,
            None => -1i8,
        },
    )
}

/// The words after the command of an `INIT` line.
pub open spec fn init_words(t: Seq<char>) -> Seq<Seq<char>> {
    split_ws(trimmed(t.subrange(4, t.len() as int)))
}

/// Number of live cells.
pub open spec fn live_count(values: Seq<u8>) -> int {
    live_below(values, N_CELLS as nat) as int
}

/// The time for one move: the time left over the moves still expected (a quarter of the
/// live cells, at least 4), rounded toward zero and kept within 20..=2500 ms.
pub open spec fn spec_turn_budget(live: int, our_time: int) -> int {
    let est = if live / 4 > 4 { live / 4 } else { 4 };
    let b = trunc_div(our_time, est);
    if b < 20 {
        20
    } else if b > 2500 {
        2500
    } else {
        b
    }
}

/// The time for one move on `values` with `our_time` ms left; see `spec_turn_budget`.
pub fn turn_budget(values: &[u8; N_CELLS], our_time: i64) -> (b: i64)
    ensures
        b == spec_turn_budget(live_count(values@), our_time as int),
        20 <= b <= 2500,
{
    let mut live = 0i32;
    let mut i: usize = 0;
    while i < N_CELLS
        invariant
            i <= N_CELLS,
            live == live_below(values@, i as nat),
            live <= i,
        decreases N_CELLS - i,
    {
        if values[i] > 0 {
            live += 1;
        }
        i += 1;
    }
    let est_moves = if live / 4 > 4 {
        live / 4
    } else {
        4
    };
    let q = our_time / est_moves as i64;
    if q < 20 {
        20
    } else if q > 2500 {
        2500
    } else {
        q
    }
}

/// The move that words 1 to 4 name; see `opp_move`.
pub fn read_opp_move(parts: &[String]) -> (mv: Move)
    requires
        parts@.len() >= 5,
    ensures
        mv == opp_move(views(parts@)),
{
    proof {
        assert(views(parts@)[1] == parts@[1]@);
        assert(views(parts@)[2] == parts@[2]@);
        assert(views(parts@)[3] == parts@[3]@);
        assert(views(parts@)[4] == parts@[4]@);
    }
    let r1: i8 = match parse_i8(parts[1].as_str()) {
        Some(v) => v,
        None => -1,
    };
    let c1: i8 = match parse_i8(parts[2].as_str()) {
        Some(v) => v,
        None => -1,
    };
    let r2: i8 = match parse_i8(parts[3].as_str()) {
        Some(v) => v,
        None => -1,
    };
    let c2: i8 = match parse_i8(parts[4].as_str()) {
        Some(v) => v,
        None => -1,
    };
    (r1, c1, r2, c2)
}

/// The move the bot plays for a move `m` the search chose: `m` itself when it is a pass
/// (first coordinate -1) or lies on the board, else the pass.
pub open spec fn kept_on_board(m: Move) -> Move {
    if m.0 == -1 || (0 <= m.0 <= m.2 < ROWS && 0 <= m.1 <= m.3 < COLS) {
        m
    } else {
        PASS
    }
}

impl Protocol {
    /// The search can run: its weights are bounded and its keys drawn.
    pub open spec fn wf(&self) -> bool {
        self.weights.bounded() && self.keys.wf()
    }

    /// The line can be handled without leaving the rules of the board: a pass or an
    /// opponent pass can still be counted, the rows of an `INIT` line fit the board, and the
    /// move of an `OPP` line is a pass or lies on the board.
    pub open spec fn accepts(&self, line: Seq<char>) -> bool {
        let t = trimmed(line);
        &&& self.board.consecutive_passes < i32::MAX
        &&& self.opp_consecutive_passes < usize::MAX
        &&& (!begins_with(t, "READY"@) && begins_with(t, "INIT"@) && init_words(t).len() >= ROWS)
            ==> rows_fit(init_words(t).take(ROWS as int))
        &&& (!begins_with(t, "READY"@) && !begins_with(t, "INIT"@) && !begins_with(t, "TIME"@)
            && begins_with(t, "OPP"@) && split_ws(t).len() >= 5) ==> playable(opp_move(split_ws(t)))
    }

    /// A protocol for `weights` and `keys`: an empty board, the second side, no opponent
    /// pass counted, running.
    pub fn new(weights: AgentWeights, keys: ZobristKeys) -> (p: Protocol)
        ensures
            p.board.values@ == Seq::new(N_CELLS as nat, |i: int| 0u8),
            p.board.owners@ == Seq::new(N_CELLS as nat, |i: int| 0i8),
            p.board.player == FIRST,
            p.board.consecutive_passes == 0,
            !p.i_am_first,
            p.opp_consecutive_passes == 0,
            p.running,
            p.weights == weights,
            p.keys == keys,
    {
        let board = AgentBoard {
            values: [0u8; N_CELLS],
            owners: [0i8; N_CELLS],
            player: FIRST,
            consecutive_passes: 0,
        };
        proof {
            assert(board.values@ =~= Seq::new(N_CELLS as nat, |i: int| 0u8));
            assert(board.owners@ =~= Seq::new(N_CELLS as nat, |i: int| 0i8));
        }
        Protocol { board, i_am_first: false, opp_consecutive_passes: 0, running: true, weights, keys }
    }

    /// Handles one protocol line and returns the line to answer, if any. On the trimmed
    /// line: `READY` takes the first side when the line mentions `FIRST` and answers `OK`;
    /// `INIT` sets the board from its first ten words when it has ten (see `init_words`) and
    /// clears the opponent pass count; `TIME` (with at least two numbers after it) passes
    /// when the opponent passed twice in a row and the bot leads, and otherwise plays the
    /// search's move for the clock's answers (see `chosen_move` and `kept_on_board`),
    /// answering the move;
    /// `OPP` (with at least four words after it) plays the opponent's move and counts its
    /// passes in a row; `FINISH` stops.
    pub fn handle(&mut self, line: &str) -> (reply: Option<String>)
        requires
            old(self).wf(),
            old(self).accepts(line@),
        ensures
            final(self).wf(),
            final(self).weights == old(self).weights,
            final(self).keys == old(self).keys,
            ({
                let t = trimmed(line@);
                let o = *old(self);
                let n = *final(self);
                if t.len() == 0 {
                    reply.is_none() && n == o
                } else if begins_with(t, "READY"@) {
                    &&& n.i_am_first == occurs_in(t, "FIRST"@)
                    &&& n.board.player == (if occurs_in(t, "FIRST"@) {
                        FIRST
                    } else {
                        SECOND
                    })
                    &&& n.board.values == o.board.values
                    &&& n.board.owners == o.board.owners
                    &&& n.board.consecutive_passes == o.board.consecutive_passes
                    &&& n.opp_consecutive_passes == o.opp_consecutive_passes
                    &&& n.running == o.running
                    &&& reply.is_some() && reply.unwrap()@ == "OK"@
                } else if begins_with(t, "INIT"@) {
                    &&& reply.is_none()
                    &&& n.opp_consecutive_passes == 0
                    &&& n.i_am_first == o.i_am_first
                    &&& n.running == o.running
                    &&& if init_words(t).len() >= ROWS {
                        &&& n.board.values@ == values_from_rows(init_words(t).take(ROWS as int))
                        &&& n.board.owners@ == Seq::new(N_CELLS as nat, |i: int| 0i8)
                        &&& n.board.player == FIRST
                        &&& n.board.consecutive_passes == 0
                    } else {
                        n.board == o.board
                    }
                } else if begins_with(t, "TIME"@) {
                    &&& n.opp_consecutive_passes == o.opp_consecutive_passes
                    &&& n.i_am_first == o.i_am_first
                    &&& n.running == o.running
                    &&& if split_ws(t).len() < 3 {
                        reply.is_none() && n.board == o.board
                    } else if o.opp_consecutive_passes >= 2 && owned_count(
                        o.board.owners@,
                        o.board.player,
                    ) > owned_count(o.board.owners@, spec_opponent(o.board.player)) {
                        &&& reply.is_some() && reply.unwrap()@ == move_text(PASS)
                        &&& move_applies(o.board, n.board, PASS)
                    } else {
                        exists|clock: spec_fn(nat) -> bool, halves: spec_fn(nat) -> bool|
                            #![trigger chosen_move(pos_of(o.board), clock, halves, o.weights, o.keys)]
                            {
                                let mv = kept_on_board(
                                    chosen_move(pos_of(o.board), clock, halves, o.weights, o.keys),
                                );
                                &&& playable(mv)
                                &&& reply.is_some() && reply.unwrap()@ == move_text(mv)
                                &&& move_applies(o.board, n.board, mv)
                                &&& legal_rects(o.board.values@).len() == 0 ==> mv == PASS
                            }
                    }
                } else if begins_with(t, "OPP"@) {
                    &&& reply.is_none()
                    &&& n.i_am_first == o.i_am_first
                    &&& n.running == o.running
                    &&& if split_ws(t).len() < 5 {
                        n.board == o.board && n.opp_consecutive_passes == o.opp_consecutive_passes
                    } else {
                        &&& n.opp_consecutive_passes == if opp_move(split_ws(t)) == PASS {
                            o.opp_consecutive_passes + 1
                        } else {
                            0
                        }
                        &&& move_applies(o.board, n.board, opp_move(split_ws(t)))
                    }
                } else if begins_with(t, "FINISH"@) {
                    &&& reply.is_none()
                    &&& !n.running
                    &&& n.board == o.board
                    &&& n.i_am_first == o.i_am_first
                    &&& n.opp_consecutive_passes == o.opp_consecutive_passes
                } else {
                    reply.is_none() && n == o
                }
            }),
    {
        let line = trim(line);
        if line.unicode_len() == 0 {
            return None;
        }
        if starts_with(line, "READY") {
            self.handle_ready(line)
        } else if starts_with(line, "INIT") {
            self.handle_init(line);
            None
        } else if starts_with(line, "TIME") {
            self.handle_time(line)
        } else if starts_with(line, "OPP") {
            self.handle_opp(line);
            None
        } else if starts_with(line, "FINISH") {
            self.running = false;
            None
        } else {
            None
        }
    }

    fn handle_ready(&mut self, line: &str) -> (reply: Option<String>)
        ensures
            final(self).i_am_first == occurs_in(line@, "FIRST"@),
            final(self).board.player == (if occurs_in(line@, "FIRST"@) {
                FIRST
            } else {
                SECOND
            }),
            final(self).board.values == old(self).board.values,
            final(self).board.owners == old(self).board.owners,
            final(self).board.consecutive_passes == old(self).board.consecutive_passes,
            final(self).opp_consecutive_passes == old(self).opp_consecutive_passes,
            final(self).running == old(self).running,
            final(self).weights == old(self).weights,
            final(self).keys == old(self).keys,
            reply.is_some() && reply.unwrap()@ == "OK"@,
    {
        self.i_am_first = contains(line, "FIRST");
        self.board.set_player(if self.i_am_first {
            FIRST
        } else {
            SECOND
        });
        Some(String::from_str("OK"))
    }

    fn handle_init(&mut self, line: &str)
        requires
            begins_with(line@, "INIT"@),
            init_words(line@).len() >= ROWS ==> rows_fit(init_words(line@).take(ROWS as int)),
        ensures
            final(self).opp_consecutive_passes == 0,
            final(self).i_am_first == old(self).i_am_first,
            final(self).running == old(self).running,
            final(self).weights == old(self).weights,
            final(self).keys == old(self).keys,
            if init_words(line@).len() >= ROWS {
                &&& final(self).board.values@ == values_from_rows(
                    init_words(line@).take(ROWS as int),
                )
                &&& final(self).board.owners@ == Seq::new(N_CELLS as nat, |i: int| 0i8)
                &&& final(self).board.player == FIRST
                &&& final(self).board.consecutive_passes == 0
            } else {
                final(self).board == old(self).board
            },
    {
        proof {
            reveal_strlit("INIT");
        }
        let n = line.unicode_len();
        let board_str = trim(line.substring_char(4, n));
        let parts = split_whitespace(board_str);
        if parts.len() >= ROWS {
            let mut rows: Vec<String> = Vec::new();
            let mut k: usize = 0;
            while k < ROWS
                invariant
                    k <= ROWS,
                    parts@.len() >= ROWS,
                    views(rows@) == views(parts@).take(k as int),
                decreases ROWS - k,
            {
                let ghost prev = rows@;
                let w = parts[k].clone();
                rows.push(w);
                proof {
                    assert(w@ == parts@[k as int]@);
                    assert(views(rows@) =~= views(prev).push(w@));
                    assert(views(parts@).take(k + 1) =~= views(parts@).take(k as int).push(
                        views(parts@)[k as int],
                    ));
                }
                k += 1;
            }
            proof {
                assert(rows@.map_values(|s: String| s@) =~= views(rows@));
            }
            self.board = AgentBoard::from_rows(rows.as_slice());
        }
        self.opp_consecutive_passes = 0;
    }

    fn handle_time(&mut self, line: &str) -> (reply: Option<String>)
        requires
            old(self).wf(),
            old(self).board.consecutive_passes < i32::MAX,
        ensures
            final(self).wf(),
            final(self).weights == old(self).weights,
            final(self).keys == old(self).keys,
            final(self).opp_consecutive_passes == old(self).opp_consecutive_passes,
            final(self).i_am_first == old(self).i_am_first,
            final(self).running == old(self).running,
            if split_ws(line@).len() < 3 {
                reply.is_none() && final(self).board == old(self).board
            } else if old(self).opp_consecutive_passes >= 2 && owned_count(
                old(self).board.owners@,
                old(self).board.player,
            ) > owned_count(old(self).board.owners@, spec_opponent(old(self).board.player)) {
                &&& reply.is_some() && reply.unwrap()@ == move_text(PASS)
                &&& move_applies(old(self).board, final(self).board, PASS)
            } else {
                exists|clock: spec_fn(nat) -> bool, halves: spec_fn(nat) -> bool|
                    #![trigger chosen_move(pos_of(old(self).board), clock, halves, old(self).weights, old(self).keys)]
                    {
                        let mv = kept_on_board(
                            chosen_move(
                                pos_of(old(self).board),
                                clock,
                                halves,
                                old(self).weights,
                                old(self).keys,
                            ),
                        );
                        &&& playable(mv)
                        &&& reply.is_some() && reply.unwrap()@ == move_text(mv)
                        &&& move_applies(old(self).board, final(self).board, mv)
                        &&& legal_rects(old(self).board.values@).len() == 0 ==> mv == PASS
                    }
            },
    {
        let parts = split_whitespace(line);
        if parts.len() < 3 {
            return None;
        }
        let our_time: i64 = match parse_i64(parts[1].as_str()) {
            Some(v) => v,
            None => 0,
        };
        let _opp_time: i64 = match parse_i64(parts[2].as_str()) {
            Some(v) => v,
            None => 0,
        };
        let time_budget = turn_budget(&self.board.values, our_time);
        if self.opp_consecutive_passes >= 2 {
            let margin = self.board.owned_cells(self.board.player) - self.board.owned_cells(
                opponent(self.board.player),
            );
            if margin > 0 {
                let reply = format_move(PASS);
                self.board.apply_move(-1, -1, -1, -1);
                return Some(reply);
            }
        }
        let found = search_best_move(&self.board, time_budget, &self.weights, &self.keys);
        let ghost witness = choose|clock: spec_fn(nat) -> bool, halves: spec_fn(nat) -> bool|
            found == chosen_move(pos_of(self.board), clock, halves, self.weights, self.keys);
        let (r1, c1, r2, c2) = if found.0 == -1 || (0 <= found.0 && found.0 <= found.2 && found.2
            < ROWS as i8 && 0 <= found.1 && found.1 <= found.3 && found.3 < COLS as i8) {
            found
        } else {
            PASS
        };
        let reply = format_move((r1, c1, r2, c2));
        let ghost before = self.board;
        self.board.apply_move(r1, c1, r2, c2);
        proof {
            assert(chosen_move(pos_of(before), witness.0, witness.1, self.weights, self.keys)
                == found);
            assert(kept_on_board(found) == (r1, c1, r2, c2));
        }
        Some(reply)
    }

    fn handle_opp(&mut self, line: &str)
        requires
            old(self).board.consecutive_passes < i32::MAX,
            old(self).opp_consecutive_passes < usize::MAX,
            split_ws(line@).len() >= 5 ==> playable(opp_move(split_ws(line@))),
        ensures
            final(self).i_am_first == old(self).i_am_first,
            final(self).running == old(self).running,
            final(self).weights == old(self).weights,
            final(self).keys == old(self).keys,
            if split_ws(line@).len() < 5 {
                final(self).board == old(self).board && final(self).opp_consecutive_passes == old(
                    self,
                ).opp_consecutive_passes
            } else {
                &&& final(self).opp_consecutive_passes == if opp_move(split_ws(line@)) == PASS {
                    old(self).opp_consecutive_passes + 1
                } else {
                    0
                }
                &&& move_applies(old(self).board, final(self).board, opp_move(split_ws(line@)))
            },
    {
        let parts = split_whitespace(line);
        if parts.len() < 5 {
            return;
        }
        let (r1, c1, r2, c2) = read_opp_move(parts.as_slice());
        if r1 == -1 && c1 == -1 && r2 == -1 && c2 == -1 {
            self.opp_consecutive_passes += 1;
        } else {
            self.opp_consecutive_passes = 0;
        }
        self.board.apply_move(r1, c1, r2, c2);
    }
}

} // verus!
