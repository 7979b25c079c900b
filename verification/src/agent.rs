use vstd::prelude::*;

use crate::board::{rows_fit, trimmed, values_from_rows, Board};
use crate::bots::zoo_protocol::same_text;
use crate::bots::zoo_utils::{format_move, lemma_move_text_parses, parse_move, parse_u64, spec_parse_move};
use crate::movegen::valid_rect;
use crate::opening::side::{GameSide, SideTuning};
use crate::protocol::{
    is_sep, lemma_int_text_reads_back, lemma_move_text_words, lemma_split_concat, lemma_split_sep,
    lemma_split_word, move_text, spec_parse_u64, split_on, split_whitespace, split_ws, trim, views,
};
use crate::types::{Move, COLS, FIRST, PASS, ROWS, SECOND};

verus! {

/// The main bot's side of the text protocol: the position, its side and side tuning, and
/// how many times the opponent passed in a row and since the bot's last move.
pub struct Agent {
    pub board: Option<Board>,
    pub my_player: i8,
    pub side: GameSide,
    pub side_tuning: SideTuning,
    pub opp_consecutive_passes: u32,
    pub opp_passes_since_our_move: u32,
}

/// What handling a line asks of the caller.
pub enum AgentReply {
    /// Nothing to answer.
    Nothing,
    /// Answer this line.
    Line(String),
    /// A new game: the rows given so far; read more lines until there are ten, then call
    /// `Agent::init`.
    Init(Vec<String>),
    /// Search this position with these times left (ms, own then opponent's), then call
    /// `Agent::finish_turn`.
    Think(Board, u64, u64),
    /// The game is over: stop.
    Finish,
}

/// The number a word reads as, or 0.
pub open spec fn time_word(words: Seq<Seq<char>>, k: int) -> u64 {
    if k < words.len() {
        match spec_parse_u64(words[k]) {
            Some(v) => v,
            None => 0,
        }
    } else {
        0
    }
}

/// The move words 1 to 4 name, when they read as one.
pub open spec fn named_move(words: Seq<Seq<char>>) -> Option<Move> {
    spec_parse_move(words.subrange(1, words.len() as int))
}

impl Agent {
    /// The position, when there is one, is well formed.
    pub open spec fn wf(&self) -> bool {
        self.board matches Some(b) ==> b.wf()
    }

    /// No position, the first side, no pass counted.
    pub fn new() -> (a: Agent)
        ensures
            a.wf(),
            a.board.is_none(),
            a.my_player == FIRST,
            a.side == GameSide::First,
            a.side_tuning is First,
            a.opp_consecutive_passes == 0,
            a.opp_passes_since_our_move == 0,
    {
        Agent {
            board: None,
            my_player: FIRST,
            side: GameSide::First,
            side_tuning: GameSide::First.tuning(),
            opp_consecutive_passes: 0,
            opp_passes_since_our_move: 0,
        }
    }

    /// The opponent's move `words` describes can be counted.
    pub open spec fn counts_ok(&self) -> bool {
        self.opp_consecutive_passes < u32::MAX && self.opp_passes_since_our_move < u32::MAX
    }

    /// Handles one protocol line; on the trimmed line's words: `READY` takes the second
    /// side unless the next word is missing or `FIRST`, and answers `OK`; `INIT` hands out
    /// its rows; `TIME` answers the pass when there is no position or the game is over,
    /// passes when the opponent passed twice in a row and the bot owns more cells, and
    /// otherwise hands out the position and the two times (0 for a word that is not a
    /// number); `OPP` plays the opponent's move when the game goes on and words 1 to 4 name
    /// a legal one, counting its passes; `FINISH` stops.
    pub fn handle(&mut self, line: &str) -> (reply: AgentReply)
        requires
            old(self).wf(),
            old(self).counts_ok(),
        ensures
            final(self).wf(),
            ({
                let words = split_ws(trimmed(line@));
                if words.len() == 0 {
                    reply is Nothing && *final(self) == *old(self)
                } else if words[0] == "READY"@ {
                    &&& ready_effect(*old(self), *final(self), words)
                    &&& reply matches AgentReply::Line(s) && s@ == "OK"@
                } else if words[0] == "INIT"@ {
                    &&& reply matches AgentReply::Init(rows) && views(rows@) == words.subrange(
                        1,
                        words.len() as int,
                    )
                    &&& *final(self) == *old(self)
                } else if words[0] == "TIME"@ {
                    time_effect(*old(self), *final(self), words, reply)
                } else if words[0] == "OPP"@ {
                    reply is Nothing && opp_effect(*old(self), *final(self), words)
                } else if words[0] == "FINISH"@ {
                    reply is Finish && *final(self) == *old(self)
                } else {
                    reply is Nothing && *final(self) == *old(self)
                }
            }),
    {
        let parts = split_whitespace(trim(line));
        if parts.len() == 0 {
            return AgentReply::Nothing;
        }
        let cmd = parts[0].as_str();
        if same_text(cmd, "READY") {
            AgentReply::Line(self.ready(parts.as_slice()))
        } else if same_text(cmd, "INIT") {
            AgentReply::Init(tail_words(parts.as_slice()))
        } else if same_text(cmd, "TIME") {
            self.begin_turn(parts.as_slice())
        } else if same_text(cmd, "OPP") {
            self.opp(parts.as_slice());
            AgentReply::Nothing
        } else if same_text(cmd, "FINISH") {
            AgentReply::Finish
        } else {
            AgentReply::Nothing
        }
    }

    fn ready(&mut self, parts: &[String]) -> (reply: String)
        requires
            old(self).wf(),
            parts@.len() >= 1,
        ensures
            ready_effect(*old(self), *final(self), views(parts@)),
            reply@ == "OK"@,
    {
        let first = parts.len() < 2 || same_text(parts[1].as_str(), "FIRST");
        proof {
            if parts@.len() >= 2 {
                assert(views(parts@)[1] == parts@[1]@);
            }
        }
        self.my_player = if first {
            FIRST
        } else {
            SECOND
        };
        self.side = GameSide::from_player(self.my_player);
        self.side_tuning = self.side.tuning();
        String::from_str("OK")
    }

    /// A new game on the ten rows `rows` (further rows ignored): the position they give
    /// (see `Board::from_rows`), no pass counted; returns whether the search's table is to
    /// be cleared.
    pub fn init(&mut self, rows: &[String]) -> (clear_tt: bool)
        requires
            old(self).wf(),
            rows@.len() >= ROWS,
            rows_fit(rows@.map_values(|s: String| s@)),
        ensures
            final(self).wf(),
            final(self).board matches Some(b) && b.values@ == values_from_rows(
                rows@.map_values(|s: String| s@),
            ) && b.player == FIRST && b.passes == 0,
            final(self).opp_consecutive_passes == 0,
            final(self).opp_passes_since_our_move == 0,
            final(self).my_player == old(self).my_player,
            final(self).side == old(self).side,
            clear_tt,
    {
        self.board = Some(Board::from_rows(rows));
        self.opp_consecutive_passes = 0;
        self.opp_passes_since_our_move = 0;
        self.side_tuning.clear_tt_on_init()
    }

    fn begin_turn(&mut self, parts: &[String]) -> (reply: AgentReply)
        requires
            old(self).wf(),
        ensures
            final(self).wf(),
            time_effect(*old(self), *final(self), views(parts@), reply),
    {
        let state = match &self.board {
            Some(b) => {
                if b.is_terminal() {
                    return AgentReply::Line(format_move(PASS));
                }
                *b
            },
            None => {
                return AgentReply::Line(format_move(PASS));
            },
        };
        self.opp_passes_since_our_move = 0;
        if self.opp_consecutive_passes >= 2 {
            let my_score = state.my_mask.popcount() as i32;
            let opp_score = state.opp_mask.popcount() as i32;
            if my_score > opp_score {
                self.board = Some(state.apply_action(PASS));
                return AgentReply::Line(format_move(PASS));
            }
        }
        proof {
            if parts@.len() >= 2 {
                assert(views(parts@)[1] == parts@[1]@);
            }
            if parts@.len() >= 3 {
                assert(views(parts@)[2] == parts@[2]@);
            }
        }
        let my = match parse_u64(if parts.len() >= 2 {
            Some(&parts[1])
        } else {
            None
        }) {
            Some(v) => v,
            None => 0,
        };
        let opp = match parse_u64(if parts.len() >= 3 {
            Some(&parts[2])
        } else {
            None
        }) {
            Some(v) => v,
            None => 0,
        };
        AgentReply::Think(state, my, opp)
    }

    /// The end of a turn: plays the search's `action` when it is legal on `state`, else the
    /// pass, and answers the move played.
    pub fn finish_turn(&mut self, state: Board, action: Move) -> (reply: String)
        requires
            state.wf(),
            state.passes < 2,
        ensures
            final(self).wf(),
            ({
                let played = if action == PASS || valid_rect(state.values@, action) {
                    action
                } else {
                    PASS
                };
                &&& reply@ == move_text(played)
                &&& final(self).board matches Some(n) && (n.values@, n.owners@, n.player, n.passes)
                    == state.after(played)
            }),
            final(self).opp_passes_since_our_move == 0,
            final(self).opp_consecutive_passes == old(self).opp_consecutive_passes,
            final(self).my_player == old(self).my_player,
            final(self).side == old(self).side,
    {
        let mv = if state.is_legal_action(action) {
            action
        } else {
            PASS
        };
        self.board = Some(state.apply_action(mv));
        self.opp_passes_since_our_move = 0;
        format_move(mv)
    }

    fn opp(&mut self, parts: &[String])
        requires
            old(self).wf(),
            old(self).counts_ok(),
            parts@.len() >= 1,
        ensures
            opp_effect(*old(self), *final(self), views(parts@)),
            final(self).wf(),
    {
        let board = match &self.board {
            Some(b) => *b,
            None => {
                return;
            },
        };
        if board.is_terminal() || parts.len() < 5 {
            return;
        }
        let tail = tail_words(parts);
        proof {
            assert(views(tail@) =~= views(parts@).subrange(1, parts@.len() as int));
            assert(tail@.map_values(|s: String| s@) =~= views(tail@));
        }
        let parsed = parse_move(tail.as_slice());
        if let Some(mv) = parsed {
            if board.is_legal_action(mv) {
                if mv.0 == -1 && mv.1 == -1 && mv.2 == -1 && mv.3 == -1 {
                    self.opp_consecutive_passes += 1;
                    self.opp_passes_since_our_move += 1;
                    self.board = Some(board.apply_action(mv));
                } else {
                    self.opp_consecutive_passes = 0;
                    self.opp_passes_since_our_move = 0;
                    self.board = Some(board.apply_action(mv));
                }
            }
        }
    }
}

/// The words after the first.
pub(crate) fn tail_words(parts: &[String]) -> (out: Vec<String>)
    requires
        parts@.len() >= 1,
    ensures
        out@ == parts@.subrange(1, parts@.len() as int),
        views(out@) == views(parts@).subrange(1, parts@.len() as int),
{
    let mut out: Vec<String> = Vec::new();
    let mut i: usize = 1;
    while i < parts.len()
        invariant
            1 <= i <= parts@.len(),
            out@ == parts@.subrange(1, i as int),
        decreases parts@.len() - i,
    {
        out.push(parts[i].clone());
        proof {
            assert(out@ =~= parts@.subrange(1, i + 1));
        }
        i += 1;
    }
    proof {
        assert(views(out@) =~= views(parts@).subrange(1, parts@.len() as int));
    }
    out
}

/// `READY`: the first side when no word follows or the next is `FIRST`, else the second;
/// the side and its tuning follow; nothing else changes.
pub open spec fn ready_effect(o: Agent, n: Agent, words: Seq<Seq<char>>) -> bool {
    let p = if words.len() < 2 || words[1] == "FIRST"@ {
        FIRST
    } else {
        SECOND
    };
    &&& n.my_player == p
    &&& n.side == (if p == FIRST {
        GameSide::First
    } else {
        GameSide::Second
    })
    &&& (n.side == GameSide::First ==> n.side_tuning is First)
    &&& (n.side == GameSide::Second ==> n.side_tuning is Second)
    &&& n.board == o.board
    &&& n.opp_consecutive_passes == o.opp_consecutive_passes
    &&& n.opp_passes_since_our_move == o.opp_passes_since_our_move
}

/// `TIME`: with no position or a finished game, answer the pass and change nothing; else
/// clear the passes since the bot's move, and pass (answering it) when the opponent passed
/// twice in a row and the bot owns more cells; else hand out the position and the times.
pub open spec fn time_effect(o: Agent, n: Agent, words: Seq<Seq<char>>, reply: AgentReply) -> bool {
    match o.board {
        Some(b) if b.passes < 2 => {
            &&& n.opp_passes_since_our_move == 0
            &&& n.opp_consecutive_passes == o.opp_consecutive_passes
            &&& n.my_player == o.my_player
            &&& n.side == o.side
            &&& if o.opp_consecutive_passes >= 2 && b.my_mask.count() > b.opp_mask.count() {
                &&& reply matches AgentReply::Line(s) && s@ == move_text(PASS)
                &&& n.board matches Some(nb) && (nb.values@, nb.owners@, nb.player, nb.passes)
                    == b.after(PASS)
            } else {
                &&& reply matches AgentReply::Think(s, my, opp) && s == b && my == time_word(
                    words,
                    1,
                ) && opp == time_word(words, 2)
                &&& n.board == o.board
            }
        },
        _ => {
            &&& reply matches AgentReply::Line(s) && s@ == move_text(PASS)
            &&& n == o
        },
    }
}

/// `OPP`: when there is a position, the game goes on, there are at least five words, and
/// words 1 to 4 name a legal move, play it, counting a pass in both pass counters and
/// clearing them on a rectangle; otherwise nothing changes.
pub open spec fn opp_effect(o: Agent, n: Agent, words: Seq<Seq<char>>) -> bool {
    &&& n.my_player == o.my_player
    &&& n.side == o.side
    &&& match o.board {
        Some(b) => if b.passes < 2 && words.len() >= 5 && named_move(words) is Some && (
        named_move(words)->0 == PASS || valid_rect(b.values@, named_move(words)->0)) {
            let mv = named_move(words)->0;
            &&& n.board matches Some(nb) && (nb.values@, nb.owners@, nb.player, nb.passes)
                == b.after(mv)
            &&& if mv == PASS {
                &&& n.opp_consecutive_passes == o.opp_consecutive_passes + 1
                &&& n.opp_passes_since_our_move == o.opp_passes_since_our_move + 1
            } else {
                n.opp_consecutive_passes == 0 && n.opp_passes_since_our_move == 0
            }
        } else {
            n.board == o.board && n.opp_consecutive_passes == o.opp_consecutive_passes
                && n.opp_passes_since_our_move == o.opp_passes_since_our_move
        },
        None => n.board == o.board && n.opp_consecutive_passes == o.opp_consecutive_passes
            && n.opp_passes_since_our_move == o.opp_passes_since_our_move,
    }
}

/// The line in which an opponent's move arrives, `OPP`, a space and the move's text (see
/// `format_move`), is read as that move: its words are `OPP` and the move's four numbers,
/// and they name the move (see `named_move`), which `Agent::handle` then plays when it is a
/// pass or a legal rectangle (see `opp_effect`).
pub proof fn lemma_opp_line_names_move(mv: Move)
    ensures
        ({
            let words = split_ws(trimmed(seq!['O', 'P', 'P', ' '] + move_text(mv)));
            &&& words.len() == 5
            &&& words[0] == "OPP"@
            &&& named_move(words) == Some(mv)
        }),
{
    reveal_strlit("OPP");
    let head = seq!['O', 'P', 'P', ' '];
    let text = move_text(mv);
    let line = head + text;
    let d = crate::protocol::int_text(mv.3 as int);
    lemma_int_text_reads_back(mv.3 as int);
    assert(line.last() == d.last());
    assert(!is_sep(d[d.len() - 1], false));
    assert(!crate::board::is_ws(line[line.len() - 1]));
    assert(!crate::board::is_ws(line[0]));
    assert(crate::board::first_non_ws(line, 0) == 0);
    assert(crate::board::end_non_ws(line, 0, line.len() as int) == line.len());
    assert(trimmed(line) =~= line);
    let opp = seq!['O', 'P', 'P'];
    assert forall|i: int| 0 <= i < opp.len() implies !#[trigger] is_sep(opp[i], false) by {}
    lemma_split_word(Seq::empty(), opp, false);
    assert(Seq::<char>::empty() + opp =~= opp);
    assert(split_on(Seq::<char>::empty(), false) =~= Seq::<Seq<char>>::empty());
    lemma_split_sep(opp, ' ', false);
    assert(opp.push(' ') =~= head);
    lemma_split_concat(head, text, false);
    lemma_move_text_words(mv);
    lemma_move_text_parses(mv);
    let words = split_ws(line);
    assert(words =~= seq![opp] + split_ws(text));
    assert(words.subrange(1, 5) =~= split_ws(text));
    assert(opp =~= "OPP"@);
}

} // verus!
