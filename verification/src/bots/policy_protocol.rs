use vstd::prelude::*;

use crate::agent::tail_words;
use crate::board::{rows_fit, trimmed, values_from_rows, Board};
use crate::bots::agent_protocol::{opp_move, read_opp_move};
use crate::bots::zoo_protocol::same_text;
use crate::bots::zoo_utils::{format_move, parse_u64};
use crate::movegen::valid_rect;
use crate::protocol::{move_text, spec_parse_u64, split_whitespace, split_ws, views};
use crate::types::{Move, COLS, FIRST, PASS, ROWS, SECOND};

verus! {

/// The policy bot's side of the text protocol: the position, its side, and the time left
/// that the last `TIME` line gave.
pub struct PolicyProtocol {
    pub board: Option<Board>,
    pub my_player: i8,
    pub my_time_left_ms: u64,
}

/// What handling a line asks of the caller.
pub enum PolicyReply {
    /// Nothing to answer.
    Nothing,
    /// Answer this line.
    Line(String),
    /// A new game: the rows given so far; read more lines until there are ten, then call
    /// `PolicyProtocol::init`.
    Init(Vec<String>),
    /// Choose a move on this position with this much time left (ms), then call
    /// `PolicyProtocol::finish_turn`.
    Think(Board, u64),
    /// The game is over: stop.
    Finish,
}

/// The number word `k` reads as, or 10000.
pub open spec fn time_or_default(words: Seq<Seq<char>>, k: int) -> u64 {
    if k < words.len() {
        match spec_parse_u64(words[k]) {
            Some(v) => v,
            None => 10000,
        }
    } else {
        10000
    }
}

impl PolicyProtocol {
    /// The position, when there is one, is well formed.
    pub open spec fn wf(&self) -> bool {
        self.board matches Some(b) ==> b.wf()
    }

    /// No position, the first side, 10 s left.
    pub fn new() -> (p: PolicyProtocol)
        ensures
            p.wf(),
            p.board.is_none(),
            p.my_player == FIRST,
            p.my_time_left_ms == 10000,
    {
        PolicyProtocol { board: None, my_player: FIRST, my_time_left_ms: 10000 }
    }

    /// Handles one protocol line; on its words: `READY` takes the second side when the next
    /// word is `SECOND` and answers `OK`; `INIT` hands out its rows; `TIME` answers the pass
    /// when there is no position or the game is over, and otherwise records the time left
    /// (10000 when the next word is not a number) and hands out the position; `OPP` plays
    /// the move words 1 to 4 name (-1 for a word that is not a number) when the game goes on
    /// and it is legal; `FINISH` stops.
    pub fn handle(&mut self, line: &str) -> (reply: PolicyReply)
        requires
            old(self).wf(),
        ensures
            final(self).wf(),
            ({
                let words = split_ws(line@);
                let o = *old(self);
                let n = *final(self);
                if words.len() == 0 {
                    reply is Nothing && n == o
                } else if words[0] == "READY"@ {
                    &&& reply matches PolicyReply::Line(s) && s@ == "OK"@
                    &&& n.my_player == (if words.len() >= 2 && words[1] == "SECOND"@ {
                        SECOND
                    } else {
                        FIRST
                    })
                    &&& n.board == o.board
                    &&& n.my_time_left_ms == o.my_time_left_ms
                } else if words[0] == "INIT"@ {
                    &&& reply matches PolicyReply::Init(rows) && views(rows@) == words.subrange(
                        1,
                        words.len() as int,
                    )
                    &&& n == o
                } else if words[0] == "TIME"@ {
                    match o.board {
                        Some(b) if b.passes < 2 => {
                            &&& n.my_time_left_ms == time_or_default(words, 1)
                            &&& reply matches PolicyReply::Think(s, t) && s == b && t
                                == n.my_time_left_ms
                            &&& n.board == o.board
                            &&& n.my_player == o.my_player
                        },
                        _ => {
                            &&& reply matches PolicyReply::Line(s) && s@ == move_text(PASS)
                            &&& n == o
                        },
                    }
                } else if words[0] == "OPP"@ {
                    &&& reply is Nothing
                    &&& n.my_player == o.my_player
                    &&& n.my_time_left_ms == o.my_time_left_ms
                    &&& match o.board {
                        Some(b) => if b.passes < 2 && words.len() >= 5 && (opp_move(words)
                            == PASS || valid_rect(b.values@, opp_move(words))) {
                            n.board matches Some(nb) && (nb.values@, nb.owners@, nb.player, nb.passes)
                                == b.after(opp_move(words))
                        } else {
                            n.board == o.board
                        },
                        None => n.board == o.board,
                    }
                } else if words[0] == "FINISH"@ {
                    reply is Finish && n == o
                } else {
                    reply is Nothing && n == o
                }
            }),
    {
        let parts = split_whitespace(line);
        if parts.len() == 0 {
            return PolicyReply::Nothing;
        }
        let cmd = parts[0].as_str();
        if same_text(cmd, "READY") {
            let second = parts.len() >= 2 && same_text(parts[1].as_str(), "SECOND");
            proof {
                if parts@.len() >= 2 {
                    assert(views(parts@)[1] == parts@[1]@);
                }
            }
            self.my_player = if second {
                SECOND
            } else {
                FIRST
            };
            PolicyReply::Line(String::from_str("OK"))
        } else if same_text(cmd, "INIT") {
            PolicyReply::Init(tail_words(parts.as_slice()))
        } else if same_text(cmd, "TIME") {
            let state = match &self.board {
                Some(b) => {
                    if b.is_terminal() {
                        return PolicyReply::Line(format_move(PASS));
                    }
                    *b
                },
                None => {
                    return PolicyReply::Line(format_move(PASS));
                },
            };
            proof {
                if parts@.len() >= 2 {
                    assert(views(parts@)[1] == parts@[1]@);
                }
            }
            self.my_time_left_ms = match parse_u64(if parts.len() >= 2 {
                Some(&parts[1])
            } else {
                None
            }) {
                Some(v) => v,
                None => 10000,
            };
            PolicyReply::Think(state, self.my_time_left_ms)
        } else if same_text(cmd, "OPP") {
            if let Some(bd) = &self.board {
                if !bd.is_terminal() && parts.len() >= 5 {
                    let mv = read_opp_move(parts.as_slice());
                    if bd.is_legal_action(mv) {
                        let next = bd.apply_action(mv);
                        self.board = Some(next);
                    }
                }
            }
            PolicyReply::Nothing
        } else if same_text(cmd, "FINISH") {
            PolicyReply::Finish
        } else {
            PolicyReply::Nothing
        }
    }

    /// A new game on the ten rows `rows` (further rows ignored).
    pub fn init(&mut self, rows: &[String])
        requires
            rows@.len() >= ROWS,
            rows_fit(rows@.map_values(|s: String| s@)),
        ensures
            final(self).wf(),
            final(self).board matches Some(b) && b.values@ == values_from_rows(
                rows@.map_values(|s: String| s@),
            ) && b.player == FIRST && b.passes == 0,
            final(self).my_player == old(self).my_player,
            final(self).my_time_left_ms == old(self).my_time_left_ms,
    {
        self.board = Some(Board::from_rows(rows));
    }

    /// The end of a turn: plays `mv` when it is legal on `state`, else the pass, and
    /// answers the move played.
    pub fn finish_turn(&mut self, state: Board, mv: Move) -> (reply: String)
        requires
            state.wf(),
            state.passes < 2,
        ensures
            final(self).wf(),
            ({
                let played = if mv == PASS || valid_rect(state.values@, mv) {
                    mv
                } else {
                    PASS
                };
                &&& reply@ == move_text(played)
                &&& final(self).board matches Some(n) && (n.values@, n.owners@, n.player, n.passes)
                    == state.after(played)
            }),
            final(self).my_player == old(self).my_player,
            final(self).my_time_left_ms == old(self).my_time_left_ms,
    {
        let played = if state.is_legal_action(mv) {
            mv
        } else {
            PASS
        };
        self.board = Some(state.apply_action(played));
        format_move(played)
    }
}

} // verus!
