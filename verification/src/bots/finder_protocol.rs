use vstd::prelude::*;

use crate::agent::{tail_words, time_word};
use crate::board::{rows_fit, trimmed, values_from_rows, Board};
use crate::bots::agent_protocol::{opp_move, read_opp_move};
use crate::bots::zoo_protocol::same_text;
use crate::bots::zoo_utils::{format_move, parse_u64};
use crate::movegen::valid_rect;
use crate::protocol::{move_text, split_whitespace, split_ws, views};
use crate::types::{Move, COLS, FIRST, PASS, ROWS, SECOND};

verus! {

/// The finding bot's side of the text protocol: the position, its side, and how many times
/// the opponent passed in a row and since the bot's last move.
pub struct FinderProtocol {
    pub board: Option<Board>,
    pub my_player: i8,
    pub opp_consecutive_passes: u32,
    pub opp_passes_since_our_move: u32,
}

/// What handling a line asks of the caller.
pub enum FinderReply {
    /// Nothing to answer.
    Nothing,
    /// Answer this line.
    Line(String),
    /// A new game: the rows given so far; read more lines until there are ten, then call
    /// `FinderProtocol::init`.
    Init(Vec<String>),
    /// Search this position within this many milliseconds, then call
    /// `FinderProtocol::finish_turn`.
    Think(Board, u64),
    /// The game is over: stop.
    Finish,
}

/// The time for one move: the time left less a 500 ms reserve, over the moves still
/// expected (a quarter of the live cells, at least 4), kept within 20..=2500 ms.
pub open spec fn finder_budget(my_ms: u64, live: u64) -> u64 {
    let est = if live / 4 > 4 { live / 4 } else { 4 };
    let usable = if my_ms > 500 { (my_ms - 500) as u64 } else { 0u64 };
    let q = usable / est;
    if q < 20 {
        20
    } else if q > 2500 {
        2500
    } else {
        q
    }
}

/// `TIME`: with no position or a finished game, answer the pass and change nothing; else
/// clear the passes since the bot's move, and pass (answering it) when the opponent passed
/// twice in a row and the bot owns more cells; else hand out the position and the time for
/// the move.
pub open spec fn finder_time_effect(o: FinderProtocol, n: FinderProtocol, words: Seq<Seq<char>>, reply: FinderReply) -> bool {
    match o.board {
        Some(b) if b.passes < 2 => {
            &&& n.opp_passes_since_our_move == 0
            &&& n.opp_consecutive_passes == o.opp_consecutive_passes
            &&& n.my_player == o.my_player
            &&& if o.opp_consecutive_passes >= 2 && b.my_mask.count() > b.opp_mask.count() {
                &&& reply matches FinderReply::Line(s) && s@ == move_text(PASS)
                &&& n.board matches Some(nb) && (nb.values@, nb.owners@, nb.player, nb.passes)
                    == b.after(PASS)
            } else {
                &&& reply matches FinderReply::Think(s, budget) && s == b && budget
                    == finder_budget(time_word(words, 1), b.live_mask.count() as u64)
                &&& n.board == o.board
            }
        },
        _ => {
            &&& reply matches FinderReply::Line(s) && s@ == move_text(PASS)
            &&& n == o
        },
    }
}

/// `OPP`: when there is a position, the game goes on, there are at least five words, and
/// the move words 1 to 4 name (-1 for a word that is not a number) is legal: a pass counts
/// in both pass counters and is played only when it is the first since the bot's move; a
/// rectangle clears both and is played. Otherwise nothing changes.
pub open spec fn finder_opp_effect(o: FinderProtocol, n: FinderProtocol, words: Seq<Seq<char>>) -> bool {
    &&& n.my_player == o.my_player
    &&& match o.board {
        Some(b) => if b.passes < 2 && words.len() >= 5 && (opp_move(words) == PASS || valid_rect(
            b.values@,
            opp_move(words),
        )) {
            if opp_move(words) == PASS {
                &&& n.opp_consecutive_passes == o.opp_consecutive_passes + 1
                &&& n.opp_passes_since_our_move == o.opp_passes_since_our_move + 1
                &&& if n.opp_passes_since_our_move <= 1 {
                    n.board matches Some(nb) && (nb.values@, nb.owners@, nb.player, nb.passes)
                        == b.after(PASS)
                } else {
                    n.board == o.board
                }
            } else {
                &&& n.opp_consecutive_passes == 0
                &&& n.opp_passes_since_our_move == 0
                &&& n.board matches Some(nb) && (nb.values@, nb.owners@, nb.player, nb.passes)
                    == b.after(opp_move(words))
            }
        } else {
            n.board == o.board && n.opp_consecutive_passes == o.opp_consecutive_passes
                && n.opp_passes_since_our_move == o.opp_passes_since_our_move
        },
        None => n.board == o.board && n.opp_consecutive_passes == o.opp_consecutive_passes
            && n.opp_passes_since_our_move == o.opp_passes_since_our_move,
    }
}

impl FinderProtocol {
    /// The position, when there is one, is well formed.
    pub open spec fn wf(&self) -> bool {
        self.board matches Some(b) ==> b.wf()
    }

    /// No position, the first side, no pass counted.
    pub fn new() -> (p: FinderProtocol)
        ensures
            p.wf(),
            p.board.is_none(),
            p.my_player == FIRST,
            p.opp_consecutive_passes == 0,
            p.opp_passes_since_our_move == 0,
    {
        FinderProtocol {
            board: None,
            my_player: FIRST,
            opp_consecutive_passes: 0,
            opp_passes_since_our_move: 0,
        }
    }

    /// Handles one protocol line; on its words: `READY` takes the second side when the next
    /// word is `SECOND` and answers `OK`; `INIT` hands out its rows; `TIME` as
    /// `finder_time_effect`; `OPP` as `finder_opp_effect`; `FINISH` stops.
    pub fn handle(&mut self, line: &str) -> (reply: FinderReply)
        requires
            old(self).wf(),
            old(self).opp_consecutive_passes < u32::MAX,
            old(self).opp_passes_since_our_move < u32::MAX,
        ensures
            final(self).wf(),
            ({
                let words = split_ws(line@);
                if words.len() == 0 {
                    reply is Nothing && *final(self) == *old(self)
                } else if words[0] == "READY"@ {
                    &&& reply matches FinderReply::Line(s) && s@ == "OK"@
                    &&& final(self).my_player == (if words.len() >= 2 && words[1] == "SECOND"@ {
                        SECOND
                    } else {
                        FIRST
                    })
                    &&& final(self).board == old(self).board
                    &&& final(self).opp_consecutive_passes == old(self).opp_consecutive_passes
                    &&& final(self).opp_passes_since_our_move == old(
                        self,
                    ).opp_passes_since_our_move
                } else if words[0] == "INIT"@ {
                    &&& reply matches FinderReply::Init(rows) && views(rows@) == words.subrange(
                        1,
                        words.len() as int,
                    )
                    &&& *final(self) == *old(self)
                } else if words[0] == "TIME"@ {
                    finder_time_effect(*old(self), *final(self), words, reply)
                } else if words[0] == "OPP"@ {
                    reply is Nothing && finder_opp_effect(*old(self), *final(self), words)
                } else if words[0] == "FINISH"@ {
                    reply is Finish && *final(self) == *old(self)
                } else {
                    reply is Nothing && *final(self) == *old(self)
                }
            }),
    {
        let parts = split_whitespace(line);
        if parts.len() == 0 {
            return FinderReply::Nothing;
        }
        let cmd = parts[0].as_str();
        if same_text(cmd, "READY") {
            let second = parts.len() >= 2 && same_text(parts[1].as_str(), "SECOND");
            proof {
                if parts@.len() >= 2 {
                    assert(views(parts@)[1] == parts@[1]@);
                }
            }
            self.my_player = if second {
                SECOND
            } else {
                FIRST
            };
            FinderReply::Line(String::from_str("OK"))
        } else if same_text(cmd, "INIT") {
            FinderReply::Init(tail_words(parts.as_slice()))
        } else if same_text(cmd, "TIME") {
            self.begin_turn(parts.as_slice())
        } else if same_text(cmd, "OPP") {
            self.opp(parts.as_slice());
            FinderReply::Nothing
        } else if same_text(cmd, "FINISH") {
            FinderReply::Finish
        } else {
            FinderReply::Nothing
        }
    }

    /// A new game on the ten rows `rows` (further rows ignored), no pass counted.
    pub fn init(&mut self, rows: &[String])
        requires
            rows@.len() >= ROWS,
            rows_fit(rows@.map_values(|s: String| s@)),
        ensures
            final(self).wf(),
            final(self).board matches Some(b) && b.values@ == values_from_rows(
                rows@.map_values(|s: String| s@),
            ) && b.player == FIRST && b.passes == 0,
            final(self).opp_consecutive_passes == 0,
            final(self).opp_passes_since_our_move == 0,
            final(self).my_player == old(self).my_player,
    {
        self.board = Some(Board::from_rows(rows));
        self.opp_consecutive_passes = 0;
        self.opp_passes_since_our_move = 0;
    }

    fn begin_turn(&mut self, parts: &[String]) -> (reply: FinderReply)
        requires
            old(self).wf(),
        ensures
            final(self).wf(),
            finder_time_effect(*old(self), *final(self), views(parts@), reply),
    {
        let state = match &self.board {
            Some(b) => {
                if b.is_terminal() {
                    return FinderReply::Line(format_move(PASS));
                }
                *b
            },
            None => {
                return FinderReply::Line(format_move(PASS));
            },
        };
        self.opp_passes_since_our_move = 0;
        proof {
            if parts@.len() >= 2 {
                assert(views(parts@)[1] == parts@[1]@);
            }
        }
        let my_ms: u64 = match parse_u64(if parts.len() >= 2 {
            Some(&parts[1])
        } else {
            None
        }) {
            Some(v) => v,
            None => 0,
        };
        let live = state.live_mask.popcount() as u64;
        let est = if live / 4 > 4 {
            live / 4
        } else {
            4
        };
        let q = my_ms.saturating_sub(500) / est;
        let budget = if q < 20 {
            20
        } else if q > 2500 {
            2500
        } else {
            q
        };
        if self.opp_consecutive_passes >= 2 {
            let my_score = state.my_mask.popcount() as i32;
            let opp_score = state.opp_mask.popcount() as i32;
            if my_score > opp_score {
                self.board = Some(state.apply_action(PASS));
                return FinderReply::Line(format_move(PASS));
            }
        }
        FinderReply::Think(state, budget)
    }

    /// The end of a turn: plays the search's move when it is legal on `state`, else the
    /// pass, and answers the move played.
    pub fn finish_turn(&mut self, state: Board, mv: Move) -> (reply: String)
        requires
            state.wf(),
            state.passes < 2,
        ensures
            final(self).wf(),
            ({
                let played = if mv == PASS || valid_rect(state.values@, mv) {
                    mv
                } else {
                    PASS
                };
                &&& reply@ == move_text(played)
                &&& final(self).board matches Some(n) && (n.values@, n.owners@, n.player, n.passes)
                    == state.after(played)
            }),
            final(self).opp_consecutive_passes == old(self).opp_consecutive_passes,
            final(self).opp_passes_since_our_move == old(self).opp_passes_since_our_move,
            final(self).my_player == old(self).my_player,
    {
        let played = if state.is_legal_action(mv) {
            mv
        } else {
            PASS
        };
        self.board = Some(state.apply_action(played));
        format_move(played)
    }

    fn opp(&mut self, parts: &[String])
        requires
            old(self).wf(),
            old(self).opp_consecutive_passes < u32::MAX,
            old(self).opp_passes_since_our_move < u32::MAX,
        ensures
            final(self).wf(),
            finder_opp_effect(*old(self), *final(self), views(parts@)),
    {
        let bd = match &self.board {
            Some(b) => *b,
            None => {
                return;
            },
        };
        if bd.is_terminal() || parts.len() < 5 {
            return;
        }
        let mv = read_opp_move(parts);
        if !bd.is_legal_action(mv) {
            return;
        }
        if mv.0 == -1 && mv.1 == -1 && mv.2 == -1 && mv.3 == -1 {
            self.opp_consecutive_passes += 1;
            self.opp_passes_since_our_move += 1;
            if self.opp_passes_since_our_move <= 1 {
                self.board = Some(bd.apply_action(mv));
            }
        } else {
            self.opp_consecutive_passes = 0;
            self.opp_passes_since_our_move = 0;
            self.board = Some(bd.apply_action(mv));
        }
    }
}

} // verus!
