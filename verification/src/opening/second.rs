use vstd::prelude::*;

use crate::board::Board;
use crate::movegen::legal_rects;
use crate::opening::traps::{
    max_squeeze, spec_squeeze_bonus, spec_trapbook_bonus, tactical_squeeze_bonus, trapbook_bonus,
};
use crate::search::SearchConfig;
use crate::timeman::SearchPhase;
use crate::types::{is_pass, Move, PASS};

verus! {

/// Search tuning for the second player.
#[derive(Clone, Copy, Debug, Default)]
pub struct SecondSideTuning;

impl SecondSideTuning {
    /// The search configuration for the second player: aspiration windows in every phase
    /// listed (full midgame, conserving midgame, endgame), no Monte Carlo search, everything
    /// else as given.
    pub open spec fn spec_search_config(config: SearchConfig, phase: SearchPhase) -> SearchConfig {
        SearchConfig {
            use_aspiration: phase == SearchPhase::MidgameFull || phase == SearchPhase::MidgameConserve
                || phase == SearchPhase::Endgame,
            use_mcts: false,
            ..config
        }
    }

    /// Name of the tuning.
    pub fn name(self) -> (s: &'static str)
        ensures
            s@ == "second"@,
    {
        "second"
    }

    /// Whether to clear the transposition table on a new game.
    pub fn clear_tt_on_init(self) -> (b: bool)
        ensures
            b,
    {
        true
    }

    /// The search configuration for `phase`; see `spec_search_config`.
    pub fn search_config(self, config: SearchConfig, phase: SearchPhase) -> (c: SearchConfig)
        ensures
            c == Self::spec_search_config(config, phase),
    {
        let mut config = config;
        config.use_aspiration = matches!(
            phase,
            SearchPhase::MidgameFull | SearchPhase::MidgameConserve | SearchPhase::Endgame
        );
        config.use_mcts = false;
        config
    }

    /// The trap bonus for the second player's move `mv` on `board`, which gives `child`:
    /// -10000 for the pass; with 14 to 38 live cells the trap book's and the squeeze bonus
    /// together (see `spec_trapbook_bonus`, `spec_squeeze_bonus`), else none.
    pub open spec fn spec_trap_bonus(board: Board, mv: Move, child: Board) -> int {
        let live = board.live_mask.count();
        if mv == PASS {
            -10000
        } else if live < 14 || live > 38 {
            0
        } else {
            spec_trapbook_bonus(
                mv,
                live as int,
                child.live_mask.count() as int,
                legal_rects(child.values@).len() as int,
            ) + spec_squeeze_bonus(
                max_squeeze(child.values@, child.owners@, child.player, legal_rects(child.values@)),
            )
        }
    }

    /// The trap bonus; see `spec_trap_bonus`.
    pub fn trap_bonus(self, board: &Board, mv: Move, child: &Board) -> (b: i32)
        requires
            child.wf(),
        ensures
            b == Self::spec_trap_bonus(*board, mv, *child),
    {
        if is_pass(mv) {
            return -10000;
        }
        let live = board.live_mask.popcount();
        if live < 14 || live > 38 {
            return 0;
        }
        let book_bonus = trapbook_bonus(board, mv, child);
        let tactical_bonus = tactical_squeeze_bonus(child);
        book_bonus + tactical_bonus
    }
}

} // verus!
