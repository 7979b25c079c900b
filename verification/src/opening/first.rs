use vstd::prelude::*;

use crate::search::SearchConfig;
use crate::timeman::SearchPhase;

verus! {

/// Search tuning for the first player.
#[derive(Clone, Copy, Debug, Default)]
pub struct FirstSideTuning;

impl FirstSideTuning {
    /// The search configuration for the first player: aspiration windows in the full midgame
    /// and the endgame, no Monte Carlo search, everything else as given.
    pub open spec fn spec_search_config(config: SearchConfig, phase: SearchPhase) -> SearchConfig {
        SearchConfig {
            use_aspiration: phase == SearchPhase::MidgameFull || phase == SearchPhase::Endgame,
            use_mcts: false,
            ..config
        }
    }

    /// Name of the tuning.
    pub fn name(self) -> (s: &'static str)
        ensures
            s@ == "first"@,
    {
        "first"
    }

    /// Whether to clear the transposition table on a new game.
    pub fn clear_tt_on_init(self) -> (b: bool)
        ensures
            b,
    {
        true
    }

    /// The search configuration for `phase`; see `spec_search_config`.
    pub fn search_config(self, config: SearchConfig, phase: SearchPhase) -> (c: SearchConfig)
        ensures
            c == Self::spec_search_config(config, phase),
    {
        let mut config = config;
        config.use_aspiration = matches!(phase, SearchPhase::MidgameFull | SearchPhase::Endgame);
        config.use_mcts = false;
        config
    }
}

} // verus!
