use vstd::prelude::*;

verus! {

/// Switches and time budget of the game-tree search.
#[derive(Clone, Copy, Debug)]
pub struct SearchConfig {
    pub time_budget_ms: u64,
    pub use_tt: bool,
    pub use_ordering: bool,
    pub use_second_bonus: bool,
    pub use_aspiration: bool,
    pub use_mcts: bool,
    pub use_qsearch: bool,
    pub use_lmr: bool,
    pub use_futility: bool,
    pub use_mquality: bool,
    pub use_exact_endgame: bool,
    pub use_nmp: bool,
    pub use_singular_extension: bool,
    pub use_mtd: bool,
}

} // verus!
