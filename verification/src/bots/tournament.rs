use vstd::prelude::*;

use crate::board::{valid_owners, valid_player, Board};
use crate::bots::tuner::{draw_u8, Rng};
use crate::bots::zoo_rng::lcg_iter;
use crate::types::{FIRST, N_CELLS};

verus! {

/// The value the tournament's board generator gives cell `i` from `seed`: a draw in `1..=9`
/// after `i + 1` steps of the generator.
pub open spec fn tournament_cell(seed: u64, i: int) -> u8 {
    draw_u8(lcg_iter(seed, (i + 1) as nat), 1, 9)
}

/// The tournament's random starting board for `seed`: cell `i` holds
/// `tournament_cell(seed, i)`, nothing is owned, the first player moves, no passes.
pub fn random_board(seed: u64) -> (b: Board)
    ensures
        b.wf(),
        forall|i: int| 0 <= i < N_CELLS ==> #[trigger] b.values@[i] == tournament_cell(seed, i),
        b.owners@ == Seq::new(N_CELLS as nat, |i: int| 0i8),
        b.player == FIRST,
        b.passes == 0,
{
    let mut rng = Rng::with_seed(seed);
    let mut values = [0u8; N_CELLS];
    let mut i: usize = 0;
    while i < N_CELLS
        invariant
            i <= N_CELLS,
            rng.0 == lcg_iter(seed, i as nat),
            forall|k: int| 0 <= k < i ==> #[trigger] values@[k] == tournament_cell(seed, k),
        decreases N_CELLS - i,
    {
        let v = rng.u8(1, 9);
        values[i] = v;
        i += 1;
    }
    let owners = [0i8; N_CELLS];
    proof {
        assert(owners@ =~= Seq::new(N_CELLS as nat, |i: int| 0i8));
        assert(valid_player(FIRST));
        assert(valid_owners(owners@));
    }
    Board::from_parts(values, owners, FIRST, 0)
}


/// The board seed of tournament game `game`: `seed + 1000 * game`.
pub fn tournament_board_seed(seed: u64, game: u32) -> (s: u64)
    requires
        seed + 1000 * game <= u64::MAX,
    ensures
        s == seed + 1000 * game,
{
    seed + game as u64 * 1000
}

/// Whether the first bot moves first in tournament game `game`: always, unless the sides
/// swap, and then in the even games.
pub fn tournament_first_moves_first(game: u32, swap: bool) -> (b: bool)
    ensures
        b == if swap {
            game % 2 == 0
        } else {
            true
        },
{
    if swap {
        game % 2 == 0
    } else {
        true
    }
}

/// The results of the games played so far: their number, the wins and draws of the first
/// bot, and the sum of the final margins.
pub struct Tally {
    pub games: u32,
    pub wins: u32,
    pub draws: u32,
    pub total_margin: i64,
}

impl Tally {
    /// Wins and draws are among the games played.
    pub open spec fn wf(&self) -> bool {
        self.wins + self.draws <= self.games
    }

    /// No game played.
    pub fn new() -> (t: Tally)
        ensures
            t.wf(),
            t.games == 0 && t.wins == 0 && t.draws == 0 && t.total_margin == 0,
    {
        Tally { games: 0, wins: 0, draws: 0, total_margin: 0 }
    }

    /// Counts a game that ended with final margin `margin` for the first bot: a win when
    /// positive, a draw when zero.
    pub fn record(&mut self, margin: i32)
        requires
            old(self).wf(),
            old(self).games < u32::MAX,
            i64::MIN <= old(self).total_margin + margin <= i64::MAX,
        ensures
            final(self).wf(),
            final(self).games == old(self).games + 1,
            final(self).wins == old(self).wins + if margin > 0 { 1int } else { 0int },
            final(self).draws == old(self).draws + if margin == 0 { 1int } else { 0int },
            final(self).total_margin == old(self).total_margin + margin,
    {
        self.games += 1;
        if margin > 0 {
            self.wins += 1;
        } else if margin == 0 {
            self.draws += 1;
        }
        self.total_margin += margin as i64;
    }

    /// The games the first bot lost.
    pub fn losses(&self) -> (n: u32)
        requires
            self.wf(),
        ensures
            n == self.games - self.wins - self.draws,
    {
        self.games - self.wins - self.draws
    }
}

} // verus!
