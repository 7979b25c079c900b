use vstd::prelude::*;

use crate::board::{valid_owners, valid_player, Board};
use crate::bots::zoo_rng::{lcg_iter, ZooRng};
use crate::types::{FIRST, N_CELLS};

verus! {

/// The value the training arena's board generator gives cell `i` from `seed`: the generator
/// state after `i + 2` steps, modulo 9, plus 1.
pub open spec fn arena_cell(seed: u64, i: int) -> u8 {
    (lcg_iter(seed, (i + 2) as nat) % 9 + 1) as u8
}

/// The training arena's random starting board for `seed`: cell `i` holds
/// `arena_cell(seed, i)`, nothing is owned, the first player moves, no passes.
pub fn random_board(seed: u64) -> (b: Board)
    ensures
        b.wf(),
        forall|i: int| 0 <= i < N_CELLS ==> #[trigger] b.values@[i] == arena_cell(seed, i),
        b.owners@ == Seq::new(N_CELLS as nat, |i: int| 0i8),
        b.player == FIRST,
        b.passes == 0,
{
    let mut state = ZooRng::new(seed);
    state.next_u64();
    let mut values = [0u8; N_CELLS];
    let mut i: usize = 0;
    proof {
        reveal_with_fuel(lcg_iter, 2);
    }
    while i < N_CELLS
        invariant
            i <= N_CELLS,
            state.0 == lcg_iter(seed, (i + 1) as nat),
            forall|k: int| 0 <= k < i ==> #[trigger] values@[k] == arena_cell(seed, k),
        decreases N_CELLS - i,
    {
        let x = state.next_u64();
        values[i] = (x % 9 + 1) as u8;
        i += 1;
    }
    let owners = [0i8; N_CELLS];
    proof {
        assert(owners@ =~= Seq::new(N_CELLS as nat, |i: int| 0i8));
        assert(valid_player(FIRST));
        assert(valid_owners(owners@));
    }
    Board::from_parts(values, owners, FIRST, 0)
}

} // verus!
