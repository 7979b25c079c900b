use vstd::prelude::*;

use crate::types::{cell_index, COLS, FIRST, N_CELLS, ROWS, SECOND};

verus! {

/// The state the key generator starts from.
pub const ZOBRIST_SEED: u64 = 1234567890123456789;
/// Number of value keys: one per cell and value 0..=9.
pub const N_VALUE_KEYS: usize = 1700;
/// Number of owner keys: one per cell and owner class (none, first, second).
pub const N_OWNER_KEYS: usize = 510;

/// One xorshift step: shift-xor by 13 left, 7 right, 17 left.
pub open spec fn xorshift_step(s: u64) -> u64 {
    let a = s ^ (s << 13u64);
    let b = a ^ (a >> 7u64);
    b ^ (b << 17u64)
}

/// The generator state after `n` steps from `ZOBRIST_SEED`.
pub open spec fn xs_state(n: nat) -> u64
    decreases n,
{
    if n == 0 {
        ZOBRIST_SEED
    } else {
        xorshift_step(xs_state((n - 1) as nat))
    }
}

/// Advances `state` by one xorshift step and returns the new state.
pub fn xorshift64(state: &mut u64) -> (r: u64)
    ensures
        *final(state) == xorshift_step(*old(state)),
        r == *final(state),
{
    *state = *state ^ (*state << 13u64);
    *state = *state ^ (*state >> 7u64);
    *state = *state ^ (*state << 17u64);
    *state
}

/// The keys of the position hash, drawn in order from the generator: a key per cell and
/// value, then a key per cell and owner class, then the key of the first player to move.
pub struct ZobristKeys {
    pub value: Vec<u64>,
    pub owner: Vec<u64>,
    pub player: u64,
}

impl ZobristKeys {
    /// The keys are the generator's outputs: value key `k` is output `k + 1`, owner key `k`
    /// is output `N_VALUE_KEYS + k + 1`, the player key the one after those.
    pub open spec fn wf(&self) -> bool {
        &&& self.value@.len() == N_VALUE_KEYS
        &&& self.owner@.len() == N_OWNER_KEYS
        &&& forall|k: int| 0 <= k < N_VALUE_KEYS ==> #[trigger] self.value@[k] == xs_state((k + 1) as nat)
        &&& forall|k: int|
            0 <= k < N_OWNER_KEYS ==> #[trigger] self.owner@[k] == xs_state(
                (N_VALUE_KEYS + k + 1) as nat,
            )
        &&& self.player == xs_state((N_VALUE_KEYS + N_OWNER_KEYS + 1) as nat)
    }
}

/// Draws the keys; see `ZobristKeys::wf`.
pub fn init_zobrist() -> (keys: ZobristKeys)
    ensures
        keys.wf(),
{
    let mut seed = ZOBRIST_SEED;
    let mut value: Vec<u64> = Vec::new();
    let mut k: usize = 0;
    while k < N_VALUE_KEYS
        invariant
            k <= N_VALUE_KEYS,
            value@.len() == k,
            seed == xs_state(k as nat),
            forall|j: int| 0 <= j < k ==> #[trigger] value@[j] == xs_state((j + 1) as nat),
        decreases N_VALUE_KEYS - k,
    {
        let x = xorshift64(&mut seed);
        value.push(x);
        k += 1;
    }
    let mut owner: Vec<u64> = Vec::new();
    let mut k: usize = 0;
    while k < N_OWNER_KEYS
        invariant
            k <= N_OWNER_KEYS,
            owner@.len() == k,
            seed == xs_state((N_VALUE_KEYS + k) as nat),
            forall|j: int|
                0 <= j < k ==> #[trigger] owner@[j] == xs_state((N_VALUE_KEYS + j + 1) as nat),
        decreases N_OWNER_KEYS - k,
    {
        let x = xorshift64(&mut seed);
        owner.push(x);
        k += 1;
    }
    let player = xorshift64(&mut seed);
    ZobristKeys { value, owner, player }
}

/// The owner class of `o`: 1 for the first player, 2 for the second, else 0.
pub open spec fn owner_class(o: i8) -> int {
    if o == FIRST {
        1
    } else if o == SECOND {
        2
    } else {
        0
    }
}

/// What cell `i` adds to the hash: the key of its value when that is 1..=9, and the key of
/// its owner class.
pub open spec fn cell_hash(keys: ZobristKeys, values: Seq<u8>, owners: Seq<i8>, i: int) -> u64 {
    let v = values[i];
    let vk = if 0 < v <= 9 { keys.value@[i * 10 + v] } else { 0u64 };
    vk ^ keys.owner@[i * 3 + owner_class(owners[i])]
}

/// XOR of the contributions of the cells below `n`.
pub open spec fn cells_hash_below(keys: ZobristKeys, values: Seq<u8>, owners: Seq<i8>, n: nat) -> u64
    decreases n,
{
    if n == 0 {
        0
    } else {
        cells_hash_below(keys, values, owners, (n - 1) as nat) ^ cell_hash(
            keys,
            values,
            owners,
            n - 1,
        )
    }
}

/// The hash of a position: the cells' contributions, and the player key when the first
/// player is to move.
pub open spec fn spec_hash_board(keys: ZobristKeys, values: Seq<u8>, owners: Seq<i8>, player: i8) -> u64 {
    cells_hash_below(keys, values, owners, N_CELLS as nat) ^ if player == FIRST {
        keys.player
    } else {
        0u64
    }
}

/// The hash of a position; see `spec_hash_board`.
pub fn hash_board(keys: &ZobristKeys, values: &[u8; N_CELLS], owners: &[i8; N_CELLS], player: i8) -> (h: u64)
    requires
        keys.wf(),
    ensures
        h == spec_hash_board(*keys, values@, owners@, player),
{
    let mut h: u64 = 0;
    let mut r: usize = 0;
    while r < ROWS
        invariant
            r <= ROWS,
            keys.wf(),
            h == cells_hash_below(*keys, values@, owners@, (r * COLS) as nat),
        decreases ROWS - r,
    {
        let mut c: usize = 0;
        while c < COLS
            invariant
                r < ROWS,
                c <= COLS,
                keys.wf(),
                h == cells_hash_below(*keys, values@, owners@, (r * COLS + c) as nat),
            decreases COLS - c,
        {
            let idx = cell_index(r, c);
            let ghost h0 = h;
            let v = values[idx] as usize;
            let ghost vk: u64 = if 0 < v <= 9 { keys.value@[idx * 10 + v] } else { 0u64 };
            if v > 0 && v <= 9 {
                h = h ^ keys.value[idx * 10 + v];
            } else {
                assert(h ^ 0u64 == h) by (bit_vector);
            }
            let o = owners[idx];
            let oi: usize = if o == FIRST {
                1
            } else if o == SECOND {
                2
            } else {
                0
            };
            let ok = keys.owner[idx * 3 + oi];
            h = h ^ ok;
            proof {
                assert((h0 ^ vk) ^ ok == h0 ^ (vk ^ ok)) by (bit_vector);
                assert(vk ^ ok == cell_hash(*keys, values@, owners@, idx as int));
            }
            c += 1;
        }
        r += 1;
    }
    if player == FIRST {
        h = h ^ keys.player;
    } else {
        assert(h ^ 0u64 == h) by (bit_vector);
    }
    h
}

} // verus!
