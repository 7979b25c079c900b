use vstd::prelude::*;

use crate::movegen::{rect_contains, rect_in_board};
use crate::types::{cell_index, is_pass, opponent, spec_opponent, Move, COLS, FIRST, N_CELLS, PASS, ROWS, SECOND};

verus! {

/// The pseudo-random 64-bit key of a feature code (the SplitMix64 output function).
pub open spec fn zobrist_key(code: u64) -> u64 {
    let z0 = vstd::wrapping::u64_specs::wrapping_add(code, 0x9E3779B97F4A7C15u64);
    let z1 = vstd::wrapping::u64_specs::wrapping_mul(z0 ^ (z0 >> 30u64), 0xBF58476D1CE4E5B9u64);
    let z2 = vstd::wrapping::u64_specs::wrapping_mul(z1 ^ (z1 >> 27u64), 0x94D049BB133111EBu64);
    z2 ^ (z2 >> 31u64)
}

/// Code of an owner value: 0 for no owner, 1 and 2 for the players, 3 otherwise.
pub open spec fn owner_code(o: i8) -> u64 {
    if o == 0 {
        0
    } else if o == FIRST {
        1
    } else if o == SECOND {
        2
    } else {
        3
    }
}

/// Feature code of cell `i` holding value `v` and owner `o`.
pub open spec fn cell_code(i: int, v: u8, o: i8) -> u64 {
    (512 + (i * 256 + v) * 4 + owner_code(o)) as u64
}

/// Feature code of the side to move.
pub open spec fn player_code() -> u64 {
    0
}

/// Feature code of the number of consecutive passes.
pub open spec fn passes_code(passes: u8) -> u64 {
    (1 + passes) as u64
}

/// XOR of the keys of cells `0..n`.
pub open spec fn cells_hash(values: Seq<u8>, owners: Seq<i8>, n: nat) -> u64
    decreases n,
{
    if n == 0 {
        0
    } else {
        cells_hash(values, owners, (n - 1) as nat) ^ zobrist_key(
            cell_code(n - 1, values[n - 1], owners[n - 1]),
        )
    }
}

/// Key contributed by the side to move.
pub open spec fn player_key(player: i8) -> u64 {
    if player == FIRST {
        zobrist_key(player_code())
    } else {
        0
    }
}

/// Zobrist hash of a position.
pub open spec fn position_hash(values: Seq<u8>, owners: Seq<i8>, player: i8, passes: u8) -> u64 {
    cells_hash(values, owners, N_CELLS as nat) ^ player_key(player) ^ zobrist_key(
        passes_code(passes),
    )
}

/// The cell values after `mv`: every cell of the rectangle becomes empty (value 0).
pub open spec fn applied_values(values: Seq<u8>, mv: Move) -> Seq<u8> {
    Seq::new(values.len(), |i: int| if rect_contains(mv, i) { 0u8 } else { values[i] })
}

/// The owners after `player` plays `mv`: every cell of the rectangle becomes `player`'s.
pub open spec fn applied_owners(owners: Seq<i8>, mv: Move, player: i8) -> Seq<i8> {
    Seq::new(owners.len(), |i: int| if rect_contains(mv, i) { player } else { owners[i] })
}

/// Key of feature `code`.
fn zobrist(code: u64) -> (k: u64)
    ensures
        k == zobrist_key(code),
{
    let z0 = code.wrapping_add(0x9E3779B97F4A7C15u64);
    let z1 = (z0 ^ (z0 >> 30u64)).wrapping_mul(0xBF58476D1CE4E5B9u64);
    let z2 = (z1 ^ (z1 >> 27u64)).wrapping_mul(0x94D049BB133111EBu64);
    z2 ^ (z2 >> 31u64)
}

fn owner_code_exec(o: i8) -> (c: u64)
    ensures
        c == owner_code(o),
{
    if o == 0 {
        0
    } else if o == FIRST {
        1
    } else if o == SECOND {
        2
    } else {
        3
    }
}

fn cell_key(i: usize, v: u8, o: i8) -> (k: u64)
    requires
        i < N_CELLS,
    ensures
        k == zobrist_key(cell_code(i as int, v, o)),
{
    zobrist(512 + ((i as u64) * 256 + v as u64) * 4 + owner_code_exec(o))
}

fn player_key_exec(player: i8) -> (k: u64)
    ensures
        k == player_key(player),
{
    if player == FIRST {
        zobrist(0)
    } else {
        0
    }
}

/// Zobrist hash of the position with cell values `values`, owners `owners`, `player` to move
/// and `passes` consecutive passes.
pub fn hash_board(values: &[u8; N_CELLS], owners: &[i8; N_CELLS], player: i8, passes: u8) -> (h: u64)
    ensures
        h == position_hash(values@, owners@, player, passes),
{
    let mut h: u64 = 0;
    let mut i: usize = 0;
    while i < N_CELLS
        invariant
            i <= N_CELLS,
            h == cells_hash(values@, owners@, i as nat),
        decreases N_CELLS - i,
    {
        h = h ^ cell_key(i, values[i], owners[i]);
        i += 1;
    }
    h ^ player_key_exec(player) ^ zobrist(1 + passes as u64)
}

proof fn lemma_xor_swap(a: u64, b: u64, c: u64, d: u64)
    ensures
        (a ^ b) ^ (c ^ d) == (a ^ c ^ d) ^ b,
        (a ^ b) ^ c == (a ^ c) ^ b,
{
    assert((a ^ b) ^ (c ^ d) == (a ^ c ^ d) ^ b) by (bit_vector);
    assert((a ^ b) ^ c == (a ^ c) ^ b) by (bit_vector);
}

/// Changing cell `k` changes the hash of cells `0..n` (with `k < n`) by the XOR of the cell's
/// old and new keys.
proof fn lemma_cells_hash_update(
    values: Seq<u8>,
    owners: Seq<i8>,
    k: int,
    v: u8,
    o: i8,
    n: nat,
)
    requires
        0 <= k < n <= values.len(),
        values.len() == owners.len(),
    ensures
        cells_hash(values.update(k, v), owners.update(k, o), n) == cells_hash(values, owners, n) ^ (
        zobrist_key(cell_code(k, values[k], owners[k])) ^ zobrist_key(cell_code(k, v, o))),
    decreases n,
{
    let nv = values.update(k, v);
    let no = owners.update(k, o);
    let old_key = zobrist_key(cell_code(k, values[k], owners[k]));
    let new_key = zobrist_key(cell_code(k, v, o));
    if k == n - 1 {
        assert(cells_hash(nv, no, (n - 1) as nat) == cells_hash(values, owners, (n - 1) as nat))
            by {
            lemma_cells_hash_same(values, owners, nv, no, (n - 1) as nat);
        }
        let a = cells_hash(values, owners, (n - 1) as nat);
        assert((a ^ new_key) == (a ^ old_key) ^ (old_key ^ new_key)) by (bit_vector);
    } else {
        lemma_cells_hash_update(values, owners, k, v, o, (n - 1) as nat);
        let a = cells_hash(values, owners, (n - 1) as nat);
        let last = zobrist_key(cell_code(n - 1, values[n - 1], owners[n - 1]));
        assert(nv[n - 1] == values[n - 1] && no[n - 1] == owners[n - 1]);
        lemma_xor_swap(a, last, old_key, new_key);
        assert((a ^ (old_key ^ new_key)) ^ last == (a ^ last) ^ (old_key ^ new_key))
            by (bit_vector);
    }
}

proof fn lemma_cells_hash_same(
    v1: Seq<u8>,
    o1: Seq<i8>,
    v2: Seq<u8>,
    o2: Seq<i8>,
    n: nat,
)
    requires
        n <= v1.len(),
        n <= v2.len(),
        n <= o1.len(),
        n <= o2.len(),
        forall|i: int| 0 <= i < n ==> v1[i] == v2[i] && o1[i] == o2[i],
    ensures
        cells_hash(v1, o1, n) == cells_hash(v2, o2, n),
    decreases n,
{
    if n > 0 {
        lemma_cells_hash_same(v1, o1, v2, o2, (n - 1) as nat);
    }
}

/// The hash after `player` plays `action` from the position hashed by `hash`, computed from
/// the change alone.
pub fn hash_update(
    hash: u64,
    values: &[u8; N_CELLS],
    owners: &[i8; N_CELLS],
    action: Move,
    player: i8,
    passes: u8,
    next_passes: u8,
) -> (h: u64)
    requires
        hash == position_hash(values@, owners@, player, passes),
        action == PASS || rect_in_board(action),
    ensures
        h == position_hash(
            applied_values(values@, action),
            applied_owners(owners@, action, player),
            spec_opponent(player),
            next_passes,
        ),
{
    let next_player = opponent(player);
    let mut h = hash ^ player_key_exec(player) ^ player_key_exec(next_player) ^ zobrist(
        1 + passes as u64,
    ) ^ zobrist(1 + next_passes as u64);
    let ghost pk_old = player_key(player);
    let ghost pk_new = player_key(next_player);
    let ghost ps_old = zobrist_key(passes_code(passes));
    let ghost ps_new = zobrist_key(passes_code(next_passes));
    let ghost mut cur_v = values@;
    let ghost mut cur_o = owners@;
    proof {
        let c = cells_hash(values@, owners@, N_CELLS as nat);
        assert(h == c ^ pk_new ^ ps_new) by (bit_vector)
            requires
                h == hash ^ pk_old ^ pk_new ^ ps_old ^ ps_new,
                hash == c ^ pk_old ^ ps_old,
        ;
    }
    if !is_pass(action) {
        let (r1, c1, r2, c2) = action;
        let (r1, c1, r2, c2) = (r1 as usize, c1 as usize, r2 as usize, c2 as usize);
        let mut r = r1;
        while r <= r2
            invariant
                r1 <= r <= r2 + 1,
                r2 < ROWS,
                c1 <= c2 < COLS,
                action.0 == r1 && action.1 == c1 && action.2 == r2 && action.3 == c2,
                cur_v.len() == N_CELLS,
                cur_o.len() == N_CELLS,
                h == cells_hash(cur_v, cur_o, N_CELLS as nat) ^ pk_new ^ ps_new,
                forall|i: int|
                    0 <= i < N_CELLS ==> #[trigger] cur_v[i] == (if rect_contains(action, i) && i
                        / (COLS as int) < r { 0u8 } else { values@[i] }),
                forall|i: int|
                    0 <= i < N_CELLS ==> #[trigger] cur_o[i] == (if rect_contains(action, i) && i
                        / (COLS as int) < r { player } else { owners@[i] }),
            decreases r2 + 1 - r,
        {
            let mut c = c1;
            while c <= c2
                invariant
                    r1 <= r <= r2,
                    r2 < ROWS,
                    c1 <= c <= c2 + 1,
                    c2 < COLS,
                    action.0 == r1 && action.1 == c1 && action.2 == r2 && action.3 == c2,
                    cur_v.len() == N_CELLS,
                    cur_o.len() == N_CELLS,
                    h == cells_hash(cur_v, cur_o, N_CELLS as nat) ^ pk_new ^ ps_new,
                    forall|i: int|
                        0 <= i < N_CELLS ==> #[trigger] cur_v[i] == (if rect_contains(action, i) && (i
                            / (COLS as int) < r || (i / (COLS as int) == r && i % (COLS as int)
                            < c)) { 0u8 } else { values@[i] }),
                    forall|i: int|
                        0 <= i < N_CELLS ==> #[trigger] cur_o[i] == (if rect_contains(action, i) && (i
                            / (COLS as int) < r || (i / (COLS as int) == r && i % (COLS as int)
                            < c)) { player } else { owners@[i] }),
                decreases c2 + 1 - c,
            {
                let idx = cell_index(r, c);
                let old_key = cell_key(idx, values[idx], owners[idx]);
                let new_key = cell_key(idx, 0, player);
                proof {
                    assert(idx / 17 == r && idx % 17 == c);
                    assert(cur_v[idx as int] == values@[idx as int]);
                    assert(cur_o[idx as int] == owners@[idx as int]);
                    lemma_cells_hash_update(cur_v, cur_o, idx as int, 0u8, player, N_CELLS as nat);
                    let before = cells_hash(cur_v, cur_o, N_CELLS as nat);
                    assert((before ^ pk_new ^ ps_new) ^ (old_key ^ new_key) == (before ^ (old_key
                        ^ new_key)) ^ pk_new ^ ps_new) by (bit_vector);
                    cur_v = cur_v.update(idx as int, 0u8);
                    cur_o = cur_o.update(idx as int, player);
                }
                h = h ^ (old_key ^ new_key);
                c += 1;
            }
            r += 1;
        }
        proof {
            assert(cur_v =~= applied_values(values@, action));
            assert(cur_o =~= applied_owners(owners@, action, player));
        }
    } else {
        proof {
            assert forall|i: int| 0 <= i < N_CELLS implies !rect_contains(action, i) by {}
            assert(cur_v =~= applied_values(values@, action));
            assert(cur_o =~= applied_owners(owners@, action, player));
        }
    }
    h
}

} // verus!
