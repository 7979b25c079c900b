use vstd::prelude::*;

use crate::board::{owned_below, owned_count, rows_fit, values_from_rows, trimmed, Board};
use crate::movegen::{is_valid_rectangle, rect_contains, rect_in_board, valid_rect};
use crate::tt::{applied_owners, applied_values};
use crate::types::{cell_index, opponent, spec_opponent, Move, COLS, FIRST, N_CELLS, ROWS};

verus! {

/// A position of the search bot: cell values, owners, the side to move and the number of
/// passes in a row.
#[derive(Clone, Copy, Debug)]
pub struct AgentBoard {
    pub values: [u8; N_CELLS],
    pub owners: [i8; N_CELLS],
    pub player: i8,
    pub consecutive_passes: i32,
}

/// What undoing a move needs: the side to move and the passes before it, and each cell the
/// move changed, as `(row, column, former value, former owner)`.
#[derive(Clone, Copy, Debug)]
pub struct UndoRecord {
    old_player: i8,
    old_passes: i32,
    was_pass: bool,
    changes: [(u8, u8, u8, i8); N_CELLS],
    num_changes: i32,
}

/// A move of the search bot is a pass exactly when its first coordinate is -1.
pub open spec fn starts_pass(mv: Move) -> bool {
    mv.0 == -1
}

/// `after` is `before` with `mv` played: a pass counts one more pass in a row; a rectangle
/// clears its cells and gives them to the side to move, and resets the passes; the other
/// side moves next.
pub open spec fn move_applies(before: AgentBoard, after: AgentBoard, mv: Move) -> bool {
    &&& after.player == spec_opponent(before.player)
    &&& if starts_pass(mv) {
        &&& after.values@ == before.values@
        &&& after.owners@ == before.owners@
        &&& after.consecutive_passes == before.consecutive_passes + 1
    } else {
        &&& after.values@ == applied_values(before.values@, mv)
        &&& after.owners@ == applied_owners(before.owners@, mv, before.player)
        &&& after.consecutive_passes == 0
    }
}

/// Moves the search bot can play on a board: a pass, or a rectangle on the board.
pub open spec fn playable(mv: Move) -> bool {
    starts_pass(mv) || rect_in_board(mv)
}

/// The `k`-th cell of rectangle `mv` in row-major order, as a flat index.
pub open spec fn rect_cell(mv: Move, k: int) -> int {
    let w = mv.3 - mv.1 + 1;
    (mv.0 + k / w) * COLS + mv.1 + k % w
}

/// Number of cells of rectangle `mv`.
pub open spec fn rect_cells(mv: Move) -> int {
    (mv.2 - mv.0 + 1) * (mv.3 - mv.1 + 1)
}

impl UndoRecord {
    /// Flat index of change `k`.
    pub closed spec fn change_index(self, k: int) -> int {
        self.changes@[k].0 * COLS + self.changes@[k].1
    }

    /// The record can be undone: its changes lie on the board.
    pub closed spec fn wf(self) -> bool {
        &&& 0 <= self.num_changes <= N_CELLS
        &&& forall|k: int|
            0 <= k < self.num_changes ==> (#[trigger] self.changes@[k]).0 < ROWS
                && self.changes@[k].1 < COLS
    }

    /// The record is the one that playing `mv` on `before` leaves.
    pub closed spec fn records(self, before: AgentBoard, mv: Move) -> bool {
        &&& self.old_player == before.player
        &&& self.old_passes == before.consecutive_passes
        &&& self.was_pass == starts_pass(mv)
        &&& if starts_pass(mv) {
            self.num_changes == 0
        } else {
            &&& self.num_changes == rect_cells(mv)
            &&& forall|k: int|
                0 <= k < rect_cells(mv) ==> #[trigger] self.change_index(k) == rect_cell(mv, k)
                    && self.changes@[k].2 == before.values@[rect_cell(mv, k)]
                    && self.changes@[k].3 == before.owners@[rect_cell(mv, k)]
        }
    }

    /// Values after writing back the first `n` changes in order.
    pub closed spec fn restored_values(self, values: Seq<u8>, n: nat) -> Seq<u8>
        decreases n,
    {
        if n == 0 {
            values
        } else {
            self.restored_values(values, (n - 1) as nat).update(
                self.change_index(n - 1),
                self.changes@[n - 1].2,
            )
        }
    }

    /// Owners after writing back the first `n` changes in order.
    pub closed spec fn restored_owners(self, owners: Seq<i8>, n: nat) -> Seq<i8>
        decreases n,
    {
        if n == 0 {
            owners
        } else {
            self.restored_owners(owners, (n - 1) as nat).update(
                self.change_index(n - 1),
                self.changes@[n - 1].3,
            )
        }
    }

    /// `after` is `before` with the record undone: the recorded side to move and passes come
    /// back and, unless the move was a pass, every recorded cell gets back its value and
    /// owner, in the order recorded.
    pub closed spec fn undone(self, before: AgentBoard, after: AgentBoard) -> bool {
        &&& after.player == self.old_player
        &&& after.consecutive_passes == self.old_passes
        &&& if self.was_pass {
            after.values@ == before.values@ && after.owners@ == before.owners@
        } else {
            &&& after.values@ == self.restored_values(before.values@, self.num_changes as nat)
            &&& after.owners@ == self.restored_owners(before.owners@, self.num_changes as nat)
        }
    }

    /// A record of nothing: no side, no passes, no cells. Undoing it sets side 0 and no
    /// passes and leaves every cell as it is.
    pub fn default() -> (rec: UndoRecord)
        ensures
            rec.wf(),
            forall|before: AgentBoard, after: AgentBoard|
                #[trigger] rec.undone(before, after) == (after.player == 0 && after.consecutive_passes
                    == 0 && after.values@ == before.values@ && after.owners@ == before.owners@),
    {
        UndoRecord {
            old_player: 0,
            old_passes: 0,
            was_pass: false,
            changes: [(0u8, 0u8, 0u8, 0i8); N_CELLS],
            num_changes: 0,
        }
    }
}

proof fn lemma_rect_cell_pos(mv: Move, r: int, c: int)
    requires
        rect_in_board(mv),
        mv.0 <= r <= mv.2,
        mv.1 <= c <= mv.3,
    ensures
        ({
            let k = (r - mv.0) * (mv.3 - mv.1 + 1) + (c - mv.1);
            &&& 0 <= k < rect_cells(mv)
            &&& k / (mv.3 - mv.1 + 1) == r - mv.0
            &&& k % (mv.3 - mv.1 + 1) == c - mv.1
            &&& rect_cell(mv, k) == r * COLS + c
        }),
{
    let w = mv.3 - mv.1 + 1;
    let h = mv.2 - mv.0 + 1;
    let k = (r - mv.0) * w + (c - mv.1);
    assert(0 <= k < h * w) by (nonlinear_arith)
        requires
            0 <= r - mv.0 < h,
            0 <= c - mv.1 < w,
            k == (r - mv.0) * w + (c - mv.1),
    ;
    vstd::arithmetic::div_mod::lemma_fundamental_div_mod_converse(k, w, r - mv.0, c - mv.1);
}

proof fn lemma_rect_cell_inside(mv: Move, k: int)
    requires
        rect_in_board(mv),
        0 <= k < rect_cells(mv),
    ensures
        rect_contains(mv, rect_cell(mv, k)),
        mv.0 <= mv.0 + k / (mv.3 - mv.1 + 1) <= mv.2,
        mv.1 <= mv.1 + k % (mv.3 - mv.1 + 1) <= mv.3,
{
    let w = mv.3 - mv.1 + 1;
    let h = mv.2 - mv.0 + 1;
    assert(0 <= k / w < h && 0 <= k % w < w) by (nonlinear_arith)
        requires
            0 <= k < h * w,
            w > 0,
            h > 0,
    {
        vstd::arithmetic::div_mod::lemma_div_pos_is_pos(k, w);
        vstd::arithmetic::div_mod::lemma_fundamental_div_mod(k, w);
        vstd::arithmetic::div_mod::lemma_mod_pos_bound(k, w);
    }
    let r = mv.0 + k / w;
    let c = mv.1 + k % w;
    let i = r * COLS + c;
    assert(i / 17 == r && i % 17 == c);
}

proof fn lemma_rect_cells_bound(mv: Move)
    requires
        rect_in_board(mv),
    ensures
        1 <= rect_cells(mv) <= N_CELLS,
{
    assert(1 <= (mv.2 - mv.0 + 1) * (mv.3 - mv.1 + 1) <= 170) by (nonlinear_arith)
        requires
            1 <= mv.2 - mv.0 + 1 <= 10,
            1 <= mv.3 - mv.1 + 1 <= 17,
    ;
}

/// Writing back the first `n` changes of a record of `mv` leaves each cell the record named
/// among them with its value before the move, and every other cell as it was.
proof fn lemma_restore_prefix(rec: UndoRecord, before: AgentBoard, mv: Move, vals: Seq<u8>, owns: Seq<i8>, n: nat)
    requires
        rect_in_board(mv),
        rec.records(before, mv),
        !starts_pass(mv),
        n <= rect_cells(mv),
        vals.len() == N_CELLS,
        owns.len() == N_CELLS,
    ensures
        rec.restored_values(vals, n).len() == N_CELLS,
        rec.restored_owners(owns, n).len() == N_CELLS,
        forall|i: int|
            0 <= i < N_CELLS ==> #[trigger] rec.restored_values(vals, n)[i] == if exists|k: int|
                0 <= k < n && rect_cell(mv, k) == i {
                before.values@[i]
            } else {
                vals[i]
            },
        forall|i: int|
            0 <= i < N_CELLS ==> #[trigger] rec.restored_owners(owns, n)[i] == if exists|k: int|
                0 <= k < n && rect_cell(mv, k) == i {
                before.owners@[i]
            } else {
                owns[i]
            },
    decreases n,
{
    if n > 0 {
        let m = (n - 1) as nat;
        lemma_restore_prefix(rec, before, mv, vals, owns, m);
        lemma_rect_cell_inside(mv, m as int);
        assert(rec.change_index(m as int) == rect_cell(mv, m as int));
        assert forall|i: int| 0 <= i < N_CELLS implies #[trigger] rec.restored_values(vals, n)[i]
            == if exists|k: int| 0 <= k < n && rect_cell(mv, k) == i {
            before.values@[i]
        } else {
            vals[i]
        } by {
            if i == rect_cell(mv, m as int) {
                assert(0 <= m < n && rect_cell(mv, m as int) == i);
            } else {
                if exists|k: int| 0 <= k < n && rect_cell(mv, k) == i {
                    let k = choose|k: int| 0 <= k < n && rect_cell(mv, k) == i;
                    assert(0 <= k < m && rect_cell(mv, k) == i);
                }
            }
        }
        assert forall|i: int| 0 <= i < N_CELLS implies #[trigger] rec.restored_owners(owns, n)[i]
            == if exists|k: int| 0 <= k < n && rect_cell(mv, k) == i {
            before.owners@[i]
        } else {
            owns[i]
        } by {
            if i == rect_cell(mv, m as int) {
                assert(0 <= m < n && rect_cell(mv, m as int) == i);
            } else {
                if exists|k: int| 0 <= k < n && rect_cell(mv, k) == i {
                    let k = choose|k: int| 0 <= k < n && rect_cell(mv, k) == i;
                    assert(0 <= k < m && rect_cell(mv, k) == i);
                }
            }
        }
    }
}

/// Undoing a move with the record that playing it left gives back the position before the
/// move: the same values, owners, side to move and passes in a row.
pub proof fn lemma_unmake_restores(
    before: AgentBoard,
    after: AgentBoard,
    rec: UndoRecord,
    restored: AgentBoard,
    mv: Move,
)
    requires
        playable(mv),
        move_applies(before, after, mv),
        rec.records(before, mv),
        rec.undone(after, restored),
    ensures
        restored.values@ == before.values@,
        restored.owners@ == before.owners@,
        restored.player == before.player,
        restored.consecutive_passes == before.consecutive_passes,
{
    if !starts_pass(mv) {
        let n = rect_cells(mv);
        lemma_restore_prefix(rec, before, mv, after.values@, after.owners@, n as nat);
        assert forall|i: int| 0 <= i < N_CELLS implies restored.values@[i] == before.values@[i]
            && restored.owners@[i] == before.owners@[i] by {
            assert(rec.restored_values(after.values@, n as nat)[i] == restored.values@[i]);
            assert(rec.restored_owners(after.owners@, n as nat)[i] == restored.owners@[i]);
            if rect_contains(mv, i) {
                lemma_rect_cell_pos(mv, i / 17, i % 17);
                let k = (i / 17 - mv.0) * (mv.3 - mv.1 + 1) + (i % 17 - mv.1);
                assert(0 <= k < n && rect_cell(mv, k) == i);
            }
        }
        assert(restored.values@ =~= before.values@);
        assert(restored.owners@ =~= before.owners@);
    }
}

/// Undoing depends only on the values and owners of the board it is applied to.
pub proof fn lemma_undone_same_cells(rec: UndoRecord, a: AgentBoard, b: AgentBoard, restored: AgentBoard)
    requires
        a.values@ == b.values@,
        a.owners@ == b.owners@,
        rec.undone(a, restored),
    ensures
        rec.undone(b, restored),
{
}

/// Number of owners in `owners` equal to `p`, counted by a loop.
pub(crate) fn count_owned(owners: &[i8; N_CELLS], p: i8) -> (n: i32)
    ensures
        n == owned_count(owners@, p),
        n <= N_CELLS,
{
    let mut n: i32 = 0;
    let mut i: usize = 0;
    while i < N_CELLS
        invariant
            i <= N_CELLS,
            n == owned_below(owners@, p, i as nat),
            n <= i,
        decreases N_CELLS - i,
    {
        if owners[i] == p {
            n += 1;
        }
        i += 1;
    }
    n
}

/// The score of a finished game for `p`: 100000 plus the margin when `p` owns more cells,
/// -100000 plus the margin when it owns fewer, 0 on a draw.
pub open spec fn spec_terminal_score(margin: int) -> int {
    if margin > 0 {
        100000 + margin
    } else if margin < 0 {
        -100000 + margin
    } else {
        0
    }
}

impl AgentBoard {
    /// A board from text rows of digits, no cell owned, the first player to move and no
    /// passes: row `r` of the text, with surrounding whitespace removed, gives the values from
    /// the start of board row `r` on (non-digits read as 0); see `values_from_rows`.
    pub fn from_rows(rows: &[String]) -> (b: AgentBoard)
        requires
            rows@.len() >= ROWS,
            rows_fit(rows@.map_values(|s: String| s@)),
        ensures
            b.values@ == values_from_rows(rows@.map_values(|s: String| s@)),
            b.owners@ == Seq::new(N_CELLS as nat, |i: int| 0i8),
            b.player == FIRST,
            b.consecutive_passes == 0,
    {
        let parsed = Board::from_rows(rows);
        let owners = [0i8; N_CELLS];
        proof {
            assert(owners@ =~= Seq::new(N_CELLS as nat, |i: int| 0i8));
        }
        AgentBoard { values: parsed.values, owners, player: FIRST, consecutive_passes: 0 }
    }

    /// Sets the side to move.
    pub fn set_player(&mut self, p: i8)
        ensures
            final(self).player == p,
            final(self).values == old(self).values,
            final(self).owners == old(self).owners,
            final(self).consecutive_passes == old(self).consecutive_passes,
    {
        self.player = p;
    }

    /// Plays `(r1, c1, r2, c2)`; see `move_applies`.
    pub fn apply_move(&mut self, r1: i8, c1: i8, r2: i8, c2: i8)
        requires
            playable((r1, c1, r2, c2)),
            r1 == -1 ==> old(self).consecutive_passes < i32::MAX,
        ensures
            move_applies(*old(self), *final(self), (r1, c1, r2, c2)),
    {
        let _ = self.make_move(r1, c1, r2, c2);
    }

    /// Plays `(r1, c1, r2, c2)` (see `move_applies`) and returns what undoing it needs.
    pub fn make_move(&mut self, r1: i8, c1: i8, r2: i8, c2: i8) -> (rec: UndoRecord)
        requires
            playable((r1, c1, r2, c2)),
            r1 == -1 ==> old(self).consecutive_passes < i32::MAX,
        ensures
            move_applies(*old(self), *final(self), (r1, c1, r2, c2)),
            rec.wf(),
            rec.records(*old(self), (r1, c1, r2, c2)),
    {
        let ghost mv: Move = (r1, c1, r2, c2);
        let ghost before = *self;
        let mut rec = UndoRecord {
            old_player: self.player,
            old_passes: self.consecutive_passes,
            was_pass: r1 == -1,
            changes: [(0u8, 0u8, 0u8, 0i8); N_CELLS],
            num_changes: 0,
        };
        if r1 == -1 {
            self.consecutive_passes += 1;
            self.player = opponent(self.player);
            return rec;
        }
        proof {
            lemma_rect_cells_bound(mv);
        }
        let ghost w = c2 - c1 + 1;
        let player = self.player;
        let (ur1, uc1, ur2, uc2) = (r1 as usize, c1 as usize, r2 as usize, c2 as usize);
        let mut r = ur1;
        while r <= ur2
            invariant
                rect_in_board(mv),
                mv == (r1, c1, r2, c2),
                ur1 == r1 && uc1 == c1 && ur2 == r2 && uc2 == c2,
                w == c2 - c1 + 1,
                ur1 <= r <= ur2 + 1,
                player == before.player,
                self.player == before.player,
                self.consecutive_passes == before.consecutive_passes,
                rec.old_player == before.player,
                rec.old_passes == before.consecutive_passes,
                !rec.was_pass,
                rec.num_changes == (r - ur1) * w,
                1 <= rect_cells(mv) <= N_CELLS,
                forall|k: int|
                    0 <= k < rec.num_changes ==> (#[trigger] rec.changes@[k]).0 < ROWS
                        && rec.changes@[k].1 < COLS && rec.change_index(k) == rect_cell(mv, k)
                        && rec.changes@[k].2 == before.values@[rect_cell(mv, k)]
                        && rec.changes@[k].3 == before.owners@[rect_cell(mv, k)],
                forall|i: int|
                    0 <= i < N_CELLS ==> #[trigger] self.values@[i] == if rect_contains(mv, i) && i
                        / 17 < r {
                        0u8
                    } else {
                        before.values@[i]
                    },
                forall|i: int|
                    0 <= i < N_CELLS ==> #[trigger] self.owners@[i] == if rect_contains(mv, i) && i
                        / 17 < r {
                        player
                    } else {
                        before.owners@[i]
                    },
            decreases ur2 + 1 - r,
        {
            let mut c = uc1;
            while c <= uc2
                invariant
                    rect_in_board(mv),
                    mv == (r1, c1, r2, c2),
                    ur1 == r1 && uc1 == c1 && ur2 == r2 && uc2 == c2,
                    w == c2 - c1 + 1,
                    ur1 <= r <= ur2,
                    uc1 <= c <= uc2 + 1,
                    player == before.player,
                    self.player == before.player,
                    self.consecutive_passes == before.consecutive_passes,
                    rec.old_player == before.player,
                    rec.old_passes == before.consecutive_passes,
                    !rec.was_pass,
                    rec.num_changes == (r - ur1) * w + (c - uc1),
                    1 <= rect_cells(mv) <= N_CELLS,
                    forall|k: int|
                        0 <= k < rec.num_changes ==> (#[trigger] rec.changes@[k]).0 < ROWS
                            && rec.changes@[k].1 < COLS && rec.change_index(k) == rect_cell(mv, k)
                            && rec.changes@[k].2 == before.values@[rect_cell(mv, k)]
                            && rec.changes@[k].3 == before.owners@[rect_cell(mv, k)],
                    forall|i: int|
                        0 <= i < N_CELLS ==> #[trigger] self.values@[i] == if rect_contains(mv, i)
                            && (i / 17 < r || (i / 17 == r && i % 17 < c)) {
                            0u8
                        } else {
                            before.values@[i]
                        },
                    forall|i: int|
                        0 <= i < N_CELLS ==> #[trigger] self.owners@[i] == if rect_contains(mv, i)
                            && (i / 17 < r || (i / 17 == r && i % 17 < c)) {
                            player
                        } else {
                            before.owners@[i]
                        },
                decreases uc2 + 1 - c,
            {
                let idx = cell_index(r, c);
                proof {
                    assert(idx / 17 == r && idx % 17 == c);
                    lemma_rect_cell_pos(mv, r as int, c as int);
                }
                let k = rec.num_changes;
                if rec.num_changes < 170 {
                    rec.changes[k as usize] = (r as u8, c as u8, self.values[idx], self.owners[idx]);
                    rec.num_changes += 1;
                }
                self.values[idx] = 0;
                self.owners[idx] = player;
                c += 1;
            }
            assert((r - ur1) * w + (uc2 + 1 - uc1) == (r + 1 - ur1) * w) by (nonlinear_arith)
                requires
                    w == uc2 + 1 - uc1,
            ;
            r += 1;
        }
        self.consecutive_passes = 0;
        self.player = opponent(self.player);
        proof {
            assert(self.values@ =~= applied_values(before.values@, mv));
            assert(self.owners@ =~= applied_owners(before.owners@, mv, before.player));
            assert(rec.num_changes == rect_cells(mv));
            assert forall|k: int| 0 <= k < rect_cells(mv) implies #[trigger] rec.change_index(k)
                == rect_cell(mv, k) && rec.changes@[k].2 == before.values@[rect_cell(mv, k)]
                && rec.changes@[k].3 == before.owners@[rect_cell(mv, k)] by {
                assert(rec.changes@[k].0 < ROWS);
            }
        }
        rec
    }

    /// Undoes a move with the record that playing it left; see `UndoRecord::undone`.
    pub fn unmake_move(&mut self, record: &UndoRecord)
        requires
            record.wf(),
        ensures
            record.undone(*old(self), *final(self)),
    {
        let ghost before = *self;
        self.player = record.old_player;
        self.consecutive_passes = record.old_passes;
        if record.was_pass {
            return;
        }
        let n = record.num_changes as usize;
        let mut i: usize = 0;
        while i < n
            invariant
                record.wf(),
                n == record.num_changes,
                i <= n,
                self.player == record.old_player,
                self.consecutive_passes == record.old_passes,
                self.values@ == record.restored_values(before.values@, i as nat),
                self.owners@ == record.restored_owners(before.owners@, i as nat),
            decreases n - i,
        {
            let (r, c, old_val, old_owner) = record.changes[i];
            assert(record.changes@[i as int].0 < ROWS && record.changes@[i as int].1 < COLS);
            let idx = cell_index(r as usize, c as usize);
            self.values[idx] = old_val;
            self.owners[idx] = old_owner;
            i += 1;
        }
    }

    /// Whether `(r1, c1, r2, c2)` may be played: a pass (first coordinate -1) always may, a
    /// rectangle when it is legal (see `valid_rect`).
    pub fn is_legal_move(&self, r1: i8, c1: i8, r2: i8, c2: i8) -> (b: bool)
        ensures
            b == (r1 == -1 || valid_rect(self.values@, (r1, c1, r2, c2))),
    {
        if r1 == -1 {
            return true;
        }
        is_valid_rectangle(&self.values, (r1, c1, r2, c2))
    }

    /// Number of cells owned by `p`.
    pub fn owned_cells(&self, p: i8) -> (n: i32)
        ensures
            n == owned_count(self.owners@, p),
            0 <= n <= N_CELLS,
    {
        count_owned(&self.owners, p)
    }

    /// The game is over: both sides passed in a row.
    pub fn is_terminal(&self) -> (t: bool)
        ensures
            t == (self.consecutive_passes >= 2),
    {
        self.consecutive_passes >= 2
    }

    /// The final score for `p`; see `spec_terminal_score`.
    pub fn terminal_score_for(&self, p: i8) -> (s: i32)
        ensures
            s == spec_terminal_score(
                owned_count(self.owners@, p) - owned_count(self.owners@, spec_opponent(p)),
            ),
    {
        let margin = self.owned_cells(p) - self.owned_cells(opponent(p));
        if margin > 0 {
            100000 + margin
        } else if margin < 0 {
            -100000 + margin
        } else {
            0
        }
    }
}

} // verus!
