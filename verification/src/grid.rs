use vstd::prelude::*;

use crate::types::{COLS, N_CELLS, ROWS};

verus! {

/// Sum of `f(r, c)` over the columns `c1 <= c < c2` of row `r`.
pub open spec fn row_sum(f: spec_fn(int, int) -> int, r: int, c1: int, c2: int) -> int
    decreases c2 - c1,
{
    if c2 <= c1 {
        0
    } else {
        row_sum(f, r, c1, c2 - 1) + f(r, c2 - 1)
    }
}

/// Sum of `f(r, c)` over the rows `r1 <= r < r2` and columns `c1 <= c < c2`.
pub open spec fn region_sum(f: spec_fn(int, int) -> int, r1: int, r2: int, c1: int, c2: int) -> int
    decreases r2 - r1,
{
    if r2 <= r1 {
        0
    } else {
        region_sum(f, r1, r2 - 1, c1, c2) + row_sum(f, r2 - 1, c1, c2)
    }
}

/// Sum of `f` over the prefix rectangle of rows `[0, r)` and columns `[0, c)`.
pub open spec fn prefix(f: spec_fn(int, int) -> int, r: int, c: int) -> int {
    region_sum(f, 0, r, 0, c)
}

/// The value of cell `(r, c)` of a board of cell values.
pub open spec fn value_at(values: Seq<u8>, r: int, c: int) -> int {
    values[r * COLS + c] as int
}

/// The cell values as a grid function.
pub open spec fn value_grid(values: Seq<u8>) -> spec_fn(int, int) -> int {
    |r: int, c: int| value_at(values, r, c)
}

/// 1 where the cell holds a live mushroom (a positive value), else 0.
pub open spec fn live_grid(values: Seq<u8>) -> spec_fn(int, int) -> int {
    |r: int, c: int| if value_at(values, r, c) > 0 { 1int } else { 0int }
}

/// `live_grid` with rows and columns exchanged: indexed by `(column, row)`.
pub open spec fn live_grid_by_col(values: Seq<u8>) -> spec_fn(int, int) -> int {
    |c: int, r: int| if value_at(values, r, c) > 0 { 1int } else { 0int }
}

/// `f` is non-negative on the board.
pub open spec fn nonneg_on(f: spec_fn(int, int) -> int, rows: int, cols: int) -> bool {
    forall|r: int, c: int| 0 <= r < rows && 0 <= c < cols ==> #[trigger] f(r, c) >= 0
}

pub proof fn lemma_row_sum_split(f: spec_fn(int, int) -> int, r: int, a: int, b: int, c: int)
    requires
        a <= b <= c,
    ensures
        row_sum(f, r, a, c) == row_sum(f, r, a, b) + row_sum(f, r, b, c),
    decreases c - b,
{
    if c > b {
        lemma_row_sum_split(f, r, a, b, c - 1);
    }
}

pub proof fn lemma_region_split_rows(
    f: spec_fn(int, int) -> int,
    a: int,
    b: int,
    c: int,
    c1: int,
    c2: int,
)
    requires
        a <= b <= c,
    ensures
        region_sum(f, a, c, c1, c2) == region_sum(f, a, b, c1, c2) + region_sum(f, b, c, c1, c2),
    decreases c - b,
{
    if c > b {
        lemma_region_split_rows(f, a, b, c - 1, c1, c2);
    }
}

pub proof fn lemma_region_split_cols(
    f: spec_fn(int, int) -> int,
    r1: int,
    r2: int,
    a: int,
    b: int,
    c: int,
)
    requires
        a <= b <= c,
    ensures
        region_sum(f, r1, r2, a, c) == region_sum(f, r1, r2, a, b) + region_sum(f, r1, r2, b, c),
    decreases r2 - r1,
{
    if r2 > r1 {
        lemma_region_split_cols(f, r1, r2 - 1, a, b, c);
        lemma_row_sum_split(f, r2 - 1, a, b, c);
    }
}

/// A region sum from the four prefix sums at its corners.
pub proof fn lemma_region_from_prefix(f: spec_fn(int, int) -> int, r1: int, r2: int, c1: int, c2: int)
    requires
        0 <= r1 <= r2,
        0 <= c1 <= c2,
    ensures
        region_sum(f, r1, r2, c1, c2) == prefix(f, r2, c2) - prefix(f, r1, c2) - prefix(f, r2, c1)
            + prefix(f, r1, c1),
{
    lemma_region_split_rows(f, 0, r1, r2, 0, c2);
    lemma_region_split_rows(f, 0, r1, r2, 0, c1);
    lemma_region_split_cols(f, r1, r2, 0, c1, c2);
}

/// One more row of a prefix sum.
pub proof fn lemma_prefix_next_row(f: spec_fn(int, int) -> int, r: int, c: int)
    requires
        0 <= r,
    ensures
        prefix(f, r + 1, c) == prefix(f, r, c) + row_sum(f, r, 0, c),
{
}

pub proof fn lemma_row_sum_nonneg(f: spec_fn(int, int) -> int, r: int, c1: int, c2: int)
    requires
        0 <= r < ROWS,
        0 <= c1,
        c2 <= COLS,
        nonneg_on(f, ROWS as int, COLS as int),
    ensures
        row_sum(f, r, c1, c2) >= 0,
    decreases c2 - c1,
{
    if c2 > c1 {
        lemma_row_sum_nonneg(f, r, c1, c2 - 1);
    }
}

pub proof fn lemma_region_nonneg(f: spec_fn(int, int) -> int, r1: int, r2: int, c1: int, c2: int)
    requires
        0 <= r1,
        r2 <= ROWS,
        0 <= c1,
        c2 <= COLS,
        nonneg_on(f, ROWS as int, COLS as int),
    ensures
        region_sum(f, r1, r2, c1, c2) >= 0,
    decreases r2 - r1,
{
    if r2 > r1 {
        lemma_region_nonneg(f, r1, r2 - 1, c1, c2);
        lemma_row_sum_nonneg(f, r2 - 1, c1, c2);
    }
}

/// A row sum of a 0/1 indicator is positive exactly when some cell of the range is 1.
pub proof fn lemma_indicator_row_positive(f: spec_fn(int, int) -> int, r: int, c1: int, c2: int)
    requires
        forall|c: int| c1 <= c < c2 ==> #[trigger] f(r, c) == 0 || f(r, c) == 1,
    ensures
        (row_sum(f, r, c1, c2) > 0) == (exists|c: int| c1 <= c < c2 && #[trigger] f(r, c) == 1),
        row_sum(f, r, c1, c2) >= 0,
    decreases c2 - c1,
{
    if c2 > c1 {
        lemma_indicator_row_positive(f, r, c1, c2 - 1);
        if row_sum(f, r, c1, c2 - 1) > 0 {
            let c = choose|c: int| c1 <= c < c2 - 1 && #[trigger] f(r, c) == 1;
            assert(c1 <= c < c2 && f(r, c) == 1);
        }
        if exists|c: int| c1 <= c < c2 && #[trigger] f(r, c) == 1 {
            let c = choose|c: int| c1 <= c < c2 && #[trigger] f(r, c) == 1;
            if c < c2 - 1 {
                assert(c1 <= c < c2 - 1 && f(r, c) == 1);
            }
        }
    }
}

/// Every cell index of the board is below `N_CELLS`.
pub proof fn lemma_cell_in_board(r: int, c: int)
    requires
        0 <= r < ROWS,
        0 <= c < COLS,
    ensures
        0 <= r * COLS + c < N_CELLS,
{
    assert(r * COLS <= 9 * COLS) by (nonlinear_arith)
        requires
            0 <= r <= 9,
    ;
}


/// `f` takes values in `0..=255` everywhere.
pub open spec fn byte_valued(f: spec_fn(int, int) -> int) -> bool {
    forall|r: int, c: int| 0 <= #[trigger] f(r, c) <= 255
}

pub proof fn lemma_value_grid_bytes(values: Seq<u8>)
    ensures
        byte_valued(value_grid(values)),
        byte_valued(live_grid(values)),
        byte_valued(live_grid_by_col(values)),
{
}

pub proof fn lemma_row_sum_bound(f: spec_fn(int, int) -> int, r: int, c: int)
    requires
        byte_valued(f),
        0 <= c,
    ensures
        0 <= row_sum(f, r, 0, c) <= 255 * c,
    decreases c,
{
    if c > 0 {
        lemma_row_sum_bound(f, r, c - 1);
        assert(0 <= f(r, c - 1) <= 255);
    }
}

pub proof fn lemma_prefix_bound(f: spec_fn(int, int) -> int, r: int, c: int)
    requires
        byte_valued(f),
        0 <= r,
        0 <= c <= 17,
    ensures
        0 <= prefix(f, r, c) <= 4335 * r,
    decreases r,
{
    if r > 0 {
        lemma_prefix_bound(f, r - 1, c);
        lemma_row_sum_bound(f, r - 1, c);
    }
}

pub proof fn lemma_prefix_zero_col(f: spec_fn(int, int) -> int, r: int)
    requires
        0 <= r,
    ensures
        prefix(f, r, 0) == 0,
    decreases r,
{
    if r > 0 {
        lemma_prefix_zero_col(f, r - 1);
    }
}


pub proof fn lemma_region_empty_cols(f: spec_fn(int, int) -> int, r1: int, r2: int, c: int)
    ensures
        region_sum(f, r1, r2, c, c) == 0,
    decreases r2 - r1,
{
    if r2 > r1 {
        lemma_region_empty_cols(f, r1, r2 - 1, c);
    }
}

/// A single column of a byte-valued grid sums to at most 255 per row.
pub proof fn lemma_column_bound(f: spec_fn(int, int) -> int, r1: int, r2: int, c: int)
    requires
        byte_valued(f),
        r1 <= r2,
    ensures
        0 <= region_sum(f, r1, r2, c, c + 1) <= 255 * (r2 - r1),
    decreases r2 - r1,
{
    if r2 > r1 {
        lemma_column_bound(f, r1, r2 - 1, c);
        assert(row_sum(f, r2 - 1, c, c) == 0);
        assert(0 <= f(r2 - 1, c) <= 255);
    }
}

pub proof fn lemma_row_sum_empty(f: spec_fn(int, int) -> int, r: int, c1: int, c2: int)
    requires
        c2 <= c1,
    ensures
        row_sum(f, r, c1, c2) == 0,
{
}

/// A region whose column range is empty sums to 0.
pub proof fn lemma_region_empty_cols_gen(f: spec_fn(int, int) -> int, r1: int, r2: int, c1: int, c2: int)
    requires
        c2 <= c1,
    ensures
        region_sum(f, r1, r2, c1, c2) == 0,
    decreases r2 - r1,
{
    if r2 > r1 {
        lemma_region_empty_cols_gen(f, r1, r2 - 1, c1, c2);
    }
}
} // verus!
