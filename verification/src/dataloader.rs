use vstd::prelude::*;

use vstd::bytes::{spec_u64_from_le_bytes, u64_from_le_bytes};
use vstd::slice::slice_subrange;

use crate::bitboard::Bitboard;
use crate::protocol::{parse_i32, spec_parse_i32, split_on, split_words, views};
use crate::mquality::{contents, load_mquality_from_bytes, read_word, spec_load, word_at, MoveQualityTable};
use crate::types::{COLS, N_CELLS, N_RECTS, ROWS};

verus! {

/// Precomputed geometry of one rectangle: its corners, area, cells and four border lines.
#[derive(Clone, Copy, Debug)]
pub struct RectGeometry {
    pub r1: u8,
    pub c1: u8,
    pub r2: u8,
    pub c2: u8,
    pub area: u8,
    pub cell_mask: Bitboard,
    pub top_border: Bitboard,
    pub bottom_border: Bitboard,
    pub left_border: Bitboard,
    pub right_border: Bitboard,
}

/// Offset of the first geometry record in a data file.
pub const GEOM_OFFSET: usize = 104;
/// Size of one geometry record.
pub const RECT_RECORD: usize = 128;

/// The bitboard stored little-endian in the 24 bytes at `off`.
pub open spec fn bitboard_at(data: Seq<u8>, off: int) -> Bitboard {
    Bitboard(
        [
            spec_u64_from_le_bytes(data.subrange(off, off + 8)),
            spec_u64_from_le_bytes(data.subrange(off + 8, off + 16)),
            spec_u64_from_le_bytes(data.subrange(off + 16, off + 24)),
        ],
    )
}

/// The geometry record at `off`: corners and area in its first five bytes, then the cell
/// mask and the top, bottom, left and right borders from byte 8 on, 24 bytes each.
pub open spec fn geometry_at(data: Seq<u8>, off: int) -> RectGeometry {
    RectGeometry {
        r1: data[off],
        c1: data[off + 1],
        r2: data[off + 2],
        c2: data[off + 3],
        area: data[off + 4],
        cell_mask: bitboard_at(data, off + 8),
        top_border: bitboard_at(data, off + 32),
        bottom_border: bitboard_at(data, off + 56),
        left_border: bitboard_at(data, off + 80),
        right_border: bitboard_at(data, off + 104),
    }
}

/// Number of whole geometry records a data file holds, at most `N_RECTS`.
pub open spec fn record_count(len: int) -> int {
    let avail = (len - GEOM_OFFSET) / (RECT_RECORD as int);
    if avail < N_RECTS {
        avail
    } else {
        N_RECTS as int
    }
}

/// The bitboard stored little-endian in the first 24 bytes of `data`, if it has that many.
pub fn read_bitboard(data: &[u8]) -> (bb: Option<Bitboard>)
    ensures
        data@.len() < 24 ==> bb is None,
        data@.len() >= 24 ==> bb == Some(bitboard_at(data@, 0)),
{
    if data.len() < 24 {
        return None;
    }
    let a = u64_from_le_bytes(slice_subrange(data, 0, 8));
    let b = u64_from_le_bytes(slice_subrange(data, 8, 16));
    let c = u64_from_le_bytes(slice_subrange(data, 16, 24));
    Some(Bitboard([a, b, c]))
}

proof fn lemma_bitboard_at_shift(data: Seq<u8>, off: int, len: int)
    requires
        0 <= off,
        off + len <= data.len(),
        24 <= len,
    ensures
        bitboard_at(data.subrange(off, off + len), 0) == bitboard_at(data, off),
{
    let s = data.subrange(off, off + len);
    assert(s.subrange(0, 8) =~= data.subrange(off, off + 8));
    assert(s.subrange(8, 16) =~= data.subrange(off + 8, off + 16));
    assert(s.subrange(16, 24) =~= data.subrange(off + 16, off + 24));
}

/// The geometry records of a data file: `None` when it is shorter than the record area's
/// offset, else every whole record, up to `N_RECTS`.
pub fn load_geometry_from_data(data: &[u8]) -> (g: Option<Vec<RectGeometry>>)
    ensures
        data@.len() < GEOM_OFFSET ==> g is None,
        data@.len() >= GEOM_OFFSET ==> g is Some,
        g matches Some(v) ==> v@.len() == record_count(data@.len() as int) && forall|k: int|
            0 <= k < v@.len() ==> #[trigger] v@[k] == geometry_at(
                data@,
                GEOM_OFFSET + RECT_RECORD * k,
            ),
{
    if data.len() < 104 {
        return None;
    }
    let geom_offset = GEOM_OFFSET;
    let rect_size = RECT_RECORD;
    let mut geometry: Vec<RectGeometry> = Vec::with_capacity(N_RECTS);
    let mut i: usize = 0;
    while i < N_RECTS
        invariant_except_break
            i <= N_RECTS,
            geometry@.len() == i,
            data@.len() >= GEOM_OFFSET,
            forall|k: int|
                0 <= k < i ==> #[trigger] geometry@[k] == geometry_at(data@, GEOM_OFFSET + RECT_RECORD * k),
            GEOM_OFFSET + RECT_RECORD * i <= data@.len(),
        invariant
            geom_offset == GEOM_OFFSET,
            rect_size == RECT_RECORD,
        ensures
            geometry@.len() == record_count(data@.len() as int),
            forall|k: int|
                0 <= k < geometry@.len() ==> #[trigger] geometry@[k] == geometry_at(
                    data@,
                    GEOM_OFFSET + RECT_RECORD * k,
                ),
        decreases N_RECTS - i,
    {
        let off = geom_offset + i * rect_size;
        if off + rect_size > data.len() {
            proof {
                assert((data@.len() - GEOM_OFFSET) / (RECT_RECORD as int) == i as int);
            }
            break;
        }
        let r1 = data[off];
        let c1 = data[off + 1];
        let r2 = data[off + 2];
        let c2 = data[off + 3];
        let area = data[off + 4];
        let cm = read_bitboard(slice_subrange(data, off + 8, off + 32));
        let tm = read_bitboard(slice_subrange(data, off + 32, off + 56));
        let bm = read_bitboard(slice_subrange(data, off + 56, off + 80));
        let lm = read_bitboard(slice_subrange(data, off + 80, off + 104));
        let rm = read_bitboard(slice_subrange(data, off + 104, off + 128));
        proof {
            lemma_bitboard_at_shift(data@, off + 8, 24);
            lemma_bitboard_at_shift(data@, off + 32, 24);
            lemma_bitboard_at_shift(data@, off + 56, 24);
            lemma_bitboard_at_shift(data@, off + 80, 24);
            lemma_bitboard_at_shift(data@, off + 104, 24);
        }
        let rect = RectGeometry {
            r1,
            c1,
            r2,
            c2,
            area,
            cell_mask: cm.unwrap(),
            top_border: tm.unwrap(),
            bottom_border: bm.unwrap(),
            left_border: lm.unwrap(),
            right_border: rm.unwrap(),
        };
        geometry.push(rect);
        i += 1;
    }
    Some(geometry)
}

/// How many of the rows `g.r1..r_end` of rectangle `g` reach flat cell `cell`: row `r`
/// reaches it when `cell - r * COLS` lies in the rectangle's columns (a column past the
/// board's last one runs on into the next board row).
pub open spec fn rows_reaching(g: RectGeometry, cell: int, r_end: int) -> nat
    decreases r_end - g.r1,
{
    if r_end <= g.r1 {
        0
    } else {
        rows_reaching(g, cell, r_end - 1) + if g.c1 <= cell - (r_end - 1) * COLS <= g.c2 {
            1nat
        } else {
            0nat
        }
    }
}

/// `n` copies of index `x`.
pub open spec fn copies(x: u16, n: nat) -> Seq<u16> {
    Seq::new(n, |k: int| x)
}

/// Indices (truncated to 16 bits), in increasing order, of the first `n` rectangles, each as
/// many times as its cells, written as `row * COLS + column`, give `cell`.
pub open spec fn rects_covering(geometry: Seq<RectGeometry>, cell: int, n: nat) -> Seq<u16>
    decreases n,
{
    if n == 0 {
        Seq::empty()
    } else {
        rects_covering(geometry, cell, (n - 1) as nat) + copies(
            (n - 1) as u16,
            rows_reaching(geometry[n - 1], cell, geometry[n - 1].r2 + 1),
        )
    }
}

/// Every cell of rectangle `g`, written as `row * COLS + column`, lies on the board.
pub open spec fn cells_on_board(g: RectGeometry) -> bool {
    g.r1 <= g.r2 && g.c1 <= g.c2 ==> g.r2 * COLS + g.c2 < N_CELLS
}

/// For each cell, the indices of the rectangles whose cells, written as
/// `row * COLS + column`, give it, in increasing order (see `rects_covering`).
pub fn build_cell_to_rects(geometry: &[RectGeometry]) -> (m: Vec<Vec<u16>>)
    requires
        forall|k: int| 0 <= k < geometry@.len() ==> cells_on_board(#[trigger] geometry@[k]),
    ensures
        m@.len() == N_CELLS,
        forall|cell: int|
            0 <= cell < N_CELLS ==> #[trigger] m@[cell]@ == rects_covering(
                geometry@,
                cell,
                geometry@.len(),
            ),
{
    let mut cell_to_rects: Vec<Vec<u16>> = Vec::new();
    let mut k: usize = 0;
    while k < N_CELLS
        invariant
            k <= N_CELLS,
            cell_to_rects@.len() == k,
            forall|cell: int| 0 <= cell < k ==> (#[trigger] cell_to_rects@[cell])@ == Seq::<u16>::empty(),
        decreases N_CELLS - k,
    {
        cell_to_rects.push(Vec::new());
        k += 1;
    }
    let mut idx: usize = 0;
    while idx < geometry.len()
        invariant
            idx <= geometry@.len(),
            cell_to_rects@.len() == N_CELLS,
            forall|k: int| 0 <= k < geometry@.len() ==> cells_on_board(#[trigger] geometry@[k]),
            forall|cell: int|
                0 <= cell < N_CELLS ==> #[trigger] cell_to_rects@[cell]@ == rects_covering(
                    geometry@,
                    cell,
                    idx as nat,
                ),
        decreases geometry@.len() - idx,
    {
        let rect = geometry[idx];
        let ghost before = cell_to_rects@;
        let ghost x = idx as u16;
        assert(cells_on_board(geometry@[idx as int]));
        let r2 = rect.r2 as usize;
        let mut r = rect.r1 as usize;
        while r <= r2
            invariant
                rect == geometry@[idx as int],
                cells_on_board(rect),
                r2 == rect.r2,
                idx < geometry@.len(),
                x == idx as u16,
                rect.r1 <= r,
                r <= r2 + 1 || r == rect.r1,
                cell_to_rects@.len() == N_CELLS,
                forall|cell: int|
                    0 <= cell < N_CELLS ==> #[trigger] cell_to_rects@[cell]@ == before[cell]@ + copies(
                        x,
                        rows_reaching(rect, cell, r as int),
                    ),
            decreases r2 + 1 - r,
        {
            let c2 = rect.c2 as usize;
            let mut c = rect.c1 as usize;
            while c <= c2
                invariant
                    rect == geometry@[idx as int],
                    cells_on_board(rect),
                    r2 == rect.r2,
                    c2 == rect.c2,
                    idx < geometry@.len(),
                    x == idx as u16,
                    rect.r1 <= r <= r2,
                    rect.c1 <= c,
                    c <= c2 + 1 || c == rect.c1,
                    cell_to_rects@.len() == N_CELLS,
                    forall|cell: int|
                        0 <= cell < N_CELLS ==> #[trigger] cell_to_rects@[cell]@ == before[cell]@ + copies(
                            x,
                            rows_reaching(rect, cell, r as int) + if rect.c1 <= cell - r * COLS < c {
                                1nat
                            } else {
                                0nat
                            },
                        ),
                decreases c2 + 1 - c,
            {
                assert(r * COLS + c < N_CELLS) by (nonlinear_arith)
                    requires
                        r <= r2,
                        c <= c2,
                        r2 * 17 + c2 < 170,
                ;
                let cell_idx = r * COLS + c;
                let ghost old_list = cell_to_rects@[cell_idx as int]@;
                cell_to_rects[cell_idx].push(idx as u16);
                proof {
                    let n = rows_reaching(rect, cell_idx as int, r as int);
                    assert(old_list == before[cell_idx as int]@ + copies(x, n));
                    assert(before[cell_idx as int]@ + copies(x, n) + seq![x] =~= before[cell_idx as int]@
                        + copies(x, n + 1));
                }
                c += 1;
            }
            r += 1;
        }
        proof {
            assert forall|cell: int| 0 <= cell < N_CELLS implies #[trigger] cell_to_rects@[cell]@
                == rects_covering(geometry@, cell, (idx + 1) as nat) by {
                assert(rects_covering(geometry@, cell, idx as nat) == before[cell]@);
            }
        }
        idx += 1;
    }
    cell_to_rects
}

/// The data file's magic bytes `CPSB`.
pub open spec fn data_magic_ok(data: Seq<u8>) -> bool {
    data[0] == 0x43u8 && data[1] == 0x50u8 && data[2] == 0x53u8 && data[3] == 0x42u8
}

/// The eight evaluation weights of a data file, if any: `None` when it is shorter than its
/// 72-byte header, lacks the magic bytes, has a version below 3, or is too short for eight
/// words at the weights' offset (the word at byte 24); otherwise those words, as signed
/// numbers.
pub open spec fn spec_data_weights(data: Seq<u8>) -> Option<Seq<i32>> {
    if data.len() < 72 || !data_magic_ok(data) || word_at(data, 4) < 3 {
        None
    } else {
        let off = word_at(data, 24) as int;
        if off + 32 > data.len() {
            None
        } else {
            Some(Seq::new(8, |i: int| #[verifier::truncate] (word_at(data, off + 4 * i) as i32)))
        }
    }
}

/// The evaluation weights of a data file; see `spec_data_weights`.
pub fn read_weights_from_data(data: &[u8]) -> (w: Option<[i32; 8]>)
    ensures
        w is None <==> spec_data_weights(data@) is None,
        w matches Some(a) ==> spec_data_weights(data@) == Some(a@),
{
    if data.len() < 72 || !(data[0] == 0x43 && data[1] == 0x50 && data[2] == 0x53 && data[3] == 0x42) {
        return None;
    }
    let version = read_word(data, 4);
    if version < 3 {
        return None;
    }
    let eval_off = read_word(data, 24) as usize;
    if eval_off > data.len() || data.len() - eval_off < 32 {
        return None;
    }
    let n = data.len();
    let mut w = [0i32; 8];
    let mut i: usize = 0;
    while i < 8
        invariant
            i <= 8,
            n == data@.len(),
            eval_off + 32 <= n,
            eval_off == word_at(data@, 24),
            forall|k: int|
                0 <= k < i ==> #[trigger] w@[k] == #[verifier::truncate] (word_at(
                    data@,
                    eval_off + 4 * k,
                ) as i32),
        decreases 8 - i,
    {
        let x = read_word(data, eval_off + i * 4);
        #[verifier::truncate]
        let v = x as i32;
        w[i] = v;
        i += 1;
    }
    proof {
        assert(w@ =~= Seq::new(
            8,
            |k: int| #[verifier::truncate] (word_at(data@, eval_off + 4 * k) as i32),
        ));
    }
    Some(w)
}

/// The move-quality table embedded in a data file: `None` when the file is shorter than 52
/// bytes or the table's offset (the word at byte 48) is 0 or past the end; otherwise the
/// table parsed from that offset on (see `spec_load`).
pub fn load_mquality_from_data(data: &[u8]) -> (t: Option<MoveQualityTable>)
    ensures
        data@.len() < 52 ==> t is None,
        data@.len() >= 52 && (word_at(data@, 48) == 0 || word_at(data@, 48) >= data@.len())
            ==> t is None,
        data@.len() >= 52 && word_at(data@, 48) != 0 && word_at(data@, 48) < data@.len() ==> {
            let rest = data@.subrange(word_at(data@, 48) as int, data@.len() as int);
            &&& t matches Some(m) ==> spec_load(rest) == Some(contents(m)) && m.wf()
            &&& t is None ==> spec_load(rest) is None
        },
{
    if data.len() < 52 {
        return None;
    }
    let mq_offset = read_word(data, 48) as usize;
    if mq_offset == 0 || mq_offset >= data.len() {
        return None;
    }
    load_mquality_from_bytes(slice_subrange(data, mq_offset, data.len()))
}

/// The words that read as `i32`, in order.
pub open spec fn numbers_in(words: Seq<Seq<char>>) -> Seq<i32>
    decreases words.len(),
{
    if words.len() == 0 {
        Seq::empty()
    } else {
        let rest = numbers_in(words.drop_last());
        match spec_parse_i32(words.last()) {
            Some(v) => rest.push(v),
            None => rest,
        }
    }
}

/// The numbers of a weights text: its words between whitespace and commas that read as
/// `i32`, in order.
pub fn parse_weight_values(text: &str) -> (vals: Vec<i32>)
    ensures
        vals@ == numbers_in(split_on(text@, true)),
{
    let words = split_words(text, true);
    let ghost ws = views(words@);
    let mut vals: Vec<i32> = Vec::new();
    let mut k: usize = 0;
    while k < words.len()
        invariant
            k <= words@.len(),
            ws == views(words@),
            vals@ == numbers_in(ws.subrange(0, k as int)),
        decreases words@.len() - k,
    {
        let p = parse_i32(words[k].as_str());
        proof {
            assert(ws.subrange(0, k + 1).drop_last() =~= ws.subrange(0, k as int));
            assert(ws.subrange(0, k + 1).last() == words@[k as int]@);
        }
        match p {
            Some(v) => vals.push(v),
            None => {},
        }
        k += 1;
    }
    proof {
        assert(ws.subrange(0, words@.len() as int) =~= ws);
    }
    vals
}

/// The eight evaluation weights of a weights text: the first eight of its numbers (see
/// `parse_weight_values`), `None` when it has fewer.
pub fn weights_from_text(text: &str) -> (w: Option<[i32; 8]>)
    ensures
        numbers_in(split_on(text@, true)).len() < 8 ==> w is None,
        numbers_in(split_on(text@, true)).len() >= 8 ==> (w matches Some(a) && a@ == numbers_in(
            split_on(text@, true),
        ).subrange(0, 8)),
{
    let vals = parse_weight_values(text);
    if vals.len() < 8 {
        return None;
    }
    let mut w = [0i32; 8];
    let mut i: usize = 0;
    while i < 8
        invariant
            i <= 8,
            vals@.len() >= 8,
            forall|k: int| 0 <= k < i ==> #[trigger] w@[k] == vals@[k],
        decreases 8 - i,
    {
        w[i] = vals[i];
        i += 1;
    }
    proof {
        assert(w@ =~= vals@.subrange(0, 8));
    }
    Some(w)
}

} // verus!
