use vstd::prelude::*;

use vstd::bytes::{
    lemma_auto_spec_u16_to_from_le_bytes, lemma_auto_spec_u32_to_from_le_bytes,
    lemma_auto_spec_u64_to_from_le_bytes, spec_u16_to_le_bytes, spec_u32_from_le_bytes,
    spec_u32_to_le_bytes, spec_u64_to_le_bytes, u16_to_le_bytes, u32_to_le_bytes, u64_to_le_bytes,
};

use crate::bitboard::{Bitboard, N_BITS};
use crate::dataloader::{
    bitboard_at, data_magic_ok, geometry_at, numbers_in, parse_weight_values, rects_covering,
    spec_data_weights, RectGeometry, GEOM_OFFSET, RECT_RECORD,
};
use crate::movegen::{in_span, lemma_pair_next, pair_index, rect_mask, spec_fixed_rect_id};
use crate::mquality::{append_word, lemma_le_words, le_words, word_at};
use crate::protocol::split_on;
use crate::types::{COLS, N_CELLS, N_RECTS, ROWS};

verus! {

/// Bytes of each zeroed rectangle entry a data file gets when it is built without geometry.
pub const ZEROED_RECORD_BYTES: usize = 140;

/// `n` zero bytes.
pub open spec fn zero_bytes(n: nat) -> Seq<u8> {
    Seq::new(n, |i: int| 0u8)
}

/// The 72-byte header of a data file of `version`: the magic bytes `CPSB`, then as
/// little-endian words the version, no openings (at 72), no endgames (at 72), the weights at
/// 72, the flag word 1, 8415 rectangles at 72, no cell lists, no move-quality table, 3
/// phases; then 16 reserved zero bytes.
pub open spec fn data_header(version: u32) -> Seq<u8> {
    seq![0x43u8, 0x50u8, 0x53u8, 0x42u8] + le_words(
        seq![version, 0u32, 72u32, 0u32, 72u32, 72u32, 1u32, 8415u32, 72u32, 0u32, 0u32, 0u32, 3u32],
    ) + zero_bytes(16)
}

/// The weights as 32-bit words, two's complement.
pub open spec fn weight_words(weights: Seq<i32>) -> Seq<u32> {
    weights.map_values(|w: i32| #[verifier::truncate] (w as u32))
}

/// A data file without its move-quality table: the header (version 4 when a table was
/// asked for, else 3), every weight as a little-endian word, then the rectangle records of
/// the geometry file after its own 72-byte header, or 8415 zeroed records when there is no
/// geometry.
pub open spec fn data_body(geometry: Seq<u8>, weights: Seq<i32>, with_mquality: bool) -> Seq<u8> {
    data_header(if with_mquality { 4u32 } else { 3u32 }) + le_words(weight_words(weights)) + if geometry.len()
        > 0 {
        geometry.subrange(72, geometry.len() as int)
    } else {
        zero_bytes(8415 * 140)
    }
}

/// The data file built from a geometry file, weights and a move-quality table file: the
/// body (see `data_body`); when a table was asked for and its file is not empty, the body's
/// length (truncated to 32 bits) is written as the table's offset at byte 48 and the table
/// follows the body.
pub open spec fn spec_data_file(geometry: Seq<u8>, weights: Seq<i32>, mquality: Seq<u8>, with_mquality: bool) -> Seq<u8> {
    let body = data_body(geometry, weights, with_mquality);
    if with_mquality && mquality.len() > 0 {
        body.subrange(0, 48) + spec_u32_to_le_bytes(#[verifier::truncate] (body.len() as u32))
            + body.subrange(52, body.len() as int) + mquality
    } else {
        body
    }
}

/// The weights a data file is built with: the numbers of the weights text when there is
/// one (see `parse_weight_values`), else the balanced defaults.
pub fn data_file_weights(text: Option<&str>) -> (w: Vec<i32>)
    ensures
        text matches Some(t) ==> w@ == numbers_in(split_on(t@, true)),
        text is None ==> w@ == seq![156i32, 211i32, -10i32, 40i32, 8i32, 31i32, 26i32, 22i32],
{
    match text {
        Some(t) => parse_weight_values(t),
        None => {
            let w = vec![156i32, 211, -10, 40, 8, 31, 26, 22];
            proof {
                assert(w@ =~= seq![156i32, 211i32, -10i32, 40i32, 8i32, 31i32, 26i32, 22i32]);
            }
            w
        },
    }
}

fn push_bytes(buf: &mut Vec<u8>, bytes: &[u8], from: usize)
    requires
        from <= bytes@.len(),
    ensures
        final(buf)@ == old(buf)@ + bytes@.subrange(from as int, bytes@.len() as int),
{
    let mut k = from;
    while k < bytes.len()
        invariant
            from <= k <= bytes@.len(),
            buf@ == old(buf)@ + bytes@.subrange(from as int, k as int),
        decreases bytes@.len() - k,
    {
        buf.push(bytes[k]);
        k += 1;
        proof {
            assert(buf@ =~= old(buf)@ + bytes@.subrange(from as int, k as int));
        }
    }
}

fn push_zeros(buf: &mut Vec<u8>, n: usize)
    ensures
        final(buf)@ == old(buf)@ + zero_bytes(n as nat),
{
    let mut k: usize = 0;
    while k < n
        invariant
            k <= n,
            buf@ == old(buf)@ + zero_bytes(k as nat),
        decreases n - k,
    {
        buf.push(0u8);
        k += 1;
        proof {
            assert(buf@ =~= old(buf)@ + zero_bytes(k as nat));
        }
    }
}

fn push_header(buf: &mut Vec<u8>, version: u32)
    ensures
        final(buf)@ == old(buf)@ + data_header(version),
{
    let ghost start = buf@;
    buf.push(0x43);
    buf.push(0x50);
    buf.push(0x53);
    buf.push(0x42);
    let ghost hw = seq![version, 0u32, 72u32, 0u32, 72u32, 72u32, 1u32, 8415u32, 72u32, 0u32, 0u32, 0u32, 3u32];
    let ghost magic = buf@;
    append_word(buf, version);
    append_word(buf, 0);
    append_word(buf, 72);
    append_word(buf, 0);
    append_word(buf, 72);
    append_word(buf, 72);
    append_word(buf, 1);
    append_word(buf, 8415);
    append_word(buf, 72);
    append_word(buf, 0);
    append_word(buf, 0);
    append_word(buf, 0);
    append_word(buf, 3);
    proof {
        reveal_with_fuel(le_words, 14);
        assert(hw.subrange(0, 12) =~= hw.drop_last());
        assert(magic =~= start + seq![0x43u8, 0x50u8, 0x53u8, 0x42u8]);
        assert(buf@ =~= start + seq![0x43u8, 0x50u8, 0x53u8, 0x42u8] + le_words(hw));
    }
    push_zeros(buf, 16);
    proof {
        assert(buf@ =~= start + data_header(version));
    }
}

fn push_weights(buf: &mut Vec<u8>, weights: &[i32])
    ensures
        final(buf)@ == old(buf)@ + le_words(weight_words(weights@)),
{
    let ghost ww = weight_words(weights@);
    let mut k: usize = 0;
    while k < weights.len()
        invariant
            k <= weights@.len(),
            ww == weight_words(weights@),
            buf@ == old(buf)@ + le_words(ww.subrange(0, k as int)),
        decreases weights@.len() - k,
    {
        #[verifier::truncate]
        let word = weights[k] as u32;
        append_word(buf, word);
        proof {
            assert(ww.subrange(0, k + 1).drop_last() =~= ww.subrange(0, k as int));
            assert(ww.subrange(0, k + 1).last() == word);
        }
        k += 1;
    }
    proof {
        assert(ww.subrange(0, weights@.len() as int) =~= ww);
    }
}

/// Writes the little-endian word `w` over bytes `at` to `at + 3`.
fn patch_word(buf: &mut Vec<u8>, at: usize, w: u32)
    requires
        at + 4 <= old(buf)@.len(),
    ensures
        final(buf)@ == old(buf)@.subrange(0, at as int) + spec_u32_to_le_bytes(w) + old(buf)@.subrange(
            at + 4,
            old(buf)@.len() as int,
        ),
{
    let bytes = u32_to_le_bytes(w);
    proof {
        lemma_auto_spec_u32_to_from_le_bytes();
    }
    let n = buf.len();
    assert(at + 4 <= n);
    buf.set(at, bytes[0]);
    buf.set(at + 1, bytes[1]);
    buf.set(at + 2, bytes[2]);
    buf.set(at + 3, bytes[3]);
    proof {
        assert(buf@ =~= old(buf)@.subrange(0, at as int) + spec_u32_to_le_bytes(w) + old(buf)@.subrange(
            at + 4,
            old(buf)@.len() as int,
        ));
    }
}

/// The data file built from `geometry`, `weights` and `mquality`; see `spec_data_file`.
/// The weights must be at least eight, and a geometry file, when given, at least its
/// 72-byte header.
pub fn build_data_bytes(geometry: &[u8], weights: &[i32], mquality: &[u8], with_mquality: bool) -> (buf: Vec<u8>)
    requires
        weights@.len() >= 8,
        geometry@.len() == 0 || geometry@.len() >= 72,
    ensures
        buf@ == spec_data_file(geometry@, weights@, mquality@, with_mquality),
{
    let mut buf: Vec<u8> = Vec::new();
    let version: u32 = if with_mquality {
        4
    } else {
        3
    };
    push_header(&mut buf, version);
    proof {
        lemma_le_words(
            seq![version, 0u32, 72u32, 0u32, 72u32, 72u32, 1u32, 8415u32, 72u32, 0u32, 0u32, 0u32, 3u32],
        );
        assert(buf@.len() == 72);
    }
    push_weights(&mut buf, weights);
    if geometry.len() > 0 {
        push_bytes(&mut buf, geometry, 72);
    } else {
        push_zeros(&mut buf, 8415 * ZEROED_RECORD_BYTES);
    }
    let ghost body = buf@;
    proof {
        assert(body =~= data_body(geometry@, weights@, with_mquality));
    }
    if with_mquality && mquality.len() > 0 {
        let offset = #[verifier::truncate] (buf.len() as u32);
        patch_word(&mut buf, 48, offset);
        push_bytes(&mut buf, mquality, 0);
        proof {
            assert(mquality@.subrange(0, mquality@.len() as int) =~= mquality@);
        }
    }
    buf
}

proof fn lemma_word_i32_roundtrip(w: i32)
    ensures
        (#[verifier::truncate] ((#[verifier::truncate] (w as u32)) as i32)) == w,
{
    assert((#[verifier::truncate] ((#[verifier::truncate] (w as u32)) as i32)) == w) by (bit_vector);
}

/// The `k`-th word of `s` in its little-endian bytes.
proof fn lemma_le_word(s: Seq<u32>, k: int)
    requires
        0 <= k < s.len(),
    ensures
        le_words(s).len() == 4 * s.len(),
        le_words(s).subrange(4 * k, 4 * k + 4) == spec_u32_to_le_bytes(s[k]),
        spec_u32_from_le_bytes(le_words(s).subrange(4 * k, 4 * k + 4)) == s[k],
{
    lemma_auto_spec_u32_to_from_le_bytes();
    lemma_le_words(s);
    assert(le_words(s).subrange(4 * k, 4 * k + 4) == spec_u32_to_le_bytes(s[k]));
}

/// The header words of a data file of `version`.
pub open spec fn header_words(version: u32) -> Seq<u32> {
    seq![version, 0u32, 72u32, 0u32, 72u32, 72u32, 1u32, 8415u32, 72u32, 0u32, 0u32, 0u32, 3u32]
}

/// The file and its body agree outside the table offset's four bytes and the table; the
/// body starts with the header and the weights.
proof fn lemma_file_keeps_body(geometry: Seq<u8>, weights: Seq<i32>, mquality: Seq<u8>, with_mquality: bool)
    requires
        weights.len() >= 8,
        geometry.len() == 0 || geometry.len() >= 72,
    ensures
        ({
            let version = if with_mquality { 4u32 } else { 3u32 };
            let body = data_body(geometry, weights, with_mquality);
            let d = spec_data_file(geometry, weights, mquality, with_mquality);
            &&& body.len() >= 104
            &&& d.len() >= body.len()
            &&& body.subrange(4, 56) == le_words(header_words(version))
            &&& body.subrange(72, 72 + 4 * weights.len() as int) == le_words(weight_words(weights))
            &&& forall|i: int| (0 <= i < 48 || 52 <= i < body.len()) ==> #[trigger] d[i] == body[i]
        }),
{
    let version = if with_mquality { 4u32 } else { 3u32 };
    let hw = header_words(version);
    let ww = weight_words(weights);
    lemma_le_words(hw);
    lemma_le_words(ww);
    assert(hw == seq![version, 0u32, 72u32, 0u32, 72u32, 72u32, 1u32, 8415u32, 72u32, 0u32, 0u32, 0u32, 3u32]);
    let head = data_header(version);
    assert(head.len() == 72);
    let body = data_body(geometry, weights, with_mquality);
    let rest = if geometry.len() > 0 {
        geometry.subrange(72, geometry.len() as int)
    } else {
        zero_bytes(8415 * 140)
    };
    assert(body =~= head + le_words(ww) + rest);
    assert(body.subrange(4, 56) =~= le_words(hw));
    assert(body.subrange(72, 72 + 4 * weights.len() as int) =~= le_words(ww));
    let d = spec_data_file(geometry, weights, mquality, with_mquality);
    if with_mquality && mquality.len() > 0 {
        let off = #[verifier::truncate] (body.len() as u32);
        let p = body.subrange(0, 48) + spec_u32_to_le_bytes(off) + body.subrange(52, body.len() as int);
        lemma_auto_spec_u32_to_from_le_bytes();
        assert(p.len() == body.len());
        assert(d == p + mquality);
        assert forall|i: int| (0 <= i < 48 || 52 <= i < body.len()) implies #[trigger] d[i] == body[i] by {
            assert(d[i] == p[i]);
            if i < 48 {
                assert(p[i] == body.subrange(0, 48)[i]);
            } else {
                assert(p[i] == body.subrange(52, body.len() as int)[i - 52]);
            }
        }
    }
}

/// Reading the weights back from a data file built with at least eight weights gives its
/// first eight weights.
pub proof fn lemma_data_file_weights(geometry: Seq<u8>, weights: Seq<i32>, mquality: Seq<u8>, with_mquality: bool)
    requires
        weights.len() >= 8,
        geometry.len() == 0 || geometry.len() >= 72,
    ensures
        spec_data_weights(spec_data_file(geometry, weights, mquality, with_mquality)) == Some(
            weights.subrange(0, 8),
        ),
{
    let version = if with_mquality { 4u32 } else { 3u32 };
    let hw = header_words(version);
    let ww = weight_words(weights);
    lemma_file_keeps_body(geometry, weights, mquality, with_mquality);
    let body = data_body(geometry, weights, with_mquality);
    let d = spec_data_file(geometry, weights, mquality, with_mquality);
    assert(body.subrange(0, 4) =~= seq![0x43u8, 0x50u8, 0x53u8, 0x42u8]);
    assert(d[0] == body[0] && d[1] == body[1] && d[2] == body[2] && d[3] == body[3]);
    assert(data_magic_ok(d));
    lemma_le_word(hw, 0);
    assert(d.subrange(4, 8) =~= le_words(hw).subrange(4 * 0int, 4 * 0int + 4));
    assert(word_at(d, 4) == version);
    lemma_le_word(hw, 5);
    assert(d.subrange(24, 28) =~= le_words(hw).subrange(4 * 5int, 4 * 5int + 4));
    assert(word_at(d, 24) == 72);
    assert forall|i: int| 0 <= i < 8 implies #[trigger] (#[verifier::truncate] (word_at(d, 72 + 4 * i) as i32))
        == weights[i] by {
        lemma_le_word(ww, i);
        assert(d.subrange(72 + 4 * i, 72 + 4 * i + 4) =~= le_words(ww).subrange(4 * i, 4 * i + 4));
        assert(word_at(d, 72 + 4 * i) == ww[i]);
        lemma_word_i32_roundtrip(weights[i]);
    }
    assert(Seq::new(8, |i: int| #[verifier::truncate] (word_at(d, 72 + 4 * i) as i32)) =~= weights.subrange(0, 8));
}

/// A data file built with a non-empty move-quality table file carries that file whole at
/// the offset its header gives, while its length fits in 32 bits; built without one, the
/// header's table offset is 0.
pub proof fn lemma_data_file_mquality(geometry: Seq<u8>, weights: Seq<i32>, mquality: Seq<u8>, with_mquality: bool)
    requires
        weights.len() >= 8,
        geometry.len() == 0 || geometry.len() >= 72,
        spec_data_file(geometry, weights, mquality, with_mquality).len() <= u32::MAX,
    ensures
        ({
            let d = spec_data_file(geometry, weights, mquality, with_mquality);
            &&& with_mquality && mquality.len() > 0 ==> d.subrange(word_at(d, 48) as int, d.len() as int) == mquality
            &&& !(with_mquality && mquality.len() > 0) ==> word_at(d, 48) == 0
        }),
{
    lemma_auto_spec_u32_to_from_le_bytes();
    let version = if with_mquality { 4u32 } else { 3u32 };
    let hw = header_words(version);
    lemma_file_keeps_body(geometry, weights, mquality, with_mquality);
    let body = data_body(geometry, weights, with_mquality);
    let d = spec_data_file(geometry, weights, mquality, with_mquality);
    if with_mquality && mquality.len() > 0 {
        let off = #[verifier::truncate] (body.len() as u32);
        assert(off == body.len());
        assert(d.subrange(48, 52) =~= spec_u32_to_le_bytes(off));
        assert(word_at(d, 48) == body.len());
        assert(d.subrange(body.len() as int, d.len() as int) =~= mquality);
    } else {
        lemma_le_word(hw, 11);
        assert(d.subrange(48, 52) =~= le_words(hw).subrange(4 * 11int, 4 * 11int + 4));
        assert(word_at(d, 48) == 0);
    }
}

/// The cells of `b` below `N_BITS` are those of rows `r1..=r2` and columns `c1..=c2`.
pub open spec fn mask_is(b: Bitboard, r1: int, r2: int, c1: int, c2: int) -> bool {
    forall|i: int| 0 <= i < N_BITS ==> #[trigger] b.bit(i) == in_span(r1, r2, c1, c2, i)
}

/// The record describes its rectangle: a rectangle on the board, its area, its cells, and
/// its top, bottom, left and right lines.
pub open spec fn record_describes(g: RectGeometry) -> bool {
    let (r1, c1, r2, c2) = (g.r1 as int, g.c1 as int, g.r2 as int, g.c2 as int);
    &&& r1 <= r2 < ROWS
    &&& c1 <= c2 < COLS
    &&& g.area == (r2 - r1 + 1) * (c2 - c1 + 1)
    &&& mask_is(g.cell_mask, r1, r2, c1, c2)
    &&& mask_is(g.top_border, r1, r1, c1, c2)
    &&& mask_is(g.bottom_border, r2, r2, c1, c2)
    &&& mask_is(g.left_border, r1, r2, c1, c1)
    &&& mask_is(g.right_border, r1, r2, c2, c2)
}

/// Each record describes a rectangle, and record `k` the one whose fixed identifier is `k`.
pub open spec fn table_prefix(g: Seq<RectGeometry>) -> bool {
    forall|k: int| 0 <= k < g.len() ==> #[trigger] record_describes(g[k]) && spec_fixed_rect_id(
        g[k].r1 as int,
        g[k].c1 as int,
        g[k].r2 as int,
        g[k].c2 as int,
    ) == k
}

/// The table of every rectangle: record `k` describes the rectangle whose fixed identifier
/// is `k` (see `spec_fixed_rect_id`).
pub open spec fn is_rect_table(g: Seq<RectGeometry>) -> bool {
    &&& g.len() == N_RECTS
    &&& table_prefix(g)
}

fn rect_record(r1: usize, c1: usize, r2: usize, c2: usize) -> (g: RectGeometry)
    requires
        r1 <= r2 < ROWS,
        c1 <= c2 < COLS,
    ensures
        g.r1 == r1 && g.c1 == c1 && g.r2 == r2 && g.c2 == c2,
        record_describes(g),
{
    proof {
        assert((r2 - r1 + 1) * (c2 - c1 + 1) <= 170) by (nonlinear_arith)
            requires
                r2 - r1 + 1 <= 10,
                c2 - c1 + 1 <= 17,
                r1 <= r2,
                c1 <= c2,
        ;
        assert((r2 - r1 + 1) * (c2 - c1 + 1) >= 0) by (nonlinear_arith)
            requires
                r1 <= r2,
                c1 <= c2,
        ;
    }
    RectGeometry {
        r1: r1 as u8,
        c1: c1 as u8,
        r2: r2 as u8,
        c2: c2 as u8,
        area: ((r2 - r1 + 1) * (c2 - c1 + 1)) as u8,
        cell_mask: rect_mask(r1, r2, c1, c2),
        top_border: rect_mask(r1, r1, c1, c2),
        bottom_border: rect_mask(r2, r2, c1, c2),
        left_border: rect_mask(r1, r2, c1, c1),
        right_border: rect_mask(r1, r2, c2, c2),
    }
}

/// The record of every rectangle, ordered by top row, bottom row, left column and right
/// column; see `is_rect_table`.
pub fn all_rect_geometry() -> (g: Vec<RectGeometry>)
    ensures
        is_rect_table(g@),
{
    let mut g: Vec<RectGeometry> = Vec::new();
    let mut r1: usize = 0;
    while r1 < ROWS
        invariant
            r1 <= ROWS,
            g@.len() == pair_index(r1 as int, r1 as int, 10) * 153,
            table_prefix(g@),
        decreases ROWS - r1,
    {
        let mut r2 = r1;
        while r2 < ROWS
            invariant
                r1 < ROWS,
                r1 <= r2 <= ROWS,
                g@.len() == pair_index(r1 as int, r2 as int, 10) * 153,
                table_prefix(g@),
            decreases ROWS - r2,
        {
            let mut c1: usize = 0;
            while c1 < COLS
                invariant
                    r1 <= r2 < ROWS,
                    c1 <= COLS,
                    g@.len() == pair_index(r1 as int, r2 as int, 10) * 153 + pair_index(
                        c1 as int,
                        c1 as int,
                        17,
                    ),
                    table_prefix(g@),
                decreases COLS - c1,
            {
                let mut c2 = c1;
                while c2 < COLS
                    invariant
                        r1 <= r2 < ROWS,
                        c1 < COLS,
                        c1 <= c2 <= COLS,
                        g@.len() == pair_index(r1 as int, r2 as int, 10) * 153 + pair_index(
                            c1 as int,
                            c2 as int,
                            17,
                        ),
                        table_prefix(g@),
                    decreases COLS - c2,
                {
                    let rec = rect_record(r1, c1, r2, c2);
                    let ghost before = g@;
                    g.push(rec);
                    proof {
                        assert forall|k: int| 0 <= k < g@.len() implies #[trigger] record_describes(g@[k])
                            && spec_fixed_rect_id(
                            g@[k].r1 as int,
                            g@[k].c1 as int,
                            g@[k].r2 as int,
                            g@[k].c2 as int,
                        ) == k by {
                            if k < before.len() {
                                assert(g@[k] == before[k]);
                            }
                        }
                    }
                    c2 += 1;
                }
                proof {
                    lemma_pair_next(c1 as int, 17);
                }
                c1 += 1;
            }
            r2 += 1;
        }
        proof {
            lemma_pair_next(r1 as int, 10);
        }
        r1 += 1;
    }
    g
}

/// The 24 bytes of a cell set: its three words, little-endian.
pub open spec fn mask_bytes(b: Bitboard) -> Seq<u8> {
    spec_u64_to_le_bytes(b.0[0]) + spec_u64_to_le_bytes(b.0[1]) + spec_u64_to_le_bytes(b.0[2])
}

/// The 128 bytes of a geometry record: corners and area, three zero bytes, then the cell
/// mask and the top, bottom, left and right lines.
pub open spec fn record_bytes(g: RectGeometry) -> Seq<u8> {
    seq![g.r1, g.c1, g.r2, g.c2, g.area, 0u8, 0u8, 0u8] + mask_bytes(g.cell_mask) + mask_bytes(
        g.top_border,
    ) + mask_bytes(g.bottom_border) + mask_bytes(g.left_border) + mask_bytes(g.right_border)
}

/// The records, one after another.
pub open spec fn records_bytes(g: Seq<RectGeometry>) -> Seq<u8>
    decreases g.len(),
{
    if g.len() == 0 {
        Seq::empty()
    } else {
        records_bytes(g.drop_last()) + record_bytes(g.last())
    }
}

/// Little-endian 16-bit words.
pub open spec fn le16s(s: Seq<u16>) -> Seq<u8>
    decreases s.len(),
{
    if s.len() == 0 {
        Seq::empty()
    } else {
        le16s(s.drop_last()) + spec_u16_to_le_bytes(s.last())
    }
}

/// One cell's list of rectangles: its length twice (truncated to 16 bits), then the
/// rectangles' indices.
pub open spec fn cell_list_bytes(ids: Seq<u16>) -> Seq<u8> {
    let n = #[verifier::truncate] (ids.len() as u16);
    spec_u16_to_le_bytes(n) + spec_u16_to_le_bytes(n) + le16s(ids)
}

/// The cells' lists, one after another.
pub open spec fn lists_bytes(lists: Seq<Seq<u16>>) -> Seq<u8>
    decreases lists.len(),
{
    if lists.len() == 0 {
        Seq::empty()
    } else {
        lists_bytes(lists.drop_last()) + cell_list_bytes(lists.last())
    }
}

/// The 72-byte header of a geometry file: the magic bytes `GPSB`, then as little-endian
/// words version 1, 8415 rectangles at byte 72, two zero words, the cell lists' offset;
/// then zero bytes.
pub open spec fn geometry_header(cell_offset: u32) -> Seq<u8> {
    seq![0x47u8, 0x50u8, 0x53u8, 0x42u8] + spec_u32_to_le_bytes(1) + spec_u32_to_le_bytes(8415)
        + spec_u32_to_le_bytes(72) + spec_u32_to_le_bytes(0) + spec_u32_to_le_bytes(0)
        + spec_u32_to_le_bytes(cell_offset) + zero_bytes(44)
}

/// For each cell, the indices of the records that cover it, in increasing order.
pub open spec fn cell_lists(g: Seq<RectGeometry>) -> Seq<Seq<u16>> {
    Seq::new(N_CELLS as nat, |cell: int| rects_covering(g, cell, g.len()))
}

/// The geometry file of the records `g`: the header with the cell lists' offset (72 plus
/// the records' bytes, truncated to 32 bits), the records, then each cell's list.
pub open spec fn spec_geometry_file(g: Seq<RectGeometry>) -> Seq<u8> {
    let recs = records_bytes(g);
    geometry_header(#[verifier::truncate] ((72 + recs.len()) as u32)) + recs + lists_bytes(
        cell_lists(g),
    )
}

fn push_mask(buf: &mut Vec<u8>, b: &Bitboard)
    ensures
        final(buf)@ == old(buf)@ + mask_bytes(*b),
{
    let w0 = u64_to_le_bytes(b.0[0]);
    push_bytes(buf, w0.as_slice(), 0);
    let w1 = u64_to_le_bytes(b.0[1]);
    push_bytes(buf, w1.as_slice(), 0);
    let w2 = u64_to_le_bytes(b.0[2]);
    push_bytes(buf, w2.as_slice(), 0);
    proof {
        assert(w0@.subrange(0, 8) =~= w0@);
        assert(w1@.subrange(0, 8) =~= w1@);
        assert(w2@.subrange(0, 8) =~= w2@);
        assert(final(buf)@ =~= old(buf)@ + mask_bytes(*b));
    }
}

fn push_record(buf: &mut Vec<u8>, g: &RectGeometry)
    ensures
        final(buf)@ == old(buf)@ + record_bytes(*g),
{
    buf.push(g.r1);
    buf.push(g.c1);
    buf.push(g.r2);
    buf.push(g.c2);
    buf.push(g.area);
    buf.push(0);
    buf.push(0);
    buf.push(0);
    let ghost head = buf@;
    proof {
        assert(head =~= old(buf)@ + seq![g.r1, g.c1, g.r2, g.c2, g.area, 0u8, 0u8, 0u8]);
    }
    push_mask(buf, &g.cell_mask);
    push_mask(buf, &g.top_border);
    push_mask(buf, &g.bottom_border);
    push_mask(buf, &g.left_border);
    push_mask(buf, &g.right_border);
    proof {
        assert(final(buf)@ =~= old(buf)@ + record_bytes(*g));
    }
}

fn push_records(buf: &mut Vec<u8>, g: &[RectGeometry])
    ensures
        final(buf)@ == old(buf)@ + records_bytes(g@),
{
    let mut k: usize = 0;
    while k < g.len()
        invariant
            k <= g@.len(),
            buf@ == old(buf)@ + records_bytes(g@.subrange(0, k as int)),
        decreases g@.len() - k,
    {
        push_record(buf, &g[k]);
        proof {
            assert(g@.subrange(0, k + 1).drop_last() =~= g@.subrange(0, k as int));
        }
        k += 1;
    }
    proof {
        assert(g@.subrange(0, g@.len() as int) =~= g@);
    }
}

fn push_u16(buf: &mut Vec<u8>, x: u16)
    ensures
        final(buf)@ == old(buf)@ + spec_u16_to_le_bytes(x),
{
    let b = u16_to_le_bytes(x);
    push_bytes(buf, b.as_slice(), 0);
    proof {
        assert(b@.subrange(0, 2) =~= b@);
    }
}

fn push_cell_list(buf: &mut Vec<u8>, ids: &Vec<u16>)
    ensures
        final(buf)@ == old(buf)@ + cell_list_bytes(ids@),
{
    let n = #[verifier::truncate] (ids.len() as u16);
    push_u16(buf, n);
    push_u16(buf, n);
    let ghost head = buf@;
    let mut k: usize = 0;
    while k < ids.len()
        invariant
            k <= ids@.len(),
            buf@ == head + le16s(ids@.subrange(0, k as int)),
        decreases ids@.len() - k,
    {
        push_u16(buf, ids[k]);
        proof {
            assert(ids@.subrange(0, k + 1).drop_last() =~= ids@.subrange(0, k as int));
        }
        k += 1;
    }
    proof {
        assert(ids@.subrange(0, ids@.len() as int) =~= ids@);
    }
}

fn push_cell_lists(buf: &mut Vec<u8>, lists: &[Vec<u16>])
    ensures
        final(buf)@ == old(buf)@ + lists_bytes(lists@.map_values(|l: Vec<u16>| l@)),
{
    let ghost ls = lists@.map_values(|l: Vec<u16>| l@);
    let mut k: usize = 0;
    while k < lists.len()
        invariant
            k <= lists@.len(),
            ls == lists@.map_values(|l: Vec<u16>| l@),
            buf@ == old(buf)@ + lists_bytes(ls.subrange(0, k as int)),
        decreases lists@.len() - k,
    {
        push_cell_list(buf, &lists[k]);
        proof {
            assert(ls.subrange(0, k + 1).drop_last() =~= ls.subrange(0, k as int));
            assert(ls.subrange(0, k + 1).last() == lists@[k as int]@);
        }
        k += 1;
    }
    proof {
        assert(ls.subrange(0, lists@.len() as int) =~= ls);
    }
}

/// The geometry file of the records `geometry`; see `spec_geometry_file`. The records must
/// lie on the board, so that the cells they cover can be listed.
pub fn geometry_file_bytes(geometry: &[RectGeometry]) -> (buf: Vec<u8>)
    requires
        forall|k: int| 0 <= k < geometry@.len() ==> (#[trigger] geometry@[k]).r2 < ROWS && geometry@[k].c2 < COLS,
    ensures
        buf@ == spec_geometry_file(geometry@),
{
    let mut buf: Vec<u8> = Vec::new();
    buf.push(0x47);
    buf.push(0x50);
    buf.push(0x53);
    buf.push(0x42);
    append_word(&mut buf, 1);
    append_word(&mut buf, N_RECTS as u32);
    append_word(&mut buf, 72);
    append_word(&mut buf, 0);
    append_word(&mut buf, 0);
    append_word(&mut buf, 0);
    push_zeros(&mut buf, 44);
    let ghost head = buf@;
    proof {
        lemma_auto_spec_u32_to_from_le_bytes();
        assert(head.len() == 72);
    }
    push_records(&mut buf, geometry);
    let cell_offset = #[verifier::truncate] (buf.len() as u32);
    let ghost recs = records_bytes(geometry@);
    proof {
        assert(buf@.len() == 72 + recs.len());
    }
    patch_word(&mut buf, 24, cell_offset);
    proof {
        assert(buf@ =~= geometry_header(cell_offset) + recs);
    }
    let lists = crate::dataloader::build_cell_to_rects(geometry);
    push_cell_lists(&mut buf, lists.as_slice());
    proof {
        assert(lists@.map_values(|l: Vec<u16>| l@) =~= cell_lists(geometry@));
    }
    buf
}

/// The geometry file of every rectangle: a file `spec_geometry_file(g)` of a table `g` as
/// `is_rect_table` describes it.
pub fn build_geometry_bytes() -> (buf: Vec<u8>)
    ensures
        exists|g: Seq<RectGeometry>| is_rect_table(g) && buf@ == spec_geometry_file(g),
{
    let geometry = all_rect_geometry();
    proof {
        assert forall|k: int| 0 <= k < geometry@.len() implies (#[trigger] geometry@[k]).r2 < ROWS
            && geometry@[k].c2 < COLS by {
            assert(record_describes(geometry@[k]));
        }
    }
    geometry_file_bytes(geometry.as_slice())
}

proof fn lemma_mask_decodes(prefix: Seq<u8>, b: Bitboard, suffix: Seq<u8>)
    ensures
        mask_bytes(b).len() == 24,
        bitboard_at(prefix + mask_bytes(b) + suffix, prefix.len() as int) == b,
{
    lemma_auto_spec_u64_to_from_le_bytes();
    let d = prefix + mask_bytes(b) + suffix;
    let o = prefix.len() as int;
    assert(d.subrange(o, o + 8) =~= spec_u64_to_le_bytes(b.0[0]));
    assert(d.subrange(o + 8, o + 16) =~= spec_u64_to_le_bytes(b.0[1]));
    assert(d.subrange(o + 16, o + 24) =~= spec_u64_to_le_bytes(b.0[2]));
    assert(bitboard_at(d, o).0 =~= b.0);
}

proof fn lemma_record_decodes(prefix: Seq<u8>, g: RectGeometry, suffix: Seq<u8>)
    ensures
        record_bytes(g).len() == RECT_RECORD,
        geometry_at(prefix + record_bytes(g) + suffix, prefix.len() as int) == g,
{
    let o = prefix.len() as int;
    let head = seq![g.r1, g.c1, g.r2, g.c2, g.area, 0u8, 0u8, 0u8];
    let m1 = mask_bytes(g.cell_mask);
    let m2 = mask_bytes(g.top_border);
    let m3 = mask_bytes(g.bottom_border);
    let m4 = mask_bytes(g.left_border);
    let m5 = mask_bytes(g.right_border);
    let d = prefix + record_bytes(g) + suffix;
    lemma_mask_decodes(prefix + head, g.cell_mask, m2 + m3 + m4 + m5 + suffix);
    assert(prefix + head + m1 + (m2 + m3 + m4 + m5 + suffix) =~= d);
    lemma_mask_decodes(prefix + head + m1, g.top_border, m3 + m4 + m5 + suffix);
    assert(prefix + head + m1 + m2 + (m3 + m4 + m5 + suffix) =~= d);
    lemma_mask_decodes(prefix + head + m1 + m2, g.bottom_border, m4 + m5 + suffix);
    assert(prefix + head + m1 + m2 + m3 + (m4 + m5 + suffix) =~= d);
    lemma_mask_decodes(prefix + head + m1 + m2 + m3, g.left_border, m5 + suffix);
    assert(prefix + head + m1 + m2 + m3 + m4 + (m5 + suffix) =~= d);
    lemma_mask_decodes(prefix + head + m1 + m2 + m3 + m4, g.right_border, suffix);
    assert(prefix + head + m1 + m2 + m3 + m4 + m5 + suffix =~= d);
    assert(d[o] == g.r1 && d[o + 1] == g.c1 && d[o + 2] == g.r2 && d[o + 3] == g.c2 && d[o + 4]
        == g.area);
}

proof fn lemma_records_at(g: Seq<RectGeometry>)
    ensures
        records_bytes(g).len() == RECT_RECORD * g.len(),
        forall|k: int| 0 <= k < g.len() ==> #[trigger] records_bytes(g).subrange(
            RECT_RECORD * k,
            RECT_RECORD * k + RECT_RECORD,
        ) == record_bytes(g[k]),
    decreases g.len(),
{
    if g.len() > 0 {
        let t = g.drop_last();
        lemma_records_at(t);
        lemma_record_decodes(Seq::empty(), g.last(), Seq::empty());
        let r = records_bytes(g);
        assert(r == records_bytes(t) + record_bytes(g.last()));
        assert forall|k: int| 0 <= k < g.len() implies #[trigger] r.subrange(
            RECT_RECORD * k,
            RECT_RECORD * k + RECT_RECORD,
        ) == record_bytes(g[k]) by {
            if k < t.len() {
                assert(r.subrange(RECT_RECORD * k, RECT_RECORD * k + RECT_RECORD) =~= records_bytes(
                    t,
                ).subrange(RECT_RECORD * k, RECT_RECORD * k + RECT_RECORD));
                assert(t[k] == g[k]);
            } else {
                assert(r.subrange(RECT_RECORD * k, RECT_RECORD * k + RECT_RECORD) =~= record_bytes(
                    g.last(),
                ));
            }
        }
    }
}

proof fn lemma_geometry_at_same(a: Seq<u8>, b: Seq<u8>, o: int)
    requires
        0 <= o,
        o + RECT_RECORD <= a.len(),
        o + RECT_RECORD <= b.len(),
        forall|j: int| o <= j < o + RECT_RECORD ==> #[trigger] a[j] == b[j],
    ensures
        geometry_at(a, o) == geometry_at(b, o),
{
    assert(a.subrange(o + 8, o + 16) =~= b.subrange(o + 8, o + 16));
    assert(a.subrange(o + 16, o + 24) =~= b.subrange(o + 16, o + 24));
    assert(a.subrange(o + 24, o + 32) =~= b.subrange(o + 24, o + 32));
    assert(a.subrange(o + 32, o + 40) =~= b.subrange(o + 32, o + 40));
    assert(a.subrange(o + 40, o + 48) =~= b.subrange(o + 40, o + 48));
    assert(a.subrange(o + 48, o + 56) =~= b.subrange(o + 48, o + 56));
    assert(a.subrange(o + 56, o + 64) =~= b.subrange(o + 56, o + 64));
    assert(a.subrange(o + 64, o + 72) =~= b.subrange(o + 64, o + 72));
    assert(a.subrange(o + 72, o + 80) =~= b.subrange(o + 72, o + 80));
    assert(a.subrange(o + 80, o + 88) =~= b.subrange(o + 80, o + 88));
    assert(a.subrange(o + 88, o + 96) =~= b.subrange(o + 88, o + 96));
    assert(a.subrange(o + 96, o + 104) =~= b.subrange(o + 96, o + 104));
    assert(a.subrange(o + 104, o + 112) =~= b.subrange(o + 104, o + 112));
    assert(a.subrange(o + 112, o + 120) =~= b.subrange(o + 112, o + 120));
    assert(a.subrange(o + 120, o + 128) =~= b.subrange(o + 120, o + 128));
    assert(a[o] == b[o] && a[o + 1] == b[o + 1] && a[o + 2] == b[o + 2] && a[o + 3] == b[o + 3]
        && a[o + 4] == b[o + 4]);
}

/// A data file built with eight weights from the geometry file of a table of every
/// rectangle holds that table where the data file's records are read: record `k` read there
/// is the table's record `k`, and the file has room for all of them.
pub proof fn lemma_built_geometry_reads_back(
    g: Seq<RectGeometry>,
    weights: Seq<i32>,
    mquality: Seq<u8>,
    with_mquality: bool,
)
    requires
        is_rect_table(g),
        weights.len() == 8,
    ensures
        ({
            let d = spec_data_file(spec_geometry_file(g), weights, mquality, with_mquality);
            &&& d.len() >= GEOM_OFFSET + RECT_RECORD * N_RECTS
            &&& forall|k: int| 0 <= k < N_RECTS ==> #[trigger] geometry_at(d, GEOM_OFFSET + RECT_RECORD * k) == g[k]
        }),
{
    lemma_auto_spec_u32_to_from_le_bytes();
    let file = spec_geometry_file(g);
    let recs = records_bytes(g);
    let lists = lists_bytes(cell_lists(g));
    lemma_records_at(g);
    let hdr = geometry_header(#[verifier::truncate] ((72 + recs.len()) as u32));
    assert(hdr.len() == 72);
    assert(file.subrange(72, file.len() as int) =~= recs + lists);
    lemma_file_keeps_body(file, weights, mquality, with_mquality);
    let version = if with_mquality { 4u32 } else { 3u32 };
    let body = data_body(file, weights, with_mquality);
    let head = data_header(version) + le_words(weight_words(weights));
    lemma_le_words(header_words(version));
    lemma_le_words(weight_words(weights));
    assert(data_header(version).len() == 72);
    assert(head.len() == GEOM_OFFSET);
    assert(body =~= head + recs + lists);
    let d = spec_data_file(file, weights, mquality, with_mquality);
    assert forall|k: int| 0 <= k < N_RECTS implies #[trigger] geometry_at(d, GEOM_OFFSET + RECT_RECORD * k)
        == g[k] by {
        let o = GEOM_OFFSET + RECT_RECORD * k;
        let before = recs.subrange(0, RECT_RECORD * k);
        let after = recs.subrange(RECT_RECORD * k + RECT_RECORD, recs.len() as int);
        assert(recs =~= before + recs.subrange(RECT_RECORD * k, RECT_RECORD * k + RECT_RECORD) + after);
        lemma_record_decodes(head + before, g[k], after + lists);
        let e = head + before + record_bytes(g[k]) + (after + lists);
        assert(e =~= body);
        assert(o + RECT_RECORD <= body.len());
        lemma_geometry_at_same(d, body, o);
    }
}

} // verus!
