use vstd::prelude::*;

use vstd::bytes::{
    lemma_auto_spec_u32_to_from_le_bytes, spec_u32_from_le_bytes, spec_u32_to_le_bytes,
    u32_from_le_bytes, u32_to_le_bytes,
};
use vstd::slice::slice_subrange;

use crate::bots::cordyceps_timeman::trunc_div;
use crate::types::N_RECTS;

verus! {

/// Number of game phases the table distinguishes.
pub const MQUALITY_PHASES: usize = 3;
/// Number of score buckets the table distinguishes.
pub const MQUALITY_BUCKETS: usize = 8;
/// Bit pattern of the single-precision number 0.5.
pub const HALF_BITS: u32 = 0x3F000000;
/// Length of the file header.
pub const HEADER_LEN: usize = 20;

/// Statistics per rectangle, phase and score bucket: win rates and average values as the bit
/// patterns of single-precision numbers, and sample counts.
pub struct MoveQualityTable {
    pub rect_count: usize,
    pub phases: usize,
    pub buckets: usize,
    pub win_rate_bits: Vec<u32>,
    pub avg_value_bits: Vec<u32>,
    pub counts: Vec<u32>,
}

impl MoveQualityTable {
    /// Number of entries the dimensions call for.
    pub open spec fn value_count(&self) -> int {
        self.rect_count * self.phases * self.buckets
    }

    /// The three statistics each hold one entry per rectangle, phase and bucket.
    pub open spec fn wf(&self) -> bool {
        &&& self.win_rate_bits@.len() == self.value_count()
        &&& self.avg_value_bits@.len() == self.value_count()
        &&& self.counts@.len() == self.value_count()
    }

    /// Position of the entry for `rect_id`, `phase` and `bucket`.
    pub open spec fn spec_index(&self, rect_id: int, phase: int, bucket: int) -> int {
        rect_id * self.phases * self.buckets + phase * self.buckets + bucket
    }

    /// A table for `rect_count` rectangles, 3 phases and 8 buckets, with every win rate 0.5,
    /// every average value 0 and every count 0.
    pub fn new(rect_count: usize) -> (t: MoveQualityTable)
        requires
            rect_count * 24 <= usize::MAX,
        ensures
            t.rect_count == rect_count,
            t.phases == MQUALITY_PHASES,
            t.buckets == MQUALITY_BUCKETS,
            t.wf(),
            forall|i: int| 0 <= i < t.value_count() ==> #[trigger] t.win_rate_bits@[i] == HALF_BITS,
            forall|i: int| 0 <= i < t.value_count() ==> #[trigger] t.avg_value_bits@[i] == 0,
            forall|i: int| 0 <= i < t.value_count() ==> #[trigger] t.counts@[i] == 0,
    {
        let len = rect_count * MQUALITY_PHASES * MQUALITY_BUCKETS;
        let mut win_rate_bits: Vec<u32> = Vec::new();
        let mut avg_value_bits: Vec<u32> = Vec::new();
        let mut counts: Vec<u32> = Vec::new();
        let mut i: usize = 0;
        while i < len
            invariant
                i <= len,
                win_rate_bits@.len() == i,
                avg_value_bits@.len() == i,
                counts@.len() == i,
                forall|k: int| 0 <= k < i ==> #[trigger] win_rate_bits@[k] == HALF_BITS,
                forall|k: int| 0 <= k < i ==> #[trigger] avg_value_bits@[k] == 0,
                forall|k: int| 0 <= k < i ==> #[trigger] counts@[k] == 0,
            decreases len - i,
        {
            win_rate_bits.push(HALF_BITS);
            avg_value_bits.push(0);
            counts.push(0);
            i += 1;
        }
        MoveQualityTable {
            rect_count,
            phases: MQUALITY_PHASES,
            buckets: MQUALITY_BUCKETS,
            win_rate_bits,
            avg_value_bits,
            counts,
        }
    }

    /// A table for every rectangle of the board.
    pub fn default_table() -> (t: MoveQualityTable)
        ensures
            t.rect_count == N_RECTS,
            t.phases == MQUALITY_PHASES,
            t.buckets == MQUALITY_BUCKETS,
            t.wf(),
    {
        Self::new(N_RECTS)
    }

    /// Position of the entry for `rect_id`, `phase` and `bucket`.
    pub fn index(&self, rect_id: usize, phase: usize, bucket: usize) -> (i: usize)
        requires
            rect_id < self.rect_count,
            phase < self.phases,
            bucket < self.buckets,
            self.value_count() <= usize::MAX,
        ensures
            i == self.spec_index(rect_id as int, phase as int, bucket as int),
            i < self.value_count(),
    {
        proof {
            let pb = self.phases * self.buckets;
            assert(rect_id * pb + phase * self.buckets + bucket < self.rect_count * pb)
                by (nonlinear_arith)
                requires
                    rect_id < self.rect_count,
                    phase < self.phases,
                    bucket < self.buckets,
                    pb == self.phases * self.buckets,
            {
                assert(phase * self.buckets + bucket < self.phases * self.buckets) by {
                    assert(phase * self.buckets + self.buckets <= self.phases * self.buckets);
                }
                assert(rect_id * pb + pb <= self.rect_count * pb);
            }
            assert(self.rect_count * pb == self.value_count()) by (nonlinear_arith)
                requires
                    pb == self.phases * self.buckets,
            ;
            assert(rect_id * pb == rect_id * self.phases * self.buckets) by (nonlinear_arith)
                requires
                    pb == self.phases * self.buckets,
            ;
            assert(0 <= phase * self.buckets) by (nonlinear_arith);
            assert(rect_id * self.phases <= rect_id * self.phases * self.buckets) by (nonlinear_arith)
                requires
                    bucket < self.buckets,
            ;
            assert(0 <= rect_id * pb) by (nonlinear_arith)
                requires
                    pb >= 0,
            ;
        }
        rect_id * self.phases * self.buckets + phase * self.buckets + bucket
    }

    /// The phase of a position: 2 (late) with at most 12 live cells or at most 10 legal
    /// moves, else 1 (middle) with at most 25 live cells or at most 24 legal moves, else 0.
    pub fn phase_for_position(live_count: u32, legal_moves: usize) -> (p: usize)
        ensures
            p == (if live_count <= 12 || legal_moves <= 10 {
                2usize
            } else if live_count <= 25 || legal_moves <= 24 {
                1usize
            } else {
                0usize
            }),
    {
        if live_count <= 12 || legal_moves <= 10 {
            2
        } else if live_count <= 25 || legal_moves <= 24 {
            1
        } else {
            0
        }
    }

    /// The phase by live cells alone: 2 with at most 12, 0 with at least 25, else 1.
    pub fn phase_for_live_count(live_count: u32) -> (p: usize)
        ensures
            p == (if live_count <= 12 {
                2usize
            } else if live_count >= 25 {
                0usize
            } else {
                1usize
            }),
    {
        if live_count <= 12 {
            2
        } else if live_count >= 25 {
            0
        } else {
            1
        }
    }

    /// The bucket of a score: `score / 150 + 4` (division rounding toward zero), clamped
    /// to `0..=7`.
    pub fn score_bucket(score: i32) -> (b: usize)
        ensures
            b == ({
                let x = trunc_div(score as int, 150) + 4;
                if x < 0 {
                    0
                } else if x > 7 {
                    7
                } else {
                    x
                }
            }),
    {
        let bucket = (score / 150) + 4;
        bucket.max(0).min((MQUALITY_BUCKETS - 1) as i32) as usize
    }
}

/// The file's magic bytes `MQTY`.
pub open spec fn magic_ok(data: Seq<u8>) -> bool {
    data[0] == 0x4du8 && data[1] == 0x51u8 && data[2] == 0x54u8 && data[3] == 0x59u8
}

/// The little-endian 32-bit word at `off`.
pub open spec fn word_at(data: Seq<u8>, off: int) -> u32 {
    spec_u32_from_le_bytes(data.subrange(off, off + 4))
}

/// The `n` little-endian 32-bit words from `off` on.
pub open spec fn words_at(data: Seq<u8>, off: int, n: int) -> Seq<u32> {
    Seq::new(n as nat, |k: int| word_at(data, off + 4 * k))
}

/// Number of 32-bit words per entry that a file version stores.
pub open spec fn words_per_entry(version: u32) -> int {
    if version == 1 {
        1
    } else if version == 2 {
        2
    } else {
        3
    }
}

/// The table a file holds, if any: `None` when it is shorter than 24 bytes, lacks the magic
/// bytes, has version 0, has dimensions whose product exceeds `usize::MAX`, or is shorter
/// than its header plus its entries; otherwise the dimensions from the header and the
/// entries: version 1 stores win rates only (average values 0, counts 0), version 2 win
/// rates then average values (counts 0), later versions win rates, average values, counts.
pub open spec fn spec_load(data: Seq<u8>) -> Option<(usize, usize, usize, Seq<u32>, Seq<u32>, Seq<u32>)> {
    if data.len() < 24 || !magic_ok(data) {
        None
    } else {
        let version = word_at(data, 4);
        let rc = word_at(data, 8) as int;
        let ph = word_at(data, 12) as int;
        let bk = word_at(data, 16) as int;
        let vc = rc * ph * bk;
        let w = words_per_entry(version);
        if version < 1 || rc * ph > usize::MAX || vc > usize::MAX || data.len() < HEADER_LEN + vc
            * 4 * w {
            None
        } else {
            let zeros = Seq::new(vc as nat, |k: int| 0u32);
            Some(
                (
                    rc as usize,
                    ph as usize,
                    bk as usize,
                    words_at(data, 20, vc),
                    if w >= 2 {
                        words_at(data, 20 + 4 * vc, vc)
                    } else {
                        zeros
                    },
                    if w >= 3 {
                        words_at(data, 20 + 8 * vc, vc)
                    } else {
                        zeros
                    },
                ),
            )
        }
    }
}

/// The contents of a table: dimensions and the three statistics.
pub open spec fn contents(t: MoveQualityTable) -> (usize, usize, usize, Seq<u32>, Seq<u32>, Seq<u32>) {
    (t.rect_count, t.phases, t.buckets, t.win_rate_bits@, t.avg_value_bits@, t.counts@)
}

fn read_words(data: &[u8], off: usize, n: usize, out: &mut Vec<u32>)
    requires
        off + 4 * n <= data@.len(),
        old(out)@.len() == 0,
    ensures
        final(out)@ == words_at(data@, off as int, n as int),
{
    let len = data.len();
    let mut k: usize = 0;
    while k < n
        invariant
            k <= n,
            len == data@.len(),
            off + 4 * n <= data@.len(),
            out@.len() == k,
            forall|j: int| 0 <= j < k ==> #[trigger] out@[j] == word_at(data@, off + 4 * j),
        decreases n - k,
    {
        let p = off + 4 * k;
        let w = u32_from_le_bytes(slice_subrange(data, p, p + 4));
        out.push(w);
        k += 1;
    }
    proof {
        assert(out@ =~= words_at(data@, off as int, n as int));
    }
}

pub(crate) fn read_word(data: &[u8], off: usize) -> (w: u32)
    requires
        off + 4 <= data@.len(),
    ensures
        w == word_at(data@, off as int),
{
    let len = data.len();
    u32_from_le_bytes(slice_subrange(data, off, off + 4))
}

/// Parses a move-quality file; see `spec_load`.
pub fn load_mquality_from_bytes(data: &[u8]) -> (t: Option<MoveQualityTable>)
    ensures
        t matches Some(t) ==> spec_load(data@) == Some(contents(t)) && t.wf(),
        t is None ==> spec_load(data@) is None,
{
    if data.len() < 24 || !(data[0] == 0x4d && data[1] == 0x51 && data[2] == 0x54 && data[3] == 0x59) {
        return None;
    }
    let version = read_word(data, 4);
    if version < 1 {
        return None;
    }
    let rect_count = read_word(data, 8) as usize;
    let phases = read_word(data, 12) as usize;
    let buckets = read_word(data, 16) as usize;
    let value_count = match rect_count.checked_mul(phases) {
        Some(rp) => match rp.checked_mul(buckets) {
            Some(vc) => vc,
            None => return None,
        },
        None => return None,
    };
    let words: usize = if version == 1 {
        1
    } else if version == 2 {
        2
    } else {
        3
    };
    let len = data.len();
    proof {
        assert(value_count * (4 * words) == value_count * 4 * words) by (nonlinear_arith);
    }
    let expected = match value_count.checked_mul(4 * words) {
        Some(b) => match b.checked_add(HEADER_LEN) {
            Some(e) => e,
            None => {
                return None;
            },
        },
        None => {
            proof {
                assert(value_count * (4 * words) >= 0) by (nonlinear_arith);
            }
            return None;
        },
    };
    if data.len() < expected {
        return None;
    }
    let mut win_rate_bits: Vec<u32> = Vec::new();
    read_words(data, HEADER_LEN, value_count, &mut win_rate_bits);
    let mut avg_value_bits: Vec<u32> = Vec::new();
    let mut counts: Vec<u32> = Vec::new();
    if words >= 2 {
        read_words(data, HEADER_LEN + 4 * value_count, value_count, &mut avg_value_bits);
    } else {
        fill_zeros(&mut avg_value_bits, value_count);
    }
    if words >= 3 {
        read_words(data, HEADER_LEN + 8 * value_count, value_count, &mut counts);
    } else {
        fill_zeros(&mut counts, value_count);
    }
    let t = MoveQualityTable { rect_count, phases, buckets, win_rate_bits, avg_value_bits, counts };
    proof {
        assert(contents(t).4 =~= spec_load(data@).unwrap().4);
        assert(contents(t).5 =~= spec_load(data@).unwrap().5);
    }
    Some(t)
}

fn fill_zeros(out: &mut Vec<u32>, n: usize)
    requires
        old(out)@.len() == 0,
    ensures
        final(out)@ == Seq::new(n as nat, |k: int| 0u32),
{
    let mut k: usize = 0;
    while k < n
        invariant
            k <= n,
            out@.len() == k,
            forall|j: int| 0 <= j < k ==> #[trigger] out@[j] == 0u32,
        decreases n - k,
    {
        out.push(0);
        k += 1;
    }
    proof {
        assert(out@ =~= Seq::new(n as nat, |k: int| 0u32));
    }
}

/// The little-endian bytes of a sequence of 32-bit words.
pub open spec fn le_words(s: Seq<u32>) -> Seq<u8>
    decreases s.len(),
{
    if s.len() == 0 {
        Seq::empty()
    } else {
        le_words(s.drop_last()) + spec_u32_to_le_bytes(s.last())
    }
}

/// The bytes of a table in the file format, version 3: magic, version, dimensions (each
/// truncated to 32 bits), win rates, average values, counts.
pub open spec fn spec_write(t: MoveQualityTable) -> Seq<u8> {
    seq![0x4du8, 0x51u8, 0x54u8, 0x59u8] + spec_u32_to_le_bytes(3) + spec_u32_to_le_bytes(
        t.rect_count as u32,
    ) + spec_u32_to_le_bytes(t.phases as u32) + spec_u32_to_le_bytes(t.buckets as u32) + le_words(
        t.win_rate_bits@,
    ) + le_words(t.avg_value_bits@) + le_words(t.counts@)
}

fn append_words(buf: &mut Vec<u8>, words: &Vec<u32>)
    ensures
        final(buf)@ == old(buf)@ + le_words(words@),
{
    let mut k: usize = 0;
    while k < words.len()
        invariant
            k <= words@.len(),
            buf@ == old(buf)@ + le_words(words@.subrange(0, k as int)),
        decreases words@.len() - k,
    {
        let bytes = u32_to_le_bytes(words[k]);
        let ghost before = buf@;
        let mut j: usize = 0;
        while j < bytes.len()
            invariant
                j <= bytes@.len(),
                buf@ == before + bytes@.subrange(0, j as int),
            decreases bytes@.len() - j,
        {
            buf.push(bytes[j]);
            j += 1;
            proof {
                assert(buf@ =~= before + bytes@.subrange(0, j as int));
            }
        }
        proof {
            assert(bytes@.subrange(0, bytes@.len() as int) =~= bytes@);
            let s = words@.subrange(0, k + 1);
            assert(s.drop_last() =~= words@.subrange(0, k as int));
            assert(s.last() == words@[k as int]);
            assert(buf@ =~= old(buf)@ + le_words(s));
        }
        k += 1;
    }
    proof {
        assert(words@.subrange(0, words@.len() as int) =~= words@);
    }
}

pub(crate) fn append_word(buf: &mut Vec<u8>, w: u32)
    ensures
        final(buf)@ == old(buf)@ + spec_u32_to_le_bytes(w),
{
    let bytes = u32_to_le_bytes(w);
    let ghost before = buf@;
    let mut j: usize = 0;
    while j < bytes.len()
        invariant
            j <= bytes@.len(),
            buf@ == before + bytes@.subrange(0, j as int),
        decreases bytes@.len() - j,
    {
        buf.push(bytes[j]);
        j += 1;
        proof {
            assert(buf@ =~= before + bytes@.subrange(0, j as int));
        }
    }
    proof {
        assert(bytes@.subrange(0, bytes@.len() as int) =~= bytes@);
    }
}

/// The bytes of a table in the file format; see `spec_write`.
pub fn write_mquality_bytes(table: &MoveQualityTable) -> (buf: Vec<u8>)
    ensures
        buf@ == spec_write(*table),
{
    let mut buf: Vec<u8> = Vec::new();
    buf.push(0x4d);
    buf.push(0x51);
    buf.push(0x54);
    buf.push(0x59);
    append_word(&mut buf, 3);
    append_word(&mut buf, table.rect_count as u32);
    append_word(&mut buf, table.phases as u32);
    append_word(&mut buf, table.buckets as u32);
    append_words(&mut buf, &table.win_rate_bits);
    append_words(&mut buf, &table.avg_value_bits);
    append_words(&mut buf, &table.counts);
    proof {
        assert(buf@ =~= spec_write(*table));
    }
    buf
}


pub(crate) proof fn lemma_le_words(s: Seq<u32>)
    ensures
        le_words(s).len() == 4 * s.len(),
        forall|k: int|
            0 <= k < s.len() ==> #[trigger] le_words(s).subrange(4 * k, 4 * k + 4)
                == spec_u32_to_le_bytes(s[k]),
    decreases s.len(),
{
    lemma_auto_spec_u32_to_from_le_bytes();
    if s.len() > 0 {
        let t = s.drop_last();
        lemma_le_words(t);
        let l = le_words(s);
        assert(l == le_words(t) + spec_u32_to_le_bytes(s.last()));
        assert forall|k: int| 0 <= k < s.len() implies #[trigger] l.subrange(4 * k, 4 * k + 4)
            == spec_u32_to_le_bytes(s[k]) by {
            if k < t.len() {
                assert(l.subrange(4 * k, 4 * k + 4) =~= le_words(t).subrange(4 * k, 4 * k + 4));
                assert(t[k] == s[k]);
            } else {
                assert(l.subrange(4 * k, 4 * k + 4) =~= spec_u32_to_le_bytes(s.last()));
            }
        }
    }
}

/// Words stored little-endian at `off` within `prefix + le_words(s) + suffix`, with
/// `prefix` of length `off`, read back as `s`.
proof fn lemma_words_at_le(prefix: Seq<u8>, s: Seq<u32>, suffix: Seq<u8>)
    ensures
        words_at(prefix + le_words(s) + suffix, prefix.len() as int, s.len() as int) == s,
{
    lemma_auto_spec_u32_to_from_le_bytes();
    lemma_le_words(s);
    let d = prefix + le_words(s) + suffix;
    let off = prefix.len() as int;
    assert forall|k: int| 0 <= k < s.len() implies #[trigger] words_at(d, off, s.len() as int)[k]
        == s[k] by {
        assert(d.subrange(off + 4 * k, off + 4 * k + 4) =~= le_words(s).subrange(4 * k, 4 * k + 4));
    }
    assert(words_at(d, off, s.len() as int) =~= s);
}

/// Reading back what `write_mquality_bytes` wrote gives the table back, for a well-formed
/// table with at least one entry whose dimensions fit in 32 bits.
pub proof fn lemma_write_load_roundtrip(t: MoveQualityTable)
    requires
        t.wf(),
        1 <= t.value_count() <= usize::MAX,
        t.rect_count <= u32::MAX,
        t.phases <= u32::MAX,
        t.buckets <= u32::MAX,
    ensures
        spec_load(spec_write(t)) == Some(contents(t)),
{
    lemma_auto_spec_u32_to_from_le_bytes();
    let vc = t.value_count();
    let header = seq![0x4du8, 0x51u8, 0x54u8, 0x59u8] + spec_u32_to_le_bytes(3)
        + spec_u32_to_le_bytes(t.rect_count as u32) + spec_u32_to_le_bytes(t.phases as u32)
        + spec_u32_to_le_bytes(t.buckets as u32);
    let lw = le_words(t.win_rate_bits@);
    let la = le_words(t.avg_value_bits@);
    let lc = le_words(t.counts@);
    lemma_le_words(t.win_rate_bits@);
    lemma_le_words(t.avg_value_bits@);
    lemma_le_words(t.counts@);
    let d = spec_write(t);
    assert(d =~= header + lw + la + lc);
    assert(header.len() == 20);
    assert(d.subrange(4, 8) =~= spec_u32_to_le_bytes(3));
    assert(d.subrange(8, 12) =~= spec_u32_to_le_bytes(t.rect_count as u32));
    assert(d.subrange(12, 16) =~= spec_u32_to_le_bytes(t.phases as u32));
    assert(d.subrange(16, 20) =~= spec_u32_to_le_bytes(t.buckets as u32));
    assert(word_at(d, 4) == 3);
    assert(word_at(d, 8) == t.rect_count);
    assert(word_at(d, 12) == t.phases);
    assert(word_at(d, 16) == t.buckets);
    assert(t.buckets >= 1 && t.phases >= 1 && t.rect_count >= 1) by (nonlinear_arith)
        requires
            t.rect_count * t.phases * t.buckets >= 1,
    ;
    assert(t.rect_count * t.phases <= vc) by (nonlinear_arith)
        requires
            t.buckets >= 1,
            vc == t.rect_count * t.phases * t.buckets,
    ;
    lemma_words_at_le(header, t.win_rate_bits@, la + lc);
    assert(header + lw + (la + lc) =~= d);
    lemma_words_at_le(header + lw, t.avg_value_bits@, lc);
    assert(header + lw + la + lc =~= d);
    lemma_words_at_le(header + lw + la, t.counts@, Seq::empty());
    assert(header + lw + la + lc + Seq::<u8>::empty() =~= d);
}
} // verus!
