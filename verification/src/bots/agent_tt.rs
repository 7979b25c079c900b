use vstd::prelude::*;

use crate::types::Move;

verus! {

/// Flag of an entry whose value is exact.
pub const TT_FLAG_EXACT: u8 = 1;
/// Flag of an entry whose value is a lower bound.
pub const TT_FLAG_LOWER: u8 = 2;
/// Flag of an entry whose value is an upper bound.
pub const TT_FLAG_UPPER: u8 = 3;
/// Number of buckets.
pub const TT_SIZE: usize = 4194304;
/// Packed form of the pass move.
pub const PACKED_PASS: u32 = 0xFFFFFFFF;

/// One stored search result.
#[derive(Clone, Copy, Debug, PartialEq, Eq, Structural)]
pub struct TTEntry {
    pub key_sig: u32,
    pub depth: i16,
    pub value: i32,
    pub flag: u8,
    pub age: u8,
    pub packed_move: u32,
}

/// Two entries sharing a table slot: the latest store, and a depth-preferred one.
#[derive(Clone, Copy, Debug, PartialEq, Eq, Structural)]
pub struct TTBucket {
    pub slot0: TTEntry,
    pub slot1: TTEntry,
}

/// A fixed-size table of search results indexed by position hash.
pub struct TranspositionTable {
    table: Vec<TTBucket>,
    age: u8,
}

/// The empty entry: depth -1, so that no probe matches it through its depth.
pub open spec fn empty_entry() -> TTEntry {
    TTEntry { key_sig: 0, depth: -1i16, value: 0, flag: 0, age: 0, packed_move: 0 }
}

/// The bucket of a key: its low 22 bits.
pub open spec fn bucket_index(key: u64) -> int {
    (key % (TT_SIZE as u64)) as int
}

/// The signature of a key: its high 32 bits.
pub open spec fn key_signature(key: u64) -> u32 {
    (key >> 32u64) as u32
}

/// The packed form of a move: four bit fields of 4, 5, 4 and 5 bits.
pub open spec fn spec_pack_move(r1: i8, c1: i8, r2: i8, c2: i8) -> u32 {
    (((r1 as u32) & 0xFu32) << 15u32) | (((c1 as u32) & 0x1Fu32) << 10u32) | (((r2 as u32)
        & 0xFu32) << 6u32) | (((c2 as u32) & 0x1Fu32) << 1u32)
}

/// The move of a packed form; the pass move for `PACKED_PASS`.
pub open spec fn spec_unpack_move(packed: u32) -> Move {
    if packed == PACKED_PASS {
        (-1i8, -1i8, -1i8, -1i8)
    } else {
        (
            ((packed >> 15u32) & 0xFu32) as i8,
            ((packed >> 10u32) & 0x1Fu32) as i8,
            ((packed >> 6u32) & 0xFu32) as i8,
            ((packed >> 1u32) & 0x1Fu32) as i8,
        )
    }
}

/// The bucket after storing entry `e`: `e` becomes the latest entry, and also the
/// depth-preferred one when the latter holds the same signature and is no deeper, or holds
/// another signature and is from another age or no deeper.
pub open spec fn stored_bucket(b: TTBucket, e: TTEntry) -> TTBucket {
    let same_key = b.slot1.key_sig == e.key_sig;
    let stale = b.slot1.age != e.age;
    let deeper = e.depth >= b.slot1.depth;
    TTBucket {
        slot0: e,
        slot1: if (if same_key { deeper } else { stale || deeper }) { e } else { b.slot1 },
    }
}

/// The entry a probe uses: among the entries with signature `sig` and depth at least
/// `depth`, the latest one, unless the depth-preferred one is strictly deeper.
pub open spec fn probe_entry(b: TTBucket, sig: u32, depth: i16) -> Option<TTEntry> {
    let m0 = b.slot0.key_sig == sig && b.slot0.depth >= depth;
    let m1 = b.slot1.key_sig == sig && b.slot1.depth >= depth;
    if m1 && (!m0 || b.slot1.depth > b.slot0.depth) {
        Some(b.slot1)
    } else if m0 {
        Some(b.slot0)
    } else {
        None
    }
}

/// The answer of a probe: no entry gives `(false, 0, pass)`; an entry gives a hit with its
/// value when it is exact, a lower bound at least `beta`, or an upper bound at most `alpha`,
/// and otherwise a miss; either way with the entry's move.
pub open spec fn probe_result(b: TTBucket, sig: u32, depth: i16, alpha: i32, beta: i32) -> (bool, i32, Move) {
    match probe_entry(b, sig, depth) {
        None => (false, 0i32, (-1i8, -1i8, -1i8, -1i8)),
        Some(e) => {
            let bm = spec_unpack_move(e.packed_move);
            if e.flag == TT_FLAG_EXACT || (e.flag == TT_FLAG_LOWER && e.value >= beta) || (e.flag
                == TT_FLAG_UPPER && e.value <= alpha) {
                (true, e.value, bm)
            } else {
                (false, 0i32, bm)
            }
        },
    }
}

/// Unpacking a packed move gives the move back, for moves whose rows lie in `0..16` and
/// columns in `0..32`.
pub proof fn lemma_pack_roundtrip(r1: i8, c1: i8, r2: i8, c2: i8)
    requires
        0 <= r1 < 16,
        0 <= c1 < 32,
        0 <= r2 < 16,
        0 <= c2 < 32,
    ensures
        spec_unpack_move(spec_pack_move(r1, c1, r2, c2)) == (r1, c1, r2, c2),
{
    let a = r1 as u32;
    let b = c1 as u32;
    let c = r2 as u32;
    let d = c2 as u32;
    let p = spec_pack_move(r1, c1, r2, c2);
    assert(p == ((a & 0xFu32) << 15u32) | ((b & 0x1Fu32) << 10u32) | ((c & 0xFu32) << 6u32) | ((
    d & 0x1Fu32) << 1u32));
    assert({
        let p = ((a & 0xFu32) << 15u32) | ((b & 0x1Fu32) << 10u32) | ((c & 0xFu32) << 6u32) | ((d
            & 0x1Fu32) << 1u32);
        &&& p != 0xFFFFFFFFu32
        &&& (p >> 15u32) & 0xFu32 == a
        &&& (p >> 10u32) & 0x1Fu32 == b
        &&& (p >> 6u32) & 0xFu32 == c
        &&& (p >> 1u32) & 0x1Fu32 == d
    }) by (bit_vector)
        requires
            a < 16,
            b < 32,
            c < 16,
            d < 32,
    ;
}

/// A probe right after storing an exact result reads that result back, for any probe depth
/// up to the stored one, unless the slot already held a strictly deeper entry with the same
/// signature.
pub proof fn lemma_probe_after_store(
    b: TTBucket,
    sig: u32,
    depth: i16,
    value: i32,
    age: u8,
    packed: u32,
    probe_depth: i16,
    alpha: i32,
    beta: i32,
)
    requires
        probe_depth <= depth,
        !(b.slot1.key_sig == sig && b.slot1.depth > depth),
    ensures
        probe_result(
            stored_bucket(
                b,
                TTEntry { key_sig: sig, depth, value, flag: TT_FLAG_EXACT, age, packed_move: packed },
            ),
            sig,
            probe_depth,
            alpha,
            beta,
        ) == (true, value, spec_unpack_move(packed)),
{
}

/// A probe answers from the table only where the stored bound settles the window: with no
/// matching entry it misses; with one, an exact entry always hits, a lower bound hits
/// exactly when it is at least `beta` and an upper bound exactly when it is at most
/// `alpha` (so a lower bound below `beta`, or an upper bound above `alpha`, never cuts
/// off), any other flag misses, and a hit gives the entry's value; the entry's move comes
/// back either way.
pub proof fn lemma_probe_window(b: TTBucket, sig: u32, depth: i16, alpha: i32, beta: i32)
    ensures
        ({
            let r = probe_result(b, sig, depth, alpha, beta);
            match probe_entry(b, sig, depth) {
                None => !r.0,
                Some(e) => {
                    &&& r.0 ==> r.1 == e.value
                    &&& r.2 == spec_unpack_move(e.packed_move)
                    &&& e.flag == TT_FLAG_EXACT ==> r.0
                    &&& e.flag == TT_FLAG_LOWER ==> (r.0 <==> e.value >= beta)
                    &&& e.flag == TT_FLAG_UPPER ==> (r.0 <==> e.value <= alpha)
                    &&& e.flag != TT_FLAG_EXACT && e.flag != TT_FLAG_LOWER && e.flag
                        != TT_FLAG_UPPER ==> !r.0
                },
            }
        }),
{
}

fn empty_bucket() -> (b: TTBucket)
    ensures
        b == (TTBucket { slot0: empty_entry(), slot1: empty_entry() }),
{
    let e = TTEntry { key_sig: 0, depth: -1, value: 0, flag: 0, age: 0, packed_move: 0 };
    TTBucket { slot0: e, slot1: e }
}

proof fn lemma_bucket_index(key: u64)
    ensures
        (key as usize) & ((TT_SIZE - 1) as usize) == bucket_index(key),
{
    assert((key as usize) & (0x3FFFFFusize) == (key % 0x400000u64) as usize) by (bit_vector);
}

impl TranspositionTable {
    /// The table has its fixed number of buckets.
    pub closed spec fn wf(&self) -> bool {
        self.table@.len() == TT_SIZE
    }

    /// The buckets.
    pub closed spec fn buckets(&self) -> Seq<TTBucket> {
        self.table@
    }

    /// The current age.
    pub closed spec fn spec_age(&self) -> u8 {
        self.age
    }

    /// A usable table has its fixed number of buckets.
    pub proof fn lemma_buckets_len(&self)
        requires
            self.wf(),
        ensures
            self.buckets().len() == TT_SIZE,
    {
    }

    /// An empty table of age 1.
    pub fn new() -> (t: TranspositionTable)
        ensures
            t.wf(),
            t.buckets().len() == TT_SIZE,
            forall|i: int|
                0 <= i < TT_SIZE ==> #[trigger] t.buckets()[i] == (TTBucket {
                    slot0: empty_entry(),
                    slot1: empty_entry(),
                }),
            t.spec_age() == 1,
    {
        let mut table: Vec<TTBucket> = Vec::with_capacity(TT_SIZE);
        let mut i: usize = 0;
        while i < TT_SIZE
            invariant
                i <= TT_SIZE,
                table@.len() == i,
                forall|k: int|
                    0 <= k < i ==> #[trigger] table@[k] == (TTBucket {
                        slot0: empty_entry(),
                        slot1: empty_entry(),
                    }),
            decreases TT_SIZE - i,
        {
            table.push(empty_bucket());
            i += 1;
        }
        TranspositionTable { table, age: 1 }
    }

    /// Advances the age by one, wrapping from 255 to 0.
    pub fn increment_age(&mut self)
        ensures
            final(self).spec_age() == vstd::wrapping::u8_specs::wrapping_add(
                old(self).spec_age(),
                1,
            ),
            final(self).buckets() == old(self).buckets(),
            final(self).wf() == old(self).wf(),
    {
        self.age = self.age.wrapping_add(1);
    }

    /// The packed form of a move; see `spec_pack_move`.
    fn pack_move(r1: i8, c1: i8, r2: i8, c2: i8) -> (p: u32)
        ensures
            p == spec_pack_move(r1, c1, r2, c2),
    {
        ((r1 as u32 & 0xF) << 15u32) | ((c1 as u32 & 0x1F) << 10u32) | ((r2 as u32 & 0xF) << 6u32)
            | ((c2 as u32 & 0x1F) << 1u32)
    }

    /// The move of a packed form; see `spec_unpack_move`.
    fn unpack_move(packed: u32) -> (mv: Move)
        ensures
            mv == spec_unpack_move(packed),
    {
        if packed == PACKED_PASS {
            return (-1, -1, -1, -1);
        }
        proof {
            assert((packed >> 15u32) & 0xFu32 <= 15) by (bit_vector);
            assert((packed >> 10u32) & 0x1Fu32 <= 31) by (bit_vector);
            assert((packed >> 6u32) & 0xFu32 <= 15) by (bit_vector);
            assert((packed >> 1u32) & 0x1Fu32 <= 31) by (bit_vector);
        }
        (
            ((packed >> 15u32) & 0xF) as i8,
            ((packed >> 10u32) & 0x1F) as i8,
            ((packed >> 6u32) & 0xF) as i8,
            ((packed >> 1u32) & 0x1F) as i8,
        )
    }

    /// Stores a result for position hash `key`; see `stored_bucket`.
    pub fn store(
        &mut self,
        key: u64,
        depth: i16,
        value: i32,
        flag: u8,
        r1: i8,
        c1: i8,
        r2: i8,
        c2: i8,
    )
        requires
            old(self).wf(),
        ensures
            final(self).wf(),
            final(self).spec_age() == old(self).spec_age(),
            final(self).buckets() == old(self).buckets().update(
                bucket_index(key),
                stored_bucket(
                    old(self).buckets()[bucket_index(key)],
                    TTEntry {
                        key_sig: key_signature(key),
                        depth,
                        value,
                        flag,
                        age: old(self).spec_age(),
                        packed_move: spec_pack_move(r1, c1, r2, c2),
                    },
                ),
            ),
    {
        let ksig = (key >> 32u64) as u32;
        let idx = key as usize & (TT_SIZE - 1);
        proof {
            lemma_bucket_index(key);
            assert(bucket_index(key) < TT_SIZE);
        }
        let pm = Self::pack_move(r1, c1, r2, c2);
        let mut bucket = self.table[idx];
        let e = TTEntry { key_sig: ksig, depth, value, flag, age: self.age, packed_move: pm };
        bucket.slot0 = e;
        let same_key = bucket.slot1.key_sig == ksig;
        let stale = bucket.slot1.age != self.age;
        let deeper = depth >= bucket.slot1.depth;
        if if same_key {
            deeper
        } else {
            stale || deeper
        } {
            bucket.slot1 = e;
        }
        self.table.set(idx, bucket);
    }

    /// Looks up position hash `key` for a search of `depth` with window `(alpha, beta)`;
    /// see `probe_result`.
    pub fn probe(&self, key: u64, depth: i16, alpha: i32, beta: i32) -> (r: (bool, i32, Move))
        requires
            self.wf(),
        ensures
            r == probe_result(self.buckets()[bucket_index(key)], key_signature(key), depth, alpha, beta),
    {
        let ksig = (key >> 32u64) as u32;
        let idx = key as usize & (TT_SIZE - 1);
        proof {
            lemma_bucket_index(key);
        }
        let bucket = &self.table[idx];
        let mut best: Option<TTEntry> = None;
        if bucket.slot0.key_sig == ksig && bucket.slot0.depth >= depth {
            best = Some(bucket.slot0);
        }
        if bucket.slot1.key_sig == ksig && bucket.slot1.depth >= depth {
            if best.is_none() || bucket.slot1.depth > best.unwrap().depth {
                best = Some(bucket.slot1);
            }
        }
        match best {
            None => (false, 0, (-1, -1, -1, -1)),
            Some(e) => {
                let bm = Self::unpack_move(e.packed_move);
                if e.flag == TT_FLAG_EXACT {
                    return (true, e.value, bm);
                }
                if e.flag == TT_FLAG_LOWER && e.value >= beta {
                    return (true, e.value, bm);
                }
                if e.flag == TT_FLAG_UPPER && e.value <= alpha {
                    return (true, e.value, bm);
                }
                (false, 0, bm)
            },
        }
    }
}

} // verus!
