use vstd::prelude::*;

use crate::types::COLS;

verus! {

/// Number of bits a bitboard holds.
pub const N_BITS: usize = 192;

/// A set of board cells, one bit per flat cell index, over three 64-bit words.
#[derive(Clone, Copy, Debug, PartialEq, Eq)]
pub struct Bitboard(pub [u64; 3]);

/// Whether bit `j` of `w` is set.
pub open spec fn word_bit(w: u64, j: int) -> bool {
    (w >> (j as u64)) & 1u64 == 1u64
}

/// Number of set bits of `w` among its lowest `n` bits.
pub open spec fn word_ones(w: u64, n: nat) -> nat
    decreases n,
{
    if n == 0 {
        0
    } else {
        word_ones(w, (n - 1) as nat) + if word_bit(w, n - 1) { 1nat } else { 0nat }
    }
}

impl Bitboard {
    /// Whether cell `i` (a flat index below `N_BITS`) is in the set.
    pub open spec fn bit(self, i: int) -> bool {
        word_bit(self.0@[i / 64], i % 64)
    }

    /// Number of members among the cells below `n`.
    pub open spec fn count_below(self, n: nat) -> nat
        decreases n,
    {
        if n == 0 {
            0
        } else {
            self.count_below((n - 1) as nat) + if self.bit(n - 1) { 1nat } else { 0nat }
        }
    }

    /// Number of members.
    pub open spec fn count(self) -> nat {
        self.count_below(N_BITS as nat)
    }

    /// The set of member cells.
    pub open spec fn cells(self) -> Set<int> {
        Set::new(|i: int| 0 <= i < N_BITS && self.bit(i))
    }

    /// Intersection, as a specification.
    pub open spec fn and_spec(self, other: Bitboard) -> Bitboard {
        Bitboard([self.0[0] & other.0[0], self.0[1] & other.0[1], self.0[2] & other.0[2]])
    }

    /// The empty set.
    pub fn empty() -> (bb: Bitboard)
        ensures
            forall|i: int| 0 <= i < N_BITS ==> !bb.bit(i),
            bb.count() == 0,
    {
        let bb = Bitboard([0u64, 0u64, 0u64]);
        proof {
            assert forall|i: int| 0 <= i < N_BITS implies !bb.bit(i) by {
                lemma_zero_word_bit((i % 64) as u64);
            }
            lemma_count_empty(bb, N_BITS as nat);
        }
        bb
    }

    /// Adds cell `(r, c)`.
    pub fn set(&mut self, r: usize, c: usize)
        requires
            r * COLS + c < N_BITS,
        ensures
            forall|i: int|
                0 <= i < N_BITS ==> #[trigger] final(self).bit(i) == (i == r * COLS + c || old(
                    self,
                ).bit(i)),
    {
        let idx = r * COLS + c;
        let w = idx / 64;
        let s = idx % 64;
        let ghost before = *self;
        self.0[w] = self.0[w] | (1u64 << (s as u64));
        proof {
            assert forall|i: int| 0 <= i < N_BITS implies #[trigger] self.bit(i) == (i == idx
                || before.bit(i)) by {
                if i / 64 == w as int {
                    lemma_or_bit(before.0@[w as int], s as u64, (i % 64) as u64);
                } else {
                    assert(self.0@[i / 64] == before.0@[i / 64]);
                }
            }
        }
    }

    /// Removes cell `(r, c)`.
    pub fn clear(&mut self, r: usize, c: usize)
        requires
            r * COLS + c < N_BITS,
        ensures
            forall|i: int|
                0 <= i < N_BITS ==> #[trigger] final(self).bit(i) == (i != r * COLS + c && old(
                    self,
                ).bit(i)),
    {
        let idx = r * COLS + c;
        let w = idx / 64;
        let s = idx % 64;
        let ghost before = *self;
        self.0[w] = self.0[w] & !(1u64 << (s as u64));
        proof {
            assert forall|i: int| 0 <= i < N_BITS implies #[trigger] self.bit(i) == (i != idx
                && before.bit(i)) by {
                if i / 64 == w as int {
                    lemma_and_not_bit(before.0@[w as int], s as u64, (i % 64) as u64);
                } else {
                    assert(self.0@[i / 64] == before.0@[i / 64]);
                }
            }
        }
    }

    /// Whether cell `(r, c)` is in the set.
    pub fn get(&self, r: usize, c: usize) -> (b: bool)
        requires
            r * COLS + c < N_BITS,
        ensures
            b == self.bit(r * COLS + c),
    {
        let idx = r * COLS + c;
        let x = self.0[idx / 64] >> ((idx % 64) as u64);
        assert((x & 1u64 != 0) == (x & 1u64 == 1u64)) by (bit_vector);
        x & 1 != 0
    }

    /// Number of members.
    pub fn popcount(&self) -> (n: u32)
        ensures
            n == self.count(),
            n <= N_BITS,
    {
        let a = count_ones_u64(self.0[0]);
        let b = count_ones_u64(self.0[1]);
        let c = count_ones_u64(self.0[2]);
        proof {
            lemma_word_ones_bound(self.0[0], 64);
            lemma_word_ones_bound(self.0[1], 64);
            lemma_word_ones_bound(self.0[2], 64);
            lemma_count_words(*self, 0);
            lemma_count_words(*self, 1);
            lemma_count_words(*self, 2);
        }
        a + b + c
    }

    /// Intersection.
    pub fn and(&self, other: &Bitboard) -> (bb: Bitboard)
        ensures
            bb == self.and_spec(*other),
            forall|i: int| 0 <= i < N_BITS ==> #[trigger] bb.bit(i) == (self.bit(i) && other.bit(i)),
    {
        let bb = Bitboard([self.0[0] & other.0[0], self.0[1] & other.0[1], self.0[2] & other.0[2]]);
        proof {
            assert forall|i: int| 0 <= i < N_BITS implies #[trigger] bb.bit(i) == (self.bit(i)
                && other.bit(i)) by {
                let k = i / 64;
                lemma_and_words(self.0@[k], other.0@[k], (i % 64) as u64);
            }
        }
        bb
    }

    /// Union.
    pub fn or(&self, other: &Bitboard) -> (bb: Bitboard)
        ensures
            forall|i: int| 0 <= i < N_BITS ==> #[trigger] bb.bit(i) == (self.bit(i) || other.bit(i)),
    {
        let bb = Bitboard([self.0[0] | other.0[0], self.0[1] | other.0[1], self.0[2] | other.0[2]]);
        proof {
            assert forall|i: int| 0 <= i < N_BITS implies #[trigger] bb.bit(i) == (self.bit(i)
                || other.bit(i)) by {
                let k = i / 64;
                lemma_or_words(self.0@[k], other.0@[k], (i % 64) as u64);
            }
        }
        bb
    }

    /// Whether the set has no member.
    pub fn is_empty(&self) -> (b: bool)
        ensures
            b == (forall|i: int| 0 <= i < N_BITS ==> !#[trigger] self.bit(i)),
    {
        let b = self.0[0] == 0 && self.0[1] == 0 && self.0[2] == 0;
        proof {
            if b {
                assert forall|i: int| 0 <= i < N_BITS implies !#[trigger] self.bit(i) by {
                    lemma_zero_word_bit((i % 64) as u64);
                }
            } else {
                let k: int = if self.0[0] != 0 {
                    0
                } else if self.0[1] != 0 {
                    1
                } else {
                    2
                };
                let j = lemma_nonzero_word_has_bit(self.0@[k]);
                assert(self.bit(k * 64 + j as int));
            }
        }
        b
    }
}

/// `u64::count_ones`: the number of ones in the binary representation of `w`.
#[verifier::external_body]
fn count_ones_u64(w: u64) -> (n: u32)
    ensures
        n == word_ones(w, 64),
{
    w.count_ones()
}

proof fn lemma_zero_word_bit(j: u64)
    requires
        j < 64,
    ensures
        !word_bit(0u64, j as int),
{
    assert((0u64 >> j) & 1u64 == 0u64) by (bit_vector);
}

proof fn lemma_or_bit(w: u64, s: u64, j: u64)
    requires
        s < 64,
        j < 64,
    ensures
        word_bit(w | (1u64 << s), j as int) == (j == s || word_bit(w, j as int)),
{
    assert((((w | (1u64 << s)) >> j) & 1u64 == 1u64) == (j == s || (w >> j) & 1u64 == 1u64))
        by (bit_vector)
        requires
            s < 64,
            j < 64,
    ;
}

proof fn lemma_and_not_bit(w: u64, s: u64, j: u64)
    requires
        s < 64,
        j < 64,
    ensures
        word_bit(w & !(1u64 << s), j as int) == (j != s && word_bit(w, j as int)),
{
    assert((((w & !(1u64 << s)) >> j) & 1u64 == 1u64) == (j != s && (w >> j) & 1u64 == 1u64))
        by (bit_vector)
        requires
            s < 64,
            j < 64,
    ;
}

proof fn lemma_and_words(a: u64, b: u64, j: u64)
    requires
        j < 64,
    ensures
        word_bit(a & b, j as int) == (word_bit(a, j as int) && word_bit(b, j as int)),
{
    assert((((a & b) >> j) & 1u64 == 1u64) == ((a >> j) & 1u64 == 1u64 && (b >> j) & 1u64
        == 1u64)) by (bit_vector);
}

pub proof fn lemma_or_words(a: u64, b: u64, j: u64)
    requires
        j < 64,
    ensures
        word_bit(a | b, j as int) == (word_bit(a, j as int) || word_bit(b, j as int)),
{
    assert((((a | b) >> j) & 1u64 == 1u64) == ((a >> j) & 1u64 == 1u64 || (b >> j) & 1u64
        == 1u64)) by (bit_vector);
}

proof fn lemma_nonzero_word_has_bit(w: u64) -> (j: u64)
    requires
        w != 0,
    ensures
        j < 64,
        word_bit(w, j as int),
{
    assert(w >> 0u64 == w) by (bit_vector);
    lemma_shifted_word_has_bit(w, 0)
}

proof fn lemma_shifted_word_has_bit(w: u64, n: u64) -> (j: u64)
    requires
        n < 64,
        w >> n != 0,
    ensures
        n <= j < 64,
        word_bit(w, j as int),
    decreases 64 - n,
{
    if (w >> n) & 1u64 == 1u64 {
        n
    } else if n == 63 {
        assert(false) by (bit_vector)
            requires
                n == 63,
                w >> n != 0,
                (w >> n) & 1u64 != 1u64,
        ;
        n
    } else {
        assert(w >> ((n + 1) as u64) != 0) by (bit_vector)
            requires
                n < 63,
                w >> n != 0,
                (w >> n) & 1u64 != 1u64,
        ;
        lemma_shifted_word_has_bit(w, (n + 1) as u64)
    }
}

proof fn lemma_word_ones_bound(w: u64, n: nat)
    ensures
        word_ones(w, n) <= n,
    decreases n,
{
    if n > 0 {
        lemma_word_ones_bound(w, (n - 1) as nat);
    }
}

proof fn lemma_count_empty(bb: Bitboard, n: nat)
    requires
        n <= N_BITS,
        forall|i: int| 0 <= i < N_BITS ==> !bb.bit(i),
    ensures
        bb.count_below(n) == 0,
    decreases n,
{
    if n > 0 {
        lemma_count_empty(bb, (n - 1) as nat);
    }
}

/// The count below `64 * k + j` splits into whole words below `k` plus the partial word `k`.
proof fn lemma_count_partial(bb: Bitboard, k: int, j: nat)
    requires
        0 <= k < 3,
        j <= 64,
    ensures
        bb.count_below((64 * k + j) as nat) == bb.count_below((64 * k) as nat) + word_ones(
            bb.0@[k],
            j,
        ),
    decreases j,
{
    if j > 0 {
        lemma_count_partial(bb, k, (j - 1) as nat);
        let i = 64 * k + j - 1;
        assert(i / 64 == k);
        assert(i % 64 == j - 1);
    }
}

proof fn lemma_count_words(bb: Bitboard, k: int)
    requires
        0 <= k < 3,
    ensures
        bb.count_below((64 * (k + 1)) as nat) == bb.count_below((64 * k) as nat) + word_ones(
            bb.0@[k],
            64,
        ),
{
    lemma_count_partial(bb, k, 64);
}

/// Adding a cell that was absent raises the count by one; adding one that was present
/// leaves it unchanged.
pub proof fn lemma_count_after_insert(before: Bitboard, after: Bitboard, k: int, n: nat)
    requires
        0 <= k < N_BITS,
        n <= N_BITS,
        forall|i: int| 0 <= i < N_BITS ==> #[trigger] after.bit(i) == (i == k || before.bit(i)),
    ensures
        after.count_below(n) == before.count_below(n) + if k < n && !before.bit(k) {
            1nat
        } else {
            0nat
        },
    decreases n,
{
    if n > 0 {
        lemma_count_after_insert(before, after, k, (n - 1) as nat);
        assert(after.bit(n - 1) == (n - 1 == k || before.bit(n - 1)));
    }
}

/// Removing a cell that was present lowers the count by one; removing one that was absent
/// leaves it unchanged.
pub proof fn lemma_count_after_remove(before: Bitboard, after: Bitboard, k: int, n: nat)
    requires
        0 <= k < N_BITS,
        n <= N_BITS,
        forall|i: int| 0 <= i < N_BITS ==> #[trigger] after.bit(i) == (i != k && before.bit(i)),
    ensures
        after.count_below(n) + if k < n && before.bit(k) { 1nat } else { 0nat }
            == before.count_below(n),
    decreases n,
{
    if n > 0 {
        lemma_count_after_remove(before, after, k, (n - 1) as nat);
        assert(after.bit(n - 1) == (n - 1 != k && before.bit(n - 1)));
    }
}

/// Two bitboards with the same members below `n` have the same count below `n`.
pub proof fn lemma_count_ext(a: Bitboard, b: Bitboard, n: nat)
    requires
        n <= N_BITS,
        forall|i: int| 0 <= i < n ==> #[trigger] a.bit(i) == b.bit(i),
    ensures
        a.count_below(n) == b.count_below(n),
    decreases n,
{
    if n > 0 {
        lemma_count_ext(a, b, (n - 1) as nat);
        assert(a.bit(n - 1) == b.bit(n - 1));
    }
}

} // verus!
