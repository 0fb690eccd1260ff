//! 64-bit occupancy masks: single-bit tests, popcount-based dense indexing,
//! and the ascending-order bit queue that drives every tree walk.

use vstd::prelude::*;

verus! {

/// Bit `i` of mask `m` is set (false whenever `i` is out of range).
pub open spec fn bit64(m: u64, i: u64) -> bool {
    i < 64 && (m >> i) & 1u64 == 1u64
}

/// Number of set bits of `m` with index strictly below `n`.
pub open spec fn pc_below(m: u64, n: int) -> nat
    decreases n,
{
    if n <= 0 {
        0
    } else {
        pc_below(m, n - 1) + (if bit64(m, (n - 1) as u64) {
            1nat
        } else {
            0nat
        })
    }
}

/// Population count of the whole mask.
pub open spec fn popcnt(m: u64) -> nat {
    pc_below(m, 64)
}

/// Dense index of logical slot `i`: how many set bits lie strictly below `i`.
pub open spec fn dense_index_of(m: u64, i: u64) -> nat {
    pc_below(m, i as int)
}

pub proof fn lemma_bit_set(m: u64, i: u64)
    by (bit_vector)
    requires
        i < 64,
    ensures
        forall|j: u64| j < 64 ==> bit64(m | (1u64 << i), j) == (j == i || bit64(m, j)),
{
}

pub proof fn lemma_bit_clear(m: u64, i: u64)
    by (bit_vector)
    requires
        i < 64,
    ensures
        forall|j: u64| j < 64 ==> bit64(m & !(1u64 << i), j) == (j != i && bit64(m, j)),
{
}

pub proof fn lemma_bit_zero()
    by (bit_vector)
    ensures
        forall|j: u64| !bit64(0u64, j),
{
}

pub proof fn lemma_bit_and(m0: u64, m1: u64)
    by (bit_vector)
    ensures
        forall|j: u64| j < 64 ==> bit64(m0 & m1, j) == (bit64(m0, j) && bit64(m1, j)),
{
}

pub proof fn lemma_bit_or(m0: u64, m1: u64)
    by (bit_vector)
    ensures
        forall|j: u64| j < 64 ==> bit64(m0 | m1, j) == (bit64(m0, j) || bit64(m1, j)),
{
}

/// A mask whose bits are all clear is zero.
pub proof fn lemma_no_bits_zero(m: u64)
    requires
        forall|j: u64| j < 64 ==> !bit64(m, j),
    ensures
        m == 0,
{
    broadcast use vstd::std_specs::bits::axiom_u64_trailing_zeros;

    if m != 0 {
        let t = vstd::std_specs::bits::u64_trailing_zeros(m) as u64;
        assert(bit64(m, t));
    }
}

pub proof fn lemma_pc_le(m: u64, n: int)
    ensures
        pc_below(m, n) <= if n <= 0 {
            0int
        } else {
            n
        },
    decreases n,
{
    if n > 0 {
        lemma_pc_le(m, n - 1);
    }
}

pub proof fn lemma_pc_mono(m: u64, n1: int, n2: int)
    requires
        n1 <= n2,
    ensures
        pc_below(m, n1) <= pc_below(m, n2),
    decreases n2 - n1,
{
    if n1 < n2 {
        lemma_pc_mono(m, n1, n2 - 1);
    }
}

/// Masks that agree on every bit below `n` count the same below `n`.
pub proof fn lemma_pc_same(m1: u64, m2: u64, n: int)
    requires
        forall|j: u64| j < n ==> bit64(m1, j) == bit64(m2, j),
    ensures
        pc_below(m1, n) == pc_below(m2, n),
    decreases n,
{
    if n > 0 {
        lemma_pc_same(m1, m2, n - 1);
    }
}

/// Setting a clear bit `i` raises by one every count that looks past `i`.
pub proof fn lemma_pc_insert(m: u64, i: u64, n: int)
    requires
        i < 64,
        n <= 64,
        !bit64(m, i),
    ensures
        pc_below(m | (1u64 << i), n) == pc_below(m, n) + (if i < n {
            1nat
        } else {
            0nat
        }),
    decreases n,
{
    lemma_bit_set(m, i);
    if n > 0 {
        lemma_pc_insert(m, i, n - 1);
    }
}

/// Clearing a set bit `i` lowers by one every count that looks past `i`.
pub proof fn lemma_pc_remove(m: u64, i: u64, n: int)
    requires
        i < 64,
        n <= 64,
        bit64(m, i),
    ensures
        pc_below(m & !(1u64 << i), n) + (if i < n {
            1nat
        } else {
            0nat
        }) == pc_below(m, n),
    decreases n,
{
    lemma_bit_clear(m, i);
    if n > 0 {
        lemma_pc_remove(m, i, n - 1);
    }
}

/// Between two set bits the dense index strictly grows.
pub proof fn lemma_pc_strict(m: u64, i: u64, j: u64)
    requires
        i < j,
        bit64(m, i),
    ensures
        pc_below(m, i as int) < pc_below(m, j as int),
{
    assert(pc_below(m, i + 1) == pc_below(m, i as int) + 1);
    lemma_pc_mono(m, i + 1, j as int);
}

/// The dense index of a set bit is within the dense array.
pub proof fn lemma_pc_in_range(m: u64, i: u64)
    requires
        bit64(m, i),
    ensures
        pc_below(m, i as int) < popcnt(m),
{
    lemma_pc_strict_or_end(m, i);
}

proof fn lemma_pc_strict_or_end(m: u64, i: u64)
    requires
        bit64(m, i),
    ensures
        pc_below(m, i as int) < pc_below(m, 64),
{
    assert(pc_below(m, i + 1) == pc_below(m, i as int) + 1);
    lemma_pc_mono(m, i + 1, 64);
}

/// A mask with a set bit has a positive count; a zero mask counts zero.
pub proof fn lemma_popcnt_positive(m: u64)
    requires
        m != 0,
    ensures
        popcnt(m) >= 1,
        exists|i: u64| bit64(m, i),
{
    broadcast use vstd::std_specs::bits::axiom_u64_trailing_zeros;

    let t = u64::trailing_zeros(m) as u64;
    assert(bit64(m, t));
    assert(pc_below(m, t + 1) >= 1);
    lemma_pc_mono(m, t + 1, 64);
}

pub proof fn lemma_pc_zero_mask(n: int)
    ensures
        pc_below(0u64, n) == 0,
    decreases n,
{
    lemma_bit_zero();
    if n > 0 {
        lemma_pc_zero_mask(n - 1);
    }
}

/// Number of set bits of `m` with index strictly below `i`, as executable code.
pub fn dense_index(m: u64, i: u64) -> (r: usize)
    requires
        i <= 64,
    ensures
        r == dense_index_of(m, i),
        r <= i,
{
    let mut c: usize = 0;
    let mut j: u64 = 0;
    while j < i
        invariant
            j <= i,
            i <= 64,
            c == pc_below(m, j as int),
            c <= j,
        decreases i - j,
    {
        if (m >> j) & 1u64 == 1u64 {
            c = c + 1;
        }
        assert(pc_below(m, j + 1) == pc_below(m, j as int) + (if bit64(m, j) {
            1nat
        } else {
            0nat
        }));
        j = j + 1;
    }
    c
}

/// Population count of the whole mask, as executable code.
pub fn popcount(m: u64) -> (r: usize)
    ensures
        r == popcnt(m),
{
    dense_index(m, 64)
}


/// Whether bit `i` of `m` is set, as executable code.
pub fn contains(m: u64, i: u64) -> (r: bool)
    requires
        i < 64,
    ensures
        r == bit64(m, i),
{
    (m >> i) & 1u64 == 1u64
}

/// `m` with bit `i` set.
pub fn insert_bit(m: u64, i: u64) -> (r: u64)
    requires
        i < 64,
    ensures
        r == m | (1u64 << i),
        forall|j: u64| j < 64 ==> #[trigger] bit64(r, j) == (j == i || bit64(m, j)),
        r != 0,
    {
    proof {
        assert(forall|j: u64|
            j < 64 ==> #[trigger] bit64(m | (1u64 << i), j) == (j == i || bit64(m, j)))
            by (bit_vector)
            requires
                i < 64,
        ;
        assert((m | (1u64 << i)) != 0) by (bit_vector)
            requires
                i < 64,
        ;
    }
    m | (1u64 << i)
}

/// `m` with bit `i` cleared.
pub fn remove_bit(m: u64, i: u64) -> (r: u64)
    requires
        i < 64,
    ensures
        r == m & !(1u64 << i),
        forall|j: u64| j < 64 ==> #[trigger] bit64(r, j) == (j != i && bit64(m, j)),
{
    proof {
        assert(forall|j: u64|
            j < 64 ==> #[trigger] bit64(m & !(1u64 << i), j) == (j != i && bit64(m, j)))
            by (bit_vector)
            requires
                i < 64,
        ;
    }
    m & !(1u64 << i)
}

/// Whether no bit of `m` is set, as executable code.
pub fn is_zero(m: u64) -> (r: bool)
    ensures
        r == (m == 0),
        r ==> forall|j: u64| !bit64(m, j),
{
    proof {
        if m == 0 {
            lemma_bit_zero();
        }
    }
    m == 0
}

/// A queue of the set bits of a 64-bit mask, yielded in ascending index
/// order by repeatedly extracting the lowest set bit.
#[derive(Clone, Copy)]
pub struct BitQueue {
    bits: u64,
}

impl BitQueue {
    /// The bits that remain to be yielded.
    pub closed spec fn mask(self) -> u64 {
        self.bits
    }

    pub fn empty() -> (r: BitQueue)
        ensures
            r.mask() == 0u64,
    {
        BitQueue { bits: 0 }
    }

    pub fn from_mask(m: u64) -> (r: BitQueue)
        ensures
            r.mask() == m,
    {
        BitQueue { bits: m }
    }

    /// Extracts the lowest set bit, or reports exhaustion.
    pub fn next(&mut self) -> (r: Option<u64>)
        ensures
            old(self).mask() == 0 ==> r is None && final(self).mask() == 0,
            old(self).mask() != 0 ==> match r {
                Some(i) => {
                    &&& i < 64
                    &&& bit64(old(self).mask(), i)
                    &&& forall|j: u64| j < i ==> !bit64(old(self).mask(), j)
                    &&& forall|j: u64|
                        j < 64 ==> bit64(final(self).mask(), j) == (j != i && bit64(
                            old(self).mask(),
                            j,
                        ))
                },
                None => false,
            },
    {
        broadcast use vstd::std_specs::bits::axiom_u64_trailing_zeros;

        if self.bits == 0 {
            return None;
        }
        let i = self.bits.trailing_zeros() as u64;
        proof {
            assert(bit64(self.bits, i));
        }
        self.bits = self.bits & !(1u64 << i);
        proof {
            lemma_bit_clear(old(self).bits, i);
        }
        Some(i)
    }
}


/// A one-bit mask has exactly its one bit set.
pub proof fn lemma_bit_single(i: u64)
    by (bit_vector)
    requires
        i < 64,
    ensures
        forall|j: u64| j < 64 ==> bit64(1u64 << i, j) == (j == i),
{
}

/// A one-bit mask counts one, and its bit sits at dense index zero.
pub proof fn lemma_pc_single(i: u64)
    requires
        i < 64,
    ensures
        popcnt(1u64 << i) == 1,
        dense_index_of(1u64 << i, i) == 0,
        1u64 << i != 0,
{
    assert(0u64 | (1u64 << i) == 1u64 << i && 1u64 << i != 0) by (bit_vector)
        requires
            i < 64,
    ;
    lemma_bit_zero();
    lemma_pc_insert(0u64, i, 64);
    lemma_pc_zero_mask(64);
    lemma_pc_insert(0u64, i, i as int);
    lemma_pc_zero_mask(i as int);
}

} // verus!
