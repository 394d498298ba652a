//! Sixteen bit child masks.
use vstd::prelude::*;

verus! {

/// The mask with the single bit of nibble `n` set.
pub open spec fn nibble_bit(n: u8) -> u16 {
    1u16 << n
}

/// Whether the bit of nibble `n` is set in `mask`.
pub open spec fn has_bit(mask: u16, n: u8) -> bool {
    mask & (1u16 << n) != 0
}

/// The number of bits set in `mask` among those of the nibbles below `n`.
pub open spec fn bits_below(mask: u16, n: nat) -> nat
    decreases n,
{
    if n == 0 {
        0
    } else {
        bits_below(mask, (n - 1) as nat) + if has_bit(mask, (n - 1) as u8) {
            1nat
        } else {
            0nat
        }
    }
}

/// Whether every bit of `a` is set in `b`.
pub open spec fn is_subset(a: u16, b: u16) -> bool {
    a & b == a
}

/// A mask of 16 bits, one for each nibble value.
#[derive(Clone, Copy, Debug, PartialEq, Eq, Structural)]
pub struct TrieMask {
    /// The bits: bit `n` stands for nibble `n`.
    pub bits: u16,
}

impl Default for TrieMask {
    fn default() -> (r: Self)
        ensures
            r.bits == 0,
    {
        TrieMask { bits: 0 }
    }
}

impl TrieMask {
    /// The mask with the given bits.
    pub fn new(bits: u16) -> (r: Self)
        ensures
            r.bits == bits,
    {
        TrieMask { bits }
    }

    /// The mask that holds one nibble.
    pub fn from_nibble(nibble: u8) -> (r: Self)
        requires
            nibble < 16,
        ensures
            r.bits == nibble_bit(nibble),
    {
        TrieMask { bits: 1u16 << nibble }
    }

    /// Whether no bit is set.
    pub fn is_empty(self) -> (r: bool)
        ensures
            r == (self.bits == 0),
    {
        self.bits == 0
    }

    /// Whether the bit of `index` is set.
    pub fn is_bit_set(self, index: u8) -> (r: bool)
        requires
            index < 16,
        ensures
            r == has_bit(self.bits, index),
    {
        self.bits & (1u16 << index) != 0
    }

    /// Whether every bit of this mask is set in `other`.
    pub fn is_subset_of(self, other: Self) -> (r: bool)
        ensures
            r == is_subset(self.bits, other.bits),
    {
        self.bits & other.bits == self.bits
    }

    /// The bits of either mask.
    pub fn union(self, other: Self) -> (r: Self)
        ensures
            r.bits == self.bits | other.bits,
    {
        TrieMask { bits: self.bits | other.bits }
    }

    /// The bits of this mask that are not in `other`.
    pub fn without(self, other: Self) -> (r: Self)
        ensures
            r.bits == self.bits & !other.bits,
    {
        TrieMask { bits: self.bits & !other.bits }
    }

    /// The number of bits set.
    pub fn count_ones(self) -> (r: usize)
        ensures
            r == bits_below(self.bits, 16),
    {
        let mut n: u8 = 0;
        let mut count: usize = 0;
        while n < 16
            invariant
                n <= 16,
                count == bits_below(self.bits, n as nat),
                count <= n,
            decreases 16 - n,
        {
            if self.is_bit_set(n) {
                count = count + 1;
            }
            n = n + 1;
        }
        count
    }
}

/// Setting the bit of `n` changes that bit and no other.
pub proof fn lemma_set_bit(mask: u16, n: u8, m: u8)
    requires
        n < 16,
        m < 16,
    ensures
        has_bit(mask | nibble_bit(n), m) == (m == n || has_bit(mask, m)),
{
    assert(((mask | (1u16 << n)) & (1u16 << m) != 0) == (m == n || mask & (1u16 << m) != 0))
        by (bit_vector)
        requires
            n < 16,
            m < 16,
    ;
}

/// Setting a bit that was clear adds one to the number of bits set below any bound above it.
pub proof fn lemma_count_set_bit(mask: u16, n: u8, k: nat)
    requires
        n < 16,
        k <= 16,
        !has_bit(mask, n),
    ensures
        bits_below(mask | nibble_bit(n), k) == bits_below(mask, k) + if n < k {
            1nat
        } else {
            0nat
        },
    decreases k,
{
    if k > 0 {
        lemma_count_set_bit(mask, n, (k - 1) as nat);
        lemma_set_bit(mask, n, (k - 1) as u8);
    }
}

/// The empty mask has no bit set.
pub proof fn lemma_count_empty(k: nat)
    requires
        k <= 16,
    ensures
        bits_below(0u16, k) == 0,
    decreases k,
{
    if k > 0 {
        lemma_count_empty((k - 1) as nat);
        let n = (k - 1) as u8;
        assert(0u16 & (1u16 << n) == 0) by (bit_vector);
    }
}

/// Setting a bit keeps the subset relation, where the larger mask gets it too.
pub proof fn lemma_subset_set_bit(a: u16, b: u16, n: u8)
    requires
        n < 16,
        is_subset(a, b),
    ensures
        is_subset(a, b | nibble_bit(n)),
        is_subset(a | nibble_bit(n), b | nibble_bit(n)),
{
    assert(a & (b | (1u16 << n)) == a) by (bit_vector)
        requires
            a & b == a,
    ;
    assert((a | (1u16 << n)) & (b | (1u16 << n)) == (a | (1u16 << n))) by (bit_vector)
        requires
            a & b == a,
    ;
}

} // verus!
