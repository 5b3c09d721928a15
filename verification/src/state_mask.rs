//! Per-entity dirty-field bitsets.
//!
//! A state mask has one bit per replicated field of an entity variant; a
//! set bit means the field has a change the peer has not yet acknowledged.
//! On the wire a mask is four big-endian bytes.

use vstd::prelude::*;
use crate::wire::{read_u32_be, spec_u32_be, spec_u32_from_be, write_u32_be};

verus! {

/// The widest mask supported: entities have at most 32 replicated fields.
pub const MAX_MASK_WIDTH: u8 = 32;

/// Whether bit `i` of `bits` is set.
pub open spec fn spec_bit(bits: u32, i: u8) -> bool {
    bits & (1u32 << (i as u32)) != 0
}

/// A word whose low `w` bits are set and the rest clear.
pub open spec fn spec_low_mask(w: u32) -> u32 {
    if w >= 32 {
        0xffff_ffffu32
    } else {
        ((1u32 << w) - 1) as u32
    }
}

/// Bit `j` of a union is set iff it is set on either side.
pub proof fn lemma_bit_or(a: u32, b: u32, j: u8)
    requires
        j < 32,
    ensures
        spec_bit(a | b, j) == (spec_bit(a, j) || spec_bit(b, j)),
{
    let jj = j as u32;
    assert((((a | b) & (1u32 << jj)) != 0) == ((a & (1u32 << jj)) != 0 || (b & (1u32 << jj)) != 0))
        by (bit_vector);
}

/// Bit `j` of an intersection is set iff it is set on both sides.
pub proof fn lemma_bit_and(a: u32, b: u32, j: u8)
    requires
        j < 32,
    ensures
        spec_bit(a & b, j) == (spec_bit(a, j) && spec_bit(b, j)),
{
    let jj = j as u32;
    assert((((a & b) & (1u32 << jj)) != 0) == ((a & (1u32 << jj)) != 0 && (b & (1u32 << jj)) != 0))
        by (bit_vector);
}

/// Bit `j` of `a & !b` is set iff it is set in `a` and clear in `b`.
pub proof fn lemma_bit_and_not(a: u32, b: u32, j: u8)
    requires
        j < 32,
    ensures
        spec_bit(a & !b, j) == (spec_bit(a, j) && !spec_bit(b, j)),
{
    let jj = j as u32;
    assert((((a & !b) & (1u32 << jj)) != 0) == ((a & (1u32 << jj)) != 0 && !((b & (1u32 << jj))
        != 0))) by (bit_vector);
}

/// A one-bit word has exactly its own bit set.
pub proof fn lemma_bit_single(i: u8, j: u8)
    requires
        i < 32,
        j < 32,
    ensures
        spec_bit(1u32 << (i as u32), j) == (i == j),
{
    let ii = i as u32;
    let jj = j as u32;
    assert((((1u32 << ii) & (1u32 << jj)) != 0) == (ii == jj)) by (bit_vector)
        requires
            ii < 32,
            jj < 32,
    ;
}

/// The zero word has no bit set.
pub proof fn lemma_bit_zero(j: u8)
    requires
        j < 32,
    ensures
        !spec_bit(0u32, j),
{
    let jj = j as u32;
    assert(0u32 & (1u32 << jj) == 0) by (bit_vector);
}

/// The low-mask word has exactly the bits below `w` set.
pub proof fn lemma_bit_low_mask(w: u32, j: u8)
    requires
        w <= 32,
        j < 32,
    ensures
        spec_bit(spec_low_mask(w), j) == ((j as u32) < w),
{
    let jj = j as u32;
    assert(((if w >= 32 {
        0xffff_ffffu32
    } else {
        ((1u32 << w) - 1) as u32
    }) & (1u32 << jj) != 0) == (jj < w)) by (bit_vector)
        requires
            w <= 32,
            jj < 32,
    ;
}

/// A dirty-field bitset of a fixed width.
#[derive(Clone, Copy, PartialEq, Eq, Structural, Debug)]
pub struct StateMask {
    /// The bits; only the low `width` bits may be set.
    pub bits: u32,
    /// Number of fields of the entity variant this mask belongs to.
    pub width: u8,
}

/// A mask is well formed when its width is in range and no bit beyond the
/// width is set.
pub open spec fn mask_wf(m: StateMask) -> bool {
    &&& m.width <= MAX_MASK_WIDTH
    &&& forall|i: u8| m.width <= i < 32 ==> !spec_bit(m.bits, i)
}

/// Computes the low-mask word for a width in range.
fn low_mask(w: u8) -> (r: u32)
    requires
        w <= 32,
    ensures
        r == spec_low_mask(w as u32),
{
    if w == 32 {
        u32::MAX
    } else {
        proof {
            let ww = w as u32;
            assert(1u32 << ww >= 1) by (bit_vector)
                requires
                    ww < 32,
            ;
        }
        (1u32 << (w as u32)) - 1
    }
}

impl StateMask {
    /// An all-clear mask of `width` fields.
    pub fn new(width: u8) -> (m: StateMask)
        requires
            width <= MAX_MASK_WIDTH,
        ensures
            mask_wf(m),
            m.width == width,
            m.bits == 0,
            forall|i: u8| i < 32 ==> !spec_bit(m.bits, i),
    {
        proof {
            assert forall|i: u8| i < 32 implies !spec_bit(0u32, i) by {
                lemma_bit_zero(i);
            }
        }
        StateMask { bits: 0, width }
    }

    /// A fully dirty mask of `width` fields: every field bit set.
    pub fn new_full(width: u8) -> (m: StateMask)
        requires
            width <= MAX_MASK_WIDTH,
        ensures
            mask_wf(m),
            m.width == width,
            forall|i: u8| i < width ==> spec_bit(m.bits, i),
            forall|i: u8| width <= i < 32 ==> !spec_bit(m.bits, i),
    {
        let bits = low_mask(width);
        proof {
            assert forall|i: u8| i < 32 implies #[trigger] spec_bit(bits, i) == ((i as u32)
                < width as u32) by {
                lemma_bit_low_mask(width as u32, i);
            }
        }
        StateMask { bits, width }
    }

    /// Whether no field bit is set.
    pub fn is_clear(&self) -> (r: bool)
        ensures
            r == (self.bits == 0),
            r ==> forall|i: u8| i < 32 ==> !spec_bit(self.bits, i),
    {
        proof {
            if self.bits == 0 {
                assert forall|i: u8| i < 32 implies !spec_bit(self.bits, i) by {
                    lemma_bit_zero(i);
                }
            }
        }
        self.bits == 0
    }

    /// Whether field bit `i` is set.
    pub fn bit(&self, i: u8) -> (r: bool)
        requires
            i < 32,
        ensures
            r == spec_bit(self.bits, i),
    {
        self.bits & (1u32 << (i as u32)) != 0
    }

    /// Sets field bit `i`; other bits are unchanged.
    pub fn set_bit(&mut self, i: u8)
        requires
            mask_wf(*old(self)),
            i < old(self).width,
        ensures
            mask_wf(*final(self)),
            final(self).width == old(self).width,
            spec_bit(final(self).bits, i),
            forall|j: u8| j < 32 && j != i ==> spec_bit(final(self).bits, j) == spec_bit(
                old(self).bits,
                j,
            ),
    {
        let ghost b = self.bits;
        self.bits = self.bits | (1u32 << (i as u32));
        proof {
            assert forall|j: u8| j < 32 implies #[trigger] spec_bit(self.bits, j) == (j == i
                || spec_bit(b, j)) by {
                lemma_bit_or(b, 1u32 << (i as u32), j);
                lemma_bit_single(i, j);
            }
        }
    }

    /// Folds another mask in: the union of the two bit sets. Used when a
    /// packet is lost and its snapshot must be restored.
    pub fn or_mask(&mut self, other: &StateMask)
        requires
            mask_wf(*old(self)),
            mask_wf(*other),
            other.width == old(self).width,
        ensures
            mask_wf(*final(self)),
            final(self).width == old(self).width,
            forall|j: u8| j < 32 ==> spec_bit(final(self).bits, j) == (spec_bit(old(self).bits, j)
                || spec_bit(other.bits, j)),
    {
        let ghost a = self.bits;
        self.bits = self.bits | other.bits;
        proof {
            assert forall|j: u8| j < 32 implies #[trigger] spec_bit(self.bits, j) == (spec_bit(
                a,
                j,
            ) || spec_bit(other.bits, j)) by {
                lemma_bit_or(a, other.bits, j);
            }
        }
    }

    /// Clears every bit that is set in `other`. Used when the packet
    /// carrying those bits is acknowledged.
    pub fn clear_mask(&mut self, other: &StateMask)
        requires
            mask_wf(*old(self)),
            mask_wf(*other),
            other.width == old(self).width,
        ensures
            mask_wf(*final(self)),
            final(self).width == old(self).width,
            forall|j: u8| j < 32 ==> spec_bit(final(self).bits, j) == (spec_bit(old(self).bits, j)
                && !spec_bit(other.bits, j)),
    {
        let ghost a = self.bits;
        self.bits = self.bits & !other.bits;
        proof {
            assert forall|j: u8| j < 32 implies #[trigger] spec_bit(self.bits, j) == (spec_bit(
                a,
                j,
            ) && !spec_bit(other.bits, j)) by {
                lemma_bit_and_not(a, other.bits, j);
            }
        }
    }

    /// Empties the mask, keeping its width. Used when a snapshot is taken.
    pub fn clear_all(&mut self)
        requires
            mask_wf(*old(self)),
        ensures
            mask_wf(*final(self)),
            final(self).width == old(self).width,
            final(self).bits == 0,
            forall|j: u8| j < 32 ==> !spec_bit(final(self).bits, j),
    {
        self.bits = 0;
        proof {
            assert forall|j: u8| j < 32 implies !spec_bit(self.bits, j) by {
                lemma_bit_zero(j);
            }
        }
    }

    /// Appends the four big-endian wire bytes of the mask to `out`.
    pub fn write(&self, out: &mut Vec<u8>)
        ensures
            final(out)@ == old(out)@ + spec_u32_be(self.bits),
    {
        write_u32_be(out, self.bits);
    }

    /// Reads a mask of the given width from four wire bytes at `at`; bits
    /// beyond the width are discarded.
    pub fn read(data: &[u8], at: usize, width: u8) -> (m: StateMask)
        requires
            at + 4 <= data@.len(),
            width <= MAX_MASK_WIDTH,
        ensures
            mask_wf(m),
            m.width == width,
            forall|j: u8| j < width ==> spec_bit(m.bits, j) == spec_bit(
                spec_u32_from_be(
                    data@[at as int],
                    data@[at as int + 1],
                    data@[at as int + 2],
                    data@[at as int + 3],
                ),
                j,
            ),
    {
        let raw = read_u32_be(data, at);
        let keep = low_mask(width);
        let bits = raw & keep;
        proof {
            assert forall|j: u8| j < 32 implies #[trigger] spec_bit(bits, j) == (spec_bit(raw, j)
                && (j as u32) < width as u32) by {
                lemma_bit_and(raw, keep, j);
                lemma_bit_low_mask(width as u32, j);
            }
        }
        StateMask { bits, width }
    }

    /// Builds a width-bounded mask from raw wire bits; bits at or beyond
    /// the width are discarded.
    pub fn from_bits(bits: u32, width: u8) -> (m: StateMask)
        requires
            width <= MAX_MASK_WIDTH,
        ensures
            mask_wf(m),
            m.width == width,
            forall|j: u8| j < width ==> spec_bit(m.bits, j) == spec_bit(bits, j),
    {
        let keep = low_mask(width);
        let out = bits & keep;
        proof {
            assert forall|j: u8| j < 32 implies #[trigger] spec_bit(out, j) == (spec_bit(bits, j)
                && (j as u32) < width as u32) by {
                lemma_bit_and(bits, keep, j);
                lemma_bit_low_mask(width as u32, j);
            }
        }
        StateMask { bits: out, width }
    }

    /// Number of set bits: how many field values a partial state carries.
    pub fn count_set(&self) -> (n: u8)
        ensures
            n == spec_count_set(self.bits, 32),
            n <= 32,
    {
        let mut n: u8 = 0;
        let mut i: u8 = 0;
        while i < 32
            invariant
                i <= 32,
                n == spec_count_set(self.bits, i as int),
                n <= i,
            decreases 32 - i,
        {
            proof {
                lemma_count_set_bound(self.bits, i as int);
            }
            if self.bits & (1u32 << (i as u32)) != 0 {
                n = n + 1;
            }
            i = i + 1;
        }
        n
    }
}

/// Number of set bits among the low `upto` bit positions.
pub open spec fn spec_count_set(bits: u32, upto: int) -> int
    decreases upto,
{
    if upto <= 0 {
        0
    } else {
        spec_count_set(bits, upto - 1) + if spec_bit(bits, (upto - 1) as u8) {
            1int
        } else {
            0int
        }
    }
}

/// Counting stops growing once every higher bit is clear.
pub proof fn lemma_count_set_no_high_bits(bits: u32, from: int, to: int)
    requires
        0 <= from <= to <= 32,
        forall|j: u8| from <= j < to ==> !spec_bit(bits, j),
    ensures
        spec_count_set(bits, from) == spec_count_set(bits, to),
    decreases to - from,
{
    if from < to {
        lemma_count_set_no_high_bits(bits, from, to - 1);
    }
}

/// The set-bit count never exceeds the number of positions counted.
pub proof fn lemma_count_set_bound(bits: u32, upto: int)
    requires
        0 <= upto <= 32,
    ensures
        0 <= spec_count_set(bits, upto) <= upto,
    decreases upto,
{
    if upto > 0 {
        lemma_count_set_bound(bits, upto - 1);
    }
}

} // verus!
