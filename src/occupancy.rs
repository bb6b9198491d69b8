//! Grid occupancy: one bit per agent slot, set where an active cell is.

use vstd::prelude::*;
use bitvec::vec::BitVec;

verus! {

/// The most agent records a grid may hold: well below the `u32` sentinel and
/// the longest bit vector that can be encoded.
pub const MAX_AGENTS: usize = 0x1000_0000;

/// A bit vector over agent slots. The bits are held by bitvec's `BitVec`,
/// which Verus cannot declare directly (its parameters carry bitvec's traits).
#[verifier::external_body]
pub struct OccupancyMask {
    bits: BitVec,
}

/// The bits held by an occupancy mask, in index order.
pub uninterp spec fn mask_bits(m: OccupancyMask) -> Seq<bool>;

/// Relies on BitVec::repeat: `len` bits, all set.
#[verifier::external_body]
pub(crate) fn mask_all_set(len: usize) -> (r: OccupancyMask)
    requires
        len <= MAX_AGENTS,
    ensures
        mask_bits(r) == Seq::new(len as nat, |i: int| true),
{
    OccupancyMask { bits: BitVec::repeat(true, len) }
}

/// Relies on BitVec's indexing: the bit at `i`.
#[verifier::external_body]
pub(crate) fn mask_get(m: &OccupancyMask, i: usize) -> (r: bool)
    requires
        i < mask_bits(*m).len(),
    ensures
        r == mask_bits(*m)[i as int],
{
    m.bits[i]
}

/// Relies on BitVec::push: appends one bit. It panics only beyond the
/// longest encodable length, far above `MAX_AGENTS`.
#[verifier::external_body]
pub(crate) fn mask_push(m: &mut OccupancyMask, bit: bool)
    requires
        mask_bits(*old(m)).len() < MAX_AGENTS,
    ensures
        mask_bits(*final(m)) == mask_bits(*old(m)).push(bit),
{
    m.bits.push(bit)
}

impl OccupancyMask {
    /// Number of slots.
    pub fn len(&self) -> (r: usize)
        ensures
            r == mask_bits(*self).len(),
    {
        mask_len(self)
    }

    /// Whether slot `i` is occupied.
    pub fn get(&self, i: usize) -> (r: bool)
        requires
            i < mask_bits(*self).len(),
        ensures
            r == mask_bits(*self)[i as int],
    {
        mask_get(self, i)
    }
}

/// Relies on BitVec::len: the number of bits.
#[verifier::external_body]
pub(crate) fn mask_len(m: &OccupancyMask) -> (r: usize)
    ensures
        r == mask_bits(*m).len(),
{
    m.bits.len()
}

} // verus!
