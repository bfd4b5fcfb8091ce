//! What this crate relies on from the bit vectors of the `bitvec` crate.
//!
//! Nothing in this file is proved: each contract restates what the
//! `bitvec` source shows of the function that the body calls.

use bitvec::vec::BitVec;
use vstd::prelude::*;

verus! {

/// A `bitvec::vec::BitVec` of `usize` words. Its bounds are traits of
/// `bitvec`, so the vector is held here and reached through the functions
/// below.
#[verifier::external_body]
pub struct Bits {
    inner: BitVec,
}

/// The bits of a bit vector, first to last.
pub uninterp spec fn bits_of(v: Bits) -> Seq<bool>;

/// The most bits that a bit vector can hold: the length has to leave three
/// bits of a `usize` free, so it is `usize::MAX` shifted right by 3, an
/// eighth of `usize::MAX`.
pub open spec fn max_bits() -> usize {
    usize::MAX / 8
}

/// `BitVec::repeat` with `false`: a vector of `len` cleared bits. It panics
/// on a length over `max_bits()`.
#[verifier::external_body]
pub(crate) fn bits_cleared(len: usize) -> (v: Bits)
    requires
        len <= max_bits(),
    ensures
        bits_of(v) == Seq::new(len as nat, |i: int| false),
{
    Bits { inner: BitVec::repeat(false, len) }
}

/// `Clone::clone` on `BitVec`: a vector of its own with the same bits.
#[verifier::external_body]
pub(crate) fn bits_clone(v: &Bits) -> (r: Bits)
    ensures
        bits_of(r) == bits_of(*v),
{
    Bits { inner: v.inner.clone() }
}

/// `BitSlice::set`: writes one bit. It panics on an index out of bounds.
#[verifier::external_body]
pub(crate) fn bits_set(v: &mut Bits, index: usize, value: bool)
    requires
        index < bits_of(*old(v)).len(),
    ensures
        bits_of(*final(v)) == bits_of(*old(v)).update(index as int, value),
{
    v.inner.set(index, value)
}

/// Indexing a `BitSlice`: reads one bit. It panics on an index out of
/// bounds.
#[verifier::external_body]
pub(crate) fn bits_get(v: &Bits, index: usize) -> (bit: bool)
    requires
        index < bits_of(*v).len(),
    ensures
        bit == bits_of(*v)[index as int],
{
    v.inner[index]
}

} // verus!
