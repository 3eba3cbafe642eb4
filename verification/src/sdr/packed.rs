//! The packed bit array that backs every SDR, with the contracts of the
//! `bitvec` operations that the SDR code relies on.
use bitvec::order::Lsb0;
use bitvec::vec::BitVec;
use vstd::prelude::*;

verus! {

/// A byte-backed, least-significant-bit-first `bitvec` bit vector. Its
/// contents are known to verified code only through [`packed_bits`].
#[verifier::external_body]
#[derive(Debug)]
pub struct PackedBits {
    bits: BitVec<u8, Lsb0>,
}

/// The bits that a packed bit vector holds, in order.
pub uninterp spec fn packed_bits(p: PackedBits) -> Seq<bool>;

/// `BitVec::repeat(false, len)`: a bit vector of `len` cleared bits.
#[verifier::external_body]
pub(crate) fn packed_zeros(len: usize) -> (r: PackedBits)
    ensures
        packed_bits(r) == Seq::new(len as nat, |i: int| false),
{
    PackedBits { bits: BitVec::repeat(false, len) }
}

/// `BitVec` indexing with a `usize`: the bit at `index`, which must be in
/// bounds (indexing panics otherwise).
#[verifier::external_body]
pub(crate) fn packed_get(p: &PackedBits, index: usize) -> (r: bool)
    requires
        index < packed_bits(*p).len(),
    ensures
        r == packed_bits(*p)[index as int],
{
    p.bits[index]
}

/// `BitSlice::set`: overwrite the bit at `index`, which must be in bounds
/// (`set` panics otherwise); every other bit and the length stay.
#[verifier::external_body]
pub(crate) fn packed_set(p: &mut PackedBits, index: usize, value: bool)
    requires
        index < packed_bits(*old(p)).len(),
    ensures
        packed_bits(*final(p)) == packed_bits(*old(p)).update(index as int, value),
{
    p.bits.set(index, value)
}

/// `BitVec::clone`: a new bit vector holding the same bits.
#[verifier::external_body]
pub(crate) fn packed_clone(p: &PackedBits) -> (r: PackedBits)
    ensures
        packed_bits(r) == packed_bits(*p),
{
    PackedBits { bits: p.bits.clone() }
}

/// `BitVec == BitVec`: true exactly when both hold the same bits in the
/// same order (equal length included).
#[verifier::external_body]
pub(crate) fn packed_eq(a: &PackedBits, b: &PackedBits) -> (r: bool)
    ensures
        r == (packed_bits(*a) == packed_bits(*b)),
{
    a.bits == b.bits
}

} // verus!
