//! The bit slice of the `bitvec` crate, as far as the frame allocator uses
//! it. Nothing in this file is proved: each contract states what the
//! documentation of `bitvec` says of the function that the body calls.

use bitvec::order::Lsb0;
use bitvec::slice::BitSlice;
use vstd::prelude::*;

verus! {

/// A `bitvec::slice::BitSlice<u8, Lsb0>` over bytes that the caller has set
/// aside for good. The verifier does not look inside; what the slice holds
/// is known only as `bits_of`.
#[verifier::external_body]
pub struct Bitmap {
    bits: &'static mut BitSlice<u8, Lsb0>,
}

/// Bit `i` of the bytes, counted from the least significant bit of the first
/// byte.
pub open spec fn bit_of_bytes(bytes: Seq<u8>, i: int) -> bool {
    (bytes[i / 8] >> ((i % 8) as u8)) & 1u8 == 1u8
}

/// The bits that a bit slice holds, first to last.
pub uninterp spec fn bits_of(bits: Bitmap) -> Seq<bool>;

/// `BitSlice::len`: the number of bits held.
#[verifier::external_body]
pub(crate) fn bit_len(bits: &Bitmap) -> (n: usize)
    ensures
        n == bits_of(*bits).len(),
{
    bits.bits.len()
}

/// `BitSlice::from_slice_mut`: the bits of the bytes of `storage`, eight for
/// each byte, in the order of `Lsb0`: from the least significant bit of the
/// first byte on. It panics for a slice that is too long to encode, which
/// one of fewer than an eighth of `BitSlice::MAX_BITS` bytes is not.
#[verifier::external_body]
pub(crate) fn bit_wrap(storage: &'static mut [u8]) -> (bits: Bitmap)
    requires
        old(storage)@.len() * 8 <= usize::MAX / 8,
    ensures
        bits_of(bits).len() == 8 * old(storage)@.len(),
        forall|i: int|
            0 <= i < 8 * old(storage)@.len() ==> bits_of(bits)[i] == bit_of_bytes(old(storage)@, i),
{
    Bitmap { bits: BitSlice::from_slice_mut(storage) }
}

/// `BitSlice::set`: writes `value` into the bit at `index` and leaves the
/// other bits as they are. It panics for an index that is out of bounds.
#[verifier::external_body]
pub(crate) fn bit_set(bits: &mut Bitmap, index: usize, value: bool)
    requires
        index < bits_of(*old(bits)).len(),
    ensures
        bits_of(*final(bits)) == bits_of(*old(bits)).update(index as int, value),
{
    bits.bits.set(index, value);
}

/// `Index<usize>` of `BitSlice`: the bit at `index`. It panics for an index
/// that is out of bounds.
#[verifier::external_body]
pub(crate) fn bit_get(bits: &Bitmap, index: usize) -> (bit: bool)
    requires
        index < bits_of(*bits).len(),
    ensures
        bit == bits_of(*bits)[index as int],
{
    bits.bits[index]
}

} // verus!
