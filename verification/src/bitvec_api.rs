//! The parts of `bitvec` that the entity registry relies on, with the
//! contracts it assumes of them. Nothing in this file is proved.
use vstd::prelude::*;
use bitvec::vec::BitVec;

verus! {

/// A growable sequence of bits, kept in a `bitvec::vec::BitVec`.
#[verifier::external_body]
pub struct Bits {
    inner: BitVec,
}

/// The bits that a bit-vector holds, lowest index first.
pub uninterp spec fn bits_of(v: Bits) -> Seq<bool>;

/// `BitVec::new`: the new bit-vector holds no bits.
#[verifier::external_body]
pub(crate) fn bits_new() -> (created: Bits)
    ensures
        bits_of(created).len() == 0,
{
    Bits { inner: BitVec::new() }
}

/// `BitVec::len`.
#[verifier::external_body]
pub(crate) fn bits_len(v: &Bits) -> (n: usize)
    ensures
        n == bits_of(*v).len(),
{
    v.inner.len()
}

/// Indexing a bit-vector: the bit at `index`. The index must be in bounds,
/// or the call panics.
#[verifier::external_body]
pub(crate) fn bits_get(v: &Bits, index: usize) -> (bit: bool)
    requires
        index < bits_of(*v).len(),
    ensures
        bit == bits_of(*v)[index as int],
{
    v.inner[index]
}

/// `BitSlice::set`: writes `value` at `index` and leaves every other bit
/// alone. The index must be in bounds, or the call panics.
#[verifier::external_body]
pub(crate) fn bits_set(v: &mut Bits, index: usize, value: bool)
    requires
        index < bits_of(*old(v)).len(),
    ensures
        bits_of(*final(v)) == bits_of(*old(v)).update(index as int, value),
{
    v.inner.set(index, value)
}

/// `BitVec::push`: appends `value`. The call panics where the new length
/// could not be encoded, which is above an eighth of the address space.
#[verifier::external_body]
pub(crate) fn bits_push(v: &mut Bits, value: bool)
    requires
        bits_of(*old(v)).len() < usize::MAX / 8,
    ensures
        bits_of(*final(v)) == bits_of(*old(v)).push(value),
{
    v.inner.push(value)
}

} // verus!
