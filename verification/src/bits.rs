//! Trusted boundary around the `bit_vec` crate: the bit-vector that
//! backs every mask. Verified code sees a `BitVec<u32>` only through
//! `bits_of`, the sequence of its bits, and the wrappers below.

use vstd::prelude::*;

verus! {

#[verifier::external_type_specification]
#[verifier::external_body]
#[verifier::reject_recursive_types(B)]
pub struct ExBitVec<B>(bit_vec::BitVec<B>);

/// The bits a `BitVec<u32>` holds, lowest index first.
pub uninterp spec fn bits_of(v: bit_vec::BitVec<u32>) -> Seq<bool>;

/// Relies on bit_vec::BitVec::new: an empty bit vector.
#[verifier::external_body]
pub(crate) fn bv_new() -> (r: bit_vec::BitVec<u32>)
    ensures
        bits_of(r) == Seq::<bool>::empty(),
{
    bit_vec::BitVec::new()
}

/// Relies on bit_vec::BitVec::len: the number of bits held.
#[verifier::external_body]
pub(crate) fn bv_len(v: &bit_vec::BitVec<u32>) -> (r: usize)
    ensures
        r == bits_of(*v).len(),
{
    v.len()
}

/// Relies on bit_vec::BitVec::get: the bit at `i`, or None past the end.
#[verifier::external_body]
pub(crate) fn bv_get(v: &bit_vec::BitVec<u32>, i: usize) -> (r: Option<bool>)
    ensures
        r == (if i < bits_of(*v).len() {
            Some(bits_of(*v)[i as int])
        } else {
            None::<bool>
        }),
{
    v.get(i)
}

/// Relies on bit_vec::BitVec::push: appends one bit at the end.
/// `push` aborts only when the length would overflow `usize`.
#[verifier::external_body]
pub(crate) fn bv_push(v: &mut bit_vec::BitVec<u32>, bit: bool)
    requires
        bits_of(*old(v)).len() < usize::MAX,
    ensures
        bits_of(*final(v)) == bits_of(*old(v)).push(bit),
{
    v.push(bit)
}

/// Relies on bit_vec::BitVec::clone: an equal, independent bit vector.
#[verifier::external_body]
pub(crate) fn bv_clone(v: &bit_vec::BitVec<u32>) -> (r: bit_vec::BitVec<u32>)
    ensures
        bits_of(r) == bits_of(*v),
{
    v.clone()
}

} // verus!
