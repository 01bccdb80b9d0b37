//! Byte buffers aligned for in-place archive validation.
use vstd::prelude::*;

verus! {

/// `rkyv::util::AlignedVec`: a byte vector with a fixed alignment.
#[verifier::external_type_specification]
#[verifier::external_body]
pub struct ExAlignedVec<const ALIGNMENT: usize>(rkyv::util::AlignedVec<ALIGNMENT>);

/// The bytes that an aligned vector holds, in order.
pub uninterp spec fn aligned_bytes(v: rkyv::util::AlignedVec<16>) -> Seq<u8>;

/// Calls `AlignedVec::<16>::with_capacity`, which gives an empty vector. It
/// panics above `AlignedVec::MAX_CAPACITY`, which is `isize::MAX - 15`.
#[verifier::external_body]
pub(crate) fn with_capacity(capacity: usize) -> (v: rkyv::util::AlignedVec<16>)
    requires
        capacity + 15 <= isize::MAX,
    ensures
        aligned_bytes(v) == Seq::<u8>::empty(),
{
    rkyv::util::AlignedVec::<16>::with_capacity(capacity)
}

/// Calls `AlignedVec::extend_from_slice`, which appends a copy of `other`. It
/// panics when the new length exceeds `AlignedVec::MAX_CAPACITY`.
#[verifier::external_body]
pub(crate) fn extend_from_slice(v: &mut rkyv::util::AlignedVec<16>, other: &[u8])
    requires
        aligned_bytes(*old(v)).len() + other@.len() + 15 <= isize::MAX,
    ensures
        aligned_bytes(*final(v)) == aligned_bytes(*old(v)) + other@,
{
    v.extend_from_slice(other)
}

/// Calls `AlignedVec::as_slice`, which lends the bytes held.
#[verifier::external_body]
pub(crate) fn as_slice(v: &rkyv::util::AlignedVec<16>) -> (bytes: &[u8])
    ensures
        bytes@ == aligned_bytes(*v),
{
    v.as_slice()
}

/// An aligned copy of `bytes`.
pub fn aligned_copy(bytes: &[u8]) -> (v: rkyv::util::AlignedVec<16>)
    requires
        bytes@.len() + 15 <= isize::MAX,
    ensures
        aligned_bytes(v) == bytes@,
{
    let mut v = with_capacity(bytes.len());
    extend_from_slice(&mut v, bytes);
    proof {
        assert(Seq::<u8>::empty() + bytes@ =~= bytes@);
    }
    v
}

} // verus!
