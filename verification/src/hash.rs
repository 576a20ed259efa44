use vstd::prelude::*;
use crate::types::WORD_BYTES;

verus! {

/// The Keccak-256 digest of a byte string. The digest is a function of
/// the input bytes alone; no contract of this crate states what it is on
/// given bytes, only how digests are compared and chained.
pub uninterp spec fn keccak_of(input: Seq<u8>) -> Seq<u8>;

/// Relies on alloy_primitives::keccak256: the 32-byte Keccak-256 digest
/// of the input, depending on the input bytes alone.
#[verifier::external_body]
pub(crate) fn keccak(input: &Vec<u8>) -> (r: Vec<u8>)
    ensures
        r@ == keccak_of(input@),
        r@.len() == WORD_BYTES,
{
    alloy_primitives::keccak256(input.as_slice()).0.to_vec()
}

} // verus!
