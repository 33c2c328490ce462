//! The hash under which commits are known.

use blake2::digest::consts::U32;
use blake2::{Blake2b, Digest};
use vstd::prelude::*;

verus! {

/// The BLAKE2b hash of `bytes` with an output of thirty-two bytes.
pub uninterp spec fn blake2b_256(bytes: Seq<u8>) -> Seq<u8>;

/// Calls `blake2::Digest::digest` of `blake2::Blake2b` with an output of
/// thirty-two bytes.
///
/// Believed without proof: the bytes handed out are settled by the input alone.
#[verifier::external_body]
pub(crate) fn hash_bytes(bytes: &Vec<u8>) -> (hash: [u8; 32])
    ensures
        hash@ == blake2b_256(bytes@),
{
    Blake2b::<U32>::digest(bytes.as_slice()).into()
}

} // verus!
