//! The hash everything on the chain is named by.

use vstd::prelude::*;

use crate::types::B256;

verus! {

/// The 256-bit Keccak digest of a byte string.
pub uninterp spec fn keccak256(data: Seq<u8>) -> Seq<u8>;

/// `tiny_keccak::Keccak::v256` over the whole input: the result is the digest
/// named [`keccak256`], a function of the bytes alone.
#[verifier::external_body]
pub(crate) fn keccak(bytes: &[u8]) -> (out: B256)
    ensures
        out@ == keccak256(bytes@),
{
    let mut hasher = tiny_keccak::Keccak::v256();
    let mut out = [0u8; 32];
    tiny_keccak::Hasher::update(&mut hasher, bytes);
    tiny_keccak::Hasher::finalize(hasher, &mut out);
    B256(out)
}

} // verus!
