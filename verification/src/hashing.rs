use sha2::{Digest, Sha256};
use tiny_keccak::{Hasher, Keccak};
use vstd::prelude::*;

verus! {

/// The SHA-256 digest of a byte string.
pub uninterp spec fn sha256_digest(data: Seq<u8>) -> Seq<u8>;

/// The Keccak-256 digest of a byte string (Keccak padding, as the EVM uses it).
pub uninterp spec fn keccak256_digest(data: Seq<u8>) -> Seq<u8>;

/// Hashes 32 bytes with sha2's `Sha256` (`new`, `update`, `finalize`).
/// Trusted: the 32 bytes returned are `sha256_digest` of the input; nothing
/// more is said of that digest.
#[verifier::external_body]
pub(crate) fn sha256_hash(input: &[u8; 32]) -> (out: [u8; 32])
    ensures
        out@ == sha256_digest(input@),
{
    let mut h = Sha256::new();
    h.update(input);
    h.finalize().into()
}

/// Hashes 32 bytes with tiny_keccak's `Keccak::v256` (`update`, then
/// `finalize` into a 32-byte buffer). Trusted: the bytes returned are
/// `keccak256_digest` of the input; nothing more is said of that digest.
#[verifier::external_body]
pub(crate) fn keccak256_hash(input: &[u8; 32]) -> (out: [u8; 32])
    ensures
        out@ == keccak256_digest(input@),
{
    let mut k = Keccak::v256();
    let mut out = [0u8; 32];
    k.update(input);
    k.finalize(&mut out);
    out
}

} // verus!
