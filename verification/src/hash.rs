//! Message hashes.
use crate::text::{hex, hex_string};
use sha3::{Digest, Sha3_224};
use vstd::prelude::*;

verus! {

/// Message hash digest length in bytes.
pub const HASH_LEN: usize = 28;

/// Raw message hash digest.
pub type MsgHash = [u8; HASH_LEN];

/// The SHA3-224 digest of a byte string.
pub uninterp spec fn sha3_224(bytes: Seq<u8>) -> Seq<u8>;

/// `Sha3_224::digest` depends on the bytes alone.
#[verifier::external_body]
fn sha3_224_digest(bytes: &[u8]) -> (res: MsgHash)
    ensures
        res@ == sha3_224(bytes@),
{
    Sha3_224::digest(bytes).into()
}

/// Compute the SHA3-224 hash of a raw message.
pub fn compute_msg_hash(raw: &[u8]) -> (res: MsgHash)
    ensures
        res@ == sha3_224(raw@),
{
    sha3_224_digest(raw)
}

/// Format a raw hash as a lowercase hex string.
pub fn hash_to_hex(hash: &MsgHash) -> (res: String)
    ensures
        res@ == hex(hash@),
{
    hex_string(hash.as_slice())
}

} // verus!
