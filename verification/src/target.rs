//! The target vector: what the public map must take a signature to.

use crate::bytes::concat_bytes;
use crate::codec::{decode_vec, decode_vec_spec};
use crate::constants::MayoParams;
use crate::linalg::is_vec;
use crate::primitives::{shake256_bytes, xof};
use vstd::pervasive::unreached;
use vstd::prelude::*;

verus! {

/// The digest of a message.
pub open spec fn message_digest(p: MayoParams, message: Seq<u8>) -> Seq<u8> {
    shake256_bytes(message, p.digest_bytes as nat)
}

/// The target vector of a message under a salt: `m` field elements read from
/// the hash of the message digest followed by the salt.
pub open spec fn target_vector(p: MayoParams, message: Seq<u8>, salt: Seq<u8>) -> Seq<u8> {
    decode_vec_spec(
        shake256_bytes(message_digest(p, message) + salt, (p.m / 2) as nat),
        p.m as nat,
    )
}

/// Hashes a message to its digest.
pub fn hash_message(params: &MayoParams, message: &[u8]) -> (digest: Vec<u8>)
    ensures
        digest@ == message_digest(*params, message@),
        digest@.len() == params.digest_bytes,
{
    xof(message, params.digest_bytes)
}

/// Derives the target vector from a message digest and a salt.
pub fn derive_target(params: &MayoParams, digest: &Vec<u8>, salt: &[u8]) -> (t: Vec<u8>)
    requires
        params.m % 8 == 0,
    ensures
        t@ == decode_vec_spec(shake256_bytes(digest@ + salt@, (params.m / 2) as nat), params.m as nat),
        is_vec(t@),
        t.len() == params.m,
{
    let mut input: Vec<u8> = Vec::new();
    input = concat_bytes(input, digest.as_slice());
    input = concat_bytes(input, salt);
    assert(input@ =~= digest@ + salt@);
    let bytes = xof(input.as_slice(), params.m / 2);
    match decode_vec(bytes.as_slice(), params.m) {
        Ok(t) => t,
        Err(_) => unreached(),
    }
}

} // verus!
