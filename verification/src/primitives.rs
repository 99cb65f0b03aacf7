//! The outside primitives of the scheme: the extendable-output hash, the
//! keystream generator and the source of random bytes.
//!
//! Nothing about what these compute is proved here. The two deterministic
//! ones are each given a name for their output, so that the rest of the
//! library can say exactly which bytes it feeds on.

use aes::Aes128;
use ctr::cipher::{KeyIvInit, StreamCipher};
use rand::rngs::OsRng;
use rand::RngCore;
use sha3::digest::{ExtendableOutput, Update, XofReader};
use sha3::Shake256;
use vstd::prelude::*;

verus! {

/// The first `output_len` bytes that SHAKE256 produces on the input `data`.
pub uninterp spec fn shake256_output(data: Seq<u8>, output_len: nat) -> Seq<u8>;

/// The first `out_length` bytes of the AES-128 keystream in counter mode
/// (big-endian 128-bit counter) under `key`, with an all-zero initial block.
pub uninterp spec fn aes_ctr_keystream(key: Seq<u8>, out_length: nat) -> Seq<u8>;

/// SHAKE256 on `data`, as exactly `output_len` bytes: the output of the hash,
/// with its length fixed by construction, so that what is said of keys and
/// signatures needs no assumption on the hash.
pub open spec fn shake256_bytes(data: Seq<u8>, output_len: nat) -> Seq<u8> {
    Seq::new(output_len, |i: int| shake256_output(data, output_len)[i])
}

/// The AES-128 counter-mode keystream under `key`, as exactly `out_length`
/// bytes: the output of the cipher, with its length fixed by construction.
pub open spec fn aes_ctr_bytes(key: Seq<u8>, out_length: nat) -> Seq<u8> {
    Seq::new(out_length, |i: int| aes_ctr_keystream(key, out_length)[i])
}

/// SHAKE256 of `data`, read to `output_len` bytes.
///
/// Calls `sha3::Shake256` through `Update::update`,
/// `ExtendableOutput::finalize_xof` and `XofReader::read`. Trusted: the result
/// depends on the input bytes and the requested length only, and has exactly
/// the requested length.
#[verifier::external_body]
pub fn shake256(data: &[u8], output_len: usize) -> (output: Vec<u8>)
    ensures
        output@ == shake256_output(data@, output_len as nat),
        output@.len() == output_len,
{
    let mut hasher = Shake256::default();
    hasher.update(data);
    let mut reader = hasher.finalize_xof();
    let mut output = vec![0u8; output_len];
    reader.read(&mut output);
    output
}

/// The AES-128 counter-mode keystream under `key`, `out_length` bytes of it.
///
/// Calls `ctr::Ctr128BE::<aes::Aes128>` through `KeyIvInit::new` with an
/// all-zero initial block and `StreamCipher::apply_keystream` on a buffer of
/// zeros. Trusted: the result depends on the key and the requested length
/// only, and has exactly the requested length. A fresh 128-bit counter cannot
/// run out within a buffer that memory can hold, so the call does not panic.
#[verifier::external_body]
pub fn aes_ctr<'a>(key: &'a [u8; 16], out_length: &'a usize) -> (buffer: Vec<u8>)
    ensures
        buffer@ == aes_ctr_keystream(key@, *out_length as nat),
        buffer@.len() == *out_length,
{
    let nonce = [0u8; 16];
    let mut cipher = ctr::Ctr128BE::<Aes128>::new(key.into(), &nonce.into());
    let mut buffer = vec![0u8; *out_length];
    cipher.apply_keystream(&mut buffer);
    buffer
}

/// SHAKE256 of `data`, read to `output_len` bytes.
pub fn xof(data: &[u8], output_len: usize) -> (output: Vec<u8>)
    ensures
        output@ == shake256_bytes(data@, output_len as nat),
        output@.len() == output_len,
{
    let output = shake256(data, output_len);
    assert(output@ =~= shake256_bytes(data@, output_len as nat));
    output
}

/// The keystream under a key of sixteen bytes, `out_length` bytes of it.
pub fn keystream(key: &[u8; 16], out_length: usize) -> (buffer: Vec<u8>)
    ensures
        buffer@ == aes_ctr_bytes(key@, out_length as nat),
        buffer@.len() == out_length,
{
    let buffer = aes_ctr(key, &out_length);
    assert(buffer@ =~= aes_ctr_bytes(key@, out_length as nat));
    buffer
}

/// `xlen` bytes from the operating system's random source.
///
/// Calls `RngCore::fill_bytes` on `rand::rngs::OsRng`. Trusted: the result has
/// the requested length. Nothing is claimed of its content, and two calls may
/// differ. The outside call aborts the program if the operating system
/// cannot supply random bytes.
#[verifier::external_body]
pub fn random_bytes(xlen: usize) -> (rand: Vec<u8>)
    ensures
        rand@.len() == xlen,
{
    let mut rand = vec![0u8; xlen];
    let mut rng = OsRng;
    rng.fill_bytes(&mut rand[..xlen]);
    rand
}

} // verus!
