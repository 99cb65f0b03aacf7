//! Verification: evaluating the public map on a signature.

use crate::codec::{decode_bitsliced_matrices, decode_vec, decode_vec_spec, lemma_chunk_bounds};
use crate::constants::MayoParams;
use crate::error::MayoError;
use crate::forms::{whip_forms, whipped_form};
use crate::keys::{p1_of, p2_of, p3_of};
use crate::linalg::{is_matrix, is_vec, mat_view, vec_add};
use crate::matrix_arithmetics::vector_add;
use crate::target::{derive_target, hash_message, target_vector};
use crate::whipping::split_block;
use vstd::pervasive::unreached;
use vstd::prelude::*;
use vstd::slice::{slice_subrange, slice_to_vec};

verus! {

/// `P1` as an expanded public key holds it.
pub open spec fn epk_p1(p: MayoParams, epk: Seq<u8>) -> Seq<Seq<Seq<u8>>> {
    p1_of(p, epk.subrange(0, p.P1_bytes as int))
}

/// `P2` as an expanded public key holds it.
pub open spec fn epk_p2(p: MayoParams, epk: Seq<u8>) -> Seq<Seq<Seq<u8>>> {
    p2_of(p, epk.subrange(p.P1_bytes as int, p.P1_bytes + p.P2_bytes))
}

/// `P3` as an expanded public key holds it.
pub open spec fn epk_p3(p: MayoParams, epk: Seq<u8>) -> Seq<Seq<Seq<u8>>> {
    p3_of(p, epk.subrange(p.P1_bytes + p.P2_bytes, p.epk_bytes as int))
}

/// The `k * n` field elements of a signature.
pub open spec fn signature_values(p: MayoParams, sig: Seq<u8>) -> Seq<u8> {
    decode_vec_spec(sig, (p.n * p.k) as nat)
}

/// The salt of a signature: what follows its field elements.
pub open spec fn signature_salt(p: MayoParams, sig: Seq<u8>) -> Seq<u8> {
    sig.subrange((p.n * p.k + 1) / 2, p.sig_bytes as int)
}

/// The first `v` entries of each block of `n` entries.
pub open spec fn vinegar_parts(p: MayoParams, s: Seq<u8>) -> Seq<Seq<u8>> {
    Seq::new(p.k as nat, |i: int| split_block(s, p.n as nat, i).subrange(0, p.v() as int))
}

/// The last `o` entries of each block of `n` entries.
pub open spec fn oil_parts(p: MayoParams, s: Seq<u8>) -> Seq<Seq<u8>> {
    Seq::new(p.k as nat, |i: int| split_block(s, p.n as nat, i).subrange(p.v() as int, p.n as int))
}

/// The public map on the blocks of a signature. Each block `s = (a, b)` has a
/// vinegar part `a` and an oil part `b`, and equation `e` takes a pair of
/// blocks to `a^T P1_e a' + a^T P2_e b' + b^T P3_e b'`; the three parts are
/// combined over all pairs and added.
pub open spec fn public_map(
    p: MayoParams,
    p1: Seq<Seq<Seq<u8>>>,
    p2: Seq<Seq<Seq<u8>>>,
    p3: Seq<Seq<Seq<u8>>>,
    s: Seq<u8>,
) -> Seq<u8> {
    let a = vinegar_parts(p, s);
    let b = oil_parts(p, s);
    vec_add(
        vec_add(whipped_form(p1, a, a, p.f_tail@), whipped_form(p2, a, b, p.f_tail@)),
        whipped_form(p3, b, b, p.f_tail@),
    )
}

/// Whether a signature is accepted for a message under an expanded public
/// key: the public map takes it to the target vector of the message and the
/// signature's salt.
pub open spec fn verifies(p: MayoParams, epk: Seq<u8>, message: Seq<u8>, sig: Seq<u8>) -> bool {
    public_map(p, epk_p1(p, epk), epk_p2(p, epk), epk_p3(p, epk), signature_values(p, sig))
        == target_vector(p, message, signature_salt(p, sig))
}

/// Whether two vectors hold the same entries.
pub fn vectors_equal(a: &Vec<u8>, b: &Vec<u8>) -> (r: bool)
    ensures
        r == (a@ == b@),
{
    if a.len() != b.len() {
        return false;
    }
    let mut i: usize = 0;
    while i < a.len()
        invariant
            i <= a.len(),
            a.len() == b.len(),
            forall|t: int| 0 <= t < i ==> a@[t] == b@[t],
        decreases a.len() - i,
    {
        if a[i] != b[i] {
            return false;
        }
        i += 1;
    }
    assert(a@ =~= b@);
    true
}

/// Cuts the field elements of a signature into the vinegar parts and the oil
/// parts of its blocks.
fn split_signature(params: &MayoParams, s: &Vec<u8>) -> (parts: (Vec<Vec<u8>>, Vec<Vec<u8>>))
    requires
        params.wf(),
        s.len() == params.n * params.k,
        is_vec(s@),
    ensures
        mat_view(&parts.0) == vinegar_parts(*params, s@),
        mat_view(&parts.1) == oil_parts(*params, s@),
        is_matrix(mat_view(&parts.0), params.k as nat, params.v()),
        is_matrix(mat_view(&parts.1), params.k as nat, params.o as nat),
{
    let n = params.n;
    let k = params.k;
    let v = params.param_v();
    let ghost va = vinegar_parts(*params, s@);
    let ghost oa = oil_parts(*params, s@);
    let mut vin: Vec<Vec<u8>> = Vec::new();
    let mut oil: Vec<Vec<u8>> = Vec::new();
    let mut off: usize = 0;
    let mut i: usize = 0;
    assert(0 * n == 0) by (nonlinear_arith);
    assert(n * k == k * n) by (nonlinear_arith);
    while i < k
        invariant
            i <= k,
            params.wf(),
            n == params.n,
            k == params.k,
            v == params.v(),
            va == vinegar_parts(*params, s@),
            oa == oil_parts(*params, s@),
            s.len() == k * n,
            is_vec(s@),
            off == i * n,
            vin@.len() == i,
            oil@.len() == i,
            forall|t: int| 0 <= t < i ==> (#[trigger] vin@[t])@ == va[t],
            forall|t: int| 0 <= t < i ==> (#[trigger] oil@[t])@ == oa[t],
            forall|t: int| 0 <= t < i ==> is_vec((#[trigger] vin@[t])@) && vin@[t]@.len() == v,
            forall|t: int|
                0 <= t < i ==> is_vec((#[trigger] oil@[t])@) && oil@[t]@.len() == params.o,
        decreases k - i,
    {
        proof {
            lemma_chunk_bounds(i as int, k as int, n as int);
        }
        let a = slice_to_vec(slice_subrange(s.as_slice(), off, off + v));
        let b = slice_to_vec(slice_subrange(s.as_slice(), off + v, off + n));
        assert(a@ =~= va[i as int]);
        assert(b@ =~= oa[i as int]);
        vin.push(a);
        oil.push(b);
        off = off + n;
        i += 1;
    }
    assert(mat_view(&vin) =~= va);
    assert(mat_view(&oil) =~= oa);
    (vin, oil)
}

/// Verifies a signature of a message under an expanded public key. Fails when
/// the key or the signature has not the length that the parameter set fixes;
/// else answers whether the public map takes the signature to the target
/// vector of the message.
pub fn mayo_verify(params: &MayoParams, epk: &[u8], message: &[u8], sig: &[u8]) -> (res: Result<
    bool,
    MayoError,
>)
    requires
        params.wf(),
    ensures
        match res {
            Ok(accepted) => epk@.len() == params.epk_bytes && sig@.len() == params.sig_bytes
                && accepted == verifies(*params, epk@, message@, sig@),
            Err(e) => e == MayoError::InvalidLength && (epk@.len() != params.epk_bytes || sig@.len()
                != params.sig_bytes),
        },
{
    if epk.len() != params.epk_bytes || sig.len() != params.sig_bytes {
        return Err(MayoError::InvalidLength);
    }
    let v = params.param_v();
    let o = params.o;
    let m = params.m;
    let p1_end = params.P1_bytes;
    let p2_end = params.P1_bytes + params.P2_bytes;
    let p1 = match decode_bitsliced_matrices(slice_subrange(epk, 0, p1_end), m, v, v, true) {
        Ok(b) => b,
        Err(_) => unreached(),
    };
    let p2 = match decode_bitsliced_matrices(slice_subrange(epk, p1_end, p2_end), m, v, o, false) {
        Ok(b) => b,
        Err(_) => unreached(),
    };
    let p3 = match decode_bitsliced_matrices(
        slice_subrange(epk, p2_end, params.epk_bytes),
        m,
        o,
        o,
        true,
    ) {
        Ok(b) => b,
        Err(_) => unreached(),
    };
    let nk = params.n * params.k;
    let s = match decode_vec(sig, nk) {
        Ok(s) => s,
        Err(_) => unreached(),
    };
    let salt = slice_subrange(sig, nk / 2 + nk % 2, params.sig_bytes);
    assert(salt@ == signature_salt(*params, sig@));
    let (a, b) = split_signature(params, &s);
    let digest = hash_message(params, message);
    let t = derive_target(params, &digest, salt);
    let y1 = whip_forms(&p1, &a, &a, params.f_tail, v, v);
    let y2 = whip_forms(&p2, &a, &b, params.f_tail, v, o);
    let y3 = whip_forms(&p3, &b, &b, params.f_tail, o, o);
    let y12 = vector_add(&y1, &y2);
    let y = vector_add(&y12, &y3);
    Ok(vectors_equal(&y, &t))
}

} // verus!
