//! Key generation and key expansion.
//!
//! The secret seed determines everything: it is hashed into the public seed
//! and the oil space `O`; the public seed is stretched into the coefficient
//! matrices `P1` and `P2`; and `P3 = Upper(-O^T P1 O - O^T P2)` makes the
//! public map vanish on the oil space.

use crate::bytes::concat_bytes;
use crate::codec::{
    decode_batch_spec, decode_bitsliced_matrices, decode_o, decode_o_spec, encode_batch_spec,
    encode_bitsliced_matrices, is_upper_batch, lemma_encode_rows_len,
};
use crate::constants::MayoParams;
use crate::error::MayoError;
use crate::linalg::{
    batch_view, is_batch, is_matrix, is_upper, mat_add, mat_mul, mat_view, transposed, upper_part,
    width,
};
use crate::matrix_arithmetics::{
    element_wise_negation, element_wise_subtraction, matrix_multiply, transpose, upper,
};
use crate::primitives::{aes_ctr_bytes, keystream, random_bytes, shake256_bytes, xof};
use vstd::pervasive::unreached;
use vstd::prelude::*;
use vstd::slice::slice_subrange;

verus! {

/// What the secret seed is hashed into: the public seed, then the bytes of the
/// oil space.
pub open spec fn seed_expansion(p: MayoParams, seed_sk: Seq<u8>) -> Seq<u8> {
    shake256_bytes(seed_sk, (p.pk_seed_bytes + p.O_bytes) as nat)
}

/// The public seed that belongs to a secret seed.
pub open spec fn public_seed(p: MayoParams, seed_sk: Seq<u8>) -> Seq<u8> {
    seed_expansion(p, seed_sk).subrange(0, p.pk_seed_bytes as int)
}

/// The encoded oil space that belongs to a secret seed.
pub open spec fn oil_bytes(p: MayoParams, seed_sk: Seq<u8>) -> Seq<u8> {
    seed_expansion(p, seed_sk).subrange(p.pk_seed_bytes as int, p.pk_seed_bytes + p.O_bytes)
}

/// The oil space held in its encoding: a `v` by `o` matrix.
pub open spec fn oil_of(p: MayoParams, o_bytes: Seq<u8>) -> Seq<Seq<u8>> {
    decode_o_spec(o_bytes, p.v(), p.o as nat)
}

/// The encoded `P1` and `P2` that a public seed is stretched into.
pub open spec fn coefficient_bytes(p: MayoParams, seed_pk: Seq<u8>) -> Seq<u8> {
    aes_ctr_bytes(seed_pk, (p.P1_bytes + p.P2_bytes) as nat)
}

/// The upper-triangular `v` by `v` matrices held in an encoding of `P1`.
pub open spec fn p1_of(p: MayoParams, bytes: Seq<u8>) -> Seq<Seq<Seq<u8>>> {
    decode_batch_spec(bytes, p.m as nat, p.v(), p.v(), true)
}

/// The `v` by `o` matrices held in an encoding of `P2` or of `L`.
pub open spec fn p2_of(p: MayoParams, bytes: Seq<u8>) -> Seq<Seq<Seq<u8>>> {
    decode_batch_spec(bytes, p.m as nat, p.v(), p.o as nat, false)
}

/// The upper-triangular `o` by `o` matrices held in an encoding of `P3`.
pub open spec fn p3_of(p: MayoParams, bytes: Seq<u8>) -> Seq<Seq<Seq<u8>>> {
    decode_batch_spec(bytes, p.m as nat, p.o as nat, p.o as nat, true)
}

/// `O^T P1 O + O^T P2`, the part of the public map that acts on the
/// oil variables alone before it is folded. Negation and subtraction are
/// those of characteristic two.
pub open spec fn oil_form(oil: Seq<Seq<u8>>, p1: Seq<Seq<u8>>, p2: Seq<Seq<u8>>) -> Seq<Seq<u8>> {
    let ot = transposed(oil);
    mat_add(mat_mul(mat_mul(ot, p1, width(p1)), oil, width(oil)), mat_mul(ot, p2, width(p2)))
}

/// `P3 = Upper(-O^T P1 O - O^T P2)` for one equation.
pub open spec fn p3_matrix(oil: Seq<Seq<u8>>, p1: Seq<Seq<u8>>, p2: Seq<Seq<u8>>) -> Seq<Seq<u8>> {
    upper_part(oil_form(oil, p1, p2))
}

/// `P3` for every equation.
pub open spec fn p3_batch(oil: Seq<Seq<u8>>, p1: Seq<Seq<Seq<u8>>>, p2: Seq<Seq<Seq<u8>>>) -> Seq<
    Seq<Seq<u8>>,
> {
    Seq::new(p1.len(), |i: int| p3_matrix(oil, p1[i], p2[i]))
}

/// `L = (P1 + P1^T) O + P2` for one equation.
pub open spec fn l_matrix(oil: Seq<Seq<u8>>, p1: Seq<Seq<u8>>, p2: Seq<Seq<u8>>) -> Seq<Seq<u8>> {
    mat_add(mat_mul(mat_add(p1, transposed(p1)), oil, width(oil)), p2)
}

/// `L` for every equation.
pub open spec fn l_batch(oil: Seq<Seq<u8>>, p1: Seq<Seq<Seq<u8>>>, p2: Seq<Seq<Seq<u8>>>) -> Seq<
    Seq<Seq<u8>>,
> {
    Seq::new(p1.len(), |i: int| l_matrix(oil, p1[i], p2[i]))
}

/// `P1` as derived from a secret seed.
pub open spec fn derived_p1(p: MayoParams, seed_sk: Seq<u8>) -> Seq<Seq<Seq<u8>>> {
    p1_of(p, coefficient_bytes(p, public_seed(p, seed_sk)).subrange(0, p.P1_bytes as int))
}

/// `P2` as derived from a secret seed.
pub open spec fn derived_p2(p: MayoParams, seed_sk: Seq<u8>) -> Seq<Seq<Seq<u8>>> {
    p2_of(
        p,
        coefficient_bytes(p, public_seed(p, seed_sk)).subrange(
            p.P1_bytes as int,
            p.P1_bytes + p.P2_bytes,
        ),
    )
}

/// The oil space as derived from a secret seed.
pub open spec fn derived_oil(p: MayoParams, seed_sk: Seq<u8>) -> Seq<Seq<u8>> {
    oil_of(p, oil_bytes(p, seed_sk))
}

/// The compact public key that belongs to a secret seed: the public seed
/// followed by the encoding of `P3`.
pub open spec fn compact_public_key(p: MayoParams, seed_sk: Seq<u8>) -> Seq<u8> {
    public_seed(p, seed_sk) + encode_batch_spec(
        p3_batch(derived_oil(p, seed_sk), derived_p1(p, seed_sk), derived_p2(p, seed_sk)),
        p.o as nat,
        p.o as nat,
        true,
    )
}

/// The expanded secret key that belongs to a secret seed: the seed, the
/// encoded oil space, the encoded `P1` and the encoding of `L`.
pub open spec fn expanded_secret_key(p: MayoParams, seed_sk: Seq<u8>) -> Seq<u8> {
    seed_sk + oil_bytes(p, seed_sk) + coefficient_bytes(p, public_seed(p, seed_sk)).subrange(
        0,
        p.P1_bytes as int,
    ) + encode_batch_spec(
        l_batch(derived_oil(p, seed_sk), derived_p1(p, seed_sk), derived_p2(p, seed_sk)),
        p.v(),
        p.o as nat,
        false,
    )
}

/// The expanded public key that belongs to a compact one: the encoded `P1` and
/// `P2` stretched from the public seed, then the encoded `P3` as it stands in
/// the compact key.
pub open spec fn expanded_public_key(p: MayoParams, cpk: Seq<u8>) -> Seq<u8> {
    coefficient_bytes(p, cpk.subrange(0, p.pk_seed_bytes as int)) + cpk.subrange(
        p.pk_seed_bytes as int,
        p.pk_seed_bytes + p.P3_bytes,
    )
}

/// Copies a slice of sixteen bytes into a key.
fn to_key(seed: &[u8]) -> (key: [u8; 16])
    requires
        seed@.len() == 16,
    ensures
        key@ == seed@,
{
    let mut key = [0u8; 16];
    let mut i: usize = 0;
    while i < 16
        invariant
            i <= 16,
            seed@.len() == 16,
            forall|t: int| 0 <= t < i ==> key@[t] == seed@[t],
        decreases 16 - i,
    {
        key[i] = seed[i];
        i += 1;
    }
    assert(key@ =~= seed@);
    key
}

/// What both key generation and secret-key expansion derive from the seed.
struct Derived {
    expansion: Vec<u8>,
    stream: Vec<u8>,
    oil: Vec<Vec<u8>>,
    p1: Vec<Vec<Vec<u8>>>,
    p2: Vec<Vec<Vec<u8>>>,
}

impl Derived {
    spec fn matches(&self, p: MayoParams, seed_sk: Seq<u8>) -> bool {
        &&& self.expansion@ == seed_expansion(p, seed_sk)
        &&& self.expansion@.len() == p.pk_seed_bytes + p.O_bytes
        &&& self.stream@ == coefficient_bytes(p, public_seed(p, seed_sk))
        &&& self.stream@.len() == p.P1_bytes + p.P2_bytes
        &&& mat_view(&self.oil) == derived_oil(p, seed_sk)
        &&& is_matrix(mat_view(&self.oil), p.v(), p.o as nat)
        &&& batch_view(&self.p1) == derived_p1(p, seed_sk)
        &&& is_batch(batch_view(&self.p1), p.m as nat, p.v(), p.v())
        &&& batch_view(&self.p2) == derived_p2(p, seed_sk)
        &&& is_batch(batch_view(&self.p2), p.m as nat, p.v(), p.o as nat)
    }
}

/// Derives the public seed, the oil space, `P1` and `P2` from a secret seed.
fn derive(params: &MayoParams, seed_sk: &[u8]) -> (d: Derived)
    requires
        params.wf(),
    ensures
        d.matches(*params, seed_sk@),
{
    let v = params.param_v();
    let expansion = xof(seed_sk, params.pk_seed_bytes + params.O_bytes);
    let seed_pk = slice_subrange(expansion.as_slice(), 0, params.pk_seed_bytes);
    let o_bytes = slice_subrange(
        expansion.as_slice(),
        params.pk_seed_bytes,
        params.pk_seed_bytes + params.O_bytes,
    );
    let oil = match decode_o(o_bytes, v, params.o) {
        Ok(oil) => oil,
        Err(_) => unreached(),
    };
    let key = to_key(seed_pk);
    let stream_len = params.P1_bytes + params.P2_bytes;
    let stream = keystream(&key, stream_len);
    let p1_bytes = slice_subrange(stream.as_slice(), 0, params.P1_bytes);
    let p2_bytes = slice_subrange(stream.as_slice(), params.P1_bytes, stream_len);
    let p1 = match decode_bitsliced_matrices(p1_bytes, params.m, v, v, true) {
        Ok(b) => b,
        Err(_) => unreached(),
    };
    let p2 = match decode_bitsliced_matrices(p2_bytes, params.m, v, params.o, false) {
        Ok(b) => b,
        Err(_) => unreached(),
    };
    Derived { expansion, stream, oil, p1, p2 }
}

/// `P3` for every equation.
fn compute_p3(
    oil: &Vec<Vec<u8>>,
    p1: &Vec<Vec<Vec<u8>>>,
    p2: &Vec<Vec<Vec<u8>>>,
    m: usize,
    v: usize,
    o: usize,
) -> (p3: Vec<Vec<Vec<u8>>>)
    requires
        0 < v,
        0 < o,
        is_matrix(mat_view(oil), v as nat, o as nat),
        is_batch(batch_view(p1), m as nat, v as nat, v as nat),
        is_batch(batch_view(p2), m as nat, v as nat, o as nat),
    ensures
        batch_view(&p3) == p3_batch(mat_view(oil), batch_view(p1), batch_view(p2)),
        is_batch(batch_view(&p3), m as nat, o as nat, o as nat),
        is_upper_batch(batch_view(&p3), o as nat, o as nat),
{
    let ghost ov = mat_view(oil);
    let ghost target = p3_batch(ov, batch_view(p1), batch_view(p2));
    assert(ov[0] == oil@[0]@);
    assert(width(ov) == o);
    let o_t = transpose(oil);
    let mut p3: Vec<Vec<Vec<u8>>> = Vec::new();
    let mut i: usize = 0;
    while i < m
        invariant
            i <= m,
            0 < v,
            0 < o,
            ov == mat_view(oil),
            width(ov) == o,
            target == p3_batch(ov, batch_view(p1), batch_view(p2)),
            is_matrix(ov, v as nat, o as nat),
            is_batch(batch_view(p1), m as nat, v as nat, v as nat),
            is_batch(batch_view(p2), m as nat, v as nat, o as nat),
            mat_view(&o_t) == transposed(ov),
            is_matrix(mat_view(&o_t), o as nat, v as nat),
            p3@.len() == i,
            forall|t: int| 0 <= t < i ==> mat_view(#[trigger] &p3@[t]) == target[t],
            forall|t: int|
                0 <= t < i ==> is_matrix(mat_view(#[trigger] &p3@[t]), o as nat, o as nat),
            forall|t: int| 0 <= t < i ==> is_upper(mat_view(#[trigger] &p3@[t])),
        decreases m - i,
    {
        let ghost p1v = batch_view(p1)[i as int];
        let ghost p2v = batch_view(p2)[i as int];
        assert(p1v == mat_view(&p1@[i as int]));
        assert(p2v == mat_view(&p2@[i as int]));
        assert(is_matrix(p1v, v as nat, v as nat));
        assert(is_matrix(p2v, v as nat, o as nat));
        assert(width(p1v) == v);
        assert(width(p2v) == o);
        let ot_p1 = matrix_multiply(&o_t, &p1[i]);
        let ot_p1_o = matrix_multiply(&ot_p1, oil);
        let term1 = element_wise_negation(&ot_p1_o);
        let ot_p2 = matrix_multiply(&o_t, &p2[i]);
        assert(width(mat_view(&term1)) == o) by {
            assert(mat_view(&term1)[0].len() == o);
        }
        let folded = element_wise_subtraction(&term1, &ot_p2);
        let p3_matrix = upper(&folded, o);
        p3.push(p3_matrix);
        i += 1;
    }
    assert(batch_view(&p3) =~= target);
    proof {
        let bv = batch_view(&p3);
        assert forall|a: int, r: int, c: int|
            0 <= a < bv.len() && 0 <= c < r < o && c < o implies #[trigger] bv[a][r][c] == 0 by {
            assert(is_upper(mat_view(&p3@[a])));
            assert(is_matrix(mat_view(&p3@[a]), o as nat, o as nat));
            assert(mat_view(&p3@[a])[r][c] == 0);
        }
    }
    p3
}

/// `L` for every equation.
fn compute_l(
    oil: &Vec<Vec<u8>>,
    p1: &Vec<Vec<Vec<u8>>>,
    p2: &Vec<Vec<Vec<u8>>>,
    m: usize,
    v: usize,
    o: usize,
) -> (l: Vec<Vec<Vec<u8>>>)
    requires
        0 < v,
        0 < o,
        is_matrix(mat_view(oil), v as nat, o as nat),
        is_batch(batch_view(p1), m as nat, v as nat, v as nat),
        is_batch(batch_view(p2), m as nat, v as nat, o as nat),
    ensures
        batch_view(&l) == l_batch(mat_view(oil), batch_view(p1), batch_view(p2)),
        is_batch(batch_view(&l), m as nat, v as nat, o as nat),
{
    let ghost ov = mat_view(oil);
    let ghost target = l_batch(ov, batch_view(p1), batch_view(p2));
    assert(ov[0] == oil@[0]@);
    assert(width(ov) == o);
    let mut l: Vec<Vec<Vec<u8>>> = Vec::new();
    let mut i: usize = 0;
    while i < m
        invariant
            i <= m,
            0 < v,
            0 < o,
            ov == mat_view(oil),
            width(ov) == o,
            target == l_batch(ov, batch_view(p1), batch_view(p2)),
            is_matrix(ov, v as nat, o as nat),
            is_batch(batch_view(p1), m as nat, v as nat, v as nat),
            is_batch(batch_view(p2), m as nat, v as nat, o as nat),
            l@.len() == i,
            forall|t: int| 0 <= t < i ==> mat_view(#[trigger] &l@[t]) == target[t],
            forall|t: int|
                0 <= t < i ==> is_matrix(mat_view(#[trigger] &l@[t]), v as nat, o as nat),
        decreases m - i,
    {
        let ghost p1v = batch_view(p1)[i as int];
        let ghost p2v = batch_view(p2)[i as int];
        assert(p1v == mat_view(&p1@[i as int]));
        assert(p2v == mat_view(&p2@[i as int]));
        assert(is_matrix(p1v, v as nat, v as nat));
        assert(is_matrix(p2v, v as nat, o as nat));
        assert(width(p1v) == v);
        let p1_t = transpose(&p1[i]);
        let sym = crate::matrix_arithmetics::element_wise_addition(&p1[i], &p1_t);
        let sym_o = matrix_multiply(&sym, oil);
        assert(width(mat_view(&sym_o)) == o) by {
            assert(mat_view(&sym_o)[0].len() == o);
        }
        let l_matrix = crate::matrix_arithmetics::element_wise_addition(&sym_o, &p2[i]);
        l.push(l_matrix);
        i += 1;
    }
    assert(batch_view(&l) =~= target);
    l
}

/// Derives the compact key pair of a secret seed. Fails when the seed has not
/// the length that the parameter set fixes.
pub fn mayo_keypair_from_seed(params: &MayoParams, seed_sk: &[u8]) -> (res: Result<
    (Vec<u8>, Vec<u8>),
    MayoError,
>)
    requires
        params.wf(),
    ensures
        match res {
            Ok(pair) => seed_sk@.len() == params.sk_seed_bytes && pair.0@ == seed_sk@ && pair.1@
                == compact_public_key(*params, seed_sk@) && pair.1@.len() == params.cpk_bytes,
            Err(e) => e == MayoError::InvalidLength && seed_sk@.len() != params.sk_seed_bytes,
        },
{
    if seed_sk.len() != params.sk_seed_bytes {
        return Err(MayoError::InvalidLength);
    }
    let v = params.param_v();
    let d = derive(params, seed_sk);
    let p3 = compute_p3(&d.oil, &d.p1, &d.p2, params.m, v, params.o);
    proof {
        lemma_encode_rows_len(batch_view(&p3), params.o as nat, true, params.o as nat);
    }
    let encoded_p3 = encode_bitsliced_matrices(p3, params.m, params.o, params.o, true);
    let seed_pk = slice_subrange(d.expansion.as_slice(), 0, params.pk_seed_bytes);
    let cpk = concat_bytes(concat_bytes(Vec::new(), seed_pk), encoded_p3.as_slice());
    let csk = concat_bytes(Vec::new(), seed_sk);
    assert(cpk@ =~= compact_public_key(*params, seed_sk@));
    assert(csk@ =~= seed_sk@);
    Ok((csk, cpk))
}

/// Generates a compact key pair from a fresh random seed: the compact secret
/// key, which is the seed, and the compact public key derived from it.
pub fn mayo_keypair(params: &MayoParams) -> (pair: (Vec<u8>, Vec<u8>))
    requires
        params.wf(),
    ensures
        pair.0@.len() == params.sk_seed_bytes,
        pair.1@ == compact_public_key(*params, pair.0@),
        pair.1@.len() == params.cpk_bytes,
{
    let seed_sk = random_bytes(params.sk_seed_bytes);
    match mayo_keypair_from_seed(params, seed_sk.as_slice()) {
        Ok(pair) => pair,
        Err(_) => unreached(),
    }
}

/// Expands a compact secret key into the seed, the encoded oil space, the
/// encoded `P1` and the encoding of `L = (P1 + P1^T) O + P2`. Fails when the
/// key has not the length that the parameter set fixes.
pub fn mayo_expand_sk(params: &MayoParams, csk: &[u8]) -> (res: Result<Vec<u8>, MayoError>)
    requires
        params.wf(),
    ensures
        match res {
            Ok(esk) => csk@.len() == params.csk_bytes && esk@ == expanded_secret_key(*params, csk@)
                && esk@.len() == params.esk_bytes,
            Err(e) => e == MayoError::InvalidLength && csk@.len() != params.csk_bytes,
        },
{
    if csk.len() != params.csk_bytes {
        return Err(MayoError::InvalidLength);
    }
    let v = params.param_v();
    let d = derive(params, csk);
    let l = compute_l(&d.oil, &d.p1, &d.p2, params.m, v, params.o);
    proof {
        lemma_encode_rows_len(batch_view(&l), params.o as nat, false, v as nat);
    }
    let encoded_l = encode_bitsliced_matrices(l, params.m, v, params.o, false);
    let o_bytes = slice_subrange(
        d.expansion.as_slice(),
        params.pk_seed_bytes,
        params.pk_seed_bytes + params.O_bytes,
    );
    let p1_bytes = slice_subrange(d.stream.as_slice(), 0, params.P1_bytes);
    let esk = concat_bytes(
        concat_bytes(concat_bytes(concat_bytes(Vec::new(), csk), o_bytes), p1_bytes),
        encoded_l.as_slice(),
    );
    assert(esk@ =~= expanded_secret_key(*params, csk@));
    Ok(esk)
}

/// Expands a compact public key into the encoded `P1` and `P2`, stretched from
/// its public seed, followed by its encoded `P3`. Fails when the key has not
/// the length that the parameter set fixes.
pub fn mayo_expand_pk(params: &MayoParams, cpk: &[u8]) -> (res: Result<Vec<u8>, MayoError>)
    requires
        params.wf(),
    ensures
        match res {
            Ok(epk) => cpk@.len() == params.cpk_bytes && epk@ == expanded_public_key(*params, cpk@)
                && epk@.len() == params.epk_bytes,
            Err(e) => e == MayoError::InvalidLength && cpk@.len() != params.cpk_bytes,
        },
{
    if cpk.len() != params.cpk_bytes {
        return Err(MayoError::InvalidLength);
    }
    let seed_pk = slice_subrange(cpk, 0, params.pk_seed_bytes);
    let key = to_key(seed_pk);
    let stream_len = params.P1_bytes + params.P2_bytes;
    let stream = keystream(&key, stream_len);
    let p3_bytes = slice_subrange(cpk, params.pk_seed_bytes, params.pk_seed_bytes + params.P3_bytes);
    let epk = concat_bytes(stream, p3_bytes);
    Ok(epk)
}

} // verus!
