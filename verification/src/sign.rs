//! Signing: for a fresh salt, attempts are made under a counter until the
//! linear system of one has full rank.
//!
//! An attempt hashes the counter, together with the message digest, the salt
//! and the secret seed, into `k` vinegar vectors and a vector `r` from which
//! the solver starts. Fixing the vinegar variables makes the public map
//! linear in the oil variables; the system `A x = y` says that the map takes
//! the signature to the target vector.

use crate::bytes::concat_bytes;
use crate::codec::{
    decode_bitsliced_matrices, decode_o, decode_vec, decode_vec_spec, encode_vec, encode_vec_spec,
    lemma_chunk_bounds,
};
use crate::constants::MayoParams;
use crate::error::MayoError;
use crate::forms::{all_products, products_of, whip_forms, whipped_form};
use crate::keys::{oil_of, p1_of, p2_of};
use crate::linalg::{
    batch_view, is_batch, is_matrix, is_vec, mat_add, mat_vec, mat_view, vec_add, zero_mat, zeros,
};
use crate::matrix_arithmetics::{element_wise_addition, matrix_vector, vector_add, zero_vector};
use crate::primitives::{random_bytes, shake256_bytes, xof};
use crate::solver::{full_row_rank, keeps_start, sample_solution, solves};
use crate::target::{derive_target, hash_message, message_digest, target_vector};
use crate::whipping::{
    concat_upto, lemma_pairs_before_monotonic, num_pairs, pair_of, pairs_before, shift_matrix_pow,
    shift_rows_pow, split_block,
};
use vstd::pervasive::unreached;
use vstd::prelude::*;
use vstd::slice::{slice_subrange, slice_to_vec};

verus! {

/// The number of attempts that signing makes before it gives up.
pub const MAX_SIGN_ATTEMPTS: usize = 256;

/// The secret seed as an expanded secret key holds it.
pub open spec fn esk_seed(p: MayoParams, esk: Seq<u8>) -> Seq<u8> {
    esk.subrange(0, p.sk_seed_bytes as int)
}

/// The oil space as an expanded secret key holds it.
pub open spec fn esk_oil(p: MayoParams, esk: Seq<u8>) -> Seq<Seq<u8>> {
    oil_of(p, esk.subrange(p.sk_seed_bytes as int, p.sk_seed_bytes + p.O_bytes))
}

/// `P1` as an expanded secret key holds it.
pub open spec fn esk_p1(p: MayoParams, esk: Seq<u8>) -> Seq<Seq<Seq<u8>>> {
    p1_of(
        p,
        esk.subrange(p.sk_seed_bytes + p.O_bytes, p.sk_seed_bytes + p.O_bytes + p.P1_bytes),
    )
}

/// `L` as an expanded secret key holds it.
pub open spec fn esk_l(p: MayoParams, esk: Seq<u8>) -> Seq<Seq<Seq<u8>>> {
    p2_of(p, esk.subrange(p.sk_seed_bytes + p.O_bytes + p.P1_bytes, p.esk_bytes as int))
}

/// How many bytes an attempt hashes out: `k` encoded vinegar vectors and the
/// encoded starting vector of the solver.
pub open spec fn vinegar_len(p: MayoParams) -> nat {
    (p.k * p.v_bytes + (p.k * p.o + 1) / 2) as nat
}

/// The bytes that attempt `ctr` hashes out.
pub open spec fn vinegar_bytes(
    p: MayoParams,
    digest: Seq<u8>,
    salt: Seq<u8>,
    seed_sk: Seq<u8>,
    ctr: int,
) -> Seq<u8> {
    shake256_bytes(digest + salt + seed_sk + seq![ctr as u8], vinegar_len(p))
}

/// The `k` vinegar vectors held in the bytes of an attempt.
pub open spec fn vinegars(p: MayoParams, vb: Seq<u8>) -> Seq<Seq<u8>> {
    Seq::new(p.k as nat, |i: int| decode_vec_spec(split_block(vb, p.v_bytes as nat, i), p.v()))
}

/// The starting vector of the solver held in the bytes of an attempt.
pub open spec fn randomizer(p: MayoParams, vb: Seq<u8>) -> Seq<u8> {
    decode_vec_spec(vb.subrange(p.k * p.v_bytes, vinegar_len(p) as int), (p.k * p.o) as nat)
}

/// The coefficient matrix of an attempt after the first `l` pairs, as `k`
/// blocks of `o` columns, one block per block of oil unknowns. The pair
/// `(i, j)` of rank `r` adds `z^r M_j` to block `i` and, when `i != j`,
/// `z^r M_i` to block `j`, where row `e` of `M_i` is `v_i^T L_e`.
pub open spec fn system_blocks(
    ms: Seq<Seq<Seq<u8>>>,
    f_tail: Seq<u8>,
    k: nat,
    m: nat,
    o: nat,
    l: nat,
) -> Seq<Seq<Seq<u8>>>
    decreases l,
{
    if l == 0 {
        Seq::new(k, |b: int| zero_mat(m, o))
    } else {
        let prev = system_blocks(ms, f_tail, k, m, o, (l - 1) as nat);
        let p = pair_of(k as int, (l - 1) as nat);
        let first = prev.update(
            p.0,
            mat_add(prev[p.0], shift_rows_pow(ms[p.1], f_tail, o, (l - 1) as nat)),
        );
        if p.0 == p.1 {
            first
        } else {
            first.update(
                p.1,
                mat_add(first[p.1], shift_rows_pow(ms[p.0], f_tail, o, (l - 1) as nat)),
            )
        }
    }
}

/// Row `a` of each block.
pub open spec fn block_row(blocks: Seq<Seq<Seq<u8>>>, a: int) -> Seq<Seq<u8>> {
    Seq::new(blocks.len(), |b: int| blocks[b][a])
}

/// The augmented matrix of a system given by blocks of columns and a
/// right-hand side.
pub open spec fn augmented(blocks: Seq<Seq<Seq<u8>>>, y: Seq<u8>) -> Seq<Seq<u8>> {
    Seq::new(y.len(), |a: int| concat_upto(block_row(blocks, a), blocks.len()) + seq![y[a]])
}

/// The augmented linear system of an attempt with vinegar vectors `vs`:
/// `A x = t - (vinegar part of the public map)`.
pub open spec fn attempt_system(
    p: MayoParams,
    p1: Seq<Seq<Seq<u8>>>,
    l: Seq<Seq<Seq<u8>>>,
    t: Seq<u8>,
    vs: Seq<Seq<u8>>,
) -> Seq<Seq<u8>> {
    augmented(
        system_blocks(
            products_of(l, vs, p.o as nat),
            p.f_tail@,
            p.k as nat,
            p.m as nat,
            p.o as nat,
            num_pairs(p.k as nat),
        ),
        vec_add(t, whipped_form(p1, vs, vs, p.f_tail@)),
    )
}

/// One block of a signature: the vinegar vector moved by the oil solution
/// into the oil space, then the oil solution.
pub open spec fn signature_block(oil: Seq<Seq<u8>>, v: Seq<u8>, x: Seq<u8>) -> Seq<u8> {
    vec_add(v, mat_vec(oil, x)) + x
}

/// The blocks of a signature with vinegar vectors `vs` and oil solution `x`.
pub open spec fn signature_blocks(p: MayoParams, oil: Seq<Seq<u8>>, vs: Seq<Seq<u8>>, x: Seq<u8>) -> Seq<
    Seq<u8>,
> {
    Seq::new(p.k as nat, |i: int| signature_block(oil, vs[i], split_block(x, p.o as nat, i)))
}

/// The bytes of a signature: the encoded blocks, then the salt.
pub open spec fn signature_bytes(
    p: MayoParams,
    oil: Seq<Seq<u8>>,
    vs: Seq<Seq<u8>>,
    x: Seq<u8>,
    salt: Seq<u8>,
) -> Seq<u8> {
    encode_vec_spec(concat_upto(signature_blocks(p, oil, vs, x), p.k as nat)) + salt
}

/// The vinegar vectors of attempt `ctr`.
pub open spec fn attempt_vinegars(
    p: MayoParams,
    esk: Seq<u8>,
    message: Seq<u8>,
    salt: Seq<u8>,
    ctr: int,
) -> Seq<Seq<u8>> {
    vinegars(p, vinegar_bytes(p, message_digest(p, message), salt, esk_seed(p, esk), ctr))
}

/// The augmented linear system of attempt `ctr`.
pub open spec fn attempt_matrix(
    p: MayoParams,
    esk: Seq<u8>,
    message: Seq<u8>,
    salt: Seq<u8>,
    ctr: int,
) -> Seq<Seq<u8>> {
    attempt_system(
        p,
        esk_p1(p, esk),
        esk_l(p, esk),
        target_vector(p, message, salt),
        attempt_vinegars(p, esk, message, salt, ctr),
    )
}

/// Whether attempt `ctr` succeeds: its coefficient matrix has full row rank.
pub open spec fn attempt_succeeds(
    p: MayoParams,
    esk: Seq<u8>,
    message: Seq<u8>,
    salt: Seq<u8>,
    ctr: int,
) -> bool {
    full_row_rank(attempt_matrix(p, esk, message, salt, ctr), (p.k * p.o) as nat)
}

/// The starting vector of the solver in attempt `ctr`.
pub open spec fn attempt_start(
    p: MayoParams,
    esk: Seq<u8>,
    message: Seq<u8>,
    salt: Seq<u8>,
    ctr: int,
) -> Seq<u8> {
    randomizer(p, vinegar_bytes(p, message_digest(p, message), salt, esk_seed(p, esk), ctr))
}

/// Whether `x` is the oil solution of attempt `ctr`, which keeps the entries
/// of the attempt's starting vector where the system leaves a choice, and
/// `sig` the signature made of it.
pub open spec fn is_solution_of(
    p: MayoParams,
    esk: Seq<u8>,
    message: Seq<u8>,
    salt: Seq<u8>,
    ctr: int,
    x: Seq<u8>,
    sig: Seq<u8>,
) -> bool {
    &&& is_vec(x)
    &&& x.len() == p.k * p.o
    &&& solves(attempt_matrix(p, esk, message, salt, ctr), x, (p.k * p.o) as nat)
    &&& keeps_start(
        attempt_matrix(p, esk, message, salt, ctr),
        x,
        attempt_start(p, esk, message, salt, ctr),
        (p.k * p.o) as nat,
    )
    &&& sig == signature_bytes(
        p,
        esk_oil(p, esk),
        attempt_vinegars(p, esk, message, salt, ctr),
        x,
        salt,
    )
}

/// Whether `sig` is the signature that attempt `ctr` gives: it is made of the
/// oil solution of the attempt.
pub open spec fn is_signature_at(
    p: MayoParams,
    esk: Seq<u8>,
    message: Seq<u8>,
    salt: Seq<u8>,
    ctr: int,
    sig: Seq<u8>,
) -> bool {
    exists|x: Seq<u8>| #[trigger] is_solution_of(p, esk, message, salt, ctr, x, sig)
}

/// Whether `sig` is what signing returns for a message under a salt with a
/// budget of attempts: the signature of the first attempt that succeeds.
pub open spec fn is_signature_of(
    p: MayoParams,
    esk: Seq<u8>,
    message: Seq<u8>,
    salt: Seq<u8>,
    budget: int,
    sig: Seq<u8>,
) -> bool {
    exists|ctr: int|
        0 <= ctr < budget && #[trigger] is_signature_at(p, esk, message, salt, ctr, sig)
            && attempt_succeeds(p, esk, message, salt, ctr) && forall|c: int|
            0 <= c < ctr ==> !#[trigger] attempt_succeeds(p, esk, message, salt, c)
}

/// Whether no attempt within the budget succeeds.
pub open spec fn is_exhausted(
    p: MayoParams,
    esk: Seq<u8>,
    message: Seq<u8>,
    salt: Seq<u8>,
    budget: int,
) -> bool {
    forall|c: int| 0 <= c < budget ==> !#[trigger] attempt_succeeds(p, esk, message, salt, c)
}

/// What signing reads from an expanded secret key.
struct SigningKey {
    seed_sk: Vec<u8>,
    oil: Vec<Vec<u8>>,
    p1: Vec<Vec<Vec<u8>>>,
    l: Vec<Vec<Vec<u8>>>,
}

impl SigningKey {
    spec fn holds(&self, p: MayoParams, esk: Seq<u8>) -> bool {
        &&& self.seed_sk@ == esk_seed(p, esk)
        &&& self.seed_sk@.len() == p.sk_seed_bytes
        &&& mat_view(&self.oil) == esk_oil(p, esk)
        &&& is_matrix(mat_view(&self.oil), p.v(), p.o as nat)
        &&& batch_view(&self.p1) == esk_p1(p, esk)
        &&& is_batch(batch_view(&self.p1), p.m as nat, p.v(), p.v())
        &&& batch_view(&self.l) == esk_l(p, esk)
        &&& is_batch(batch_view(&self.l), p.m as nat, p.v(), p.o as nat)
    }
}

/// Reads the seed, the oil space, `P1` and `L` from an expanded secret key.
fn read_signing_key(params: &MayoParams, esk: &[u8]) -> (key: SigningKey)
    requires
        params.wf(),
        esk@.len() == params.esk_bytes,
    ensures
        key.holds(*params, esk@),
{
    let v = params.param_v();
    let a = params.sk_seed_bytes;
    let b = a + params.O_bytes;
    let c = b + params.P1_bytes;
    let seed_sk = slice_to_vec(slice_subrange(esk, 0, a));
    let oil = match decode_o(slice_subrange(esk, a, b), v, params.o) {
        Ok(oil) => oil,
        Err(_) => unreached(),
    };
    let p1 = match decode_bitsliced_matrices(slice_subrange(esk, b, c), params.m, v, v, true) {
        Ok(x) => x,
        Err(_) => unreached(),
    };
    let l = match decode_bitsliced_matrices(
        slice_subrange(esk, c, params.esk_bytes),
        params.m,
        v,
        params.o,
        false,
    ) {
        Ok(x) => x,
        Err(_) => unreached(),
    };
    SigningKey { seed_sk, oil, p1, l }
}

/// Hashes the counter of an attempt into its vinegar vectors and the starting
/// vector of the solver.
fn sample_vinegar(
    params: &MayoParams,
    digest: &Vec<u8>,
    salt: &[u8],
    seed_sk: &Vec<u8>,
    ctr: u8,
) -> (res: (Vec<Vec<u8>>, Vec<u8>))
    requires
        params.wf(),
    ensures
        mat_view(&res.0) == vinegars(
            *params,
            vinegar_bytes(*params, digest@, salt@, seed_sk@, ctr as int),
        ),
        is_matrix(mat_view(&res.0), params.k as nat, params.v()),
        res.1@ == randomizer(*params, vinegar_bytes(*params, digest@, salt@, seed_sk@, ctr as int)),
        is_vec(res.1@),
        res.1.len() == params.k * params.o,
{
    let k = params.k;
    let v = params.param_v();
    let w = params.v_bytes;
    let ko = k * params.o;
    let r_len = ko / 2 + ko % 2;
    let v_len = k * w;
    let total = v_len + r_len;
    let mut input: Vec<u8> = Vec::new();
    input = concat_bytes(input, digest.as_slice());
    input = concat_bytes(input, salt);
    input = concat_bytes(input, seed_sk.as_slice());
    input.push(ctr);
    assert(input@ =~= digest@ + salt@ + seed_sk@ + seq![ctr]);
    let vb = xof(input.as_slice(), total);
    let ghost vbs = vinegar_bytes(*params, digest@, salt@, seed_sk@, ctr as int);
    assert(vb@ == vbs);
    let ghost target = vinegars(*params, vbs);
    let mut vs: Vec<Vec<u8>> = Vec::new();
    let mut off: usize = 0;
    let mut i: usize = 0;
    assert(0 * w == 0) by (nonlinear_arith);
    while i < k
        invariant
            i <= k,
            params.wf(),
            k == params.k,
            v == params.v(),
            w == params.v_bytes,
            v_len == k * w,
            total == vb@.len(),
            v_len <= total,
            vb@ == vbs,
            target == vinegars(*params, vbs),
            off == i * w,
            vs@.len() == i,
            forall|t: int| 0 <= t < i ==> (#[trigger] vs@[t])@ == target[t],
            forall|t: int| 0 <= t < i ==> is_vec((#[trigger] vs@[t])@) && vs@[t]@.len() == v,
        decreases k - i,
    {
        proof {
            lemma_chunk_bounds(i as int, k as int, w as int);
        }
        let chunk = slice_subrange(vb.as_slice(), off, off + w);
        assert(chunk@ == split_block(vbs, w as nat, i as int));
        let vi = match decode_vec(chunk, v) {
            Ok(x) => x,
            Err(_) => unreached(),
        };
        vs.push(vi);
        off = off + w;
        i += 1;
    }
    assert(mat_view(&vs) =~= target);
    let r = match decode_vec(slice_subrange(vb.as_slice(), v_len, total), ko) {
        Ok(x) => x,
        Err(_) => unreached(),
    };
    (vs, r)
}

/// A matrix of zeros.
fn zero_matrix(rows: usize, cols: usize) -> (r: Vec<Vec<u8>>)
    ensures
        mat_view(&r) == zero_mat(rows as nat, cols as nat),
        is_matrix(mat_view(&r), rows as nat, cols as nat),
{
    let mut r: Vec<Vec<u8>> = Vec::new();
    let mut a: usize = 0;
    while a < rows
        invariant
            a <= rows,
            r@.len() == a,
            forall|t: int| 0 <= t < a ==> (#[trigger] r@[t])@ == zeros(cols as nat),
        decreases rows - a,
    {
        r.push(zero_vector(cols));
        a += 1;
    }
    assert(mat_view(&r) =~= zero_mat(rows as nat, cols as nat));
    r
}

/// Builds the coefficient matrix of an attempt, block by block, from the
/// matrices `M_i`.
fn build_blocks(params: &MayoParams, ms: &Vec<Vec<Vec<u8>>>) -> (blocks: Vec<Vec<Vec<u8>>>)
    requires
        params.wf(),
        is_batch(batch_view(ms), params.k as nat, params.m as nat, params.o as nat),
    ensures
        batch_view(&blocks) == system_blocks(
            batch_view(ms),
            params.f_tail@,
            params.k as nat,
            params.m as nat,
            params.o as nat,
            num_pairs(params.k as nat),
        ),
        is_batch(batch_view(&blocks), params.k as nat, params.m as nat, params.o as nat),
{
    let k = params.k;
    let m = params.m;
    let o = params.o;
    let ghost msv = batch_view(ms);
    let ghost ft = params.f_tail@;
    let mut blocks: Vec<Vec<Vec<u8>>> = Vec::new();
    let mut b: usize = 0;
    while b < k
        invariant
            b <= k,
            blocks@.len() == b,
            forall|t: int|
                0 <= t < b ==> mat_view(#[trigger] &blocks@[t]) == zero_mat(m as nat, o as nat),
            forall|t: int|
                0 <= t < b ==> is_matrix(mat_view(#[trigger] &blocks@[t]), m as nat, o as nat),
        decreases k - b,
    {
        blocks.push(zero_matrix(m, o));
        b += 1;
    }
    assert(batch_view(&blocks) =~= system_blocks(msv, ft, k as nat, m as nat, o as nat, 0));
    let mut i: usize = 0;
    let mut j: usize = k - 1;
    let mut l: usize = 0;
    while i < k
        invariant
            i <= k,
            i < k ==> i <= j < k,
            i == k ==> j == k - 1,
            params.wf(),
            k == params.k,
            m == params.m,
            o == params.o,
            msv == batch_view(ms),
            ft == params.f_tail@,
            is_batch(msv, k as nat, m as nat, o as nat),
            pair_of(k as int, l as nat) == (i as int, j as int),
            l == pairs_before(k as nat, i as nat) + (k - 1 - j),
            blocks@.len() == k,
            batch_view(&blocks) == system_blocks(msv, ft, k as nat, m as nat, o as nat, l as nat),
            is_batch(batch_view(&blocks), k as nat, m as nat, o as nat),
        decreases k - i, j,
    {
        proof {
            lemma_pairs_before_monotonic(k as nat, (i + 1) as nat, k as nat);
        }
        let ghost prev = batch_view(&blocks);
        assert(msv[j as int] == mat_view(&ms@[j as int]));
        assert(msv[i as int] == mat_view(&ms@[i as int]));
        assert(is_matrix(msv[j as int], m as nat, o as nat));
        assert(is_matrix(msv[i as int], m as nat, o as nat));
        assert(prev[i as int] == mat_view(&blocks@[i as int]));
        assert(is_matrix(prev[i as int], m as nat, o as nat));
        assert(prev[i as int][0].len() == o);
        let shifted = shift_matrix_pow(&ms[j], params.f_tail, o, l);
        let sum = element_wise_addition(&blocks[i], &shifted);
        blocks.set(i, sum);
        let ghost first = batch_view(&blocks);
        assert(first =~= prev.update(
            i as int,
            mat_add(prev[i as int], shift_rows_pow(msv[j as int], ft, o as nat, l as nat)),
        ));
        assert(is_batch(first, k as nat, m as nat, o as nat)) by {
            assert forall|t: int| 0 <= t < k implies is_matrix(
                #[trigger] first[t],
                m as nat,
                o as nat,
            ) by {
                if t != i {
                    assert(first[t] == prev[t]);
                }
            }
        }
        if i != j {
            assert(first[j as int] == mat_view(&blocks@[j as int]));
            assert(is_matrix(first[j as int], m as nat, o as nat));
            assert(first[j as int][0].len() == o);
            let shifted2 = shift_matrix_pow(&ms[i], params.f_tail, o, l);
            let sum2 = element_wise_addition(&blocks[j], &shifted2);
            blocks.set(j, sum2);
            let ghost second = batch_view(&blocks);
            assert(second =~= first.update(
                j as int,
                mat_add(first[j as int], shift_rows_pow(msv[i as int], ft, o as nat, l as nat)),
            ));
            assert(is_batch(second, k as nat, m as nat, o as nat)) by {
                assert forall|t: int| 0 <= t < k implies is_matrix(
                    #[trigger] second[t],
                    m as nat,
                    o as nat,
                ) by {
                    if t != j {
                        assert(second[t] == first[t]);
                    }
                }
            }
        }
        if j > i {
            j -= 1;
        } else {
            i += 1;
            j = k - 1;
        }
        l += 1;
    }
    blocks
}

/// Lays the blocks of a coefficient matrix side by side and appends the
/// right-hand side as a last column.
fn augment(params: &MayoParams, blocks: &Vec<Vec<Vec<u8>>>, y: &Vec<u8>) -> (aug: Vec<Vec<u8>>)
    requires
        params.wf(),
        is_batch(batch_view(blocks), params.k as nat, params.m as nat, params.o as nat),
        is_vec(y@),
        y.len() == params.m,
    ensures
        mat_view(&aug) == augmented(batch_view(blocks), y@),
        is_matrix(mat_view(&aug), params.m as nat, (params.k * params.o + 1) as nat),
        aug.len() == params.m,
{
    let k = params.k;
    let m = params.m;
    let o = params.o;
    let ghost bv = batch_view(blocks);
    let ghost target = augmented(bv, y@);
    let mut aug: Vec<Vec<u8>> = Vec::new();
    let mut a: usize = 0;
    while a < m
        invariant
            a <= m,
            params.wf(),
            k == params.k,
            m == params.m,
            o == params.o,
            bv == batch_view(blocks),
            target == augmented(bv, y@),
            is_batch(bv, k as nat, m as nat, o as nat),
            is_vec(y@),
            y.len() == m,
            aug@.len() == a,
            forall|t: int| 0 <= t < a ==> (#[trigger] aug@[t])@ == target[t],
            forall|t: int|
                0 <= t < a ==> is_vec((#[trigger] aug@[t])@) && aug@[t]@.len() == k * o + 1,
        decreases m - a,
    {
        let mut row: Vec<u8> = Vec::new();
        let mut b: usize = 0;
        assert(0 * o == 0) by (nonlinear_arith);
        while b < k
            invariant
                b <= k,
                a < m,
                params.wf(),
                k == params.k,
                m == params.m,
                o == params.o,
                bv == batch_view(blocks),
                is_batch(bv, k as nat, m as nat, o as nat),
                row@ == concat_upto(block_row(bv, a as int), b as nat),
                row@.len() == b * o,
                is_vec(row@),
            decreases k - b,
        {
            proof {
                lemma_chunk_bounds(b as int, k as int, o as int);
            }
            assert(bv[b as int] == mat_view(&blocks@[b as int]));
            assert(is_matrix(bv[b as int], m as nat, o as nat));
            assert(bv[b as int][a as int] == blocks@[b as int]@[a as int]@);
            assert(is_vec(bv[b as int][a as int]));
            assert(bv[b as int][a as int].len() == o);
            assert(block_row(bv, a as int)[b as int] == bv[b as int][a as int]);
            row = concat_bytes(row, blocks[b][a].as_slice());
            b += 1;
        }
        row.push(y[a]);
        assert(row@ =~= target[a as int]);
        aug.push(row);
        a += 1;
    }
    assert(mat_view(&aug) =~= target);
    aug
}

/// Makes the signature of an oil solution: block by block, the vinegar
/// vector plus `O x_i`, then `x_i`; nibble-packed, with the salt appended.
fn assemble(
    params: &MayoParams,
    oil: &Vec<Vec<u8>>,
    vs: &Vec<Vec<u8>>,
    x: &Vec<u8>,
    salt: &[u8],
) -> (sig: Vec<u8>)
    requires
        params.wf(),
        is_matrix(mat_view(oil), params.v(), params.o as nat),
        is_matrix(mat_view(vs), params.k as nat, params.v()),
        is_vec(x@),
        x.len() == params.k * params.o,
        salt@.len() == params.salt_bytes,
    ensures
        sig@ == signature_bytes(*params, mat_view(oil), mat_view(vs), x@, salt@),
        sig@.len() == params.sig_bytes,
{
    let k = params.k;
    let o = params.o;
    let n = params.n;
    let ghost ov = mat_view(oil);
    let ghost vv = mat_view(vs);
    let ghost sb = signature_blocks(*params, ov, vv, x@);
    let mut s: Vec<u8> = Vec::new();
    let mut off: usize = 0;
    let mut i: usize = 0;
    assert(0 * o == 0 && 0 * n == 0) by (nonlinear_arith);
    while i < k
        invariant
            i <= k,
            params.wf(),
            k == params.k,
            o == params.o,
            n == params.n,
            ov == mat_view(oil),
            vv == mat_view(vs),
            sb == signature_blocks(*params, ov, vv, x@),
            is_matrix(ov, params.v(), o as nat),
            is_matrix(vv, k as nat, params.v()),
            is_vec(x@),
            x.len() == k * o,
            off == i * o,
            s@ == concat_upto(sb, i as nat),
            s@.len() == i * n,
            is_vec(s@),
        decreases k - i,
    {
        proof {
            lemma_chunk_bounds(i as int, k as int, o as int);
            lemma_chunk_bounds(i as int, k as int, n as int);
            assert(k * n == n * k) by (nonlinear_arith);
        }
        let xi = slice_to_vec(slice_subrange(x.as_slice(), off, off + o));
        assert(xi@ == split_block(x@, o as nat, i as int));
        assert(is_vec(xi@));
        assert(vv[i as int] == vs@[i as int]@);
        assert(is_vec(vv[i as int]));
        let ox = matrix_vector(oil, &xi);
        let moved = vector_add(&vs[i], &ox);
        assert(sb[i as int] == moved@ + xi@);
        s = concat_bytes(s, moved.as_slice());
        s = concat_bytes(s, xi.as_slice());
        assert(s@ =~= concat_upto(sb, (i + 1) as nat));
        off = off + o;
        i += 1;
    }
    assert(k * n == n * k) by (nonlinear_arith);
    let encoded = encode_vec(&s);
    concat_bytes(encoded, salt)
}

/// Where the signing of one message stands.
pub enum SignState {
    /// The vinegar vectors of attempt `attempt` are to be sampled next.
    Sampling { attempt: usize },
    /// The linear system of attempt `attempt` is built and is to be solved
    /// next.
    Solving { attempt: usize, vinegar: Vec<Vec<u8>>, start: Vec<u8>, system: Vec<Vec<u8>> },
    /// A signature has been made.
    Success { signature: Vec<u8> },
    /// Every attempt within the budget has failed.
    Exhausted,
}

/// How many steps a state is at most away from its end.
pub open spec fn steps_left(state: SignState, budget: int) -> int {
    match state {
        SignState::Sampling { attempt } => 2 * (budget - attempt) + 2,
        SignState::Solving { attempt, .. } => 2 * (budget - attempt) + 1,
        SignState::Success { .. } => 0,
        SignState::Exhausted => 0,
    }
}

/// What stays fixed while one message is signed: the key, the message digest,
/// the salt, the target vector and the budget of attempts.
pub struct SigningSession {
    key: SigningKey,
    digest: Vec<u8>,
    salt: Vec<u8>,
    target: Vec<u8>,
    budget: usize,
    esk: Ghost<Seq<u8>>,
    message: Ghost<Seq<u8>>,
}

impl SigningSession {
    /// The expanded secret key of the session.
    pub closed spec fn esk(&self) -> Seq<u8> {
        self.esk@
    }

    /// The message of the session.
    pub closed spec fn message(&self) -> Seq<u8> {
        self.message@
    }

    /// The salt of the session.
    pub closed spec fn salt(&self) -> Seq<u8> {
        self.salt@
    }

    /// The budget of attempts of the session.
    pub closed spec fn budget(&self) -> int {
        self.budget as int
    }

    /// Whether the session holds what its key, message and salt determine.
    pub closed spec fn valid(&self, p: MayoParams) -> bool {
        &&& self.esk@.len() == p.esk_bytes
        &&& self.key.holds(p, self.esk@)
        &&& self.digest@ == message_digest(p, self.message@)
        &&& self.salt@.len() == p.salt_bytes
        &&& self.target@ == target_vector(p, self.message@, self.salt@)
        &&& is_vec(self.target@)
        &&& self.target.len() == p.m
        &&& self.budget <= MAX_SIGN_ATTEMPTS
    }

    /// Whether a state can occur in the session: every attempt before the
    /// current one has failed, a built system is the system of its attempt, a
    /// signature is what signing returns, and exhaustion means that the whole
    /// budget has failed.
    pub open spec fn admits(&self, p: MayoParams, state: SignState) -> bool {
        match state {
            SignState::Sampling { attempt } => attempt <= self.budget() && is_exhausted(
                p,
                self.esk(),
                self.message(),
                self.salt(),
                attempt as int,
            ),
            SignState::Solving { attempt, vinegar, start, system } => {
                &&& attempt < self.budget()
                &&& is_exhausted(p, self.esk(), self.message(), self.salt(), attempt as int)
                &&& mat_view(&vinegar) == attempt_vinegars(
                    p,
                    self.esk(),
                    self.message(),
                    self.salt(),
                    attempt as int,
                )
                &&& start@ == attempt_start(
                    p,
                    self.esk(),
                    self.message(),
                    self.salt(),
                    attempt as int,
                )
                &&& mat_view(&system) == attempt_matrix(
                    p,
                    self.esk(),
                    self.message(),
                    self.salt(),
                    attempt as int,
                )
                &&& is_matrix(mat_view(&vinegar), p.k as nat, p.v())
                &&& is_vec(start@)
                &&& start@.len() == p.k * p.o
                &&& is_matrix(mat_view(&system), p.m as nat, (p.k * p.o + 1) as nat)
            },
            SignState::Success { signature } => signature@.len() == p.sig_bytes && is_signature_of(
                p,
                self.esk(),
                self.message(),
                self.salt(),
                self.budget(),
                signature@,
            ),
            SignState::Exhausted => is_exhausted(
                p,
                self.esk(),
                self.message(),
                self.salt(),
                self.budget(),
            ),
        }
    }

    /// Opens a session: reads the key, hashes the message and derives the
    /// target vector. Fails when the key or the salt has not the length that
    /// the parameter set fixes.
    pub fn begin(
        params: &MayoParams,
        esk: &[u8],
        message: &[u8],
        salt: &[u8],
        budget: usize,
    ) -> (res: Result<SigningSession, MayoError>)
        requires
            params.wf(),
            budget <= MAX_SIGN_ATTEMPTS,
        ensures
            match res {
                Ok(session) => esk@.len() == params.esk_bytes && salt@.len() == params.salt_bytes
                    && session.valid(*params) && session.esk() == esk@ && session.message()
                    == message@ && session.salt() == salt@ && session.budget() == budget,
                Err(e) => e == MayoError::InvalidLength && (esk@.len() != params.esk_bytes
                    || salt@.len() != params.salt_bytes),
            },
    {
        if esk.len() != params.esk_bytes || salt.len() != params.salt_bytes {
            return Err(MayoError::InvalidLength);
        }
        let key = read_signing_key(params, esk);
        let digest = hash_message(params, message);
        let target = derive_target(params, &digest, salt);
        Ok(
            SigningSession {
                key,
                digest,
                salt: slice_to_vec(salt),
                target,
                budget,
                esk: Ghost(esk@),
                message: Ghost(message@),
            },
        )
    }

    /// The state in which a session starts.
    pub fn start(&self, params: &MayoParams) -> (state: SignState)
        requires
            self.valid(*params),
        ensures
            state == (SignState::Sampling { attempt: 0 }),
            self.admits(*params, state),
    {
        SignState::Sampling { attempt: 0 }
    }

    /// Takes one step. From sampling, the budget being used up leads to
    /// exhaustion, and else the system of the attempt is built. From solving,
    /// a system of full rank leads to success with the signature of its
    /// solution, and else the next attempt is sampled. Success and exhaustion
    /// stay as they are.
    pub fn step(&self, params: &MayoParams, state: SignState) -> (next: SignState)
        requires
            params.wf(),
            self.valid(*params),
            self.admits(*params, state),
        ensures
            self.admits(*params, next),
            match state {
                SignState::Sampling { attempt } => if attempt >= self.budget() {
                    next == SignState::Exhausted
                } else {
                    next matches SignState::Solving { attempt: a, .. } && a == attempt
                },
                SignState::Solving { attempt, .. } => if attempt_succeeds(
                    *params,
                    self.esk(),
                    self.message(),
                    self.salt(),
                    attempt as int,
                ) {
                    next is Success
                } else {
                    next == (SignState::Sampling { attempt: (attempt + 1) as usize })
                },
                SignState::Success { signature } => next matches SignState::Success {
                    signature: s,
                } && s@ == signature@,
                SignState::Exhausted => next == SignState::Exhausted,
            },
            !(state is Success) && !(state is Exhausted) ==> steps_left(next, self.budget())
                < steps_left(state, self.budget()),
    {
        match state {
            SignState::Sampling { attempt } => {
                if attempt >= self.budget {
                    SignState::Exhausted
                } else {
                    let v = params.param_v();
                    let (vs, r) = sample_vinegar(
                        params,
                        &self.digest,
                        self.salt.as_slice(),
                        &self.key.seed_sk,
                        attempt as u8,
                    );
                    let ms = all_products(&self.key.l, &vs, v, params.o);
                    let u = whip_forms(&self.key.p1, &vs, &vs, params.f_tail, v, v);
                    let y = vector_add(&self.target, &u);
                    let blocks = build_blocks(params, &ms);
                    let aug = augment(params, &blocks, &y);
                    SignState::Solving { attempt, vinegar: vs, start: r, system: aug }
                }
            },
            SignState::Solving { attempt, vinegar, start, system } => {
                let ghost p = *params;
                let ghost sys = mat_view(&system);
                assert(system@.len() == mat_view(&system).len());
                match sample_solution(system, params.k * params.o, &start) {
                    Some(x) => {
                        let signature = assemble(
                            params,
                            &self.key.oil,
                            &vinegar,
                            &x,
                            self.salt.as_slice(),
                        );
                        proof {
                            assert(is_solution_of(
                                p,
                                self.esk@,
                                self.message@,
                                self.salt@,
                                attempt as int,
                                x@,
                                signature@,
                            ));
                            assert(is_signature_at(
                                p,
                                self.esk@,
                                self.message@,
                                self.salt@,
                                attempt as int,
                                signature@,
                            ));
                        }
                        SignState::Success { signature }
                    },
                    None => SignState::Sampling { attempt: attempt + 1 },
                }
            },
            SignState::Success { signature } => SignState::Success { signature },
            SignState::Exhausted => SignState::Exhausted,
        }
    }

    /// Steps from the start until a signature is made or the budget is
    /// used up.
    pub fn run(&self, params: &MayoParams) -> (res: Result<Vec<u8>, MayoError>)
        requires
            params.wf(),
            self.valid(*params),
        ensures
            match res {
                Ok(sig) => sig@.len() == params.sig_bytes && is_signature_of(
                    *params,
                    self.esk(),
                    self.message(),
                    self.salt(),
                    self.budget(),
                    sig@,
                ),
                Err(e) => e == MayoError::SigningExhausted && is_exhausted(
                    *params,
                    self.esk(),
                    self.message(),
                    self.salt(),
                    self.budget(),
                ),
            },
    {
        let mut state = self.start(params);
        loop
            invariant
                params.wf(),
                self.valid(*params),
                self.admits(*params, state),
            decreases steps_left(state, self.budget()),
        {
            match state {
                SignState::Success { signature } => {
                    return Ok(signature);
                },
                SignState::Exhausted => {
                    return Err(MayoError::SigningExhausted);
                },
                other => {
                    state = self.step(params, other);
                },
            }
        }
    }
}

/// Signs a message under a given salt, with a budget of attempts. Fails with
/// a length error when the key or the salt has not the length that the
/// parameter set fixes, and with exhaustion when no attempt within the budget
/// gives a system of full rank; else returns the signature of the first
/// attempt that does.
pub fn sign_with_salt(
    params: &MayoParams,
    esk: &[u8],
    message: &[u8],
    salt: &[u8],
    budget: usize,
) -> (res: Result<Vec<u8>, MayoError>)
    requires
        params.wf(),
        budget <= MAX_SIGN_ATTEMPTS,
    ensures
        match res {
            Ok(sig) => esk@.len() == params.esk_bytes && salt@.len() == params.salt_bytes
                && sig@.len() == params.sig_bytes && is_signature_of(
                *params,
                esk@,
                message@,
                salt@,
                budget as int,
                sig@,
            ),
            Err(MayoError::InvalidLength) => esk@.len() != params.esk_bytes || salt@.len()
                != params.salt_bytes,
            Err(MayoError::SigningExhausted) => esk@.len() == params.esk_bytes && salt@.len()
                == params.salt_bytes && is_exhausted(*params, esk@, message@, salt@, budget as int),
        },
{
    match SigningSession::begin(params, esk, message, salt, budget) {
        Ok(session) => session.run(params),
        Err(e) => Err(e),
    }
}

/// Signs a message under an expanded secret key with a fresh random salt.
/// Fails with a length error when the key has not the length that the
/// parameter set fixes, and with exhaustion when none of the
/// `MAX_SIGN_ATTEMPTS` attempts gives a system of full rank.
pub fn mayo_sign(params: &MayoParams, esk: &[u8], message: &[u8]) -> (res: Result<
    Vec<u8>,
    MayoError,
>)
    requires
        params.wf(),
    ensures
        match res {
            Ok(sig) => esk@.len() == params.esk_bytes && sig@.len() == params.sig_bytes
                && exists|salt: Seq<u8>|
                salt.len() == params.salt_bytes && #[trigger] is_signature_of(
                    *params,
                    esk@,
                    message@,
                    salt,
                    MAX_SIGN_ATTEMPTS as int,
                    sig@,
                ),
            Err(MayoError::InvalidLength) => esk@.len() != params.esk_bytes,
            Err(MayoError::SigningExhausted) => esk@.len() == params.esk_bytes && exists|
                salt: Seq<u8>,
            |
                salt.len() == params.salt_bytes && #[trigger] is_exhausted(
                    *params,
                    esk@,
                    message@,
                    salt,
                    MAX_SIGN_ATTEMPTS as int,
                ),
        },
{
    let salt = random_bytes(params.salt_bytes);
    let res = sign_with_salt(params, esk, message, salt.as_slice(), MAX_SIGN_ATTEMPTS);
    proof {
        if res is Ok {
            assert(is_signature_of(
                *params,
                esk@,
                message@,
                salt@,
                MAX_SIGN_ATTEMPTS as int,
                res->Ok_0@,
            ));
        } else if res == Err::<Vec<u8>, MayoError>(MayoError::SigningExhausted) {
            assert(is_exhausted(*params, esk@, message@, salt@, MAX_SIGN_ATTEMPTS as int));
        }
    }
    res
}

} // verus!
