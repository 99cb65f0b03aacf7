//! What the scheme guarantees, stated over the bytes that its operations
//! exchange.

use crate::codec::{
    decode_vec_spec, encode_batch_spec, encode_vec_spec, is_upper_batch, lemma_batch_round_trip,
    lemma_chunk_bounds, lemma_decode_batch_is_batch, lemma_decode_o_is_matrix,
    lemma_decode_vec_is_vec, lemma_vec_round_trip, nibble_at,
};
use crate::constants::MayoParams;
use crate::correctness::{lemma_map_on_signature, lemma_oil_form_is_matrix, moved};
use crate::field::{lemma_add_laws, lemma_add_rearrange};
use crate::keys::{
    coefficient_bytes, compact_public_key, derived_oil, derived_p1, derived_p2, expanded_public_key,
    expanded_secret_key, l_batch, oil_bytes, p3_batch, public_seed,
};
use crate::linalg::{
    is_batch, is_matrix, is_vec, lemma_mat_add_is_matrix, lemma_mat_mul_is_matrix,
    lemma_mat_vec_is_vec, lemma_transposed_is_matrix, lemma_vec_add_is_vec, mat_add, mat_mul,
    mat_vec, transposed, vec_add, width,
};
use crate::sign::{
    attempt_matrix, attempt_succeeds, attempt_vinegars, esk_l, esk_oil, esk_p1, esk_seed,
    is_signature_at, is_signature_of, is_solution_of, signature_blocks, signature_bytes,
};
use crate::target::target_vector;
use crate::verify::{
    epk_p1, epk_p2, epk_p3, oil_parts, signature_salt, signature_values, verifies, vinegar_parts,
};
use crate::whipping::{
    concat_upto, lemma_concat_block, lemma_concat_is_vec, lemma_concat_upto_len,
    lemma_split_block_is_vec, split_block,
};
use vstd::prelude::*;

verus! {

/// `P2` as recomputed from an expanded secret key: `L - (P1 + P1^T) O`.
pub open spec fn recomputed_p2(
    oil: Seq<Seq<u8>>,
    p1: Seq<Seq<Seq<u8>>>,
    l: Seq<Seq<Seq<u8>>>,
) -> Seq<Seq<Seq<u8>>> {
    Seq::new(
        l.len(),
        |a: int| mat_add(l[a], mat_mul(mat_add(p1[a], transposed(p1[a])), oil, width(oil))),
    )
}

/// What a secret seed determines, and where the keys hold it.
pub proof fn lemma_key_material(p: MayoParams, seed_sk: Seq<u8>)
    requires
        p.wf(),
        seed_sk.len() == p.sk_seed_bytes,
    ensures
        ({
            let esk = expanded_secret_key(p, seed_sk);
            let cpk = compact_public_key(p, seed_sk);
            let epk = expanded_public_key(p, cpk);
            let oil = derived_oil(p, seed_sk);
            let p1 = derived_p1(p, seed_sk);
            let p2 = derived_p2(p, seed_sk);
            &&& is_matrix(oil, p.v(), p.o as nat)
            &&& is_batch(p1, p.m as nat, p.v(), p.v())
            &&& is_batch(p2, p.m as nat, p.v(), p.o as nat)
            &&& esk.len() == p.esk_bytes
            &&& cpk.len() == p.cpk_bytes
            &&& epk.len() == p.epk_bytes
            &&& esk_seed(p, esk) == seed_sk
            &&& esk_oil(p, esk) == oil
            &&& esk_p1(p, esk) == p1
            &&& esk_l(p, esk) == l_batch(oil, p1, p2)
            &&& epk_p1(p, epk) == p1
            &&& epk_p2(p, epk) == p2
            &&& epk_p3(p, epk) == p3_batch(oil, p1, p2)
        }),
{
    let m = p.m as nat;
    let v = p.v();
    let o = p.o as nat;
    let esk = expanded_secret_key(p, seed_sk);
    let cpk = compact_public_key(p, seed_sk);
    let epk = expanded_public_key(p, cpk);
    let oil = derived_oil(p, seed_sk);
    let p1 = derived_p1(p, seed_sk);
    let p2 = derived_p2(p, seed_sk);
    let pseed = public_seed(p, seed_sk);
    let ob = oil_bytes(p, seed_sk);
    let cb = coefficient_bytes(p, pseed);
    let p1b = cb.subrange(0, p.P1_bytes as int);
    lemma_decode_o_is_matrix(ob, v, o);
    lemma_decode_batch_is_batch(p1b, m, v, v, true);
    lemma_decode_batch_is_batch(
        cb.subrange(p.P1_bytes as int, p.P1_bytes + p.P2_bytes),
        m,
        v,
        o,
        false,
    );
    let lb = l_batch(oil, p1, p2);
    let p3b = p3_batch(oil, p1, p2);
    assert(is_batch(lb, m, v, o)) by {
        assert forall|a: int| 0 <= a < m implies is_matrix(#[trigger] lb[a], v, o) by {
            assert(is_matrix(p1[a], v, v) && is_matrix(p2[a], v, o));
            lemma_oil_form_is_matrix(oil, p1[a], p2[a], v, o);
        }
    }
    assert(is_batch(p3b, m, o, o) && is_upper_batch(p3b, o, o)) by {
        assert forall|a: int| 0 <= a < m implies is_matrix(#[trigger] p3b[a], o, o) by {
            assert(is_matrix(p1[a], v, v) && is_matrix(p2[a], v, o));
            lemma_oil_form_is_matrix(oil, p1[a], p2[a], v, o);
        }
        assert forall|a: int, i: int, j: int|
            0 <= a < p3b.len() && 0 <= j < i < o && j < o implies #[trigger] p3b[a][i][j] == 0 by {
            assert(is_matrix(p1[a], v, v) && is_matrix(p2[a], v, o));
            lemma_oil_form_is_matrix(oil, p1[a], p2[a], v, o);
        }
    }
    lemma_batch_round_trip(lb, v, o, false);
    lemma_batch_round_trip(p3b, o, o, true);
    let enc_l = encode_batch_spec(lb, v, o, false);
    let enc_p3 = encode_batch_spec(p3b, o, o, true);
    // the expanded secret key
    assert(esk == seed_sk + ob + p1b + enc_l);
    let a = p.sk_seed_bytes as int;
    let b = a + p.O_bytes;
    let c = b + p.P1_bytes;
    assert(esk.subrange(0, a) =~= seed_sk);
    assert(esk.subrange(a, b) =~= ob);
    assert(esk.subrange(b, c) =~= p1b);
    assert(esk.subrange(c, p.esk_bytes as int) =~= enc_l);
    // the compact and the expanded public key
    assert(cpk == pseed + enc_p3);
    assert(cpk.subrange(0, p.pk_seed_bytes as int) =~= pseed);
    assert(cpk.subrange(p.pk_seed_bytes as int, p.pk_seed_bytes + p.P3_bytes) =~= enc_p3);
    assert(epk == cb + enc_p3);
    assert(epk.subrange(0, p.P1_bytes as int) =~= p1b);
    assert(epk.subrange(p.P1_bytes as int, p.P1_bytes + p.P2_bytes) =~= cb.subrange(
        p.P1_bytes as int,
        p.P1_bytes + p.P2_bytes,
    ));
    assert(epk.subrange(p.P1_bytes + p.P2_bytes, p.epk_bytes as int) =~= enc_p3);
}

/// Expansion consistency: the expanded public key holds the `P1` that the
/// expanded secret key holds, the `P2` that is recomputed from the secret key
/// as `L - (P1 + P1^T) O`, and the `P3` that is recomputed from those as
/// `Upper(-O^T P1 O - O^T P2)`.
pub proof fn theorem_expansions_agree(p: MayoParams, seed_sk: Seq<u8>)
    requires
        p.wf(),
        seed_sk.len() == p.sk_seed_bytes,
    ensures
        ({
            let esk = expanded_secret_key(p, seed_sk);
            let epk = expanded_public_key(p, compact_public_key(p, seed_sk));
            let p2 = recomputed_p2(esk_oil(p, esk), esk_p1(p, esk), esk_l(p, esk));
            &&& epk_p1(p, epk) == esk_p1(p, esk)
            &&& epk_p2(p, epk) == p2
            &&& epk_p3(p, epk) == p3_batch(esk_oil(p, esk), esk_p1(p, esk), p2)
        }),
{
    lemma_key_material(p, seed_sk);
    let m = p.m as nat;
    let v = p.v();
    let o = p.o as nat;
    let oil = derived_oil(p, seed_sk);
    let p1 = derived_p1(p, seed_sk);
    let p2 = derived_p2(p, seed_sk);
    let lb = l_batch(oil, p1, p2);
    let r = recomputed_p2(oil, p1, lb);
    assert(r =~= p2) by {
        assert forall|a: int| 0 <= a < m implies #[trigger] r[a] == p2[a] by {
            assert(is_matrix(p1[a], v, v) && is_matrix(p2[a], v, o));
            lemma_oil_form_is_matrix(oil, p1[a], p2[a], v, o);
            lemma_transposed_is_matrix(p1[a], v, v);
            lemma_mat_add_is_matrix(p1[a], transposed(p1[a]), v, v);
            let x = mat_mul(mat_add(p1[a], transposed(p1[a])), oil, o);
            lemma_mat_mul_is_matrix(mat_add(p1[a], transposed(p1[a])), oil, v, v, o);
            assert(lb[a] == mat_add(x, p2[a]));
            assert forall|i: int| 0 <= i < v implies #[trigger] r[a][i] =~= p2[a][i] by {
                assert(x[i].len() == o && p2[a][i].len() == o);
                assert forall|j: int| 0 <= j < o implies r[a][i][j] == p2[a][i][j] by {
                    lemma_add_rearrange(p2[a][i][j], x[i][j], 0, 0);
                    lemma_add_laws(x[i][j], p2[a][i][j], 0);
                }
            }
            assert(r[a] =~= p2[a]);
        }
    }
}

/// What verification reads from a signature: its salt, and block by block the
/// moved vinegar vector and the oil solution.
pub proof fn lemma_signature_parts(
    p: MayoParams,
    oil: Seq<Seq<u8>>,
    vs: Seq<Seq<u8>>,
    x: Seq<u8>,
    salt: Seq<u8>,
)
    requires
        p.wf(),
        is_matrix(oil, p.v(), p.o as nat),
        is_matrix(vs, p.k as nat, p.v()),
        is_vec(x),
        x.len() == p.k * p.o,
        salt.len() == p.salt_bytes,
    ensures
        ({
            let sig = signature_bytes(p, oil, vs, x, salt);
            let s = signature_values(p, sig);
            &&& sig.len() == p.sig_bytes
            &&& signature_salt(p, sig) == salt
            &&& vinegar_parts(p, s) == Seq::new(
                p.k as nat,
                |i: int| moved(oil, vs[i], split_block(x, p.o as nat, i)),
            )
            &&& oil_parts(p, s) == Seq::new(p.k as nat, |i: int| split_block(x, p.o as nat, i))
        }),
{
    let k = p.k as nat;
    let n = p.n as nat;
    let v = p.v();
    let o = p.o as nat;
    let blocks = signature_blocks(p, oil, vs, x);
    let flat = concat_upto(blocks, k);
    let enc = encode_vec_spec(flat);
    let sig = signature_bytes(p, oil, vs, x, salt);
    assert(sig == enc + salt);
    assert forall|i: int| 0 <= i < k implies is_vec(#[trigger] blocks[i]) && blocks[i].len() == n
        && blocks[i] == moved(oil, vs[i], split_block(x, o, i)) + split_block(x, o, i) && moved(
        oil,
        vs[i],
        split_block(x, o, i),
    ).len() == v && split_block(x, o, i).len() == o by {
        lemma_split_block_is_vec(x, o, k, i);
        let xi = split_block(x, o, i);
        assert(is_vec(vs[i]));
        lemma_mat_vec_is_vec(oil, xi, v, o);
        lemma_vec_add_is_vec(vs[i], mat_vec(oil, xi));
    }
    lemma_concat_upto_len(blocks, n, k);
    lemma_concat_is_vec(blocks, k);
    lemma_vec_round_trip(flat);
    assert(k * n == p.n * p.k) by (nonlinear_arith)
        requires
            k == p.k,
            n == p.n,
    ;
    let s = signature_values(p, sig);
    assert(s =~= flat) by {
        assert forall|idx: int| 0 <= idx < flat.len() implies s[idx] == flat[idx] by {
            assert(sig[idx / 2] == enc[idx / 2]);
            assert(nibble_at(sig, idx) == nibble_at(enc, idx));
            assert(decode_vec_spec(enc, flat.len())[idx] == flat[idx]);
        }
    }
    assert(signature_salt(p, sig) =~= salt);
    let vp = vinegar_parts(p, s);
    let op = oil_parts(p, s);
    let want_v = Seq::new(k, |i: int| moved(oil, vs[i], split_block(x, o, i)));
    let want_o = Seq::new(k, |i: int| split_block(x, o, i));
    assert forall|i: int| 0 <= i < k implies #[trigger] vp[i] == want_v[i] && op[i] == want_o[i] by {
        let blk = split_block(s, n, i);
        lemma_chunk_bounds(i, k as int, n as int);
        assert(blk =~= blocks[i]) by {
            assert forall|t: int| 0 <= t < n implies blk[t] == blocks[i][t] by {
                lemma_concat_block(blocks, n, k, i, t);
            }
        }
        assert(blocks[i].len() == n);
        assert(vp[i] =~= want_v[i]);
        assert(op[i] =~= want_o[i]);
    }
    assert(vp =~= want_v);
    assert forall|i: int| 0 <= i < k implies #[trigger] op[i] == want_o[i] by {
        assert(vp[i] == want_v[i] && op[i] == want_o[i]);
    }
    assert(op =~= want_o);
}

/// Correctness: a signature that an attempt of signing gives under the
/// expanded secret key of a seed is accepted under the expanded public key of
/// the same seed.
pub proof fn theorem_signature_verifies(
    p: MayoParams,
    seed_sk: Seq<u8>,
    message: Seq<u8>,
    salt: Seq<u8>,
    ctr: int,
    sig: Seq<u8>,
)
    requires
        p.wf(),
        seed_sk.len() == p.sk_seed_bytes,
        salt.len() == p.salt_bytes,
        is_signature_at(p, expanded_secret_key(p, seed_sk), message, salt, ctr, sig),
    ensures
        verifies(p, expanded_public_key(p, compact_public_key(p, seed_sk)), message, sig),
{
    let esk = expanded_secret_key(p, seed_sk);
    let epk = expanded_public_key(p, compact_public_key(p, seed_sk));
    lemma_key_material(p, seed_sk);
    let oil = derived_oil(p, seed_sk);
    let p1 = derived_p1(p, seed_sk);
    let p2 = derived_p2(p, seed_sk);
    let x = choose|x: Seq<u8>| #[trigger] is_solution_of(p, esk, message, salt, ctr, x, sig);
    assert(is_solution_of(p, esk, message, salt, ctr, x, sig));
    let vs = attempt_vinegars(p, esk, message, salt, ctr);
    let t = target_vector(p, message, salt);
    lemma_decode_vec_is_vec(
        crate::primitives::shake256_bytes(
            crate::target::message_digest(p, message) + salt,
            (p.m / 2) as nat,
        ),
        p.m as nat,
    );
    assert(is_matrix(vs, p.k as nat, p.v())) by {
        let vb = crate::sign::vinegar_bytes(
            p,
            crate::target::message_digest(p, message),
            salt,
            esk_seed(p, esk),
            ctr,
        );
        assert forall|i: int| 0 <= i < p.k implies is_vec(#[trigger] vs[i]) && vs[i].len()
            == p.v() by {
            lemma_decode_vec_is_vec(split_block(vb, p.v_bytes as nat, i), p.v());
        }
    }
    lemma_map_on_signature(
        oil,
        p1,
        p2,
        vs,
        x,
        t,
        p.f_tail@,
        p.k as nat,
        p.m as nat,
        p.v(),
        p.o as nat,
    );
    lemma_signature_parts(p, oil, vs, x, salt);
}

/// Correctness of signing: what signing returns for a message, under the
/// expanded secret key of a seed and whatever the salt and the budget, is
/// accepted for that message under the expanded public key of the same seed.
pub proof fn theorem_sign_then_verify(
    p: MayoParams,
    seed_sk: Seq<u8>,
    message: Seq<u8>,
    salt: Seq<u8>,
    budget: int,
    sig: Seq<u8>,
)
    requires
        p.wf(),
        seed_sk.len() == p.sk_seed_bytes,
        salt.len() == p.salt_bytes,
        is_signature_of(p, expanded_secret_key(p, seed_sk), message, salt, budget, sig),
    ensures
        verifies(p, expanded_public_key(p, compact_public_key(p, seed_sk)), message, sig),
{
    let esk = expanded_secret_key(p, seed_sk);
    let ctr = choose|ctr: int|
        0 <= ctr < budget && #[trigger] is_signature_at(p, esk, message, salt, ctr, sig)
            && attempt_succeeds(p, esk, message, salt, ctr) && forall|c: int|
            0 <= c < ctr ==> !#[trigger] attempt_succeeds(p, esk, message, salt, c);
    theorem_signature_verifies(p, seed_sk, message, salt, ctr, sig);
}

/// The linear system of an attempt has one row per equation and one column
/// per oil unknown, besides the right-hand side.
pub proof fn lemma_attempt_matrix_shape(
    p: MayoParams,
    esk: Seq<u8>,
    message: Seq<u8>,
    salt: Seq<u8>,
    ctr: int,
)
    requires
        p.wf(),
    ensures
        is_matrix(
            attempt_matrix(p, esk, message, salt, ctr),
            p.m as nat,
            (p.k * p.o + 1) as nat,
        ),
{
    let k = p.k as nat;
    let m = p.m as nat;
    let v = p.v();
    let o = p.o as nat;
    let ft = p.f_tail@;
    let big = crate::whipping::num_pairs(k);
    let p1 = esk_p1(p, esk);
    let l = esk_l(p, esk);
    let t = target_vector(p, message, salt);
    let vs = attempt_vinegars(p, esk, message, salt, ctr);
    lemma_decode_batch_is_batch(
        esk.subrange(p.sk_seed_bytes + p.O_bytes, p.sk_seed_bytes + p.O_bytes + p.P1_bytes),
        m,
        v,
        v,
        true,
    );
    lemma_decode_batch_is_batch(
        esk.subrange(p.sk_seed_bytes + p.O_bytes + p.P1_bytes, p.esk_bytes as int),
        m,
        v,
        o,
        false,
    );
    lemma_decode_vec_is_vec(
        crate::primitives::shake256_bytes(
            crate::target::message_digest(p, message) + salt,
            (p.m / 2) as nat,
        ),
        m,
    );
    assert(is_matrix(vs, k, v)) by {
        let vb = crate::sign::vinegar_bytes(
            p,
            crate::target::message_digest(p, message),
            salt,
            esk_seed(p, esk),
            ctr,
        );
        assert forall|i: int| 0 <= i < k implies is_vec(#[trigger] vs[i]) && vs[i].len() == v by {
            lemma_decode_vec_is_vec(split_block(vb, p.v_bytes as nat, i), v);
        }
    }
    let u = crate::forms::paired_terms(p1, vs, vs);
    assert forall|r: int| 0 <= r < big implies is_vec(#[trigger] u[r]) && u[r].len() == m by {
        crate::correctness::lemma_paired_terms_entry(p1, vs, vs, k, m, v, v, r);
    }
    crate::forms::lemma_whip_upto_is_vec(u, ft, m, big);
    let wu = crate::forms::whipped_form(p1, vs, vs, ft);
    let y = vec_add(t, wu);
    lemma_vec_add_is_vec(t, wu);
    let ms = crate::forms::products_of(l, vs, o);
    assert(is_batch(ms, k, m, o)) by {
        assert forall|i: int| 0 <= i < k implies is_matrix(#[trigger] ms[i], m, o) by {
            assert(is_vec(vs[i]));
            crate::correctness::lemma_row_products_is_matrix(l, vs[i], m, v, o);
        }
    }
    let x0 = crate::linalg::zeros(k * o);
    crate::correctness::lemma_system_apply(ms, ft, x0, k, m, o, big);
    let sys = crate::sign::system_blocks(ms, ft, k, m, o, big);
    let aug = attempt_matrix(p, esk, message, salt, ctr);
    assert(aug == crate::sign::augmented(sys, y));
    assert forall|a: int| 0 <= a < m implies is_vec(#[trigger] aug[a]) && aug[a].len() == k * o
        + 1 by {
        let rb = crate::sign::block_row(sys, a);
        assert forall|b: int| 0 <= b < k implies is_vec(#[trigger] rb[b]) && rb[b].len() == o by {
            assert(is_matrix(sys[b], m, o));
            assert(is_vec(sys[b][a]));
        }
        lemma_concat_upto_len(rb, o, k);
        lemma_concat_is_vec(rb, k);
    }
}

/// Signing under a given salt is a function of the key, the message, the salt
/// and the budget: two signatures that signing may return are the same.
pub proof fn theorem_signature_determined(
    p: MayoParams,
    esk: Seq<u8>,
    message: Seq<u8>,
    salt: Seq<u8>,
    budget: int,
    sig_a: Seq<u8>,
    sig_b: Seq<u8>,
)
    requires
        p.wf(),
        is_signature_of(p, esk, message, salt, budget, sig_a),
        is_signature_of(p, esk, message, salt, budget, sig_b),
    ensures
        sig_a == sig_b,
{
    let ca = choose|ctr: int|
        0 <= ctr < budget && #[trigger] is_signature_at(p, esk, message, salt, ctr, sig_a)
            && attempt_succeeds(p, esk, message, salt, ctr) && forall|c: int|
            0 <= c < ctr ==> !#[trigger] attempt_succeeds(p, esk, message, salt, c);
    let cb = choose|ctr: int|
        0 <= ctr < budget && #[trigger] is_signature_at(p, esk, message, salt, ctr, sig_b)
            && attempt_succeeds(p, esk, message, salt, ctr) && forall|c: int|
            0 <= c < ctr ==> !#[trigger] attempt_succeeds(p, esk, message, salt, c);
    assert(ca == cb) by {
        if ca < cb {
            assert(!attempt_succeeds(p, esk, message, salt, ca));
        }
        if cb < ca {
            assert(!attempt_succeeds(p, esk, message, salt, cb));
        }
    }
    let xa = choose|x: Seq<u8>| #[trigger] is_solution_of(p, esk, message, salt, ca, x, sig_a);
    let xb = choose|x: Seq<u8>| #[trigger] is_solution_of(p, esk, message, salt, ca, x, sig_b);
    assert(is_solution_of(p, esk, message, salt, ca, xa, sig_a));
    assert(is_solution_of(p, esk, message, salt, ca, xb, sig_b));
    lemma_attempt_matrix_shape(p, esk, message, salt, ca);
    crate::solver::lemma_solution_unique(
        attempt_matrix(p, esk, message, salt, ca),
        p.m as nat,
        (p.k * p.o) as nat,
        crate::sign::attempt_start(p, esk, message, salt, ca),
        xa,
        xb,
    );
}

/// Key generation is a function of the seed: equal seeds have equal compact
/// public keys and equal expanded keys.
pub proof fn theorem_keys_determined_by_seed(p: MayoParams, seed_a: Seq<u8>, seed_b: Seq<u8>)
    requires
        seed_a == seed_b,
    ensures
        compact_public_key(p, seed_a) == compact_public_key(p, seed_b),
        expanded_secret_key(p, seed_a) == expanded_secret_key(p, seed_b),
{
}

} // verus!
