//! Why a signature verifies: the algebra behind the scheme.
//!
//! With the vinegar vectors `v_i` fixed and `s_i = (v_i + O x_i, x_i)`, the
//! public map is affine in the oil unknowns `x_i`, because `P3` cancels what
//! is quadratic in them. Its linear part is the coefficient matrix that
//! signing builds from `L`, its constant part the vinegar part that signing
//! moves to the right-hand side.

use crate::bilinear::{
    lemma_bilinear_add_left, lemma_bilinear_add_matrix, lemma_bilinear_add_right,
    lemma_bilinear_left_product, lemma_bilinear_right_product, lemma_bilinear_transpose,
    lemma_upper_same_form,
};
use crate::codec::lemma_chunk_bounds;
use crate::field::{gf_add, gf_mul, lemma_add_laws, lemma_add_rearrange, lemma_mul_identity};
use crate::forms::{
    lemma_paired_rows_is_vec, pair_vector, paired_rows, paired_terms, products_of, row_products,
    whipped_form,
};
use crate::keys::{l_batch, l_matrix, oil_form, p3_batch, p3_matrix};
use crate::linalg::{
    bilinear, dot, dot_upto, is_batch, is_matrix, is_vec, lemma_dot_upto_add_left,
    lemma_dot_upto_concat, lemma_dot_upto_ext, lemma_dot_upto_vanishes, lemma_mat_add_is_matrix,
    lemma_mat_mul_is_matrix, lemma_mat_vec_is_vec, lemma_transposed_is_matrix,
    lemma_upper_is_matrix, lemma_vec_add_is_vec, lemma_vec_mat_is_vec, mat_add, mat_mul, mat_vec,
    transposed, vec_add, width, zero_mat, zeros,
};
use crate::sign::{augmented, block_row, system_blocks};
use crate::solver::{satisfies, solves};
use crate::whipping::{
    concat_upto, lemma_concat_upto_len, lemma_mul_z_pow_additive, lemma_mul_z_pow_is_vec,
    lemma_pair_of_valid, lemma_shift_rows_pow_is_matrix, lemma_shift_rows_pow_mat_vec,
    lemma_split_block_is_vec, lemma_whip_additive, lemma_whip_len, mul_z_pow, num_pairs, pair_of,
    shift_rows_pow, split_block, whip_upto,
};
use vstd::prelude::*;

verus! {

/// A vinegar vector moved into the oil space by an oil solution: `v + O x`.
pub open spec fn moved(oil: Seq<Seq<u8>>, v: Seq<u8>, x: Seq<u8>) -> Seq<u8> {
    vec_add(v, mat_vec(oil, x))
}

/// The matrices derived from `O`, `P1` and `P2` of one equation have the
/// shapes that the scheme gives them.
pub proof fn lemma_oil_form_is_matrix(oil: Seq<Seq<u8>>, p1: Seq<Seq<u8>>, p2: Seq<Seq<u8>>, nv: nat, no: nat)
    requires
        0 < nv,
        0 < no,
        is_matrix(oil, nv, no),
        is_matrix(p1, nv, nv),
        is_matrix(p2, nv, no),
    ensures
        is_matrix(oil_form(oil, p1, p2), no, no),
        is_matrix(p3_matrix(oil, p1, p2), no, no),
        is_matrix(l_matrix(oil, p1, p2), nv, no),
        width(oil) == no,
        width(p1) == nv,
        width(p2) == no,
{
    let ot = transposed(oil);
    lemma_transposed_is_matrix(oil, nv, no);
    assert(oil[0].len() == no && p1[0].len() == nv && p2[0].len() == no);
    lemma_mat_mul_is_matrix(ot, p1, no, nv, nv);
    lemma_mat_mul_is_matrix(mat_mul(ot, p1, nv), oil, no, nv, no);
    lemma_mat_mul_is_matrix(ot, p2, no, nv, no);
    lemma_mat_add_is_matrix(mat_mul(mat_mul(ot, p1, nv), oil, no), mat_mul(ot, p2, no), no, no);
    lemma_upper_is_matrix(oil_form(oil, p1, p2), no);
    lemma_transposed_is_matrix(p1, nv, nv);
    lemma_mat_add_is_matrix(p1, transposed(p1), nv, nv);
    lemma_mat_mul_is_matrix(mat_add(p1, transposed(p1)), oil, nv, nv, no);
    lemma_mat_add_is_matrix(mat_mul(mat_add(p1, transposed(p1)), oil, no), p2, nv, no);
}

/// The public map of one equation on a pair of blocks, against the vinegar
/// part plus the part linear in the oil unknowns: the two differ by terms
/// that cancel over the pair.
pub proof fn lemma_expand_pair(
    oil: Seq<Seq<u8>>,
    p1: Seq<Seq<u8>>,
    p2: Seq<Seq<u8>>,
    vi: Seq<u8>,
    vj: Seq<u8>,
    xi: Seq<u8>,
    xj: Seq<u8>,
    nv: nat,
    no: nat,
)
    requires
        0 < nv,
        0 < no,
        is_matrix(oil, nv, no),
        is_matrix(p1, nv, nv),
        is_matrix(p2, nv, no),
        is_vec(vi),
        vi.len() == nv,
        is_vec(vj),
        vj.len() == nv,
        is_vec(xi),
        xi.len() == no,
        is_vec(xj),
        xj.len() == no,
    ensures
        ({
            let si = moved(oil, vi, xi);
            let sj = moved(oil, vj, xj);
            let p3 = p3_matrix(oil, p1, p2);
            let l = l_matrix(oil, p1, p2);
            let f = oil_form(oil, p1, p2);
            let q = gf_add(gf_add(bilinear(p1, si, sj), bilinear(p2, si, xj)), bilinear(p3, xi, xj));
            let r = gf_add(bilinear(p1, vi, vj), bilinear(l, vi, xj));
            gf_add(q, r) == gf_add(
                gf_add(bilinear(p1, mat_vec(oil, xi), vj), bilinear(p1, mat_vec(oil, xj), vi)),
                gf_add(bilinear(f, xi, xj), bilinear(p3, xi, xj)),
            )
        }),
{
    let oxi = mat_vec(oil, xi);
    let oxj = mat_vec(oil, xj);
    lemma_mat_vec_is_vec(oil, xi, nv, no);
    lemma_mat_vec_is_vec(oil, xj, nv, no);
    let si = moved(oil, vi, xi);
    let sj = moved(oil, vj, xj);
    lemma_vec_add_is_vec(vi, oxi);
    lemma_vec_add_is_vec(vj, oxj);
    lemma_oil_form_is_matrix(oil, p1, p2, nv, no);
    let p3 = p3_matrix(oil, p1, p2);
    let l = l_matrix(oil, p1, p2);
    let f = oil_form(oil, p1, p2);
    // P1 on the moved vectors
    lemma_bilinear_add_left(p1, vi, oxi, sj, nv, nv);
    lemma_bilinear_add_right(p1, vi, vj, oxj, nv, nv);
    lemma_bilinear_add_right(p1, oxi, vj, oxj, nv, nv);
    // P2 on the moved vector
    lemma_bilinear_add_left(p2, vi, oxi, xj, nv, no);
    // L
    let p1t = transposed(p1);
    lemma_transposed_is_matrix(p1, nv, nv);
    let sym = mat_add(p1, p1t);
    lemma_mat_add_is_matrix(p1, p1t, nv, nv);
    let symo = mat_mul(sym, oil, no);
    lemma_mat_mul_is_matrix(sym, oil, nv, nv, no);
    lemma_bilinear_add_matrix(symo, p2, vi, xj, nv, no);
    lemma_bilinear_right_product(sym, oil, vi, xj, nv, nv, no);
    lemma_bilinear_add_matrix(p1, p1t, vi, oxj, nv, nv);
    lemma_bilinear_transpose(p1, vi, oxj, nv, nv);
    // the oil form
    let ot = transposed(oil);
    lemma_transposed_is_matrix(oil, nv, no);
    let otp1 = mat_mul(ot, p1, nv);
    lemma_mat_mul_is_matrix(ot, p1, no, nv, nv);
    let a1 = mat_mul(otp1, oil, no);
    lemma_mat_mul_is_matrix(otp1, oil, no, nv, no);
    let a2 = mat_mul(ot, p2, no);
    lemma_mat_mul_is_matrix(ot, p2, no, nv, no);
    lemma_bilinear_add_matrix(a1, a2, xi, xj, no, no);
    lemma_bilinear_right_product(otp1, oil, xi, xj, no, nv, no);
    lemma_bilinear_left_product(oil, p1, xi, oxj, nv, no, nv);
    lemma_bilinear_left_product(oil, p2, xi, xj, nv, no, no);
    let t1 = bilinear(p1, vi, vj);
    let t2 = bilinear(p1, vi, oxj);
    let t3 = bilinear(p1, oxi, vj);
    let t4 = bilinear(p1, oxi, oxj);
    let t5 = bilinear(p2, vi, xj);
    let t6 = bilinear(p2, oxi, xj);
    let t7 = bilinear(p3, xi, xj);
    let t8 = bilinear(p1, oxj, vi);
    let b1 = bilinear(p1, si, sj);
    let b1a = bilinear(p1, vi, sj);
    let b1b = bilinear(p1, oxi, sj);
    let b2 = bilinear(p2, si, xj);
    let bl = bilinear(l, vi, xj);
    let bs = bilinear(sym, vi, oxj);
    let bf = bilinear(f, xi, xj);
    assert(gf_add(gf_add(gf_add(b1, b2), t7), gf_add(t1, bl)) == gf_add(
        gf_add(t3, t8),
        gf_add(bf, t7),
    )) by (bit_vector)
        requires
            b1 == gf_add(b1a, b1b),
            b1a == gf_add(t1, t2),
            b1b == gf_add(t3, t4),
            b2 == gf_add(t5, t6),
            bl == gf_add(bs, t5),
            bs == gf_add(t2, t8),
            bf == gf_add(t4, t6),
    ;
}

/// On a block paired with itself, the public map of one equation is the
/// vinegar part plus the part linear in the oil unknowns.
pub proof fn lemma_pair_same(
    oil: Seq<Seq<u8>>,
    p1: Seq<Seq<u8>>,
    p2: Seq<Seq<u8>>,
    v: Seq<u8>,
    x: Seq<u8>,
    nv: nat,
    no: nat,
)
    requires
        0 < nv,
        0 < no,
        is_matrix(oil, nv, no),
        is_matrix(p1, nv, nv),
        is_matrix(p2, nv, no),
        is_vec(v),
        v.len() == nv,
        is_vec(x),
        x.len() == no,
    ensures
        ({
            let s = moved(oil, v, x);
            gf_add(
                gf_add(bilinear(p1, s, s), bilinear(p2, s, x)),
                bilinear(p3_matrix(oil, p1, p2), x, x),
            ) == gf_add(bilinear(p1, v, v), bilinear(l_matrix(oil, p1, p2), v, x))
        }),
{
    lemma_expand_pair(oil, p1, p2, v, v, x, x, nv, no);
    lemma_oil_form_is_matrix(oil, p1, p2, nv, no);
    let f = oil_form(oil, p1, p2);
    lemma_upper_same_form(f, x, x, no);
    let s = moved(oil, v, x);
    let q = gf_add(
        gf_add(bilinear(p1, s, s), bilinear(p2, s, x)),
        bilinear(p3_matrix(oil, p1, p2), x, x),
    );
    let r = gf_add(bilinear(p1, v, v), bilinear(l_matrix(oil, p1, p2), v, x));
    let c = bilinear(p1, mat_vec(oil, x), v);
    let bf = bilinear(f, x, x);
    let bu = bilinear(p3_matrix(oil, p1, p2), x, x);
    assert(q == r) by (bit_vector)
        requires
            gf_add(q, r) == gf_add(gf_add(c, c), gf_add(bf, bu)),
            bf == bu,
    ;
}

/// On a pair of different blocks, the public map of one equation, taken in
/// both orders, is the vinegar part plus the part linear in the oil unknowns.
pub proof fn lemma_pair_diff(
    oil: Seq<Seq<u8>>,
    p1: Seq<Seq<u8>>,
    p2: Seq<Seq<u8>>,
    vi: Seq<u8>,
    vj: Seq<u8>,
    xi: Seq<u8>,
    xj: Seq<u8>,
    nv: nat,
    no: nat,
)
    requires
        0 < nv,
        0 < no,
        is_matrix(oil, nv, no),
        is_matrix(p1, nv, nv),
        is_matrix(p2, nv, no),
        is_vec(vi),
        vi.len() == nv,
        is_vec(vj),
        vj.len() == nv,
        is_vec(xi),
        xi.len() == no,
        is_vec(xj),
        xj.len() == no,
    ensures
        ({
            let si = moved(oil, vi, xi);
            let sj = moved(oil, vj, xj);
            let p3 = p3_matrix(oil, p1, p2);
            let l = l_matrix(oil, p1, p2);
            gf_add(
                gf_add(
                    gf_add(bilinear(p1, si, sj), bilinear(p1, sj, si)),
                    gf_add(bilinear(p2, si, xj), bilinear(p2, sj, xi)),
                ),
                gf_add(bilinear(p3, xi, xj), bilinear(p3, xj, xi)),
            ) == gf_add(
                gf_add(bilinear(p1, vi, vj), bilinear(p1, vj, vi)),
                gf_add(bilinear(l, vi, xj), bilinear(l, vj, xi)),
            )
        }),
{
    lemma_expand_pair(oil, p1, p2, vi, vj, xi, xj, nv, no);
    lemma_expand_pair(oil, p1, p2, vj, vi, xj, xi, nv, no);
    lemma_oil_form_is_matrix(oil, p1, p2, nv, no);
    let f = oil_form(oil, p1, p2);
    lemma_upper_same_form(f, xi, xj, no);
    let si = moved(oil, vi, xi);
    let sj = moved(oil, vj, xj);
    let p3 = p3_matrix(oil, p1, p2);
    let l = l_matrix(oil, p1, p2);
    let a1 = bilinear(p1, si, sj);
    let a2 = bilinear(p1, sj, si);
    let b1 = bilinear(p2, si, xj);
    let b2 = bilinear(p2, sj, xi);
    let c1 = bilinear(p3, xi, xj);
    let c2 = bilinear(p3, xj, xi);
    let u1 = bilinear(p1, vi, vj);
    let u2 = bilinear(p1, vj, vi);
    let w1 = bilinear(l, vi, xj);
    let w2 = bilinear(l, vj, xi);
    let d1 = bilinear(p1, mat_vec(oil, xi), vj);
    let d2 = bilinear(p1, mat_vec(oil, xj), vi);
    let f1 = bilinear(f, xi, xj);
    let f2 = bilinear(f, xj, xi);
    assert(gf_add(gf_add(gf_add(a1, a2), gf_add(b1, b2)), gf_add(c1, c2)) == gf_add(
        gf_add(u1, u2),
        gf_add(w1, w2),
    )) by (bit_vector)
        requires
            gf_add(gf_add(gf_add(a1, b1), c1), gf_add(u1, w1)) == gf_add(
                gf_add(d1, d2),
                gf_add(f1, c1),
            ),
            gf_add(gf_add(gf_add(a2, b2), c2), gf_add(u2, w2)) == gf_add(
                gf_add(d2, d1),
                gf_add(f2, c2),
            ),
            gf_add(f1, f2) == gf_add(c1, c2),
    ;
}

/// The sum, over the first `b` blocks, of a block of a row applied to the
/// matching block of `x`.
pub open spec fn block_apply(rb: Seq<Seq<u8>>, x: Seq<u8>, o: nat, b: nat) -> u8
    decreases b,
{
    if b == 0 {
        0
    } else {
        gf_add(block_apply(rb, x, o, (b - 1) as nat), dot(rb[b - 1], split_block(x, o, b - 1)))
    }
}

/// What a row applied to `x` gives depends on its first `b` blocks only.
pub proof fn lemma_block_apply_ext(rb1: Seq<Seq<u8>>, rb2: Seq<Seq<u8>>, x: Seq<u8>, o: nat, b: nat)
    requires
        forall|i: int| 0 <= i < b ==> rb1[i] == rb2[i],
    ensures
        block_apply(rb1, x, o, b) == block_apply(rb2, x, o, b),
    decreases b,
{
    if b > 0 {
        lemma_block_apply_ext(rb1, rb2, x, o, (b - 1) as nat);
    }
}

/// A row of zero blocks applied to `x` gives zero.
pub proof fn lemma_block_apply_zero(rb: Seq<Seq<u8>>, x: Seq<u8>, o: nat, k: nat, b: nat)
    requires
        is_vec(x),
        x.len() == k * o,
        b <= k,
        forall|i: int| 0 <= i < b ==> rb[i] == zeros(o),
    ensures
        block_apply(rb, x, o, b) == 0,
    decreases b,
{
    if b > 0 {
        lemma_block_apply_zero(rb, x, o, k, (b - 1) as nat);
        let xb = split_block(x, o, b - 1);
        lemma_split_block_is_vec(x, o, k, b - 1);
        assert forall|c: int| 0 <= c < o implies #[trigger] gf_mul(rb[b - 1][c], xb[c]) == 0 by {
            lemma_mul_identity(xb[c]);
        }
        lemma_dot_upto_vanishes(rb[b - 1], xb, o);
        lemma_add_laws(0, 0, 0);
    }
}

/// Adding `d` to block `i` of a row adds `d` applied to block `i` of `x`.
pub proof fn lemma_block_apply_update(
    rb: Seq<Seq<u8>>,
    x: Seq<u8>,
    o: nat,
    k: nat,
    b: nat,
    i: int,
    d: Seq<u8>,
)
    requires
        is_vec(x),
        x.len() == k * o,
        b <= k,
        b <= rb.len(),
        0 <= i < b,
        forall|t: int| 0 <= t < b ==> is_vec(#[trigger] rb[t]) && rb[t].len() == o,
        is_vec(d),
        d.len() == o,
    ensures
        block_apply(rb.update(i, vec_add(rb[i], d)), x, o, b) == gf_add(
            block_apply(rb, x, o, b),
            dot(d, split_block(x, o, i)),
        ),
    decreases b,
{
    let rb2 = rb.update(i, vec_add(rb[i], d));
    let k1 = (b - 1) as nat;
    let xb = split_block(x, o, b - 1);
    lemma_split_block_is_vec(x, o, k, b - 1);
    if i == b - 1 {
        lemma_block_apply_ext(rb2, rb, x, o, k1);
        assert(is_vec(rb[i]));
        lemma_dot_upto_add_left(rb[i], d, rb2[i], xb, o);
        lemma_add_laws(block_apply(rb, x, o, k1), dot(rb[i], xb), dot(d, xb));
    } else {
        lemma_block_apply_update(rb, x, o, k, k1, i, d);
        assert(rb2[b - 1] == rb[b - 1]);
        lemma_add_rearrange(
            block_apply(rb, x, o, k1),
            dot(d, split_block(x, o, i)),
            dot(rb[b - 1], xb),
            0,
        );
    }
}

/// Applying a row laid out block after block to `x` is applying each block to
/// the matching block of `x`.
pub proof fn lemma_concat_dot(rb: Seq<Seq<u8>>, x: Seq<u8>, o: nat, k: nat, b: nat)
    requires
        x.len() == k * o,
        b <= k,
        b <= rb.len(),
        forall|t: int| 0 <= t < b ==> (#[trigger] rb[t]).len() == o,
    ensures
        concat_upto(rb, b).len() == b * o,
        b * o <= k * o,
        dot_upto(concat_upto(rb, b), x, b * o) == block_apply(rb, x, o, b),
    decreases b,
{
    lemma_concat_upto_len(rb, o, b);
    if b == 0 {
        assert(0 * o == 0) by (nonlinear_arith);
        assert(0 <= k * o) by (nonlinear_arith)
            requires
                0 <= k,
                0 <= o,
        ;
    } else {
        let k1 = (b - 1) as nat;
        lemma_concat_dot(rb, x, o, k, k1);
        lemma_chunk_bounds(b - 1, k as int, o as int);
        let s1 = concat_upto(rb, k1);
        let s2 = rb[b - 1];
        lemma_dot_upto_concat(s1, s2, x, o);
        let tail = x.subrange(s1.len() as int, x.len() as int);
        let xb = split_block(x, o, b - 1);
        assert forall|t: int| 0 <= t < o implies tail[t] == xb[t] by {}
        lemma_dot_upto_ext(s2, tail, s2, xb, o);
    }
}

/// The vectors of all pairs for the part of the public map that is linear in
/// the oil unknowns: for the pair `(i, j)`, `M_i x_i` when `i = j` and
/// `M_i x_j + M_j x_i` else.
pub open spec fn linear_terms(ms: Seq<Seq<Seq<u8>>>, x: Seq<u8>, o: nat) -> Seq<Seq<u8>> {
    Seq::new(
        num_pairs(ms.len()),
        |l: int|
            {
                let p = pair_of(ms.len() as int, l as nat);
                paired_rows(
                    ms[p.0],
                    ms[p.1],
                    split_block(x, o, p.0),
                    split_block(x, o, p.1),
                    p.0 == p.1,
                )
            },
    )
}

/// The coefficient matrix built from the first `l` pairs, applied to `x`, is
/// the combination of the linear terms of those pairs.
pub proof fn lemma_system_apply(
    ms: Seq<Seq<Seq<u8>>>,
    f_tail: Seq<u8>,
    x: Seq<u8>,
    k: nat,
    m: nat,
    o: nat,
    l: nat,
)
    requires
        is_batch(ms, k, m, o),
        is_vec(f_tail),
        is_vec(x),
        x.len() == k * o,
        l <= num_pairs(k),
    ensures
        is_batch(system_blocks(ms, f_tail, k, m, o, l), k, m, o),
        forall|a: int|
            0 <= a < m ==> block_apply(
                #[trigger] block_row(system_blocks(ms, f_tail, k, m, o, l), a),
                x,
                o,
                k,
            ) == whip_upto(linear_terms(ms, x, o), f_tail, m, l)[a],
    decreases l,
{
    let sys = system_blocks(ms, f_tail, k, m, o, l);
    let terms = linear_terms(ms, x, o);
    if l == 0 {
        assert forall|b: int| 0 <= b < k implies is_matrix(#[trigger] sys[b], m, o) by {
            assert(sys[b] == zero_mat(m, o));
            assert forall|a: int| 0 <= a < m implies is_vec(#[trigger] sys[b][a]) by {}
        }
        assert forall|a: int| 0 <= a < m implies block_apply(
            #[trigger] block_row(sys, a),
            x,
            o,
            k,
        ) == whip_upto(terms, f_tail, m, l)[a] by {
            let rb = block_row(sys, a);
            assert forall|b: int| 0 <= b < k implies rb[b] == zeros(o) by {
                assert(sys[b] == zero_mat(m, o));
            }
            lemma_block_apply_zero(rb, x, o, k, k);
        }
    } else {
        let l1 = (l - 1) as nat;
        lemma_system_apply(ms, f_tail, x, k, m, o, l1);
        lemma_pair_of_valid(k, l1);
        let prev = system_blocks(ms, f_tail, k, m, o, l1);
        let p = pair_of(k as int, l1);
        let i = p.0;
        let j = p.1;
        let xi = split_block(x, o, i);
        let xj = split_block(x, o, j);
        lemma_split_block_is_vec(x, o, k, i);
        lemma_split_block_is_vec(x, o, k, j);
        assert(is_matrix(ms[i], m, o) && is_matrix(ms[j], m, o));
        let si = shift_rows_pow(ms[j], f_tail, o, l1);
        let sj = shift_rows_pow(ms[i], f_tail, o, l1);
        lemma_shift_rows_pow_is_matrix(ms[j], f_tail, m, o, l1);
        lemma_shift_rows_pow_is_matrix(ms[i], f_tail, m, o, l1);
        lemma_shift_rows_pow_mat_vec(ms[j], f_tail, xi, m, o, l1);
        lemma_shift_rows_pow_mat_vec(ms[i], f_tail, xj, m, o, l1);
        let mji = mat_vec(ms[j], xi);
        let mij = mat_vec(ms[i], xj);
        lemma_mat_vec_is_vec(ms[j], xi, m, o);
        lemma_mat_vec_is_vec(ms[i], xj, m, o);
        lemma_mul_z_pow_is_vec(mji, f_tail, l1);
        lemma_mul_z_pow_is_vec(mij, f_tail, l1);
        assert(is_matrix(prev[i], m, o));
        let first = prev.update(i, mat_add(prev[i], si));
        lemma_mat_add_is_matrix(prev[i], si, m, o);
        assert(is_batch(first, k, m, o)) by {
            assert forall|b: int| 0 <= b < k implies is_matrix(#[trigger] first[b], m, o) by {
                if b != i {
                    assert(first[b] == prev[b]);
                }
            }
        }
        assert(is_matrix(first[j], m, o));
        lemma_mat_add_is_matrix(first[j], sj, m, o);
        assert(is_batch(sys, k, m, o)) by {
            assert forall|b: int| 0 <= b < k implies is_matrix(#[trigger] sys[b], m, o) by {
                if i != j && b != j {
                    assert(sys[b] == first[b]);
                }
            }
        }
        lemma_whip_len(terms, f_tail, m, l1);
        assert forall|a: int| 0 <= a < m implies block_apply(
            #[trigger] block_row(sys, a),
            x,
            o,
            k,
        ) == whip_upto(terms, f_tail, m, l)[a] by {
            let rb0 = block_row(prev, a);
            assert(block_apply(rb0, x, o, k) == whip_upto(terms, f_tail, m, l1)[a]);
            assert forall|b: int| 0 <= b < k implies is_vec(#[trigger] rb0[b]) && rb0[b].len()
                == o by {
                assert(is_matrix(prev[b], m, o));
                assert(is_vec(prev[b][a]));
            }
            assert(is_vec(si[a]) && si[a].len() == o);
            assert(is_vec(sj[a]) && sj[a].len() == o);
            let rb1 = block_row(first, a);
            assert(rb1 =~= rb0.update(i, vec_add(rb0[i], si[a])));
            lemma_block_apply_update(rb0, x, o, k, k, i, si[a]);
            assert(dot(si[a], xi) == mat_vec(si, xi)[a]);
            let e1 = mul_z_pow(mji, f_tail, l1)[a];
            assert(dot(si[a], xi) == e1);
            let w = whip_upto(terms, f_tail, m, l1)[a];
            if i == j {
                assert(terms[l1 as int] =~= mji);
                assert(block_row(sys, a) == rb1);
            } else {
                let rb2 = block_row(sys, a);
                assert forall|b: int| 0 <= b < k implies is_vec(#[trigger] rb1[b]) && rb1[b].len()
                    == o by {
                    assert(is_matrix(first[b], m, o));
                    assert(is_vec(first[b][a]));
                }
                assert(rb2 =~= rb1.update(j, vec_add(rb1[j], sj[a])));
                lemma_block_apply_update(rb1, x, o, k, k, j, sj[a]);
                assert(dot(sj[a], xj) == mat_vec(sj, xj)[a]);
                let e2 = mul_z_pow(mij, f_tail, l1)[a];
                assert(dot(sj[a], xj) == e2);
                assert(terms[l1 as int] =~= vec_add(mij, mji));
                lemma_mul_z_pow_additive(mij, mji, f_tail, l1);
                lemma_add_laws(e1, e2, 0);
                lemma_add_laws(w, e1, e2);
            }
        }
    }
}

/// The row products of a vector with a batch of `m` matrices make an `m` by
/// `cols` matrix.
pub proof fn lemma_row_products_is_matrix(
    batch: Seq<Seq<Seq<u8>>>,
    x: Seq<u8>,
    m: nat,
    rows: nat,
    cols: nat,
)
    requires
        is_batch(batch, m, rows, cols),
        is_vec(x),
        x.len() == rows,
    ensures
        is_matrix(row_products(batch, x, cols), m, cols),
{
    let w = row_products(batch, x, cols);
    assert forall|a: int| 0 <= a < m implies is_vec(#[trigger] w[a]) && w[a].len() == cols by {
        assert(is_matrix(batch[a], rows, cols));
        lemma_vec_mat_is_vec(x, batch[a], rows, cols);
    }
}

/// The vector of a pair is a vector of `m` field elements, whose entry for
/// equation `a` is the form of `batch[a]` on the pair.
pub proof fn lemma_paired_terms_entry(
    batch: Seq<Seq<Seq<u8>>>,
    xs: Seq<Seq<u8>>,
    ys: Seq<Seq<u8>>,
    k: nat,
    m: nat,
    rows: nat,
    cols: nat,
    l: int,
)
    requires
        is_batch(batch, m, rows, cols),
        is_matrix(xs, k, rows),
        is_matrix(ys, k, cols),
        0 <= l < num_pairs(k),
    ensures
        is_vec(paired_terms(batch, xs, ys)[l]),
        paired_terms(batch, xs, ys)[l].len() == m,
        ({
            let p = pair_of(k as int, l as nat);
            forall|a: int|
                0 <= a < m ==> #[trigger] paired_terms(batch, xs, ys)[l][a] == (if p.0 == p.1 {
                    bilinear(batch[a], xs[p.0], ys[p.0])
                } else {
                    gf_add(
                        bilinear(batch[a], xs[p.0], ys[p.1]),
                        bilinear(batch[a], xs[p.1], ys[p.0]),
                    )
                })
        }),
{
    lemma_pair_of_valid(k, l as nat);
    let p = pair_of(k as int, l as nat);
    let xi = xs[p.0];
    let xj = xs[p.1];
    let yi = ys[p.0];
    let yj = ys[p.1];
    assert(is_vec(xi) && is_vec(xj) && is_vec(yi) && is_vec(yj));
    lemma_row_products_is_matrix(batch, xi, m, rows, cols);
    lemma_row_products_is_matrix(batch, xj, m, rows, cols);
    lemma_paired_rows_is_vec(
        row_products(batch, xi, cols),
        row_products(batch, xj, cols),
        yi,
        yj,
        p.0 == p.1,
        m,
        cols,
    );
    assert(paired_terms(batch, xs, ys)[l] == pair_vector(batch, xi, xj, yi, yj, p.0 == p.1));
}

/// The public map on a signature made of a solution of the signing system is
/// the target: for vinegar vectors `vs` and an oil solution `x` of
/// `A x = t - (vinegar part)`, the blocks `(v_i + O x_i, x_i)` are taken to `t`.
pub proof fn lemma_map_on_signature(
    oil: Seq<Seq<u8>>,
    p1: Seq<Seq<Seq<u8>>>,
    p2: Seq<Seq<Seq<u8>>>,
    vs: Seq<Seq<u8>>,
    x: Seq<u8>,
    t: Seq<u8>,
    f_tail: Seq<u8>,
    k: nat,
    m: nat,
    nv: nat,
    no: nat,
)
    requires
        0 < nv,
        0 < no,
        is_matrix(oil, nv, no),
        is_batch(p1, m, nv, nv),
        is_batch(p2, m, nv, no),
        is_matrix(vs, k, nv),
        is_vec(x),
        x.len() == k * no,
        is_vec(t),
        t.len() == m,
        is_vec(f_tail),
        solves(
            augmented(
                system_blocks(
                    products_of(l_batch(oil, p1, p2), vs, no),
                    f_tail,
                    k,
                    m,
                    no,
                    num_pairs(k),
                ),
                vec_add(t, whipped_form(p1, vs, vs, f_tail)),
            ),
            x,
            k * no,
        ),
    ensures
        ({
            let xs = Seq::new(k, |i: int| split_block(x, no, i));
            let ss = Seq::new(k, |i: int| moved(oil, vs[i], split_block(x, no, i)));
            vec_add(
                vec_add(whipped_form(p1, ss, ss, f_tail), whipped_form(p2, ss, xs, f_tail)),
                whipped_form(p3_batch(oil, p1, p2), xs, xs, f_tail),
            ) == t
        }),
{
    let xs = Seq::new(k, |i: int| split_block(x, no, i));
    let ss = Seq::new(k, |i: int| moved(oil, vs[i], split_block(x, no, i)));
    let lb = l_batch(oil, p1, p2);
    let p3b = p3_batch(oil, p1, p2);
    let big = num_pairs(k);
    // the derived batches and vectors are well formed
    assert(is_batch(lb, m, nv, no) && is_batch(p3b, m, no, no)) by {
        assert forall|a: int| 0 <= a < m implies is_matrix(#[trigger] lb[a], nv, no) by {
            assert(is_matrix(p1[a], nv, nv) && is_matrix(p2[a], nv, no));
            lemma_oil_form_is_matrix(oil, p1[a], p2[a], nv, no);
        }
        assert forall|a: int| 0 <= a < m implies is_matrix(#[trigger] p3b[a], no, no) by {
            assert(is_matrix(p1[a], nv, nv) && is_matrix(p2[a], nv, no));
            lemma_oil_form_is_matrix(oil, p1[a], p2[a], nv, no);
        }
    }
    assert(is_matrix(xs, k, no)) by {
        assert forall|i: int| 0 <= i < k implies is_vec(#[trigger] xs[i]) && xs[i].len() == no by {
            lemma_split_block_is_vec(x, no, k, i);
        }
    }
    assert(is_matrix(ss, k, nv)) by {
        assert forall|i: int| 0 <= i < k implies is_vec(#[trigger] ss[i]) && ss[i].len() == nv by {
            assert(is_vec(vs[i]));
            assert(is_vec(xs[i]));
            lemma_mat_vec_is_vec(oil, xs[i], nv, no);
            lemma_vec_add_is_vec(vs[i], mat_vec(oil, xs[i]));
        }
    }
    let ms = products_of(lb, vs, no);
    assert(is_batch(ms, k, m, no)) by {
        assert forall|i: int| 0 <= i < k implies is_matrix(#[trigger] ms[i], m, no) by {
            assert(is_vec(vs[i]));
            lemma_row_products_is_matrix(lb, vs[i], m, nv, no);
        }
    }
    let t1 = paired_terms(p1, ss, ss);
    let t2 = paired_terms(p2, ss, xs);
    let t3 = paired_terms(p3b, xs, xs);
    let u = paired_terms(p1, vs, vs);
    let w = paired_terms(lb, vs, xs);
    let t12 = Seq::new(big, |l: int| vec_add(t1[l], t2[l]));
    let t123 = Seq::new(big, |l: int| vec_add(t12[l], t3[l]));
    let uw = Seq::new(big, |l: int| vec_add(u[l], w[l]));
    assert forall|l: int| 0 <= l < big implies is_vec(#[trigger] t1[l]) && t1[l].len() == m by {
        lemma_paired_terms_entry(p1, ss, ss, k, m, nv, nv, l);
    }
    assert forall|l: int| 0 <= l < big implies is_vec(#[trigger] t2[l]) && t2[l].len() == m by {
        lemma_paired_terms_entry(p2, ss, xs, k, m, nv, no, l);
    }
    assert forall|l: int| 0 <= l < big implies is_vec(#[trigger] t3[l]) && t3[l].len() == m by {
        lemma_paired_terms_entry(p3b, xs, xs, k, m, no, no, l);
    }
    assert forall|l: int| 0 <= l < big implies is_vec(#[trigger] u[l]) && u[l].len() == m by {
        lemma_paired_terms_entry(p1, vs, vs, k, m, nv, nv, l);
    }
    assert forall|l: int| 0 <= l < big implies is_vec(#[trigger] w[l]) && w[l].len() == m by {
        lemma_paired_terms_entry(lb, vs, xs, k, m, nv, no, l);
    }
    assert forall|l: int| 0 <= l < big implies is_vec(#[trigger] t12[l]) && t12[l].len() == m by {
        assert(is_vec(t1[l]) && is_vec(t2[l]));
        lemma_vec_add_is_vec(t1[l], t2[l]);
    }
    assert forall|l: int| 0 <= l < big implies #[trigger] t123[l] == uw[l] by {
        lemma_paired_terms_entry(p1, ss, ss, k, m, nv, nv, l);
        lemma_paired_terms_entry(p2, ss, xs, k, m, nv, no, l);
        lemma_paired_terms_entry(p3b, xs, xs, k, m, no, no, l);
        lemma_paired_terms_entry(p1, vs, vs, k, m, nv, nv, l);
        lemma_paired_terms_entry(lb, vs, xs, k, m, nv, no, l);
        assert(is_vec(t12[l]) && t12[l].len() == m);
        lemma_pair_of_valid(k, l as nat);
        let p = pair_of(k as int, l as nat);
        assert(is_vec(vs[p.0]) && is_vec(vs[p.1]) && is_vec(xs[p.0]) && is_vec(xs[p.1]));
        assert forall|a: int| 0 <= a < m implies #[trigger] t123[l][a] == uw[l][a] by {
            assert(is_matrix(p1[a], nv, nv) && is_matrix(p2[a], nv, no));
            if p.0 == p.1 {
                lemma_pair_same(oil, p1[a], p2[a], vs[p.0], xs[p.0], nv, no);
            } else {
                lemma_pair_diff(oil, p1[a], p2[a], vs[p.0], vs[p.1], xs[p.0], xs[p.1], nv, no);
            }
            assert(t1[l][a] == paired_terms(p1, ss, ss)[l][a]);
            assert(t2[l][a] == paired_terms(p2, ss, xs)[l][a]);
            assert(t3[l][a] == paired_terms(p3b, xs, xs)[l][a]);
            assert(u[l][a] == paired_terms(p1, vs, vs)[l][a]);
            assert(w[l][a] == paired_terms(lb, vs, xs)[l][a]);
        }
        assert(t123[l] =~= uw[l]);
    }
    assert(t123 =~= uw);
    lemma_whip_additive(t1, t2, t12, f_tail, m, big);
    lemma_whip_additive(t12, t3, t123, f_tail, m, big);
    lemma_whip_additive(u, w, uw, f_tail, m, big);
    // the system says that the linear part is the right-hand side
    let sys = system_blocks(ms, f_tail, k, m, no, big);
    let wu = whip_upto(u, f_tail, m, big);
    let ww = whip_upto(w, f_tail, m, big);
    let y = vec_add(t, wu);
    let aug = augmented(sys, y);
    lemma_whip_len(u, f_tail, m, big);
    lemma_whip_len(w, f_tail, m, big);
    lemma_system_apply(ms, f_tail, x, k, m, no, big);
    let lin = linear_terms(ms, x, no);
    assert(w =~= lin) by {
        assert forall|l: int| 0 <= l < big implies #[trigger] w[l] == lin[l] by {
            lemma_pair_of_valid(k, l as nat);
            let p = pair_of(k as int, l as nat);
            assert(xs[p.0].len() == no);
        }
    }
    let lhs = vec_add(wu, ww);
    assert forall|a: int| 0 <= a < m implies #[trigger] lhs[a] == t[a] by {
        let rb = block_row(sys, a);
        assert(satisfies(aug[a], x, k * no));
        assert forall|b: int| 0 <= b < k implies (#[trigger] rb[b]).len() == no by {
            assert(is_matrix(sys[b], m, no));
        }
        lemma_concat_dot(rb, x, no, k, k);
        let row = concat_upto(rb, k);
        assert(aug[a] == row + seq![y[a]]);
        lemma_dot_upto_ext(aug[a], x, row, x, k * no);
        assert(aug[a][(k * no) as int] == y[a]);
        assert(ww[a] == y[a]);
        lemma_add_rearrange(t[a], wu[a], 0, 0);
        lemma_add_laws(wu[a], gf_add(t[a], wu[a]), 0);
    }
    assert(lhs =~= t);
}

} // verus!
