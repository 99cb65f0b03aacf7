//! Combining the blocks of a signature.
//!
//! A vector of `m` field elements is read as a polynomial in `z` of degree
//! below `m`, its entries being the coefficients from the constant term up.
//! The pairs of blocks `(i, j)` with `i <= j` are taken in a fixed order, and
//! the vector that belongs to the pair of rank `l` enters the sum multiplied by
//! `z^l` modulo `f(z) = z^m + f_tail(z)`.

use crate::bytes::copy_vector;
use crate::codec::lemma_chunk_bounds;
use crate::field::{
    gf_add, gf_mul, lemma_add_closed, lemma_add_laws, lemma_add_rearrange, lemma_mul_closed,
    lemma_mul_distributive, lemma_mul_identity,
};
use crate::linalg::{
    is_matrix, is_vec, lemma_dot_upto_add_left, lemma_dot_upto_scale_left, lemma_dot_upto_vanishes,
    lemma_mat_vec_is_vec, lemma_vec_scale_is_vec, mat_vec, mat_view, vec_add, vec_scale, zeros,
};
use vstd::prelude::*;

verus! {

/// Coefficient `i` of the tail of `f`; zero beyond its length.
pub open spec fn tail_coeff(f_tail: Seq<u8>, i: int) -> u8 {
    if 0 <= i < f_tail.len() {
        f_tail[i]
    } else {
        0
    }
}

/// The polynomial `u` multiplied by `z` modulo `f`: the coefficients move up
/// by one, and the highest, times the tail of `f`, is added in.
pub open spec fn mul_z(u: Seq<u8>, f_tail: Seq<u8>) -> Seq<u8> {
    Seq::new(
        u.len(),
        |i: int|
            gf_add(
                if i > 0 {
                    u[i - 1]
                } else {
                    0
                },
                gf_mul(tail_coeff(f_tail, i), u[u.len() - 1]),
            ),
    )
}

/// The polynomial `u` multiplied by `z^l` modulo `f`.
pub open spec fn mul_z_pow(u: Seq<u8>, f_tail: Seq<u8>, l: nat) -> Seq<u8>
    decreases l,
{
    if l == 0 {
        u
    } else {
        mul_z(mul_z_pow(u, f_tail, (l - 1) as nat), f_tail)
    }
}

/// The matrix whose every column is the column of `n` multiplied by `z`
/// modulo `f`. `n` has one row per coefficient and `w` columns.
pub open spec fn shift_rows(n: Seq<Seq<u8>>, f_tail: Seq<u8>, w: nat) -> Seq<Seq<u8>> {
    Seq::new(
        n.len(),
        |a: int|
            Seq::new(
                w,
                |c: int|
                    gf_add(
                        if a > 0 {
                            n[a - 1][c]
                        } else {
                            0
                        },
                        gf_mul(tail_coeff(f_tail, a), n[n.len() - 1][c]),
                    ),
            ),
    )
}

/// The matrix whose every column is the column of `n` multiplied by `z^l`
/// modulo `f`.
pub open spec fn shift_rows_pow(n: Seq<Seq<u8>>, f_tail: Seq<u8>, w: nat, l: nat) -> Seq<Seq<u8>>
    decreases l,
{
    if l == 0 {
        n
    } else {
        shift_rows(shift_rows_pow(n, f_tail, w, (l - 1) as nat), f_tail, w)
    }
}

/// The pair that follows `p` among the pairs of `k` blocks: within a row the
/// second index runs down to the first, then the next row starts at `k - 1`.
pub open spec fn next_pair(k: int, p: (int, int)) -> (int, int) {
    if p.1 > p.0 {
        (p.0, p.1 - 1)
    } else {
        (p.0 + 1, k - 1)
    }
}

/// The pair of rank `l`.
pub open spec fn pair_of(k: int, l: nat) -> (int, int)
    decreases l,
{
    if l == 0 {
        (0, k - 1)
    } else {
        next_pair(k, pair_of(k, (l - 1) as nat))
    }
}

/// How many pairs have their first index below `i`.
pub open spec fn pairs_before(k: nat, i: nat) -> nat
    decreases i,
{
    if i == 0 {
        0
    } else {
        pairs_before(k, (i - 1) as nat) + (k - (i - 1)) as nat
    }
}

/// The number of pairs `(i, j)` with `i <= j < k`.
pub open spec fn num_pairs(k: nat) -> nat {
    pairs_before(k, k)
}

/// The sum of the first `l` vectors of `us`, the one of rank `r` multiplied by
/// `z^r` modulo `f`.
pub open spec fn whip_upto(us: Seq<Seq<u8>>, f_tail: Seq<u8>, m: nat, l: nat) -> Seq<u8>
    decreases l,
{
    if l == 0 {
        zeros(m)
    } else {
        vec_add(
            whip_upto(us, f_tail, m, (l - 1) as nat),
            mul_z_pow(us[l - 1], f_tail, (l - 1) as nat),
        )
    }
}

/// The first `b` of a sequence of vectors, one after the other.
pub open spec fn concat_upto(blocks: Seq<Seq<u8>>, b: nat) -> Seq<u8>
    decreases b,
{
    if b == 0 {
        Seq::empty()
    } else {
        concat_upto(blocks, (b - 1) as nat) + blocks[b - 1]
    }
}

/// Block `i` of a vector cut into blocks of `w` entries.
pub open spec fn split_block(x: Seq<u8>, w: nat, i: int) -> Seq<u8> {
    x.subrange(i * w, i * w + w)
}

/// The concatenation of `b` blocks of `w` entries has `b * w` entries.
pub proof fn lemma_concat_upto_len(blocks: Seq<Seq<u8>>, w: nat, b: nat)
    requires
        b <= blocks.len(),
        forall|i: int| 0 <= i < b ==> (#[trigger] blocks[i]).len() == w,
    ensures
        concat_upto(blocks, b).len() == b * w,
    decreases b,
{
    if b == 0 {
        assert(0 * w == 0) by (nonlinear_arith);
    } else {
        lemma_concat_upto_len(blocks, w, (b - 1) as nat);
        assert(b * w == (b - 1) * w + w) by (nonlinear_arith);
    }
}

/// The entries of block `i` stand at `i * w` in the concatenation.
pub proof fn lemma_concat_block(blocks: Seq<Seq<u8>>, w: nat, k: nat, i: int, t: int)
    requires
        k <= blocks.len(),
        forall|b: int| 0 <= b < k ==> (#[trigger] blocks[b]).len() == w,
        0 <= i < k,
        0 <= t < w,
    ensures
        concat_upto(blocks, k).len() == k * w,
        0 <= i * w + t < k * w,
        concat_upto(blocks, k)[i * w + t] == blocks[i][t],
    decreases k,
{
    lemma_concat_upto_len(blocks, w, k);
    lemma_concat_upto_len(blocks, w, (k - 1) as nat);
    lemma_chunk_bounds(i, k as int, w as int);
    if i == k - 1 {
    } else {
        lemma_concat_block(blocks, w, (k - 1) as nat, i, t);
    }
}

/// The concatenation of vectors of field elements is one.
pub proof fn lemma_concat_is_vec(blocks: Seq<Seq<u8>>, k: nat)
    requires
        k <= blocks.len(),
        forall|b: int| 0 <= b < k ==> is_vec(#[trigger] blocks[b]),
    ensures
        is_vec(concat_upto(blocks, k)),
    decreases k,
{
    if k > 0 {
        lemma_concat_is_vec(blocks, (k - 1) as nat);
        assert(is_vec(blocks[k - 1]));
    }
}

/// A block of a vector of field elements is a vector of field elements.
pub proof fn lemma_split_block_is_vec(x: Seq<u8>, o: nat, k: nat, i: int)
    requires
        is_vec(x),
        x.len() == k * o,
        0 <= i < k,
    ensures
        is_vec(split_block(x, o, i)),
        split_block(x, o, i).len() == o,
        0 <= i * o,
        i * o + o <= k * o,
{
    lemma_chunk_bounds(i, k as int, o as int);
    let b = split_block(x, o, i);
    assert forall|t: int| 0 <= t < b.len() implies #[trigger] b[t] < 16 by {
        assert(b[t] == x[i * o + t]);
    }
}

/// Later rows of pairs have more pairs before them.
pub proof fn lemma_pairs_before_monotonic(k: nat, i: nat, j: nat)
    requires
        i <= j <= k,
    ensures
        pairs_before(k, i) <= pairs_before(k, j),
        i < j ==> pairs_before(k, i) < pairs_before(k, j),
    decreases j,
{
    if i < j {
        lemma_pairs_before_monotonic(k, i, (j - 1) as nat);
    }
}

/// The pair of a rank below the number of pairs is a pair `(i, j)` with
/// `i <= j < k`, and its rank counts the pairs before it.
pub proof fn lemma_pair_of_valid(k: nat, l: nat)
    requires
        l < num_pairs(k),
    ensures
        0 <= pair_of(k as int, l).0 <= pair_of(k as int, l).1 < k,
        l == pairs_before(k, pair_of(k as int, l).0 as nat) + (k - 1 - pair_of(k as int, l).1),
    decreases l,
{
    if l == 0 {
        if k == 0 {
            assert(pairs_before(0, 0) == 0);
        }
    } else {
        lemma_pair_of_valid(k, (l - 1) as nat);
        let p = pair_of(k as int, (l - 1) as nat);
        if p.1 > p.0 {
        } else {
            assert(pairs_before(k, (p.0 + 1) as nat) == pairs_before(k, p.0 as nat) + (k - p.0));
            if p.0 + 1 >= k {
                assert(false);
            }
        }
    }
}

/// A polynomial over the field times `z` is one of the same length.
pub proof fn lemma_mul_z_is_vec(u: Seq<u8>, f_tail: Seq<u8>)
    requires
        is_vec(u),
        is_vec(f_tail),
    ensures
        is_vec(mul_z(u, f_tail)),
        mul_z(u, f_tail).len() == u.len(),
{
    let r = mul_z(u, f_tail);
    assert forall|i: int| 0 <= i < r.len() implies #[trigger] r[i] < 16 by {
        let c = tail_coeff(f_tail, i);
        let top = u[u.len() - 1];
        let low: u8 = if i > 0 {
            u[i - 1]
        } else {
            0
        };
        lemma_mul_closed(c, top);
        lemma_add_closed(low, gf_mul(c, top));
    }
}

/// A polynomial over the field times `z^l` is one of the same length.
pub proof fn lemma_mul_z_pow_is_vec(u: Seq<u8>, f_tail: Seq<u8>, l: nat)
    requires
        is_vec(u),
        is_vec(f_tail),
    ensures
        is_vec(mul_z_pow(u, f_tail, l)),
        mul_z_pow(u, f_tail, l).len() == u.len(),
    decreases l,
{
    if l > 0 {
        lemma_mul_z_pow_is_vec(u, f_tail, (l - 1) as nat);
        lemma_mul_z_is_vec(mul_z_pow(u, f_tail, (l - 1) as nat), f_tail);
    }
}

/// Multiplying the columns of a matrix by `z` keeps its shape.
pub proof fn lemma_shift_rows_is_matrix(n: Seq<Seq<u8>>, f_tail: Seq<u8>, rows: nat, w: nat)
    requires
        is_matrix(n, rows, w),
        is_vec(f_tail),
    ensures
        is_matrix(shift_rows(n, f_tail, w), rows, w),
{
    let r = shift_rows(n, f_tail, w);
    assert forall|a: int| 0 <= a < rows implies is_vec(#[trigger] r[a]) by {
        assert forall|c: int| 0 <= c < w implies #[trigger] r[a][c] < 16 by {
            let t = tail_coeff(f_tail, a);
            assert(is_vec(n[rows - 1]));
            let top = n[rows - 1][c];
            let low: u8 = if a > 0 {
                n[a - 1][c]
            } else {
                0
            };
            if a > 0 {
                assert(is_vec(n[a - 1]));
            }
            lemma_mul_closed(t, top);
            lemma_add_closed(low, gf_mul(t, top));
        }
    }
}

/// Multiplying the columns of a matrix by `z^l` keeps its shape.
pub proof fn lemma_shift_rows_pow_is_matrix(n: Seq<Seq<u8>>, f_tail: Seq<u8>, rows: nat, w: nat, l: nat)
    requires
        is_matrix(n, rows, w),
        is_vec(f_tail),
    ensures
        is_matrix(shift_rows_pow(n, f_tail, w, l), rows, w),
    decreases l,
{
    if l > 0 {
        lemma_shift_rows_pow_is_matrix(n, f_tail, rows, w, (l - 1) as nat);
        lemma_shift_rows_is_matrix(shift_rows_pow(n, f_tail, w, (l - 1) as nat), f_tail, rows, w);
    }
}

/// Multiplication by `z` modulo `f` is additive.
pub proof fn lemma_mul_z_additive(u: Seq<u8>, w: Seq<u8>, f_tail: Seq<u8>)
    requires
        is_vec(u),
        is_vec(w),
        is_vec(f_tail),
        u.len() == w.len(),
    ensures
        mul_z(vec_add(u, w), f_tail) == vec_add(mul_z(u, f_tail), mul_z(w, f_tail)),
{
    let s = vec_add(u, w);
    let lhs = mul_z(s, f_tail);
    let rhs = vec_add(mul_z(u, f_tail), mul_z(w, f_tail));
    let n = u.len() as int;
    assert forall|i: int| 0 <= i < n implies #[trigger] lhs[i] == rhs[i] by {
        let c = tail_coeff(f_tail, i);
        let ut = u[n - 1];
        let wt = w[n - 1];
        let ul: u8 = if i > 0 {
            u[i - 1]
        } else {
            0
        };
        let wl: u8 = if i > 0 {
            w[i - 1]
        } else {
            0
        };
        lemma_mul_distributive(c, ut, wt);
        lemma_add_rearrange(ul, gf_mul(c, ut), wl, gf_mul(c, wt));
        lemma_add_laws(0, 0, 0);
    }
    assert(lhs =~= rhs);
}

/// Multiplication by `z^l` modulo `f` is additive.
pub proof fn lemma_mul_z_pow_additive(u: Seq<u8>, w: Seq<u8>, f_tail: Seq<u8>, l: nat)
    requires
        is_vec(u),
        is_vec(w),
        is_vec(f_tail),
        u.len() == w.len(),
    ensures
        mul_z_pow(vec_add(u, w), f_tail, l) == vec_add(
            mul_z_pow(u, f_tail, l),
            mul_z_pow(w, f_tail, l),
        ),
    decreases l,
{
    if l > 0 {
        let k = (l - 1) as nat;
        lemma_mul_z_pow_additive(u, w, f_tail, k);
        lemma_mul_z_pow_is_vec(u, f_tail, k);
        lemma_mul_z_pow_is_vec(w, f_tail, k);
        lemma_mul_z_additive(mul_z_pow(u, f_tail, k), mul_z_pow(w, f_tail, k), f_tail);
    }
}

/// Combining is additive: where `zs` is the entry-wise sum of `us` and `ws`,
/// its combination is the sum of theirs.
pub proof fn lemma_whip_additive(
    us: Seq<Seq<u8>>,
    ws: Seq<Seq<u8>>,
    zs: Seq<Seq<u8>>,
    f_tail: Seq<u8>,
    m: nat,
    l: nat,
)
    requires
        is_vec(f_tail),
        l <= us.len(),
        l <= ws.len(),
        l <= zs.len(),
        forall|t: int| 0 <= t < l ==> is_vec(#[trigger] us[t]) && us[t].len() == m,
        forall|t: int| 0 <= t < l ==> is_vec(#[trigger] ws[t]) && ws[t].len() == m,
        forall|t: int| 0 <= t < l ==> #[trigger] zs[t] == vec_add(us[t], ws[t]),
    ensures
        whip_upto(zs, f_tail, m, l) == vec_add(
            whip_upto(us, f_tail, m, l),
            whip_upto(ws, f_tail, m, l),
        ),
    decreases l,
{
    let lhs = whip_upto(zs, f_tail, m, l);
    let rhs = vec_add(whip_upto(us, f_tail, m, l), whip_upto(ws, f_tail, m, l));
    if l == 0 {
        assert forall|i: int| 0 <= i < m implies #[trigger] lhs[i] == rhs[i] by {
            lemma_add_laws(0, 0, 0);
        }
        assert(lhs =~= rhs);
    } else {
        let k = (l - 1) as nat;
        lemma_whip_additive(us, ws, zs, f_tail, m, k);
        assert(is_vec(us[l - 1]) && is_vec(ws[l - 1]));
        assert(zs[l - 1] == vec_add(us[l - 1], ws[l - 1]));
        lemma_mul_z_pow_additive(us[l - 1], ws[l - 1], f_tail, k);
        lemma_mul_z_pow_is_vec(us[l - 1], f_tail, k);
        lemma_mul_z_pow_is_vec(ws[l - 1], f_tail, k);
        let a = whip_upto(us, f_tail, m, k);
        let b = whip_upto(ws, f_tail, m, k);
        let c = mul_z_pow(us[l - 1], f_tail, k);
        let d = mul_z_pow(ws[l - 1], f_tail, k);
        lemma_whip_len(us, f_tail, m, k);
        lemma_whip_len(ws, f_tail, m, k);
        lemma_whip_len(zs, f_tail, m, k);
        assert forall|i: int| 0 <= i < m implies #[trigger] lhs[i] == rhs[i] by {
            lemma_add_rearrange(a[i], b[i], c[i], d[i]);
        }
        lemma_whip_len(us, f_tail, m, l);
        lemma_whip_len(zs, f_tail, m, l);
        assert(lhs =~= rhs);
    }
}

/// A combination has `m` entries.
pub proof fn lemma_whip_len(us: Seq<Seq<u8>>, f_tail: Seq<u8>, m: nat, l: nat)
    ensures
        whip_upto(us, f_tail, m, l).len() == m,
    decreases l,
{
    if l > 0 {
        lemma_whip_len(us, f_tail, m, (l - 1) as nat);
    }
}

/// Multiplying the columns of a matrix by `z` and then applying it to a
/// vector is applying it and then multiplying by `z`.
pub proof fn lemma_shift_rows_mat_vec(n: Seq<Seq<u8>>, f_tail: Seq<u8>, x: Seq<u8>, rows: nat, w: nat)
    requires
        is_matrix(n, rows, w),
        is_vec(f_tail),
        is_vec(x),
        x.len() == w,
    ensures
        mat_vec(shift_rows(n, f_tail, w), x) == mul_z(mat_vec(n, x), f_tail),
{
    let sh = shift_rows(n, f_tail, w);
    let nx = mat_vec(n, x);
    let lhs = mat_vec(sh, x);
    let rhs = mul_z(nx, f_tail);
    lemma_mat_vec_is_vec(n, x, rows, w);
    assert forall|a: int| 0 <= a < rows implies #[trigger] lhs[a] == rhs[a] by {
        let t = tail_coeff(f_tail, a);
        let top = n[rows - 1];
        assert(is_vec(top) && top.len() == w);
        let low = if a > 0 {
            n[a - 1]
        } else {
            zeros(w)
        };
        if a > 0 {
            assert(is_vec(n[a - 1]) && n[a - 1].len() == w);
        }
        assert(is_vec(low) && low.len() == w);
        let sc = vec_scale(t, top);
        lemma_vec_scale_is_vec(t, top);
        assert forall|c: int| 0 <= c < w implies #[trigger] sh[a][c] == gf_add(low[c], sc[c]) by {}
        lemma_dot_upto_add_left(low, sc, sh[a], x, w);
        lemma_dot_upto_scale_left(t, top, sc, x, w);
        if a == 0 {
            assert forall|c: int| 0 <= c < w implies #[trigger] gf_mul(low[c], x[c]) == 0 by {
                lemma_mul_identity(x[c]);
            }
            lemma_dot_upto_vanishes(low, x, w);
        }
    }
    assert(lhs =~= rhs);
}

/// Multiplying the columns of a matrix by `z^l` and then applying it to a
/// vector is applying it and then multiplying by `z^l`.
pub proof fn lemma_shift_rows_pow_mat_vec(
    n: Seq<Seq<u8>>,
    f_tail: Seq<u8>,
    x: Seq<u8>,
    rows: nat,
    w: nat,
    l: nat,
)
    requires
        is_matrix(n, rows, w),
        is_vec(f_tail),
        is_vec(x),
        x.len() == w,
    ensures
        mat_vec(shift_rows_pow(n, f_tail, w, l), x) == mul_z_pow(mat_vec(n, x), f_tail, l),
    decreases l,
{
    if l > 0 {
        let k = (l - 1) as nat;
        lemma_shift_rows_pow_mat_vec(n, f_tail, x, rows, w, k);
        lemma_shift_rows_pow_is_matrix(n, f_tail, rows, w, k);
        lemma_shift_rows_mat_vec(shift_rows_pow(n, f_tail, w, k), f_tail, x, rows, w);
    }
}

/// Coefficient `i` of the tail of `f`.
fn tail_at(f_tail: &[u8], i: usize) -> (c: u8)
    requires
        is_vec(f_tail@),
    ensures
        c == tail_coeff(f_tail@, i as int),
        c < 16,
{
    if i < f_tail.len() {
        f_tail[i]
    } else {
        0
    }
}

/// Multiplies a polynomial by `z` modulo `f`.
pub fn times_z(u: &Vec<u8>, f_tail: &[u8]) -> (r: Vec<u8>)
    requires
        is_vec(u@),
        is_vec(f_tail@),
    ensures
        r@ == mul_z(u@, f_tail@),
        is_vec(r@),
        r.len() == u.len(),
{
    let n = u.len();
    let mut r: Vec<u8> = Vec::new();
    if n == 0 {
        assert(r@ =~= mul_z(u@, f_tail@));
        return r;
    }
    let top = u[n - 1];
    let mut i: usize = 0;
    while i < n
        invariant
            i <= n,
            n == u.len(),
            n > 0,
            top == u@[n - 1],
            is_vec(u@),
            is_vec(f_tail@),
            r@.len() == i,
            forall|t: int| 0 <= t < i ==> r@[t] == mul_z(u@, f_tail@)[t],
            is_vec(r@),
        decreases n - i,
    {
        let low: u8 = if i > 0 {
            u[i - 1]
        } else {
            0
        };
        let c = tail_at(f_tail, i);
        let e = crate::field::add(low, crate::field::mul(c, top));
        r.push(e);
        i += 1;
    }
    assert(r@ =~= mul_z(u@, f_tail@));
    r
}

/// Multiplies a polynomial by `z^l` modulo `f`.
pub fn times_z_pow(u: &Vec<u8>, f_tail: &[u8], l: usize) -> (r: Vec<u8>)
    requires
        is_vec(u@),
        is_vec(f_tail@),
    ensures
        r@ == mul_z_pow(u@, f_tail@, l as nat),
        is_vec(r@),
        r.len() == u.len(),
{
    let mut r = copy_vector(u);
    let mut t: usize = 0;
    while t < l
        invariant
            t <= l,
            is_vec(f_tail@),
            r@ == mul_z_pow(u@, f_tail@, t as nat),
            is_vec(r@),
            r.len() == u.len(),
        decreases l - t,
    {
        r = times_z(&r, f_tail);
        t += 1;
    }
    r
}

/// Multiplies every column of a matrix by `z` modulo `f`.
pub fn shift_matrix(n: &Vec<Vec<u8>>, f_tail: &[u8], w: usize) -> (r: Vec<Vec<u8>>)
    requires
        is_matrix(mat_view(n), n.len() as nat, w as nat),
        is_vec(f_tail@),
    ensures
        mat_view(&r) == shift_rows(mat_view(n), f_tail@, w as nat),
        is_matrix(mat_view(&r), n.len() as nat, w as nat),
{
    let rows = n.len();
    let ghost nv = mat_view(n);
    let ghost target = shift_rows(nv, f_tail@, w as nat);
    proof {
        lemma_shift_rows_is_matrix(nv, f_tail@, rows as nat, w as nat);
    }
    let mut r: Vec<Vec<u8>> = Vec::new();
    let mut a: usize = 0;
    while a < rows
        invariant
            a <= rows,
            rows == n.len(),
            nv == mat_view(n),
            target == shift_rows(nv, f_tail@, w as nat),
            is_matrix(nv, rows as nat, w as nat),
            is_vec(f_tail@),
            r@.len() == a,
            forall|t: int| 0 <= t < a ==> (#[trigger] r@[t])@ == target[t],
        decreases rows - a,
    {
        let c = tail_at(f_tail, a);
        let mut row: Vec<u8> = Vec::new();
        let mut col: usize = 0;
        while col < w
            invariant
                col <= w,
                a < rows,
                rows == n.len(),
                nv == mat_view(n),
                target == shift_rows(nv, f_tail@, w as nat),
                is_matrix(nv, rows as nat, w as nat),
                c == tail_coeff(f_tail@, a as int),
                c < 16,
                row@.len() == col,
                forall|t: int| 0 <= t < col ==> row@[t] == target[a as int][t],
            decreases w - col,
        {
            assert(nv[rows - 1] == n@[rows - 1]@);
            assert(is_vec(nv[rows - 1]) && nv[rows - 1].len() == w);
            let low: u8 = if a > 0 {
                assert(nv[a - 1] == n@[a - 1]@);
                assert(is_vec(nv[a - 1]) && nv[a - 1].len() == w);
                n[a - 1][col]
            } else {
                0
            };
            let e = crate::field::add(low, crate::field::mul(c, n[rows - 1][col]));
            row.push(e);
            col += 1;
        }
        assert(row@ =~= target[a as int]);
        r.push(row);
        a += 1;
    }
    assert(mat_view(&r) =~= target);
    r
}

/// A copy of a matrix.
fn copy_matrix(n: &Vec<Vec<u8>>) -> (r: Vec<Vec<u8>>)
    ensures
        mat_view(&r) == mat_view(n),
{
    let mut r: Vec<Vec<u8>> = Vec::new();
    let mut a: usize = 0;
    while a < n.len()
        invariant
            a <= n.len(),
            r@.len() == a,
            forall|t: int| 0 <= t < a ==> (#[trigger] r@[t])@ == n@[t]@,
        decreases n.len() - a,
    {
        let row = copy_vector(&n[a]);
        r.push(row);
        a += 1;
    }
    assert(mat_view(&r) =~= mat_view(n));
    r
}

/// Multiplies every column of a matrix by `z^l` modulo `f`.
pub fn shift_matrix_pow(n: &Vec<Vec<u8>>, f_tail: &[u8], w: usize, l: usize) -> (r: Vec<Vec<u8>>)
    requires
        is_matrix(mat_view(n), n.len() as nat, w as nat),
        is_vec(f_tail@),
    ensures
        mat_view(&r) == shift_rows_pow(mat_view(n), f_tail@, w as nat, l as nat),
        is_matrix(mat_view(&r), n.len() as nat, w as nat),
{
    let mut r = copy_matrix(n);
    let mut t: usize = 0;
    while t < l
        invariant
            t <= l,
            is_vec(f_tail@),
            r.len() == n.len(),
            mat_view(&r) == shift_rows_pow(mat_view(n), f_tail@, w as nat, t as nat),
            is_matrix(mat_view(&r), n.len() as nat, w as nat),
        decreases l - t,
    {
        r = shift_matrix(&r, f_tail, w);
        t += 1;
    }
    r
}

} // verus!
