//! The quadratic map, pair by pair.
//!
//! A batch of `m` matrices defines `m` bilinear forms. For a pair of blocks
//! `(i, j)` the forms are evaluated on the vectors of the two blocks, once in
//! each order when the blocks differ, and the `m` values make one vector. The
//! vectors of all pairs are then combined as polynomials modulo `f`.

use crate::field::{gf_add, lemma_add_closed};
use crate::linalg::{
    batch_view, dot, is_batch, is_matrix, is_vec, lemma_dot_upto_closed, mat_view, vec_mat,
};
use crate::matrix_arithmetics::{dot_product, vector_add, vector_matrix, zero_vector};
use crate::whipping::{
    lemma_mul_z_pow_is_vec, lemma_pairs_before_monotonic, mul_z_pow, num_pairs, pair_of,
    pairs_before, times_z_pow, whip_upto,
};
use vstd::prelude::*;

verus! {

/// For each matrix of a batch, the row vector `x` times that matrix.
pub open spec fn row_products(batch: Seq<Seq<Seq<u8>>>, x: Seq<u8>, cols: nat) -> Seq<Seq<u8>> {
    Seq::new(batch.len(), |a: int| vec_mat(x, batch[a], cols))
}

/// The row products of every vector of `xs`.
pub open spec fn products_of(batch: Seq<Seq<Seq<u8>>>, xs: Seq<Seq<u8>>, cols: nat) -> Seq<
    Seq<Seq<u8>>,
> {
    Seq::new(xs.len(), |i: int| row_products(batch, xs[i], cols))
}

/// From the row products `wi` and `wj` of two left vectors: for each form, its
/// value on the pair, `wi * yi` when the two blocks are the same and
/// `wi * yj + wj * yi` when they differ.
pub open spec fn paired_rows(
    wi: Seq<Seq<u8>>,
    wj: Seq<Seq<u8>>,
    yi: Seq<u8>,
    yj: Seq<u8>,
    same: bool,
) -> Seq<u8> {
    Seq::new(
        wi.len(),
        |a: int|
            if same {
                dot(wi[a], yi)
            } else {
                gf_add(dot(wi[a], yj), dot(wj[a], yi))
            },
    )
}

/// The values of the forms of a batch on one pair of blocks, with left
/// vectors `xi`, `xj` and right vectors `yi`, `yj`: `xi^T M yi` when the two
/// blocks are the same, `xi^T M yj + xj^T M yi` when they differ.
pub open spec fn pair_vector(
    batch: Seq<Seq<Seq<u8>>>,
    xi: Seq<u8>,
    xj: Seq<u8>,
    yi: Seq<u8>,
    yj: Seq<u8>,
    same: bool,
) -> Seq<u8> {
    paired_rows(
        row_products(batch, xi, yi.len()),
        row_products(batch, xj, yi.len()),
        yi,
        yj,
        same,
    )
}

/// The vectors of all pairs of blocks, in the order of the pairs.
pub open spec fn paired_terms(batch: Seq<Seq<Seq<u8>>>, xs: Seq<Seq<u8>>, ys: Seq<Seq<u8>>) -> Seq<
    Seq<u8>,
> {
    Seq::new(
        num_pairs(xs.len()),
        |l: int|
            {
                let p = pair_of(xs.len() as int, l as nat);
                pair_vector(batch, xs[p.0], xs[p.1], ys[p.0], ys[p.1], p.0 == p.1)
            },
    )
}

/// The forms of a batch evaluated on all pairs of blocks and combined modulo
/// `f`.
pub open spec fn whipped_form(
    batch: Seq<Seq<Seq<u8>>>,
    xs: Seq<Seq<u8>>,
    ys: Seq<Seq<u8>>,
    f_tail: Seq<u8>,
) -> Seq<u8> {
    whip_upto(paired_terms(batch, xs, ys), f_tail, batch.len(), num_pairs(xs.len()))
}

/// The values of `m` forms on a pair of blocks are `m` field elements.
pub proof fn lemma_paired_rows_is_vec(
    wi: Seq<Seq<u8>>,
    wj: Seq<Seq<u8>>,
    yi: Seq<u8>,
    yj: Seq<u8>,
    same: bool,
    m: nat,
    cols: nat,
)
    requires
        is_matrix(wi, m, cols),
        is_matrix(wj, m, cols),
        is_vec(yi),
        is_vec(yj),
        yi.len() == cols,
        yj.len() == cols,
    ensures
        is_vec(paired_rows(wi, wj, yi, yj, same)),
        paired_rows(wi, wj, yi, yj, same).len() == m,
{
    let r = paired_rows(wi, wj, yi, yj, same);
    assert forall|a: int| 0 <= a < r.len() implies #[trigger] r[a] < 16 by {
        assert(is_vec(wi[a]) && is_vec(wj[a]));
        lemma_dot_upto_closed(wi[a], yi, cols);
        lemma_dot_upto_closed(wi[a], yj, cols);
        lemma_dot_upto_closed(wj[a], yi, cols);
        lemma_add_closed(dot(wi[a], yj), dot(wj[a], yi));
    }
}

/// A combination of vectors of `m` field elements is one.
pub proof fn lemma_whip_upto_is_vec(us: Seq<Seq<u8>>, f_tail: Seq<u8>, m: nat, l: nat)
    requires
        l <= us.len(),
        is_vec(f_tail),
        forall|t: int| 0 <= t < l ==> is_vec(#[trigger] us[t]) && us[t].len() == m,
    ensures
        is_vec(whip_upto(us, f_tail, m, l)),
        whip_upto(us, f_tail, m, l).len() == m,
    decreases l,
{
    if l > 0 {
        lemma_whip_upto_is_vec(us, f_tail, m, (l - 1) as nat);
        assert(is_vec(us[l - 1]));
        lemma_mul_z_pow_is_vec(us[l - 1], f_tail, (l - 1) as nat);
        let a = whip_upto(us, f_tail, m, (l - 1) as nat);
        let b = mul_z_pow(us[l - 1], f_tail, (l - 1) as nat);
        let r = whip_upto(us, f_tail, m, l);
        assert forall|t: int| 0 <= t < r.len() implies #[trigger] r[t] < 16 by {
            lemma_add_closed(a[t], b[t]);
        }
    }
}

/// For each matrix of a batch, the row vector `x` times that matrix.
pub fn batch_products(batch: &Vec<Vec<Vec<u8>>>, x: &Vec<u8>, cols: usize) -> (r: Vec<Vec<u8>>)
    requires
        0 < x.len(),
        is_vec(x@),
        is_batch(batch_view(batch), batch.len() as nat, x.len() as nat, cols as nat),
    ensures
        mat_view(&r) == row_products(batch_view(batch), x@, cols as nat),
        is_matrix(mat_view(&r), batch.len() as nat, cols as nat),
{
    let ghost bv = batch_view(batch);
    let ghost target = row_products(bv, x@, cols as nat);
    let mut r: Vec<Vec<u8>> = Vec::new();
    let mut a: usize = 0;
    while a < batch.len()
        invariant
            a <= batch.len(),
            0 < x.len(),
            is_vec(x@),
            bv == batch_view(batch),
            target == row_products(bv, x@, cols as nat),
            is_batch(bv, batch.len() as nat, x.len() as nat, cols as nat),
            r@.len() == a,
            forall|t: int| 0 <= t < a ==> (#[trigger] r@[t])@ == target[t],
            forall|t: int| 0 <= t < a ==> is_vec((#[trigger] r@[t])@),
            forall|t: int| 0 <= t < a ==> (#[trigger] r@[t])@.len() == cols,
        decreases batch.len() - a,
    {
        let ghost mv = bv[a as int];
        assert(mv == mat_view(&batch@[a as int]));
        assert(is_matrix(mv, x.len() as nat, cols as nat));
        assert(mv[0].len() == cols);
        let row = vector_matrix(x, &batch[a]);
        r.push(row);
        a += 1;
    }
    assert(mat_view(&r) =~= target);
    r
}

/// The row products of every vector of `xs`.
pub fn all_products(batch: &Vec<Vec<Vec<u8>>>, xs: &Vec<Vec<u8>>, rows: usize, cols: usize) -> (r:
    Vec<Vec<Vec<u8>>>)
    requires
        0 < rows,
        is_matrix(mat_view(xs), xs.len() as nat, rows as nat),
        is_batch(batch_view(batch), batch.len() as nat, rows as nat, cols as nat),
    ensures
        batch_view(&r) == products_of(batch_view(batch), mat_view(xs), cols as nat),
        is_batch(batch_view(&r), xs.len() as nat, batch.len() as nat, cols as nat),
{
    let ghost target = products_of(batch_view(batch), mat_view(xs), cols as nat);
    let mut r: Vec<Vec<Vec<u8>>> = Vec::new();
    let mut i: usize = 0;
    while i < xs.len()
        invariant
            i <= xs.len(),
            0 < rows,
            target == products_of(batch_view(batch), mat_view(xs), cols as nat),
            is_matrix(mat_view(xs), xs.len() as nat, rows as nat),
            is_batch(batch_view(batch), batch.len() as nat, rows as nat, cols as nat),
            r@.len() == i,
            forall|t: int| 0 <= t < i ==> mat_view(#[trigger] &r@[t]) == target[t],
            forall|t: int|
                0 <= t < i ==> is_matrix(
                    mat_view(#[trigger] &r@[t]),
                    batch.len() as nat,
                    cols as nat,
                ),
        decreases xs.len() - i,
    {
        assert(mat_view(xs)[i as int] == xs@[i as int]@);
        assert(is_vec(mat_view(xs)[i as int]));
        let w = batch_products(batch, &xs[i], cols);
        r.push(w);
        i += 1;
    }
    assert(batch_view(&r) =~= target);
    r
}

/// The values of `m` forms on one pair of blocks, from the row products of
/// the two left vectors.
fn pair_values(wi: &Vec<Vec<u8>>, wj: &Vec<Vec<u8>>, yi: &Vec<u8>, yj: &Vec<u8>, same: bool) -> (r:
    Vec<u8>)
    requires
        is_matrix(mat_view(wi), wi.len() as nat, yi.len() as nat),
        is_matrix(mat_view(wj), wi.len() as nat, yi.len() as nat),
        yi.len() == yj.len(),
        is_vec(yi@),
        is_vec(yj@),
    ensures
        r@ == paired_rows(mat_view(wi), mat_view(wj), yi@, yj@, same),
        is_vec(r@),
        r.len() == wi.len(),
{
    let ghost target = paired_rows(mat_view(wi), mat_view(wj), yi@, yj@, same);
    proof {
        lemma_paired_rows_is_vec(
            mat_view(wi),
            mat_view(wj),
            yi@,
            yj@,
            same,
            wi.len() as nat,
            yi.len() as nat,
        );
    }
    let mut r: Vec<u8> = Vec::new();
    let mut a: usize = 0;
    while a < wi.len()
        invariant
            a <= wi.len(),
            wi.len() == wj.len(),
            target == paired_rows(mat_view(wi), mat_view(wj), yi@, yj@, same),
            is_vec(target),
            is_matrix(mat_view(wi), wi.len() as nat, yi.len() as nat),
            is_matrix(mat_view(wj), wi.len() as nat, yi.len() as nat),
            yi.len() == yj.len(),
            is_vec(yi@),
            is_vec(yj@),
            r@.len() == a,
            forall|t: int| 0 <= t < a ==> r@[t] == target[t],
        decreases wi.len() - a,
    {
        assert(mat_view(wi)[a as int] == wi@[a as int]@);
        assert(mat_view(wj)[a as int] == wj@[a as int]@);
        assert(is_vec(mat_view(wi)[a as int]) && is_vec(mat_view(wj)[a as int]));
        assert(mat_view(wi)[a as int].len() == yi.len());
        assert(mat_view(wj)[a as int].len() == yi.len());
        let e = if same {
            dot_product(&wi[a], yi)
        } else {
            crate::field::add(dot_product(&wi[a], yj), dot_product(&wj[a], yi))
        };
        r.push(e);
        a += 1;
    }
    assert(r@ =~= target);
    r
}

/// Evaluates the forms of a batch on all pairs of blocks and combines the
/// results modulo `f`. `xs` holds the left vector of each block, of `rows`
/// entries, `ys` the right vector of each block, of `cols` entries.
pub fn whip_forms(
    batch: &Vec<Vec<Vec<u8>>>,
    xs: &Vec<Vec<u8>>,
    ys: &Vec<Vec<u8>>,
    f_tail: &[u8],
    rows: usize,
    cols: usize,
) -> (r: Vec<u8>)
    requires
        0 < rows,
        xs.len() == ys.len(),
        num_pairs(xs.len() as nat) <= usize::MAX,
        is_vec(f_tail@),
        is_matrix(mat_view(xs), xs.len() as nat, rows as nat),
        is_matrix(mat_view(ys), xs.len() as nat, cols as nat),
        is_batch(batch_view(batch), batch.len() as nat, rows as nat, cols as nat),
    ensures
        r@ == whipped_form(batch_view(batch), mat_view(xs), mat_view(ys), f_tail@),
        is_vec(r@),
        r.len() == batch.len(),
{
    let k = xs.len();
    let m = batch.len();
    let ghost bv = batch_view(batch);
    let ghost xv = mat_view(xs);
    let ghost yv = mat_view(ys);
    let ghost terms = paired_terms(bv, xv, yv);
    let w = all_products(batch, xs, rows, cols);
    let mut acc = zero_vector(m);
    if k == 0 {
        assert(num_pairs(0) == 0);
        return acc;
    }
    let mut i: usize = 0;
    let mut j: usize = k - 1;
    let mut l: usize = 0;
    while i < k
        invariant
            i <= k,
            i < k ==> i <= j < k,
            i == k ==> j == k - 1,
            0 < k,
            k == xs.len(),
            k == ys.len(),
            m == batch.len(),
            num_pairs(k as nat) <= usize::MAX,
            pair_of(k as int, l as nat) == (i as int, j as int),
            l == pairs_before(k as nat, i as nat) + (k - 1 - j),
            bv == batch_view(batch),
            xv == mat_view(xs),
            yv == mat_view(ys),
            terms == paired_terms(bv, xv, yv),
            is_vec(f_tail@),
            is_matrix(xv, k as nat, rows as nat),
            is_matrix(yv, k as nat, cols as nat),
            batch_view(&w) == products_of(bv, xv, cols as nat),
            is_batch(batch_view(&w), k as nat, m as nat, cols as nat),
            acc@ == whip_upto(terms, f_tail@, m as nat, l as nat),
            is_vec(acc@),
            acc.len() == m,
        decreases k - i, j,
    {
        proof {
            lemma_pairs_before_monotonic(k as nat, (i + 1) as nat, k as nat);
        }
        let ghost wv = batch_view(&w);
        assert(wv[i as int] == mat_view(&w@[i as int]));
        assert(wv[j as int] == mat_view(&w@[j as int]));
        assert(is_matrix(wv[i as int], m as nat, cols as nat));
        assert(is_matrix(wv[j as int], m as nat, cols as nat));
        assert(yv[i as int] == ys@[i as int]@ && yv[j as int] == ys@[j as int]@);
        assert(is_vec(yv[i as int]) && is_vec(yv[j as int]));
        assert(yv[i as int].len() == cols && yv[j as int].len() == cols);
        let u = pair_values(&w[i], &w[j], &ys[i], &ys[j], i == j);
        assert(u@ == terms[l as int]);
        let shifted = times_z_pow(&u, f_tail, l);
        acc = vector_add(&acc, &shifted);
        if j > i {
            j -= 1;
        } else {
            i += 1;
            j = k - 1;
        }
        l += 1;
    }
    acc
}

} // verus!
