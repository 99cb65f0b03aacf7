//! The algebra of bilinear forms `x^T M y` over GF(16).

use crate::field::{gf_add, lemma_add_laws, lemma_add_rearrange};
use crate::linalg::{
    bilinear, column, is_matrix, is_vec, lemma_column_is_vec, lemma_dot_upto_add_left,
    lemma_dot_upto_add_right, lemma_dot_upto_closed, lemma_dot_upto_commutative,
    lemma_mat_mul_is_matrix, lemma_mat_vec_is_vec, lemma_sandwich, lemma_transposed_is_matrix,
    lemma_upper_is_matrix, lemma_vec_add_is_vec, lemma_vec_mat_is_vec, mat_add, mat_mul, mat_vec,
    transposed, upper_part, vec_add, vec_mat,
};
use vstd::prelude::*;

verus! {

/// The value of a bilinear form on vectors of field elements is a field
/// element.
pub proof fn lemma_bilinear_closed(m: Seq<Seq<u8>>, x: Seq<u8>, y: Seq<u8>, rows: nat, cols: nat)
    requires
        is_matrix(m, rows, cols),
        is_vec(x),
        x.len() == rows,
        is_vec(y),
        y.len() == cols,
    ensures
        bilinear(m, x, y) < 16,
{
    lemma_vec_mat_is_vec(x, m, rows, cols);
    lemma_dot_upto_closed(vec_mat(x, m, cols), y, cols);
}

/// A bilinear form is additive in its left vector.
pub proof fn lemma_bilinear_add_left(
    m: Seq<Seq<u8>>,
    x1: Seq<u8>,
    x2: Seq<u8>,
    y: Seq<u8>,
    rows: nat,
    cols: nat,
)
    requires
        is_matrix(m, rows, cols),
        is_vec(x1),
        x1.len() == rows,
        is_vec(x2),
        x2.len() == rows,
        is_vec(y),
        y.len() == cols,
    ensures
        bilinear(m, vec_add(x1, x2), y) == gf_add(bilinear(m, x1, y), bilinear(m, x2, y)),
{
    let x = vec_add(x1, x2);
    lemma_vec_add_is_vec(x1, x2);
    let w = vec_mat(x, m, cols);
    let w1 = vec_mat(x1, m, cols);
    let w2 = vec_mat(x2, m, cols);
    lemma_vec_mat_is_vec(x1, m, rows, cols);
    lemma_vec_mat_is_vec(x2, m, rows, cols);
    assert forall|c: int| 0 <= c < cols implies #[trigger] w[c] == gf_add(w1[c], w2[c]) by {
        lemma_column_is_vec(m, rows, cols, c);
        lemma_dot_upto_add_left(x1, x2, x, column(m, c), rows);
    }
    lemma_dot_upto_add_left(w1, w2, w, y, cols);
}

/// A bilinear form is additive in its right vector.
pub proof fn lemma_bilinear_add_right(
    m: Seq<Seq<u8>>,
    x: Seq<u8>,
    y1: Seq<u8>,
    y2: Seq<u8>,
    rows: nat,
    cols: nat,
)
    requires
        is_matrix(m, rows, cols),
        is_vec(x),
        x.len() == rows,
        is_vec(y1),
        y1.len() == cols,
        is_vec(y2),
        y2.len() == cols,
    ensures
        bilinear(m, x, vec_add(y1, y2)) == gf_add(bilinear(m, x, y1), bilinear(m, x, y2)),
{
    let w = vec_mat(x, m, cols);
    lemma_vec_mat_is_vec(x, m, rows, cols);
    lemma_dot_upto_add_right(w, y1, y2, vec_add(y1, y2), cols);
}

/// A bilinear form is additive in its matrix.
pub proof fn lemma_bilinear_add_matrix(
    m1: Seq<Seq<u8>>,
    m2: Seq<Seq<u8>>,
    x: Seq<u8>,
    y: Seq<u8>,
    rows: nat,
    cols: nat,
)
    requires
        is_matrix(m1, rows, cols),
        is_matrix(m2, rows, cols),
        is_vec(x),
        x.len() == rows,
        is_vec(y),
        y.len() == cols,
    ensures
        bilinear(mat_add(m1, m2), x, y) == gf_add(bilinear(m1, x, y), bilinear(m2, x, y)),
{
    let m = mat_add(m1, m2);
    let w = vec_mat(x, m, cols);
    let w1 = vec_mat(x, m1, cols);
    let w2 = vec_mat(x, m2, cols);
    lemma_vec_mat_is_vec(x, m1, rows, cols);
    lemma_vec_mat_is_vec(x, m2, rows, cols);
    assert forall|c: int| 0 <= c < cols implies #[trigger] w[c] == gf_add(w1[c], w2[c]) by {
        lemma_column_is_vec(m1, rows, cols, c);
        lemma_column_is_vec(m2, rows, cols, c);
        let z = column(m, c);
        assert forall|a: int| 0 <= a < rows implies #[trigger] z[a] == gf_add(
            column(m1, c)[a],
            column(m2, c)[a],
        ) by {
            assert(m1[a].len() == cols && m2[a].len() == cols);
        }
        lemma_dot_upto_add_right(x, column(m1, c), column(m2, c), z, rows);
    }
    lemma_dot_upto_add_left(w1, w2, w, y, cols);
}

/// The form of the transpose is the form with its arguments exchanged.
pub proof fn lemma_bilinear_transpose(m: Seq<Seq<u8>>, x: Seq<u8>, y: Seq<u8>, rows: nat, cols: nat)
    requires
        is_matrix(m, rows, cols),
        0 < rows,
        is_vec(x),
        x.len() == cols,
        is_vec(y),
        y.len() == rows,
    ensures
        bilinear(transposed(m), x, y) == bilinear(m, y, x),
{
    let mt = transposed(m);
    lemma_transposed_is_matrix(m, rows, cols);
    let w = vec_mat(x, mt, rows);
    let mx = mat_vec(m, x);
    lemma_mat_vec_is_vec(m, x, rows, cols);
    assert forall|a: int| 0 <= a < rows implies #[trigger] w[a] == mx[a] by {
        let col = column(mt, a);
        assert(is_vec(m[a]) && m[a].len() == cols);
        assert(col =~= m[a]) by {
            assert forall|j: int| 0 <= j < cols implies col[j] == m[a][j] by {
                assert(mt[j][a] == m[a][j]);
            }
        }
        lemma_dot_upto_commutative(x, m[a], cols);
    }
    assert(w =~= mx);
    lemma_dot_upto_commutative(mx, y, rows);
    lemma_sandwich(y, m, x, rows, cols);
}

/// `x^T (M O) y = x^T M (O y)`.
pub proof fn lemma_bilinear_right_product(
    m: Seq<Seq<u8>>,
    o: Seq<Seq<u8>>,
    x: Seq<u8>,
    y: Seq<u8>,
    rows: nat,
    inner: nat,
    cols: nat,
)
    requires
        is_matrix(m, rows, inner),
        is_matrix(o, inner, cols),
        is_vec(x),
        x.len() == rows,
        is_vec(y),
        y.len() == cols,
    ensures
        bilinear(mat_mul(m, o, cols), x, y) == bilinear(m, x, mat_vec(o, y)),
{
    let mo = mat_mul(m, o, cols);
    lemma_mat_mul_is_matrix(m, o, rows, inner, cols);
    let oy = mat_vec(o, y);
    lemma_mat_vec_is_vec(o, y, inner, cols);
    lemma_sandwich(x, mo, y, rows, cols);
    lemma_sandwich(x, m, oy, rows, inner);
    assert forall|a: int| 0 <= a < rows implies #[trigger] mat_vec(mo, y)[a] == mat_vec(m, oy)[a] by {
        assert(is_vec(m[a]) && m[a].len() == inner);
        lemma_sandwich(m[a], o, y, inner, cols);
    }
    assert(mat_vec(mo, y) =~= mat_vec(m, oy));
}

/// `x^T (O^T M) y = (O x)^T M y`.
pub proof fn lemma_bilinear_left_product(
    o: Seq<Seq<u8>>,
    m: Seq<Seq<u8>>,
    x: Seq<u8>,
    y: Seq<u8>,
    inner: nat,
    rows: nat,
    cols: nat,
)
    requires
        is_matrix(o, inner, rows),
        is_matrix(m, inner, cols),
        0 < inner,
        is_vec(x),
        x.len() == rows,
        is_vec(y),
        y.len() == cols,
    ensures
        bilinear(mat_mul(transposed(o), m, cols), x, y) == bilinear(m, mat_vec(o, x), y),
{
    let ot = transposed(o);
    lemma_transposed_is_matrix(o, inner, rows);
    let otm = mat_mul(ot, m, cols);
    lemma_mat_mul_is_matrix(ot, m, rows, inner, cols);
    let ox = mat_vec(o, x);
    lemma_mat_vec_is_vec(o, x, inner, rows);
    let w = vec_mat(x, otm, cols);
    let w2 = vec_mat(ox, m, cols);
    assert forall|c: int| 0 <= c < cols implies #[trigger] w[c] == w2[c] by {
        let cm = column(m, c);
        lemma_column_is_vec(m, inner, cols, c);
        let col = column(otm, c);
        let vo = vec_mat(cm, o, rows);
        lemma_vec_mat_is_vec(cm, o, inner, rows);
        assert(col =~= vo) by {
            assert forall|a: int| 0 <= a < rows implies col[a] == vo[a] by {
                assert(otm[a].len() == cols);
                assert(ot[a] =~= column(o, a)) by {
                    assert forall|i: int| 0 <= i < inner implies ot[a][i] == column(o, a)[i] by {
                        assert(ot[a][i] == o[i][a]);
                    }
                }
                lemma_column_is_vec(o, inner, rows, a);
                lemma_dot_upto_commutative(column(o, a), cm, inner);
            }
        }
        lemma_dot_upto_commutative(x, vo, rows);
        lemma_sandwich(cm, o, x, inner, rows);
        lemma_dot_upto_commutative(cm, ox, inner);
    }
    assert(w =~= w2);
}

/// The part of a square matrix below its diagonal.
pub open spec fn lower_part(f: Seq<Seq<u8>>) -> Seq<Seq<u8>> {
    Seq::new(
        f.len(),
        |a: int|
            Seq::new(
                f.len(),
                |b: int|
                    if a > b {
                        f[a][b]
                    } else {
                        0u8
                    },
            ),
    )
}

/// A square matrix and its upper-triangular representative define the same
/// quadratic form, and polar forms that agree: with `U = Upper(F)`,
/// `x^T F x = x^T U x` and `x^T F y + y^T F x = x^T U y + y^T U x`.
pub proof fn lemma_upper_same_form(f: Seq<Seq<u8>>, x: Seq<u8>, y: Seq<u8>, n: nat)
    requires
        is_matrix(f, n, n),
        0 < n,
        is_vec(x),
        x.len() == n,
        is_vec(y),
        y.len() == n,
    ensures
        bilinear(f, x, x) == bilinear(upper_part(f), x, x),
        gf_add(bilinear(f, x, y), bilinear(f, y, x)) == gf_add(
            bilinear(upper_part(f), x, y),
            bilinear(upper_part(f), y, x),
        ),
{
    let u = upper_part(f);
    lemma_upper_is_matrix(f, n);
    let t = lower_part(f);
    assert(is_matrix(t, n, n)) by {
        assert forall|a: int| 0 <= a < n implies is_vec(#[trigger] t[a]) && t[a].len() == n by {
            assert(is_vec(f[a]));
        }
    }
    let tt = transposed(t);
    lemma_transposed_is_matrix(t, n, n);
    let s = mat_add(f, u);
    let s2 = mat_add(t, tt);
    assert(s =~= s2) by {
        assert forall|a: int| 0 <= a < n implies #[trigger] s[a] =~= s2[a] by {
            assert(is_vec(f[a]) && f[a].len() == n);
            assert forall|b: int| 0 <= b < n implies s[a][b] == s2[a][b] by {
                assert(is_vec(f[b]) && f[b].len() == n);
                assert(tt[a][b] == t[b][a]);
                lemma_add_laws(f[a][b], f[b][a], 0);
                lemma_add_rearrange(f[b][a], f[a][b], 0, 0);
                lemma_add_laws(f[a][b], gf_add(f[a][b], f[b][a]), 0);
                lemma_add_laws(f[b][a], 0, 0);
                lemma_add_laws(0, 0, 0);
            }
        }
    }
    // x, x
    lemma_bilinear_add_matrix(f, u, x, x, n, n);
    lemma_bilinear_add_matrix(t, tt, x, x, n, n);
    lemma_bilinear_transpose(t, x, x, n, n);
    lemma_bilinear_closed(f, x, x, n, n);
    lemma_bilinear_closed(u, x, x, n, n);
    lemma_add_laws(bilinear(t, x, x), 0, 0);
    lemma_add_rearrange(bilinear(f, x, x), bilinear(u, x, x), 0, 0);
    // x, y and y, x
    lemma_bilinear_add_matrix(f, u, x, y, n, n);
    lemma_bilinear_add_matrix(t, tt, x, y, n, n);
    lemma_bilinear_transpose(t, x, y, n, n);
    lemma_bilinear_add_matrix(f, u, y, x, n, n);
    lemma_bilinear_add_matrix(t, tt, y, x, n, n);
    lemma_bilinear_transpose(t, y, x, n, n);
    let a1 = bilinear(f, x, y);
    let a2 = bilinear(u, x, y);
    let b1 = bilinear(f, y, x);
    let b2 = bilinear(u, y, x);
    let c1 = bilinear(t, x, y);
    let c2 = bilinear(t, y, x);
    assert(gf_add(a1, b1) == gf_add(a2, b2)) by (bit_vector)
        requires
            gf_add(a1, a2) == gf_add(c1, c2),
            gf_add(b1, b2) == gf_add(c2, c1),
    ;
}

} // verus!
