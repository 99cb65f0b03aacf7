//! Dense matrix operations over GF(16) on vectors of rows.

use crate::field::gf_add;
use crate::linalg::{
    column, dot, dot_upto, is_matrix, is_upper, is_vec, lemma_column_is_vec, mat_add, mat_mul,
    mat_vec, mat_view, padded, transposed, upper_part, vec_add, vec_mat, width, zeros,
};
use vstd::prelude::*;

verus! {

/// A vector of `n` zeros.
pub fn zero_vector(n: usize) -> (v: Vec<u8>)
    ensures
        v@ == zeros(n as nat),
        is_vec(v@),
{
    let mut v: Vec<u8> = Vec::new();
    let mut i: usize = 0;
    while i < n
        invariant
            i <= n,
            v@.len() == i,
            forall|t: int| 0 <= t < i ==> v@[t] == 0,
        decreases n - i,
    {
        v.push(0u8);
        i += 1;
    }
    assert(v@ =~= zeros(n as nat));
    v
}

/// The inner product of two vectors of equal length.
pub fn dot_product(x: &Vec<u8>, y: &Vec<u8>) -> (r: u8)
    requires
        x.len() == y.len(),
        is_vec(x@),
        is_vec(y@),
    ensures
        r == dot(x@, y@),
        r < 16,
{
    let mut acc: u8 = 0;
    let mut i: usize = 0;
    while i < x.len()
        invariant
            i <= x.len(),
            x.len() == y.len(),
            is_vec(x@),
            is_vec(y@),
            acc == dot_upto(x@, y@, i as nat),
            acc < 16,
        decreases x.len() - i,
    {
        let p = crate::field::mul(x[i], y[i]);
        acc = crate::field::add(acc, p);
        i += 1;
    }
    acc
}

/// The inner product of a vector with one column of a matrix.
pub fn column_dot(x: &Vec<u8>, m: &Vec<Vec<u8>>, c: usize) -> (r: u8)
    requires
        is_vec(x@),
        is_matrix(mat_view(m), x.len() as nat, width(mat_view(m))),
        c < width(mat_view(m)),
    ensures
        r == dot(x@, column(mat_view(m), c as int)),
        r < 16,
{
    let ghost mv = mat_view(m);
    let ghost col = column(mv, c as int);
    proof {
        lemma_column_is_vec(mv, x.len() as nat, width(mv), c as int);
    }
    let mut acc: u8 = 0;
    let mut i: usize = 0;
    while i < x.len()
        invariant
            i <= x.len(),
            mv == mat_view(m),
            col == column(mv, c as int),
            is_vec(x@),
            is_vec(col),
            col.len() == x.len(),
            is_matrix(mv, x.len() as nat, width(mv)),
            c < width(mv),
            acc == dot_upto(x@, col, i as nat),
            acc < 16,
        decreases x.len() - i,
    {
        assert(mv[i as int] == m@[i as int]@);
        assert(mv[i as int].len() == width(mv));
        assert(col[i as int] == mv[i as int][c as int]);
        assert(col[i as int] < 16);
        let p = crate::field::mul(x[i], m[i][c]);
        acc = crate::field::add(acc, p);
        i += 1;
    }
    acc
}

/// The number of columns of a matrix: the length of its first row, or zero
/// when it has no row.
pub fn matrix_width(m: &Vec<Vec<u8>>) -> (w: usize)
    ensures
        w == width(mat_view(m)),
{
    if m.len() == 0 {
        0
    } else {
        assert(mat_view(m)[0] == m@[0]@);
        m[0].len()
    }
}

/// The product of a row vector with a matrix.
pub fn vector_matrix(x: &Vec<u8>, m: &Vec<Vec<u8>>) -> (r: Vec<u8>)
    requires
        is_vec(x@),
        is_matrix(mat_view(m), x.len() as nat, width(mat_view(m))),
    ensures
        r@ == vec_mat(x@, mat_view(m), width(mat_view(m))),
        is_vec(r@),
        r.len() == width(mat_view(m)),
{
    let cols = matrix_width(m);
    let mut r: Vec<u8> = Vec::new();
    let mut c: usize = 0;
    while c < cols
        invariant
            c <= cols,
            cols == width(mat_view(m)),
            is_vec(x@),
            is_matrix(mat_view(m), x.len() as nat, width(mat_view(m))),
            r@.len() == c,
            forall|t: int| 0 <= t < c ==> r@[t] == dot(x@, column(mat_view(m), t)),
            is_vec(r@),
        decreases cols - c,
    {
        let e = column_dot(x, m, c);
        r.push(e);
        c += 1;
    }
    assert(r@ =~= vec_mat(x@, mat_view(m), width(mat_view(m))));
    r
}

/// The product of a matrix with a column vector.
pub fn matrix_vector(m: &Vec<Vec<u8>>, x: &Vec<u8>) -> (r: Vec<u8>)
    requires
        is_vec(x@),
        is_matrix(mat_view(m), m.len() as nat, x.len() as nat),
    ensures
        r@ == mat_vec(mat_view(m), x@),
        is_vec(r@),
        r.len() == m.len(),
{
    let mut r: Vec<u8> = Vec::new();
    let mut a: usize = 0;
    while a < m.len()
        invariant
            a <= m.len(),
            is_vec(x@),
            is_matrix(mat_view(m), m.len() as nat, x.len() as nat),
            r@.len() == a,
            forall|t: int| 0 <= t < a ==> r@[t] == dot(mat_view(m)[t], x@),
            is_vec(r@),
        decreases m.len() - a,
    {
        assert(mat_view(m)[a as int] == m@[a as int]@);
        assert(is_vec(mat_view(m)[a as int]));
        let e = dot_product(&m[a], x);
        r.push(e);
        a += 1;
    }
    assert(r@ =~= mat_vec(mat_view(m), x@));
    r
}

/// The product of two matrices over GF(16). The second factor has as many rows
/// as the first has columns.
pub fn matrix_multiply(a: &Vec<Vec<u8>>, b: &Vec<Vec<u8>>) -> (result: Vec<Vec<u8>>)
    requires
        is_matrix(mat_view(a), a.len() as nat, b.len() as nat),
        is_matrix(mat_view(b), b.len() as nat, width(mat_view(b))),
    ensures
        mat_view(&result) == mat_mul(mat_view(a), mat_view(b), width(mat_view(b))),
        is_matrix(mat_view(&result), a.len() as nat, width(mat_view(b))),
{
    let mut result: Vec<Vec<u8>> = Vec::new();
    let mut i: usize = 0;
    while i < a.len()
        invariant
            i <= a.len(),
            is_matrix(mat_view(a), a.len() as nat, b.len() as nat),
            is_matrix(mat_view(b), b.len() as nat, width(mat_view(b))),
            result@.len() == i,
            forall|t: int|
                0 <= t < i ==> (#[trigger] result@[t])@ == vec_mat(
                    mat_view(a)[t],
                    mat_view(b),
                    width(mat_view(b)),
                ),
            forall|t: int| 0 <= t < i ==> is_vec((#[trigger] result@[t])@),
        decreases a.len() - i,
    {
        assert(mat_view(a)[i as int] == a@[i as int]@);
        assert(is_vec(mat_view(a)[i as int]));
        let row = vector_matrix(&a[i], b);
        result.push(row);
        i += 1;
    }
    assert(mat_view(&result) =~= mat_mul(mat_view(a), mat_view(b), width(mat_view(b))));
    result
}

/// The additive inverse of every entry. In characteristic two this is the
/// matrix itself.
pub fn element_wise_negation(matrix: &Vec<Vec<u8>>) -> (result: Vec<Vec<u8>>)
    requires
        is_matrix(mat_view(matrix), matrix.len() as nat, width(mat_view(matrix))),
    ensures
        mat_view(&result) == mat_view(matrix),
        mat_add(mat_view(&result), mat_view(matrix)) == crate::linalg::zero_mat(
            matrix.len() as nat,
            width(mat_view(matrix)),
        ),
{
    let cols = matrix_width(matrix);
    let mut result: Vec<Vec<u8>> = Vec::new();
    let mut i: usize = 0;
    while i < matrix.len()
        invariant
            i <= matrix.len(),
            cols == width(mat_view(matrix)),
            is_matrix(mat_view(matrix), matrix.len() as nat, width(mat_view(matrix))),
            result@.len() == i,
            forall|t: int| 0 <= t < i ==> (#[trigger] result@[t])@ == mat_view(matrix)[t],
        decreases matrix.len() - i,
    {
        assert(mat_view(matrix)[i as int] == matrix@[i as int]@);
        assert(is_vec(mat_view(matrix)[i as int]));
        let mut row: Vec<u8> = Vec::new();
        let mut j: usize = 0;
        while j < cols
            invariant
                j <= cols,
                i < matrix.len(),
                cols == matrix@[i as int]@.len(),
                is_vec(matrix@[i as int]@),
                row@.len() == j,
                forall|t: int| 0 <= t < j ==> row@[t] == matrix@[i as int]@[t],
            decreases cols - j,
        {
            let e = crate::field::negate(matrix[i][j]);
            row.push(e);
            j += 1;
        }
        assert(row@ =~= matrix@[i as int]@);
        result.push(row);
        i += 1;
    }
    assert(mat_view(&result) =~= mat_view(matrix));
    proof {
        let s = mat_add(mat_view(&result), mat_view(matrix));
        let z = crate::linalg::zero_mat(matrix.len() as nat, width(mat_view(matrix)));
        assert forall|t: int| 0 <= t < s.len() implies #[trigger] s[t] =~= z[t] by {
            assert(mat_view(matrix)[t].len() == width(mat_view(matrix)));
            assert forall|c: int| 0 <= c < s[t].len() implies s[t][c] == 0 by {
                crate::field::lemma_add_laws(mat_view(matrix)[t][c], 0, 0);
            }
        }
        assert(s =~= z);
    }
    result
}

/// The entry-wise difference of two matrices of one shape. In characteristic
/// two it coincides with their sum.
pub fn element_wise_subtraction(a: &Vec<Vec<u8>>, b: &Vec<Vec<u8>>) -> (result: Vec<Vec<u8>>)
    requires
        is_matrix(mat_view(a), a.len() as nat, width(mat_view(a))),
        is_matrix(mat_view(b), a.len() as nat, width(mat_view(a))),
    ensures
        mat_view(&result) == mat_add(mat_view(a), mat_view(b)),
        is_matrix(mat_view(&result), a.len() as nat, width(mat_view(a))),
{
    let cols = matrix_width(a);
    let mut result: Vec<Vec<u8>> = Vec::new();
    let mut i: usize = 0;
    while i < a.len()
        invariant
            i <= a.len(),
            cols == width(mat_view(a)),
            is_matrix(mat_view(a), a.len() as nat, width(mat_view(a))),
            is_matrix(mat_view(b), a.len() as nat, width(mat_view(a))),
            result@.len() == i,
            forall|t: int|
                0 <= t < i ==> (#[trigger] result@[t])@ == vec_add(mat_view(a)[t], mat_view(b)[t]),
            forall|t: int| 0 <= t < i ==> is_vec((#[trigger] result@[t])@),
            forall|t: int| 0 <= t < i ==> (#[trigger] result@[t])@.len() == cols,
        decreases a.len() - i,
    {
        assert(mat_view(a)[i as int] == a@[i as int]@);
        assert(mat_view(b)[i as int] == b@[i as int]@);
        assert(is_vec(mat_view(a)[i as int]));
        assert(is_vec(mat_view(b)[i as int]));
        let row = vector_add(&a[i], &b[i]);
        result.push(row);
        i += 1;
    }
    assert(mat_view(&result) =~= mat_add(mat_view(a), mat_view(b)));
    result
}

/// The entry-wise sum of two matrices of one shape.
pub fn element_wise_addition(a: &Vec<Vec<u8>>, b: &Vec<Vec<u8>>) -> (result: Vec<Vec<u8>>)
    requires
        is_matrix(mat_view(a), a.len() as nat, width(mat_view(a))),
        is_matrix(mat_view(b), a.len() as nat, width(mat_view(a))),
    ensures
        mat_view(&result) == mat_add(mat_view(a), mat_view(b)),
        is_matrix(mat_view(&result), a.len() as nat, width(mat_view(a))),
{
    element_wise_subtraction(a, b)
}

/// The entry-wise sum of two vectors of equal length.
pub fn vector_add(x: &Vec<u8>, y: &Vec<u8>) -> (r: Vec<u8>)
    requires
        x.len() == y.len(),
        is_vec(x@),
        is_vec(y@),
    ensures
        r@ == vec_add(x@, y@),
        is_vec(r@),
        r.len() == x.len(),
{
    let mut r: Vec<u8> = Vec::new();
    let mut j: usize = 0;
    while j < x.len()
        invariant
            j <= x.len(),
            x.len() == y.len(),
            is_vec(x@),
            is_vec(y@),
            r@.len() == j,
            forall|t: int| 0 <= t < j ==> r@[t] == gf_add(x@[t], y@[t]),
            is_vec(r@),
        decreases x.len() - j,
    {
        let e = crate::field::add(x[j], y[j]);
        r.push(e);
        j += 1;
    }
    assert(r@ =~= vec_add(x@, y@));
    r
}

/// The transpose of a matrix.
pub fn transpose(matrix: &Vec<Vec<u8>>) -> (result: Vec<Vec<u8>>)
    requires
        is_matrix(mat_view(matrix), matrix.len() as nat, width(mat_view(matrix))),
    ensures
        mat_view(&result) == transposed(mat_view(matrix)),
        is_matrix(mat_view(&result), width(mat_view(matrix)), matrix.len() as nat),
{
    let cols = matrix_width(matrix);
    let ghost mv = mat_view(matrix);
    let mut result: Vec<Vec<u8>> = Vec::new();
    let mut j: usize = 0;
    while j < cols
        invariant
            j <= cols,
            cols == width(mv),
            mv == mat_view(matrix),
            is_matrix(mv, matrix.len() as nat, width(mv)),
            result@.len() == j,
            forall|t: int| 0 <= t < j ==> (#[trigger] result@[t])@ == column(mv, t),
        decreases cols - j,
    {
        let mut col: Vec<u8> = Vec::new();
        let mut i: usize = 0;
        while i < matrix.len()
            invariant
                i <= matrix.len(),
                j < cols,
                cols == width(mv),
                mv == mat_view(matrix),
                is_matrix(mv, matrix.len() as nat, width(mv)),
                col@.len() == i,
                forall|t: int| 0 <= t < i ==> col@[t] == mv[t][j as int],
            decreases matrix.len() - i,
        {
            assert(mv[i as int] == matrix@[i as int]@);
            assert(mv[i as int].len() == cols);
            col.push(matrix[i][j]);
            i += 1;
        }
        assert(col@ =~= column(mv, j as int));
        result.push(col);
        j += 1;
    }
    assert(mat_view(&result) =~= transposed(mv));
    proof {
        assert forall|t: int| 0 <= t < cols implies is_vec(#[trigger] mat_view(&result)[t]) by {
            lemma_column_is_vec(mv, matrix.len() as nat, width(mv), t);
        }
    }
    result
}

/// Folds a square matrix into its upper-triangular representative: each entry
/// above the diagonal receives its mirror image, the diagonal stays and what
/// lies below becomes zero.
pub fn upper(p: &Vec<Vec<u8>>, rows: usize) -> (result: Vec<Vec<u8>>)
    requires
        rows == p.len(),
        is_matrix(mat_view(p), rows as nat, rows as nat),
    ensures
        mat_view(&result) == upper_part(mat_view(p)),
        is_matrix(mat_view(&result), rows as nat, rows as nat),
        is_upper(mat_view(&result)),
{
    let ghost mv = mat_view(p);
    let mut result: Vec<Vec<u8>> = Vec::new();
    let mut i: usize = 0;
    while i < rows
        invariant
            i <= rows,
            rows == p.len(),
            mv == mat_view(p),
            is_matrix(mv, rows as nat, rows as nat),
            result@.len() == i,
            forall|t: int| 0 <= t < i ==> (#[trigger] result@[t])@ == upper_part(mv)[t],
            forall|t: int| 0 <= t < i ==> is_vec((#[trigger] result@[t])@),
        decreases rows - i,
    {
        let mut row: Vec<u8> = Vec::new();
        let mut j: usize = 0;
        while j < rows
            invariant
                j <= rows,
                i < rows,
                rows == p.len(),
                mv == mat_view(p),
                is_matrix(mv, rows as nat, rows as nat),
                row@.len() == j,
                forall|t: int| 0 <= t < j ==> row@[t] == upper_part(mv)[i as int][t],
                is_vec(row@),
            decreases rows - j,
        {
            assert(mv[i as int] == p@[i as int]@);
            assert(mv[j as int] == p@[j as int]@);
            assert(is_vec(mv[i as int]) && is_vec(mv[j as int]));
            assert(mv[i as int].len() == rows && mv[j as int].len() == rows);
            let e = if i < j {
                crate::field::add(p[i][j], p[j][i])
            } else if i == j {
                p[i][j]
            } else {
                0u8
            };
            row.push(e);
            j += 1;
        }
        assert(row@ =~= upper_part(mv)[i as int]);
        result.push(row);
        i += 1;
    }
    assert(mat_view(&result) =~= upper_part(mv));
    result
}

/// Places a matrix in the top left corner of a `d1` by `d2` matrix of zeros.
pub fn pad_matrix(matrix: &Vec<Vec<u8>>, d1: usize, d2: usize) -> (result: Vec<Vec<u8>>)
    requires
        matrix.len() <= d1,
        forall|i: int| 0 <= i < matrix.len() ==> (#[trigger] mat_view(matrix)[i]).len() <= d2,
    ensures
        mat_view(&result) == padded(mat_view(matrix), d1 as nat, d2 as nat),
{
    let ghost mv = mat_view(matrix);
    let mut result: Vec<Vec<u8>> = Vec::new();
    let mut i: usize = 0;
    while i < d1
        invariant
            i <= d1,
            mv == mat_view(matrix),
            matrix.len() <= d1,
            forall|t: int| 0 <= t < matrix.len() ==> (#[trigger] mv[t]).len() <= d2,
            result@.len() == i,
            forall|t: int| 0 <= t < i ==> (#[trigger] result@[t])@ == padded(mv, d1 as nat, d2 as nat)[t],
        decreases d1 - i,
    {
        let mut row: Vec<u8> = Vec::new();
        let mut j: usize = 0;
        while j < d2
            invariant
                j <= d2,
                i < d1,
                mv == mat_view(matrix),
                row@.len() == j,
                forall|t: int| 0 <= t < j ==> row@[t] == padded(mv, d1 as nat, d2 as nat)[i as int][t],
            decreases d2 - j,
        {
            let e = if i < matrix.len() {
                assert(mv[i as int] == matrix@[i as int]@);
                if j < matrix[i].len() {
                    matrix[i][j]
                } else {
                    0u8
                }
            } else {
                0u8
            };
            row.push(e);
            j += 1;
        }
        assert(row@ =~= padded(mv, d1 as nat, d2 as nat)[i as int]);
        result.push(row);
        i += 1;
    }
    assert(mat_view(&result) =~= padded(mv, d1 as nat, d2 as nat));
    result
}

} // verus!
