//! Vectors and matrices over GF(16) as mathematical sequences.
//!
//! A vector is a `Seq<u8>` of field elements, a matrix a sequence of rows of
//! equal length. Every sum here is a sum in the field.

use crate::field::{
    gf_add, gf_mul, lemma_add_closed, lemma_add_laws, lemma_add_rearrange, lemma_mul_associative,
    lemma_mul_closed, lemma_mul_commutative, lemma_mul_distributive, lemma_mul_identity,
};
use vstd::prelude::*;

verus! {

/// Every entry of `v` is a field element.
pub open spec fn is_vec(v: Seq<u8>) -> bool {
    forall|i: int| 0 <= i < v.len() ==> #[trigger] v[i] < 16
}

/// `m` has `rows` rows of `cols` field elements each.
pub open spec fn is_matrix(m: Seq<Seq<u8>>, rows: nat, cols: nat) -> bool {
    &&& m.len() == rows
    &&& forall|i: int| 0 <= i < rows ==> (#[trigger] m[i]).len() == cols
    &&& forall|i: int| 0 <= i < rows ==> is_vec(#[trigger] m[i])
}

/// `b` holds `count` matrices, each of `rows` by `cols` field elements.
pub open spec fn is_batch(b: Seq<Seq<Seq<u8>>>, count: nat, rows: nat, cols: nat) -> bool {
    &&& b.len() == count
    &&& forall|a: int| 0 <= a < count ==> is_matrix(#[trigger] b[a], rows, cols)
}

/// The number of columns of a matrix, taken from its first row.
pub open spec fn width(m: Seq<Seq<u8>>) -> nat {
    if m.len() == 0 {
        0
    } else {
        m[0].len()
    }
}

/// The mathematical matrix that a vector of rows holds.
pub open spec fn mat_view(m: &Vec<Vec<u8>>) -> Seq<Seq<u8>> {
    Seq::new(m@.len(), |i: int| m@[i]@)
}

/// The mathematical batch that a vector of matrices holds.
pub open spec fn batch_view(b: &Vec<Vec<Vec<u8>>>) -> Seq<Seq<Seq<u8>>> {
    Seq::new(b@.len(), |a: int| mat_view(&b@[a]))
}

/// The vector of `n` zeros.
pub open spec fn zeros(n: nat) -> Seq<u8> {
    Seq::new(n, |i: int| 0u8)
}

/// The `rows` by `cols` matrix of zeros.
pub open spec fn zero_mat(rows: nat, cols: nat) -> Seq<Seq<u8>> {
    Seq::new(rows, |i: int| zeros(cols))
}

/// The sum of the products `x[i] * y[i]` over the first `n` indices.
pub open spec fn dot_upto(x: Seq<u8>, y: Seq<u8>, n: nat) -> u8
    decreases n,
{
    if n == 0 {
        0
    } else {
        gf_add(dot_upto(x, y, (n - 1) as nat), gf_mul(x[n - 1], y[n - 1]))
    }
}

/// The inner product of two vectors, summed over the length of the first.
pub open spec fn dot(x: Seq<u8>, y: Seq<u8>) -> u8 {
    dot_upto(x, y, x.len())
}

/// Column `c` of a matrix.
pub open spec fn column(m: Seq<Seq<u8>>, c: int) -> Seq<u8> {
    Seq::new(m.len(), |a: int| m[a][c])
}

/// Entry-wise sum of two vectors.
pub open spec fn vec_add(x: Seq<u8>, y: Seq<u8>) -> Seq<u8> {
    Seq::new(x.len(), |i: int| gf_add(x[i], y[i]))
}

/// The vector `x` with every entry multiplied by `c`.
pub open spec fn vec_scale(c: u8, x: Seq<u8>) -> Seq<u8> {
    Seq::new(x.len(), |i: int| gf_mul(c, x[i]))
}

/// Entry-wise sum of two matrices.
pub open spec fn mat_add(a: Seq<Seq<u8>>, b: Seq<Seq<u8>>) -> Seq<Seq<u8>> {
    Seq::new(a.len(), |i: int| vec_add(a[i], b[i]))
}

/// The product of a matrix with a column vector.
pub open spec fn mat_vec(m: Seq<Seq<u8>>, x: Seq<u8>) -> Seq<u8> {
    Seq::new(m.len(), |a: int| dot(m[a], x))
}

/// The product of a row vector with a matrix of `cols` columns.
pub open spec fn vec_mat(x: Seq<u8>, m: Seq<Seq<u8>>, cols: nat) -> Seq<u8> {
    Seq::new(cols, |c: int| dot(x, column(m, c)))
}

/// The product of two matrices, the second having `cols` columns.
pub open spec fn mat_mul(a: Seq<Seq<u8>>, b: Seq<Seq<u8>>, cols: nat) -> Seq<Seq<u8>> {
    Seq::new(a.len(), |i: int| vec_mat(a[i], b, cols))
}

/// The transpose of a matrix.
pub open spec fn transposed(m: Seq<Seq<u8>>) -> Seq<Seq<u8>> {
    Seq::new(width(m), |j: int| column(m, j))
}

/// The upper-triangular representative of a square matrix: what lies below
/// the diagonal is added to its mirror image above and then dropped.
pub open spec fn upper_part(m: Seq<Seq<u8>>) -> Seq<Seq<u8>> {
    Seq::new(
        m.len(),
        |i: int|
            Seq::new(
                m.len(),
                |j: int|
                    if i < j {
                        gf_add(m[i][j], m[j][i])
                    } else if i == j {
                        m[i][j]
                    } else {
                        0u8
                    },
            ),
    )
}

/// Whether a square matrix vanishes below its diagonal.
pub open spec fn is_upper(m: Seq<Seq<u8>>) -> bool {
    forall|i: int, j: int| 0 <= j < i < m.len() ==> #[trigger] m[i][j] == 0
}

/// `m` placed in the top left corner of a `rows` by `cols` matrix of zeros.
pub open spec fn padded(m: Seq<Seq<u8>>, rows: nat, cols: nat) -> Seq<Seq<u8>> {
    Seq::new(
        rows,
        |i: int|
            Seq::new(
                cols,
                |j: int|
                    if i < m.len() && j < m[i].len() {
                        m[i][j]
                    } else {
                        0u8
                    },
            ),
    )
}

/// The bilinear form `x^T M y`, evaluated as `(x^T M) y`.
pub open spec fn bilinear(m: Seq<Seq<u8>>, x: Seq<u8>, y: Seq<u8>) -> u8 {
    dot(vec_mat(x, m, y.len()), y)
}

/// A sum of products of field elements is a field element.
pub proof fn lemma_dot_upto_closed(x: Seq<u8>, y: Seq<u8>, n: nat)
    requires
        n <= x.len(),
        n <= y.len(),
        is_vec(x),
        is_vec(y),
    ensures
        dot_upto(x, y, n) < 16,
    decreases n,
{
    if n > 0 {
        lemma_dot_upto_closed(x, y, (n - 1) as nat);
        lemma_mul_closed(x[n - 1], y[n - 1]);
        lemma_add_closed(dot_upto(x, y, (n - 1) as nat), gf_mul(x[n - 1], y[n - 1]));
    }
}

/// A sum of products depends only on the entries it reads.
pub proof fn lemma_dot_upto_ext(x1: Seq<u8>, y1: Seq<u8>, x2: Seq<u8>, y2: Seq<u8>, n: nat)
    requires
        forall|i: int| 0 <= i < n ==> x1[i] == x2[i],
        forall|i: int| 0 <= i < n ==> y1[i] == y2[i],
    ensures
        dot_upto(x1, y1, n) == dot_upto(x2, y2, n),
    decreases n,
{
    if n > 0 {
        lemma_dot_upto_ext(x1, y1, x2, y2, (n - 1) as nat);
    }
}

/// The inner product is symmetric.
pub proof fn lemma_dot_upto_commutative(x: Seq<u8>, y: Seq<u8>, n: nat)
    requires
        n <= x.len(),
        n <= y.len(),
        is_vec(x),
        is_vec(y),
    ensures
        dot_upto(x, y, n) == dot_upto(y, x, n),
    decreases n,
{
    if n > 0 {
        lemma_dot_upto_commutative(x, y, (n - 1) as nat);
        lemma_mul_commutative(x[n - 1], y[n - 1]);
    }
}

/// The inner product is additive in its first argument.
pub proof fn lemma_dot_upto_add_left(x1: Seq<u8>, x2: Seq<u8>, z: Seq<u8>, y: Seq<u8>, n: nat)
    requires
        n <= x1.len(),
        n <= x2.len(),
        n <= y.len(),
        is_vec(x1),
        is_vec(x2),
        is_vec(y),
        forall|i: int| 0 <= i < n ==> #[trigger] z[i] == gf_add(x1[i], x2[i]),
    ensures
        dot_upto(z, y, n) == gf_add(dot_upto(x1, y, n), dot_upto(x2, y, n)),
    decreases n,
{
    if n == 0 {
        lemma_add_laws(0, 0, 0);
    } else {
        let k = (n - 1) as nat;
        lemma_dot_upto_add_left(x1, x2, z, y, k);
        assert(z[n - 1] == gf_add(x1[n - 1], x2[n - 1]));
        lemma_mul_distributive(y[n - 1], x1[n - 1], x2[n - 1]);
        lemma_add_rearrange(
            dot_upto(x1, y, k),
            dot_upto(x2, y, k),
            gf_mul(x1[n - 1], y[n - 1]),
            gf_mul(x2[n - 1], y[n - 1]),
        );
    }
}

/// The inner product is homogeneous in its first argument.
pub proof fn lemma_dot_upto_scale_left(c: u8, x: Seq<u8>, z: Seq<u8>, y: Seq<u8>, n: nat)
    requires
        c < 16,
        n <= x.len(),
        n <= y.len(),
        is_vec(x),
        is_vec(y),
        forall|i: int| 0 <= i < n ==> #[trigger] z[i] == gf_mul(c, x[i]),
    ensures
        dot_upto(z, y, n) == gf_mul(c, dot_upto(x, y, n)),
    decreases n,
{
    if n == 0 {
        lemma_mul_identity(c);
    } else {
        let k = (n - 1) as nat;
        lemma_dot_upto_scale_left(c, x, z, y, k);
        lemma_dot_upto_closed(x, y, k);
        lemma_mul_closed(x[n - 1], y[n - 1]);
        assert(z[n - 1] == gf_mul(c, x[n - 1]));
        lemma_mul_distributive(c, dot_upto(x, y, k), gf_mul(x[n - 1], y[n - 1]));
        lemma_mul_associative(c, x[n - 1], y[n - 1]);
    }
}

/// Adding `e` to entry `p` of the first argument adds `e * y[p]` to the inner
/// product.
pub proof fn lemma_dot_upto_update_left(x: Seq<u8>, y: Seq<u8>, n: nat, p: int, e: u8)
    requires
        n <= x.len(),
        n <= y.len(),
        is_vec(x),
        is_vec(y),
        e < 16,
        0 <= p < n,
    ensures
        dot_upto(x.update(p, gf_add(x[p], e)), y, n) == gf_add(
            dot_upto(x, y, n),
            gf_mul(e, y[p]),
        ),
    decreases n,
{
    let x2 = x.update(p, gf_add(x[p], e));
    let k = (n - 1) as nat;
    if p == n - 1 {
        lemma_dot_upto_ext(x2, y, x, y, k);
        lemma_mul_distributive(y[p], x[p], e);
        lemma_add_laws(dot_upto(x, y, k), gf_mul(x[p], y[p]), gf_mul(e, y[p]));
    } else {
        lemma_dot_upto_update_left(x, y, k, p, e);
        lemma_add_rearrange(dot_upto(x, y, k), gf_mul(e, y[p]), gf_mul(x[n - 1], y[n - 1]), 0);
    }
}

/// Adding `e` to entry `p` of the second argument adds `x[p] * e` to the inner
/// product.
pub proof fn lemma_dot_upto_update_right(x: Seq<u8>, y: Seq<u8>, n: nat, p: int, e: u8)
    requires
        n <= x.len(),
        n <= y.len(),
        is_vec(x),
        is_vec(y),
        e < 16,
        0 <= p < n,
    ensures
        dot_upto(x, y.update(p, gf_add(y[p], e)), n) == gf_add(
            dot_upto(x, y, n),
            gf_mul(x[p], e),
        ),
{
    let y2 = y.update(p, gf_add(y[p], e));
    lemma_add_closed(y[p], e);
    assert(is_vec(y2));
    lemma_dot_upto_commutative(x, y2, n);
    lemma_dot_upto_commutative(x, y, n);
    lemma_dot_upto_update_left(y, x, n, p, e);
    lemma_mul_commutative(e, x[p]);
}

/// A sum of products whose terms vanish except at `p` is the term at `p`.
pub proof fn lemma_dot_upto_single(x: Seq<u8>, y: Seq<u8>, n: nat, p: int)
    requires
        0 <= p < n,
        forall|i: int| 0 <= i < n && i != p ==> #[trigger] gf_mul(x[i], y[i]) == 0,
    ensures
        dot_upto(x, y, n) == gf_mul(x[p], y[p]),
    decreases n,
{
    let k = (n - 1) as nat;
    if p == n - 1 {
        lemma_dot_upto_vanishes(x, y, k);
        lemma_add_laws(gf_mul(x[p], y[p]), 0, 0);
    } else {
        lemma_dot_upto_single(x, y, k, p);
        assert(gf_mul(x[n - 1], y[n - 1]) == 0);
        lemma_add_laws(gf_mul(x[p], y[p]), 0, 0);
    }
}

/// A sum of products whose terms all vanish is zero.
pub proof fn lemma_dot_upto_vanishes(x: Seq<u8>, y: Seq<u8>, n: nat)
    requires
        forall|i: int| 0 <= i < n ==> #[trigger] gf_mul(x[i], y[i]) == 0,
    ensures
        dot_upto(x, y, n) == 0,
    decreases n,
{
    if n > 0 {
        lemma_dot_upto_vanishes(x, y, (n - 1) as nat);
        assert(gf_mul(x[n - 1], y[n - 1]) == 0);
        lemma_add_laws(0, 0, 0);
    }
}

/// The inner product is additive in its second argument.
pub proof fn lemma_dot_upto_add_right(x: Seq<u8>, y1: Seq<u8>, y2: Seq<u8>, z: Seq<u8>, n: nat)
    requires
        n <= x.len(),
        n <= y1.len(),
        n <= y2.len(),
        is_vec(x),
        is_vec(y1),
        is_vec(y2),
        forall|i: int| 0 <= i < n ==> #[trigger] z[i] == gf_add(y1[i], y2[i]),
    ensures
        dot_upto(x, z, n) == gf_add(dot_upto(x, y1, n), dot_upto(x, y2, n)),
    decreases n,
{
    if n == 0 {
        lemma_add_laws(0, 0, 0);
    } else {
        let k = (n - 1) as nat;
        lemma_dot_upto_add_right(x, y1, y2, z, k);
        assert(z[n - 1] == gf_add(y1[n - 1], y2[n - 1]));
        lemma_mul_distributive(x[n - 1], y1[n - 1], y2[n - 1]);
        lemma_add_rearrange(
            dot_upto(x, y1, k),
            dot_upto(x, y2, k),
            gf_mul(x[n - 1], y1[n - 1]),
            gf_mul(x[n - 1], y2[n - 1]),
        );
    }
}

/// The inner product of a concatenation splits into the inner products of
/// its parts.
pub proof fn lemma_dot_upto_concat(s1: Seq<u8>, s2: Seq<u8>, x: Seq<u8>, n2: nat)
    requires
        n2 <= s2.len(),
        s1.len() + n2 <= x.len(),
    ensures
        dot_upto(s1 + s2, x, s1.len() + n2) == gf_add(
            dot_upto(s1, x, s1.len()),
            dot_upto(s2, x.subrange(s1.len() as int, x.len() as int), n2),
        ),
    decreases n2,
{
    let n1 = s1.len();
    let tail = x.subrange(n1 as int, x.len() as int);
    if n2 == 0 {
        lemma_dot_upto_ext(s1 + s2, x, s1, x, n1);
        lemma_add_laws(dot_upto(s1, x, n1), 0, 0);
    } else {
        let k = (n2 - 1) as nat;
        lemma_dot_upto_concat(s1, s2, x, k);
        assert((s1 + s2)[n1 + n2 - 1] == s2[n2 - 1]);
        assert(tail[n2 - 1] == x[n1 + n2 - 1]);
        lemma_add_laws(
            dot_upto(s1, x, n1),
            dot_upto(s2, tail, k),
            gf_mul(s2[n2 - 1], tail[n2 - 1]),
        );
    }
}

/// The sum of two vectors of field elements is one.
pub proof fn lemma_vec_add_is_vec(x: Seq<u8>, y: Seq<u8>)
    requires
        is_vec(x),
        is_vec(y),
        x.len() <= y.len(),
    ensures
        is_vec(vec_add(x, y)),
        vec_add(x, y).len() == x.len(),
{
    let z = vec_add(x, y);
    assert forall|i: int| 0 <= i < z.len() implies #[trigger] z[i] < 16 by {
        lemma_add_closed(x[i], y[i]);
    }
}

/// A multiple of a vector of field elements is one.
pub proof fn lemma_vec_scale_is_vec(c: u8, x: Seq<u8>)
    requires
        c < 16,
        is_vec(x),
    ensures
        is_vec(vec_scale(c, x)),
        vec_scale(c, x).len() == x.len(),
{
    let z = vec_scale(c, x);
    assert forall|i: int| 0 <= i < z.len() implies #[trigger] z[i] < 16 by {
        lemma_mul_closed(c, x[i]);
    }
}

/// A row vector times a matrix is a vector of as many field elements as the
/// matrix has columns.
pub proof fn lemma_vec_mat_is_vec(x: Seq<u8>, m: Seq<Seq<u8>>, rows: nat, cols: nat)
    requires
        is_vec(x),
        x.len() == rows,
        is_matrix(m, rows, cols),
    ensures
        is_vec(vec_mat(x, m, cols)),
        vec_mat(x, m, cols).len() == cols,
{
    let z = vec_mat(x, m, cols);
    assert forall|c: int| 0 <= c < z.len() implies #[trigger] z[c] < 16 by {
        lemma_column_is_vec(m, rows, cols, c);
        lemma_dot_upto_closed(x, column(m, c), rows);
    }
}

/// A matrix times a column vector is a vector of as many field elements as
/// the matrix has rows.
pub proof fn lemma_mat_vec_is_vec(m: Seq<Seq<u8>>, x: Seq<u8>, rows: nat, cols: nat)
    requires
        is_vec(x),
        x.len() == cols,
        is_matrix(m, rows, cols),
    ensures
        is_vec(mat_vec(m, x)),
        mat_vec(m, x).len() == rows,
{
    let z = mat_vec(m, x);
    assert forall|a: int| 0 <= a < z.len() implies #[trigger] z[a] < 16 by {
        assert(is_vec(m[a]));
        lemma_dot_upto_closed(m[a], x, cols);
    }
}

/// The product of a `rows` by `inner` and an `inner` by `cols` matrix is a
/// `rows` by `cols` matrix.
pub proof fn lemma_mat_mul_is_matrix(a: Seq<Seq<u8>>, b: Seq<Seq<u8>>, rows: nat, inner: nat, cols: nat)
    requires
        is_matrix(a, rows, inner),
        is_matrix(b, inner, cols),
    ensures
        is_matrix(mat_mul(a, b, cols), rows, cols),
{
    let z = mat_mul(a, b, cols);
    assert forall|i: int| 0 <= i < rows implies is_vec(#[trigger] z[i]) && z[i].len() == cols by {
        assert(is_vec(a[i]));
        lemma_vec_mat_is_vec(a[i], b, inner, cols);
    }
}

/// The sum of two matrices of one shape has that shape.
pub proof fn lemma_mat_add_is_matrix(a: Seq<Seq<u8>>, b: Seq<Seq<u8>>, rows: nat, cols: nat)
    requires
        is_matrix(a, rows, cols),
        is_matrix(b, rows, cols),
    ensures
        is_matrix(mat_add(a, b), rows, cols),
{
    let z = mat_add(a, b);
    assert forall|i: int| 0 <= i < rows implies is_vec(#[trigger] z[i]) && z[i].len() == cols by {
        assert(is_vec(a[i]) && is_vec(b[i]));
        lemma_vec_add_is_vec(a[i], b[i]);
    }
}

/// The transpose of a `rows` by `cols` matrix is a `cols` by `rows` matrix
/// with the entries mirrored.
pub proof fn lemma_transposed_is_matrix(m: Seq<Seq<u8>>, rows: nat, cols: nat)
    requires
        is_matrix(m, rows, cols),
        0 < rows,
    ensures
        is_matrix(transposed(m), cols, rows),
        forall|j: int, i: int|
            0 <= j < cols && 0 <= i < rows ==> #[trigger] transposed(m)[j][i] == m[i][j],
{
    let z = transposed(m);
    assert(m[0].len() == cols);
    assert forall|j: int| 0 <= j < cols implies is_vec(#[trigger] z[j]) && z[j].len() == rows by {
        lemma_column_is_vec(m, rows, cols, j);
    }
}

/// The upper-triangular representative of a square matrix is a square matrix
/// that vanishes below the diagonal.
pub proof fn lemma_upper_is_matrix(m: Seq<Seq<u8>>, n: nat)
    requires
        is_matrix(m, n, n),
    ensures
        is_matrix(upper_part(m), n, n),
        is_upper(upper_part(m)),
{
    let z = upper_part(m);
    assert forall|i: int| 0 <= i < n implies is_vec(#[trigger] z[i]) && z[i].len() == n by {
        assert forall|j: int| 0 <= j < n implies #[trigger] z[i][j] < 16 by {
            assert(is_vec(m[i]) && is_vec(m[j]));
            lemma_add_closed(m[i][j], m[j][i]);
        }
    }
}

/// The vector whose entry `c` sums `x[a] * m[a][c]` over the first `n` rows.
pub open spec fn partial_vec_mat(x: Seq<u8>, m: Seq<Seq<u8>>, cols: nat, n: nat) -> Seq<u8> {
    Seq::new(cols, |c: int| dot_upto(x, column(m, c), n))
}

/// `(x^T M) y = x^T (M y)`, with both sides summed over the first `n` rows of
/// `M` only.
pub proof fn lemma_sandwich_upto(x: Seq<u8>, m: Seq<Seq<u8>>, y: Seq<u8>, rows: nat, cols: nat, n: nat)
    requires
        is_vec(x),
        x.len() == rows,
        is_matrix(m, rows, cols),
        is_vec(y),
        y.len() == cols,
        n <= rows,
    ensures
        dot_upto(partial_vec_mat(x, m, cols, n), y, cols) == dot_upto(x, mat_vec(m, y), n),
        is_vec(partial_vec_mat(x, m, cols, n)),
    decreases n,
{
    let cur = partial_vec_mat(x, m, cols, n);
    assert(is_vec(cur)) by {
        assert forall|c: int| 0 <= c < cols implies #[trigger] cur[c] < 16 by {
            lemma_column_is_vec(m, rows, cols, c);
            lemma_dot_upto_closed(x, column(m, c), n);
        }
    }
    if n == 0 {
        assert forall|c: int| 0 <= c < cols implies #[trigger] gf_mul(cur[c], y[c]) == 0 by {
            lemma_mul_identity(y[c]);
        }
        lemma_dot_upto_vanishes(cur, y, cols);
    } else {
        let k = (n - 1) as nat;
        let prev = partial_vec_mat(x, m, cols, k);
        lemma_sandwich_upto(x, m, y, rows, cols, k);
        let row = m[n - 1];
        assert(is_vec(row) && row.len() == cols);
        let sc = vec_scale(x[n - 1], row);
        lemma_vec_scale_is_vec(x[n - 1], row);
        assert forall|c: int| 0 <= c < cols implies #[trigger] cur[c] == gf_add(prev[c], sc[c]) by {
            assert(column(m, c)[n - 1] == row[c]);
        }
        lemma_dot_upto_add_left(prev, sc, cur, y, cols);
        lemma_dot_upto_scale_left(x[n - 1], row, sc, y, cols);
        assert(mat_vec(m, y)[n - 1] == dot_upto(row, y, cols));
    }
}

/// `(x^T M) y = x^T (M y)`.
pub proof fn lemma_sandwich(x: Seq<u8>, m: Seq<Seq<u8>>, y: Seq<u8>, rows: nat, cols: nat)
    requires
        is_vec(x),
        x.len() == rows,
        is_matrix(m, rows, cols),
        is_vec(y),
        y.len() == cols,
    ensures
        dot(vec_mat(x, m, cols), y) == dot(x, mat_vec(m, y)),
{
    lemma_sandwich_upto(x, m, y, rows, cols, rows);
    assert(vec_mat(x, m, cols) =~= partial_vec_mat(x, m, cols, rows));
}

/// Terms that vanish from `k` on do not change a sum of products.
pub proof fn lemma_dot_upto_tail(x: Seq<u8>, y: Seq<u8>, k: nat, n: nat)
    requires
        k <= n,
        forall|i: int| k <= i < n ==> #[trigger] gf_mul(x[i], y[i]) == 0,
    ensures
        dot_upto(x, y, n) == dot_upto(x, y, k),
    decreases n,
{
    if k < n {
        lemma_dot_upto_tail(x, y, k, (n - 1) as nat);
        assert(gf_mul(x[n - 1], y[n - 1]) == 0);
        lemma_add_laws(dot_upto(x, y, (n - 1) as nat), 0, 0);
    }
}

/// A column of a matrix is a vector of as many field elements as the matrix
/// has rows.
pub proof fn lemma_column_is_vec(m: Seq<Seq<u8>>, rows: nat, cols: nat, c: int)
    requires
        is_matrix(m, rows, cols),
        0 <= c < cols,
    ensures
        is_vec(column(m, c)),
        column(m, c).len() == rows,
{
    assert forall|a: int| 0 <= a < rows implies #[trigger] column(m, c)[a] < 16 by {
        assert(is_vec(m[a]));
        assert(m[a][c] < 16);
    }
}

} // verus!
