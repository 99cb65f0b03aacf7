//! Solving a linear system over GF(16) by elimination.
//!
//! The system is held as an augmented matrix: each row is the coefficients
//! of one equation followed by its right-hand side. Elimination uses a single
//! row operation, adding a multiple of one row to another, which keeps both
//! the solutions of the system and the rank of its coefficient matrix.

use crate::field::{
    gf_add, gf_inv, gf_mul, lemma_add_closed, lemma_add_laws, lemma_add_rearrange,
    lemma_mul_associative, lemma_mul_closed, lemma_mul_commutative, lemma_mul_identity,
    lemma_mul_inverse, lemma_mul_nonzero,
};
use crate::linalg::{
    column, dot_upto, is_matrix, is_vec, lemma_column_is_vec, lemma_dot_upto_add_left,
    lemma_dot_upto_add_right, lemma_dot_upto_closed, lemma_dot_upto_commutative,
    lemma_dot_upto_scale_left, lemma_dot_upto_single, lemma_dot_upto_tail,
    lemma_dot_upto_update_left, lemma_dot_upto_update_right, lemma_dot_upto_vanishes,
    lemma_vec_add_is_vec, mat_view, vec_add, vec_scale,
};
use vstd::prelude::*;

verus! {

/// Whether `x` satisfies the equation that the augmented row `row` states:
/// its first `n` entries, applied to `x`, give entry `n`.
pub open spec fn satisfies(row: Seq<u8>, x: Seq<u8>, n: nat) -> bool {
    dot_upto(row, x, n) == row[n as int]
}

/// Whether `x` satisfies every equation of the augmented matrix `m`.
pub open spec fn solves(m: Seq<Seq<u8>>, x: Seq<u8>, n: nat) -> bool {
    forall|a: int| 0 <= a < m.len() ==> satisfies(#[trigger] m[a], x, n)
}

/// Whether some entry of `c` is not zero.
pub open spec fn is_nonzero(c: Seq<u8>) -> bool {
    exists|q: int| 0 <= q < c.len() && #[trigger] c[q] != 0
}

/// Whether the combination of the rows of `m` with the coefficients `c`
/// vanishes in each of the first `n` columns.
pub open spec fn annihilates(c: Seq<u8>, m: Seq<Seq<u8>>, n: nat) -> bool {
    forall|col: int| 0 <= col < n ==> dot_upto(c, #[trigger] column(m, col), m.len()) == 0
}

/// Whether `c` witnesses that the rows of `m`, cut to their first `n`
/// columns, are linearly dependent.
pub open spec fn is_dependency(c: Seq<u8>, m: Seq<Seq<u8>>, n: nat) -> bool {
    c.len() == m.len() && is_vec(c) && is_nonzero(c) && annihilates(c, m, n)
}

/// Whether the rows of `m`, cut to their first `n` columns, are linearly
/// dependent.
pub open spec fn rows_dependent(m: Seq<Seq<u8>>, n: nat) -> bool {
    exists|c: Seq<u8>| #[trigger] is_dependency(c, m, n)
}

/// Whether the coefficient part of the augmented matrix `m` has full row rank.
pub open spec fn full_row_rank(m: Seq<Seq<u8>>, n: nat) -> bool {
    !rows_dependent(m, n)
}

/// The matrix `m` after `t` times row `source` has been added to row `target`.
pub open spec fn row_op(m: Seq<Seq<u8>>, target: int, source: int, t: u8) -> Seq<Seq<u8>> {
    m.update(target, vec_add(m[target], vec_scale(t, m[source])))
}

/// Every solution of `cur` is a solution of `orig`.
pub open spec fn keeps_solutions(cur: Seq<Seq<u8>>, orig: Seq<Seq<u8>>, n: nat) -> bool {
    forall|x: Seq<u8>| is_vec(x) && x.len() == n && #[trigger] solves(cur, x, n) ==> solves(orig, x, n)
}

/// The two augmented matrices state the same linear relations among their
/// columns: for every `c <= n`, the same vectors express column `c` by the
/// columns before it.
pub open spec fn equivalent(a: Seq<Seq<u8>>, b: Seq<Seq<u8>>, n: nat) -> bool {
    forall|c: nat, x: Seq<u8>|
        #![trigger solves(a, x, c)]
        #![trigger solves(b, x, c)]
        c <= n && is_vec(x) && x.len() == c ==> (solves(a, x, c) <==> solves(b, x, c))
}

/// Whether column `c` of `m` is a linear combination of the columns before it.
pub open spec fn column_depends(m: Seq<Seq<u8>>, c: nat) -> bool {
    exists|lam: Seq<u8>| is_vec(lam) && lam.len() == c && #[trigger] solves(m, lam, c)
}

/// Whether `x` keeps the entry of `r` in every column of `m` that is a linear
/// combination of the columns before it.
pub open spec fn keeps_start(m: Seq<Seq<u8>>, x: Seq<u8>, r: Seq<u8>, n: nat) -> bool {
    forall|c: int| 0 <= c < n && #[trigger] column_depends(m, c as nat) ==> x[c] == r[c]
}

/// A row operation keeps the shape of the matrix.
pub proof fn lemma_row_op_is_matrix(m: Seq<Seq<u8>>, rows: nat, w: nat, target: int, source: int, t: u8)
    requires
        is_matrix(m, rows, w),
        0 <= target < rows,
        0 <= source < rows,
        t < 16,
    ensures
        is_matrix(row_op(m, target, source, t), rows, w),
{
    let m2 = row_op(m, target, source, t);
    assert forall|i: int| 0 <= i < rows implies is_vec(#[trigger] m2[i]) && m2[i].len() == w by {
        assert(is_vec(m[i]));
        assert(m[i].len() == w);
        if i == target {
            assert(is_vec(m[source]) && is_vec(m[target]));
            assert forall|c: int| 0 <= c < w implies #[trigger] m2[i][c] < 16 by {
                lemma_mul_closed(t, m[source][c]);
                lemma_add_closed(m[target][c], gf_mul(t, m[source][c]));
            }
        }
    }
}

/// A solution of the system after a row operation solves the system before it.
pub proof fn lemma_row_op_keeps_solutions(
    m: Seq<Seq<u8>>,
    rows: nat,
    w: nat,
    n: nat,
    target: int,
    source: int,
    t: u8,
)
    requires
        is_matrix(m, rows, w),
        n < w,
        0 <= target < rows,
        0 <= source < rows,
        target != source,
        t < 16,
    ensures
        keeps_solutions(row_op(m, target, source, t), m, n),
{
    let m2 = row_op(m, target, source, t);
    assert forall|x: Seq<u8>| is_vec(x) && x.len() == n && #[trigger] solves(m2, x, n) implies solves(
        m,
        x,
        n,
    ) by {
        assert forall|a: int| 0 <= a < m.len() implies satisfies(#[trigger] m[a], x, n) by {
            assert(satisfies(m2[a], x, n));
            if a == target {
                let rt = m[target];
                let rs = m[source];
                let sc = vec_scale(t, rs);
                assert(is_vec(rt) && is_vec(rs));
                assert(satisfies(m2[source], x, n));
                assert(m2[source] == rs);
                assert(is_vec(sc)) by {
                    assert forall|c: int| 0 <= c < sc.len() implies #[trigger] sc[c] < 16 by {
                        lemma_mul_closed(t, rs[c]);
                    }
                }
                lemma_dot_upto_scale_left(t, rs, sc, x, n);
                lemma_dot_upto_add_left(rt, sc, m2[target], x, n);
                lemma_dot_upto_closed(rt, x, n);
                // dot(rt) + t * rs[n] == rt[n] + t * rs[n]
                lemma_add_rearrange(dot_upto(rt, x, n), rt[n as int], gf_mul(t, rs[n as int]), 0);
            }
        }
    }
}

/// Undoing a row operation: in characteristic two it is its own inverse.
pub proof fn lemma_row_op_involution(m: Seq<Seq<u8>>, rows: nat, w: nat, target: int, source: int, t: u8)
    requires
        is_matrix(m, rows, w),
        0 <= target < rows,
        0 <= source < rows,
        target != source,
        t < 16,
    ensures
        row_op(row_op(m, target, source, t), target, source, t) == m,
{
    let m2 = row_op(m, target, source, t);
    let m3 = row_op(m2, target, source, t);
    assert(m[target].len() == w && m[source].len() == w);
    assert forall|c: int| 0 <= c < w implies #[trigger] m3[target][c] == m[target][c] by {
        lemma_add_rearrange(m[target][c], gf_mul(t, m[source][c]), 0, 0);
    }
    assert(m3[target] =~= m[target]);
    assert(m3 =~= m);
}

/// A row operation changes no linear relation among the columns.
pub proof fn lemma_row_op_equivalent(
    m: Seq<Seq<u8>>,
    rows: nat,
    w: nat,
    n: nat,
    target: int,
    source: int,
    t: u8,
)
    requires
        is_matrix(m, rows, w),
        n < w,
        0 <= target < rows,
        0 <= source < rows,
        target != source,
        t < 16,
    ensures
        equivalent(row_op(m, target, source, t), m, n),
{
    let m2 = row_op(m, target, source, t);
    lemma_row_op_is_matrix(m, rows, w, target, source, t);
    lemma_row_op_involution(m, rows, w, target, source, t);
    assert forall|c: nat, x: Seq<u8>|
        #![trigger solves(m2, x, c)]
        #![trigger solves(m, x, c)]
        c <= n && is_vec(x) && x.len() == c implies (solves(m2, x, c) <==> solves(m, x, c)) by {
        lemma_row_op_keeps_solutions(m, rows, w, c, target, source, t);
        lemma_row_op_keeps_solutions(m2, rows, w, c, target, source, t);
    }
}

/// A dependency among the rows after a row operation gives one among the rows
/// before it.
pub proof fn lemma_row_op_dependency(
    m: Seq<Seq<u8>>,
    rows: nat,
    w: nat,
    n: nat,
    target: int,
    source: int,
    t: u8,
)
    requires
        is_matrix(m, rows, w),
        n <= w,
        0 <= target < rows,
        0 <= source < rows,
        target != source,
        t < 16,
        rows_dependent(row_op(m, target, source, t), n),
    ensures
        rows_dependent(m, n),
{
    let m2 = row_op(m, target, source, t);
    let c = choose|c: Seq<u8>| #[trigger] is_dependency(c, m2, n);
    assert(is_dependency(c, m2, n));
    let e = gf_mul(c[target], t);
    lemma_mul_closed(c[target], t);
    lemma_add_closed(c[source], e);
    let d = c.update(source, gf_add(c[source], e));
    assert(is_vec(d));
    // d is not zero
    let q = choose|q: int| 0 <= q < c.len() && #[trigger] c[q] != 0;
    if q != source {
        assert(d[q] != 0);
    } else if c[target] != 0 {
        assert(d[target] != 0);
    } else {
        lemma_mul_identity(t);
        lemma_add_laws(c[source], 0, 0);
        assert(d[source] != 0);
    }
    assert(is_nonzero(d));
    assert forall|col: int| 0 <= col < n implies dot_upto(d, #[trigger] column(m, col), m.len())
        == 0 by {
        let y = column(m, col);
        let y2 = column(m2, col);
        lemma_column_is_vec(m, rows, w, col);
        assert(m[target].len() == w && m[source].len() == w);
        assert(is_vec(m[target]) && is_vec(m[source]));
        let f = gf_mul(t, m[source][col]);
        lemma_mul_closed(t, m[source][col]);
        assert(y2 =~= y.update(target, gf_add(y[target], f)));
        lemma_dot_upto_update_right(c, y, rows, target, f);
        lemma_dot_upto_update_left(c, y, rows, source, e);
        lemma_mul_associative(c[target], t, m[source][col]);
        assert(dot_upto(c, y2, rows) == 0);
        lemma_dot_upto_closed(c, y, rows);
        lemma_add_rearrange(dot_upto(c, y, rows), gf_mul(c[target], f), 0, 0);
        lemma_add_laws(dot_upto(c, y, rows), 0, 0);
    }
    assert(is_dependency(d, m, n));
}

/// A row operation changes neither way whether the rows are dependent.
pub proof fn lemma_row_op_rank(
    m: Seq<Seq<u8>>,
    rows: nat,
    w: nat,
    n: nat,
    target: int,
    source: int,
    t: u8,
)
    requires
        is_matrix(m, rows, w),
        n <= w,
        0 <= target < rows,
        0 <= source < rows,
        target != source,
        t < 16,
    ensures
        rows_dependent(row_op(m, target, source, t), n) == rows_dependent(m, n),
{
    let m2 = row_op(m, target, source, t);
    if rows_dependent(m2, n) {
        lemma_row_op_dependency(m, rows, w, n, target, source, t);
    }
    if rows_dependent(m, n) {
        lemma_row_op_is_matrix(m, rows, w, target, source, t);
        lemma_row_op_involution(m, rows, w, target, source, t);
        lemma_row_op_dependency(m2, rows, w, n, target, source, t);
    }
}

/// The least index at which a nonzero vector does not vanish.
pub proof fn lemma_first_nonzero(c: Seq<u8>, bound: int) -> (q: int)
    requires
        0 <= bound < c.len(),
        c[bound] != 0,
    ensures
        0 <= q <= bound,
        c[q] != 0,
        forall|i: int| 0 <= i < q ==> c[i] == 0,
    decreases bound,
{
    if exists|i: int| 0 <= i < bound && c[i] != 0 {
        let i = choose|i: int| 0 <= i < bound && c[i] != 0;
        lemma_first_nonzero(c, i)
    } else {
        bound
    }
}

/// Whether each of the first `upto` rows of `m` has a pivot: its first
/// nonzero entry, in a column in which all later rows vanish.
pub open spec fn has_pivots(m: Seq<Seq<u8>>, pivots: Seq<usize>, n: nat, upto: nat) -> bool {
    &&& pivots.len() == upto
    &&& upto <= m.len()
    &&& forall|q: int| 0 <= q < upto ==> (#[trigger] pivots[q]) < n
    &&& forall|q: int| 0 <= q < upto ==> m[q][(#[trigger] pivots[q]) as int] != 0
    &&& forall|q: int, r: int|
        0 <= q < upto && q < r < m.len() ==> #[trigger] m[r][(#[trigger] pivots[q]) as int] == 0
    &&& forall|q: int, c: int| 0 <= q < upto && 0 <= c < pivots[q] ==> #[trigger] m[q][c] == 0
}

/// Rows that all have pivots are linearly independent.
pub proof fn lemma_pivots_independent(m: Seq<Seq<u8>>, pivots: Seq<usize>, rows: nat, w: nat, n: nat)
    requires
        is_matrix(m, rows, w),
        n <= w,
        has_pivots(m, pivots, n, rows),
    ensures
        !rows_dependent(m, n),
{
    if rows_dependent(m, n) {
        let c = choose|c: Seq<u8>| #[trigger] is_dependency(c, m, n);
        assert(is_dependency(c, m, n));
        let b = choose|q: int| 0 <= q < c.len() && #[trigger] c[q] != 0;
        let q = lemma_first_nonzero(c, b);
        let pc = pivots[q] as int;
        let y = column(m, pc);
        assert(pc < n);
        lemma_column_is_vec(m, rows, w, pc);
        assert forall|i: int| 0 <= i < rows && i != q implies #[trigger] gf_mul(c[i], y[i]) == 0 by {
            if i < q {
                assert(c[i] == 0);
                lemma_mul_identity(y[i]);
            } else {
                assert(m[i][pivots[q] as int] == 0);
                lemma_mul_identity(c[i]);
            }
        }
        lemma_dot_upto_single(c, y, rows, q);
        assert(y[q] == m[q][pc]);
        lemma_mul_nonzero(c[q], y[q]);
        assert(dot_upto(c, column(m, pc), m.len()) == 0);
        assert(false);
    }
}

/// A row that vanishes in the first `n` columns makes the rows dependent.
pub proof fn lemma_zero_row_dependent(m: Seq<Seq<u8>>, rows: nat, w: nat, n: nat, z: int)
    requires
        is_matrix(m, rows, w),
        n <= w,
        0 <= z < rows,
        forall|col: int| 0 <= col < n ==> m[z][col] == 0,
    ensures
        rows_dependent(m, n),
{
    let c = Seq::new(rows, |i: int| if i == z { 1u8 } else { 0u8 });
    assert(c[z] != 0);
    assert(is_nonzero(c));
    assert forall|col: int| 0 <= col < n implies dot_upto(c, #[trigger] column(m, col), m.len())
        == 0 by {
        let y = column(m, col);
        lemma_column_is_vec(m, rows, w, col);
        assert forall|i: int| 0 <= i < rows implies #[trigger] gf_mul(c[i], y[i]) == 0 by {
            if i == z {
                assert(y[i] == 0);
                lemma_mul_identity(c[i]);
            } else {
                lemma_mul_identity(y[i]);
            }
        }
        lemma_dot_upto_vanishes(c, y, rows);
    }
    assert(is_dependency(c, m, n));
}

/// The greatest index at which a vector does not vanish.
pub proof fn lemma_last_nonzero(z: Seq<u8>, bound: int) -> (c: int)
    requires
        0 <= bound < z.len(),
        z[bound] != 0,
    ensures
        bound <= c < z.len(),
        z[c] != 0,
        forall|i: int| c < i < z.len() ==> z[i] == 0,
    decreases z.len() - bound,
{
    if exists|i: int| bound < i < z.len() && z[i] != 0 {
        let i = choose|i: int| bound < i < z.len() && z[i] != 0;
        lemma_last_nonzero(z, i)
    } else {
        bound
    }
}

/// A system has at most one solution that keeps the entries of `r` in the
/// columns that are linear combinations of the columns before them.
pub proof fn lemma_solution_unique(
    m: Seq<Seq<u8>>,
    rows: nat,
    n: nat,
    r: Seq<u8>,
    x1: Seq<u8>,
    x2: Seq<u8>,
)
    requires
        is_matrix(m, rows, n + 1),
        is_vec(x1),
        x1.len() == n,
        is_vec(x2),
        x2.len() == n,
        solves(m, x1, n),
        solves(m, x2, n),
        keeps_start(m, x1, r, n),
        keeps_start(m, x2, r, n),
    ensures
        x1 == x2,
{
    if !(x1 =~= x2) {
        let b = choose|b: int| 0 <= b < n && x1[b] != x2[b];
        let z = vec_add(x1, x2);
        lemma_vec_add_is_vec(x1, x2);
        lemma_add_rearrange(x1[b], x2[b], 0, 0);
        assert(z[b] != 0);
        let c = lemma_last_nonzero(z, b);
        let zc = z[c];
        let inv = gf_inv(zc);
        lemma_mul_inverse(zc);
        let lam = Seq::new(c as nat, |i: int| gf_mul(inv, z[i]));
        assert(is_vec(lam)) by {
            assert forall|i: int| 0 <= i < lam.len() implies #[trigger] lam[i] < 16 by {
                lemma_mul_closed(inv, z[i]);
            }
        }
        assert forall|a: int| 0 <= a < m.len() implies satisfies(#[trigger] m[a], lam, c as nat) by {
            let row = m[a];
            assert(is_vec(row) && row.len() == n + 1);
            assert(satisfies(row, x1, n) && satisfies(row, x2, n));
            lemma_dot_upto_add_right(row, x1, x2, z, n);
            lemma_add_laws(row[n as int], 0, 0);
            assert(dot_upto(row, z, n) == 0);
            assert forall|i: int| c + 1 <= i < n implies #[trigger] gf_mul(row[i], z[i]) == 0 by {
                assert(z[i] == 0);
                lemma_mul_identity(row[i]);
            }
            lemma_dot_upto_tail(row, z, (c + 1) as nat, n);
            let d = dot_upto(row, z, c as nat);
            lemma_dot_upto_closed(row, z, c as nat);
            lemma_mul_closed(row[c], zc);
            lemma_add_rearrange(d, gf_mul(row[c], zc), 0, 0);
            assert(d == gf_mul(row[c], zc));
            // lam expresses column c
            lemma_dot_upto_commutative(row, lam, c as nat);
            lemma_dot_upto_commutative(row, z, c as nat);
            lemma_dot_upto_scale_left(inv, z, lam, row, c as nat);
            lemma_mul_commutative(row[c], zc);
            lemma_mul_associative(inv, zc, row[c]);
            lemma_mul_identity(row[c]);
        }
        assert(solves(m, lam, c as nat));
        assert(column_depends(m, c as nat));
        lemma_add_laws(x1[c], 0, 0);
        assert(false);
    }
}

/// Adds `t` times row `source` to row `target`.
fn add_scaled_row(aug: Vec<Vec<u8>>, target: usize, source: usize, t: u8) -> (res: Vec<Vec<u8>>)
    requires
        is_matrix(mat_view(&aug), aug.len() as nat, aug@[0]@.len() as nat),
        target < aug.len(),
        source < aug.len(),
        t < 16,
    ensures
        mat_view(&res) == row_op(mat_view(&aug), target as int, source as int, t),
        res.len() == aug.len(),
{
    let ghost mv = mat_view(&aug);
    assert(mv[0] == aug@[0]@);
    assert(mv[target as int] == aug@[target as int]@);
    assert(mv[source as int] == aug@[source as int]@);
    assert(is_vec(mv[target as int]) && is_vec(mv[source as int]));
    let w = aug[target].len();
    let mut row: Vec<u8> = Vec::new();
    let mut c: usize = 0;
    while c < w
        invariant
            c <= w,
            target < aug.len(),
            source < aug.len(),
            t < 16,
            w == aug@[target as int]@.len(),
            w == aug@[source as int]@.len(),
            is_vec(aug@[target as int]@),
            is_vec(aug@[source as int]@),
            row@.len() == c,
            forall|i: int|
                0 <= i < c ==> row@[i] == gf_add(
                    aug@[target as int]@[i],
                    gf_mul(t, aug@[source as int]@[i]),
                ),
        decreases w - c,
    {
        let p = crate::field::mul(t, aug[source][c]);
        let e = crate::field::add(aug[target][c], p);
        row.push(e);
        c += 1;
    }
    assert(row@ =~= vec_add(mv[target as int], vec_scale(t, mv[source as int])));
    let mut res = aug;
    res.set(target, row);
    assert(mat_view(&res) =~= row_op(mv, target as int, source as int, t));
    res
}

/// What elimination has reached after `rank` pivots and `col` columns: every
/// row among the first `rank` has its pivot in an earlier column, and the rows
/// from `rank` on vanish in every column before `col`.
pub open spec fn echelon_state(m: Seq<Seq<u8>>, pivots: Seq<usize>, n: nat, rank: nat, col: nat) -> bool {
    &&& has_pivots(m, pivots, n, rank)
    &&& forall|q: int| 0 <= q < rank ==> (#[trigger] pivots[q]) < col
    &&& forall|r: int, c: int| rank <= r < m.len() && 0 <= c < col ==> #[trigger] m[r][c] == 0
}

/// A row operation among the rows that have no pivot yet keeps what
/// elimination has reached.
pub proof fn lemma_row_op_keeps_state(
    m: Seq<Seq<u8>>,
    pivots: Seq<usize>,
    rows: nat,
    n: nat,
    rank: nat,
    col: nat,
    target: int,
    source: int,
    t: u8,
)
    requires
        is_matrix(m, rows, n + 1),
        echelon_state(m, pivots, n, rank, col),
        col <= n,
        rank <= target < rows,
        rank <= source < rows,
        t < 16,
    ensures
        echelon_state(row_op(m, target, source, t), pivots, n, rank, col),
{
    let m2 = row_op(m, target, source, t);
    lemma_mul_identity(t);
    lemma_add_laws(0, 0, 0);
    assert(m[target].len() == n + 1 && m[source].len() == n + 1);
    assert forall|q: int| 0 <= q < rank implies m2[q][(#[trigger] pivots[q]) as int] != 0 by {
        assert(m2[q] == m[q]);
    }
    assert forall|q: int, r: int| 0 <= q < rank && q < r < m2.len() implies #[trigger] m2[r][(
    #[trigger] pivots[q]) as int] == 0 by {
        let pc = pivots[q] as int;
        assert(m[r][pc] == 0);
        if r == target {
            assert(m[source][pivots[q] as int] == 0);
            assert(m2[r][pc] == gf_add(m[target][pc], gf_mul(t, m[source][pc])));
        }
    }
    assert forall|r: int, c: int| rank <= r < m2.len() && 0 <= c < col implies #[trigger] m2[r][c]
        == 0 by {
        assert(m[r][c] == 0);
        if r == target {
            assert(m[source][c] == 0);
            assert(m2[r][c] == gf_add(m[target][c], gf_mul(t, m[source][c])));
        }
    }
    assert forall|q: int, c: int| 0 <= q < rank && 0 <= c < pivots[q] implies #[trigger] m2[q][c]
        == 0 by {
        assert(m2[q] == m[q]);
        assert(m[q][c] == 0);
    }
}

/// One row operation of the elimination, with what it keeps.
fn reduce_row(
    m: Vec<Vec<u8>>,
    ncols: usize,
    target: usize,
    source: usize,
    t: u8,
    Ghost(pivots): Ghost<Seq<usize>>,
    Ghost(rank): Ghost<nat>,
    Ghost(col): Ghost<nat>,
) -> (res: Vec<Vec<u8>>)
    requires
        is_matrix(mat_view(&m), m.len() as nat, (ncols + 1) as nat),
        echelon_state(mat_view(&m), pivots, ncols as nat, rank, col),
        col <= ncols,
        rank <= target < m.len(),
        rank <= source < m.len(),
        target != source,
        t < 16,
    ensures
        res.len() == m.len(),
        mat_view(&res) == row_op(mat_view(&m), target as int, source as int, t),
        is_matrix(mat_view(&res), m.len() as nat, (ncols + 1) as nat),
        echelon_state(mat_view(&res), pivots, ncols as nat, rank, col),
        equivalent(mat_view(&res), mat_view(&m), ncols as nat),
        rows_dependent(mat_view(&res), ncols as nat) == rows_dependent(mat_view(&m), ncols as nat),
{
    let ghost mv = mat_view(&m);
    proof {
        assert(mv[0] == m@[0]@);
        assert(mv[0].len() == ncols + 1);
        lemma_row_op_is_matrix(mv, m.len() as nat, (ncols + 1) as nat, target as int, source as int, t);
        lemma_row_op_keeps_state(
            mv,
            pivots,
            m.len() as nat,
            ncols as nat,
            rank,
            col,
            target as int,
            source as int,
            t,
        );
        lemma_row_op_equivalent(
            mv,
            m.len() as nat,
            (ncols + 1) as nat,
            ncols as nat,
            target as int,
            source as int,
            t,
        );
        lemma_row_op_rank(
            mv,
            m.len() as nat,
            (ncols + 1) as nat,
            ncols as nat,
            target as int,
            source as int,
            t,
        );
    }
    add_scaled_row(m, target, source, t)
}

/// Brings an augmented matrix into echelon form by row operations. Returns the
/// reduced matrix and, for each of its leading rows that got a pivot, the
/// pivot's column.
fn eliminate(aug: Vec<Vec<u8>>, ncols: usize) -> (res: (Vec<Vec<u8>>, Vec<usize>))
    requires
        is_matrix(mat_view(&aug), aug.len() as nat, (ncols + 1) as nat),
    ensures
        res.0.len() == aug.len(),
        res.1.len() <= aug.len(),
        is_matrix(mat_view(&res.0), aug.len() as nat, (ncols + 1) as nat),
        equivalent(mat_view(&res.0), mat_view(&aug), ncols as nat),
        rows_dependent(mat_view(&res.0), ncols as nat) == rows_dependent(
            mat_view(&aug),
            ncols as nat,
        ),
        has_pivots(mat_view(&res.0), res.1@, ncols as nat, res.1.len() as nat),
        res.1.len() < aug.len() ==> forall|c: int|
            0 <= c < ncols ==> mat_view(&res.0)[res.1.len() as int][c] == 0,
{
    let rows = aug.len();
    let ghost orig = mat_view(&aug);
    let mut m = aug;
    let mut pivots: Vec<usize> = Vec::new();
    let mut rank: usize = 0;
    let mut col: usize = 0;
    while col < ncols && rank < rows
        invariant
            rank <= rows,
            col <= ncols,
            rows == m.len(),
            rank == pivots.len(),
            is_matrix(orig, rows as nat, (ncols + 1) as nat),
            is_matrix(mat_view(&m), rows as nat, (ncols + 1) as nat),
            equivalent(mat_view(&m), orig, ncols as nat),
            rows_dependent(mat_view(&m), ncols as nat) == rows_dependent(orig, ncols as nat),
            echelon_state(mat_view(&m), pivots@, ncols as nat, rank as nat, col as nat),
        decreases ncols - col,
    {
        let mut j: usize = rank;
        assert forall|r: int| 0 <= r < rows implies (#[trigger] m@[r])@.len() == ncols + 1 by {
            assert(mat_view(&m)[r] == m@[r]@);
        }
        while j < rows && m[j][col] == 0
            invariant
                rank <= j <= rows,
                rows == m.len(),
                col < ncols,
                is_matrix(mat_view(&m), rows as nat, (ncols + 1) as nat),
                forall|r: int| rank <= r < j ==> mat_view(&m)[r][col as int] == 0,
                forall|r: int| 0 <= r < rows ==> (#[trigger] m@[r])@.len() == ncols + 1,
            decreases rows - j,
        {
            assert(mat_view(&m)[j as int] == m@[j as int]@);
            j += 1;
        }
        assert(forall|r: int| 0 <= r < rows ==> (#[trigger] m@[r])@ == mat_view(&m)[r]);
        if j < rows {
            if j != rank {
                let ghost before = mat_view(&m);
                m = reduce_row(m, ncols, rank, j, 1, Ghost(pivots@), Ghost(rank as nat), Ghost(col as nat));
                proof {
                    assert(before[j as int].len() == ncols + 1 && before[rank as int].len() == ncols
                        + 1);
                    assert(before[rank as int][col as int] == 0);
                    lemma_mul_identity(before[j as int][col as int]);
                    assert(is_vec(before[j as int]));
                    lemma_add_laws(before[j as int][col as int], 0, 0);
                    assert(mat_view(&m)[rank as int][col as int] == before[j as int][col as int]);
                }
            }
            assert(mat_view(&m)[rank as int] == m@[rank as int]@);
            assert(is_vec(mat_view(&m)[rank as int]));
            let pv = m[rank][col];
            let inv = crate::field::inverse(pv);
            let mut r2: usize = rank + 1;
            while r2 < rows
                invariant
                    rank < r2 <= rows,
                    rows == m.len(),
                    rank == pivots.len(),
                    col < ncols,
                    0 < pv < 16,
                    0 < inv < 16,
                    gf_mul(pv, inv) == 1,
                    is_matrix(orig, rows as nat, (ncols + 1) as nat),
                    is_matrix(mat_view(&m), rows as nat, (ncols + 1) as nat),
                    equivalent(mat_view(&m), orig, ncols as nat),
                    rows_dependent(mat_view(&m), ncols as nat) == rows_dependent(orig, ncols as nat),
                    echelon_state(mat_view(&m), pivots@, ncols as nat, rank as nat, col as nat),
                    mat_view(&m)[rank as int][col as int] == pv,
                    forall|r: int| rank < r < r2 ==> mat_view(&m)[r][col as int] == 0,
                decreases rows - r2,
            {
                assert(mat_view(&m)[r2 as int] == m@[r2 as int]@);
                assert(is_vec(mat_view(&m)[r2 as int]));
                let e = m[r2][col];
                if e != 0 {
                    let t = crate::field::mul(e, inv);
                    let ghost before = mat_view(&m);
                    m = reduce_row(
                        m,
                        ncols,
                        r2,
                        rank,
                        t,
                        Ghost(pivots@),
                        Ghost(rank as nat),
                        Ghost(col as nat),
                    );
                    proof {
                        assert(before[r2 as int].len() == ncols + 1 && before[rank as int].len()
                            == ncols + 1);
                        lemma_mul_associative(e, inv, pv);
                        lemma_mul_commutative(inv, pv);
                        lemma_mul_identity(e);
                        lemma_add_laws(e, 0, 0);
                        assert(mat_view(&m)[r2 as int][col as int] == gf_add(e, gf_mul(t, pv)));
                        assert forall|r: int| rank < r < r2 implies mat_view(&m)[r][col as int]
                            == 0 by {
                            assert(mat_view(&m)[r] == before[r]);
                        }
                    }
                }
                r2 += 1;
            }
            proof {
                let mv = mat_view(&m);
                let ps = pivots@.push(col);
                assert forall|q: int| 0 <= q < rank + 1 implies mv[q][(#[trigger] ps[q]) as int]
                    != 0 by {
                    if q < rank {
                        assert(ps[q] == pivots@[q]);
                    }
                }
                assert forall|q: int, r: int| 0 <= q < rank + 1 && q < r < mv.len() implies #[trigger] mv[r][(
                #[trigger] ps[q]) as int] == 0 by {
                    if q < rank {
                        assert(ps[q] == pivots@[q]);
                        assert(mv[r][pivots@[q] as int] == 0);
                    }
                }
                assert forall|q: int| 0 <= q < rank + 1 implies (#[trigger] ps[q]) < col + 1 by {
                    if q < rank {
                        assert(ps[q] == pivots@[q]);
                    }
                }
                assert forall|q: int, c: int| 0 <= q < rank + 1 && 0 <= c < ps[q] implies #[trigger] mv[q][c]
                    == 0 by {
                    if q < rank {
                        assert(ps[q] == pivots@[q]);
                    }
                }
                assert(has_pivots(mv, ps, ncols as nat, (rank + 1) as nat));
            }
            pivots.push(col);
            rank += 1;
        }
        col += 1;
    }
    (m, pivots)
}

/// The sum of the products of the first `n` entries of two vectors.
fn dot_prefix(x: &Vec<u8>, y: &Vec<u8>, n: usize) -> (r: u8)
    requires
        n <= x.len(),
        n <= y.len(),
        is_vec(x@),
        is_vec(y@),
    ensures
        r == dot_upto(x@, y@, n as nat),
        r < 16,
{
    let mut acc: u8 = 0;
    let mut i: usize = 0;
    while i < n
        invariant
            i <= n,
            n <= x.len(),
            n <= y.len(),
            is_vec(x@),
            is_vec(y@),
            acc == dot_upto(x@, y@, i as nat),
            acc < 16,
        decreases n - i,
    {
        let p = crate::field::mul(x[i], y[i]);
        acc = crate::field::add(acc, p);
        i += 1;
    }
    acc
}

/// Whether `c` is the pivot column of a row from `from` on.
pub open spec fn is_pivot(pivots: Seq<usize>, c: int, from: int) -> bool {
    exists|q: int| from <= q < pivots.len() && #[trigger] pivots[q] == c
}

/// The column of a pivot is no linear combination of the columns before it.
pub proof fn lemma_pivot_column_independent(
    m: Seq<Seq<u8>>,
    pivots: Seq<usize>,
    rows: nat,
    w: nat,
    n: nat,
    q: int,
)
    requires
        is_matrix(m, rows, w),
        n <= w,
        has_pivots(m, pivots, n, pivots.len()),
        0 <= q < pivots.len(),
    ensures
        !column_depends(m, pivots[q] as nat),
{
    let pc = pivots[q] as nat;
    if column_depends(m, pc) {
        let lam = choose|lam: Seq<u8>| is_vec(lam) && lam.len() == pc && #[trigger] solves(m, lam, pc);
        assert(satisfies(m[q], lam, pc));
        assert forall|i: int| 0 <= i < pc implies #[trigger] gf_mul(m[q][i], lam[i]) == 0 by {
            assert(m[q][i] == 0);
            lemma_mul_identity(lam[i]);
        }
        lemma_dot_upto_vanishes(m[q], lam, pc);
        assert(m[q][pivots[q] as int] != 0);
        assert(false);
    }
}

/// Solves a system in echelon form whose rows all have pivots. Starting from
/// `r`, the rows are taken from the last to the first, and each corrects the
/// unknown of its pivot column so that its equation holds.
fn back_substitute(m: &Vec<Vec<u8>>, pivots: &Vec<usize>, ncols: usize, r: &Vec<u8>) -> (x: Vec<u8>)
    requires
        is_matrix(mat_view(m), m.len() as nat, (ncols + 1) as nat),
        has_pivots(mat_view(m), pivots@, ncols as nat, m.len() as nat),
        r.len() == ncols,
        is_vec(r@),
    ensures
        x.len() == ncols,
        is_vec(x@),
        solves(mat_view(m), x@, ncols as nat),
        forall|c: int| 0 <= c < ncols && x@[c] != r@[c] ==> is_pivot(pivots@, c, 0),
{
    let rows = m.len();
    let ghost mv = mat_view(m);
    let mut x: Vec<u8> = Vec::new();
    let mut i: usize = 0;
    while i < ncols
        invariant
            i <= ncols,
            r.len() == ncols,
            is_vec(r@),
            x@.len() == i,
            is_vec(x@),
            forall|c: int| 0 <= c < i ==> x@[c] == r@[c],
        decreases ncols - i,
    {
        x.push(r[i]);
        i += 1;
    }
    let mut q: usize = rows;
    while q > 0
        invariant
            q <= rows,
            rows == m.len(),
            mv == mat_view(m),
            is_matrix(mv, rows as nat, (ncols + 1) as nat),
            has_pivots(mv, pivots@, ncols as nat, rows as nat),
            x.len() == ncols,
            r.len() == ncols,
            pivots@.len() == rows,
            is_vec(x@),
            forall|a: int| q <= a < rows ==> satisfies(#[trigger] mv[a], x@, ncols as nat),
            forall|c: int| 0 <= c < ncols && x@[c] != r@[c] ==> is_pivot(pivots@, c, q as int),
        decreases q,
    {
        q -= 1;
        assert(mv[q as int] == m@[q as int]@);
        assert(is_vec(mv[q as int]));
        assert(mv[q as int].len() == ncols + 1);
        let pc = pivots[q];
        assert(pc < ncols);
        assert(mv[q as int][pivots@[q as int] as int] != 0);
        let pv = m[q][pc];
        let d = dot_prefix(&m[q], &x, ncols);
        let resid = crate::field::add(d, m[q][ncols]);
        let inv = crate::field::inverse(pv);
        let e = crate::field::mul(inv, resid);
        let ghost x0 = x@;
        let nv = crate::field::add(x[pc], e);
        x.set(pc, nv);
        proof {
            assert forall|c: int| 0 <= c < ncols && x@[c] != r@[c] implies is_pivot(
                pivots@,
                c,
                q as int,
            ) by {
                if c == pc {
                    assert(pivots@[q as int] == c);
                } else {
                    assert(x0[c] != r@[c]);
                    let w = choose|w: int| q + 1 <= w < pivots@.len() && #[trigger] pivots@[w] == c;
                    assert(pivots@[w] == c);
                }
            }
            assert(x@ == x0.update(pc as int, gf_add(x0[pc as int], e)));
            assert forall|a: int| q <= a < rows implies satisfies(#[trigger] mv[a], x@, ncols as nat) by {
                assert(is_vec(mv[a]));
                assert(mv[a].len() == ncols + 1);
                lemma_dot_upto_update_right(mv[a], x0, ncols as nat, pc as int, e);
                lemma_dot_upto_closed(mv[a], x0, ncols as nat);
                if a == q {
                    lemma_mul_associative(pv, inv, resid);
                    lemma_mul_identity(resid);
                    // d + (d + rhs) == rhs
                    lemma_add_rearrange(mv[a][ncols as int], d, 0, 0);
                    lemma_add_laws(d, mv[a][ncols as int], 0);
                    lemma_add_laws(d, resid, 0);
                    assert(gf_mul(mv[a][pc as int], e) == resid);
                    assert(gf_add(d, resid) == mv[a][ncols as int]);
                } else {
                    assert(mv[a][pivots@[q as int] as int] == 0);
                    lemma_mul_identity(e);
                    lemma_add_laws(dot_upto(mv[a], x0, ncols as nat), 0, 0);
                    assert(satisfies(mv[a], x0, ncols as nat));
                }
            }
        }
    }
    x
}

/// Solves the linear system that the augmented matrix `aug` states, of
/// `ncols` unknowns. Succeeds exactly when the coefficient matrix has full row
/// rank. The solution found keeps the entry of `r` for every unknown whose
/// column is a linear combination of the columns before it; this and the
/// system determine it.
pub fn sample_solution(aug: Vec<Vec<u8>>, ncols: usize, r: &Vec<u8>) -> (res: Option<Vec<u8>>)
    requires
        is_matrix(mat_view(&aug), aug.len() as nat, (ncols + 1) as nat),
        r.len() == ncols,
        is_vec(r@),
    ensures
        match res {
            Some(x) => x.len() == ncols && is_vec(x@) && solves(mat_view(&aug), x@, ncols as nat)
                && keeps_start(mat_view(&aug), x@, r@, ncols as nat) && full_row_rank(
                mat_view(&aug),
                ncols as nat,
            ),
            None => !full_row_rank(mat_view(&aug), ncols as nat),
        },
{
    let rows = aug.len();
    let ghost orig = mat_view(&aug);
    let (m, pivots) = eliminate(aug, ncols);
    if pivots.len() < rows {
        proof {
            lemma_zero_row_dependent(
                mat_view(&m),
                rows as nat,
                (ncols + 1) as nat,
                ncols as nat,
                pivots.len() as int,
            );
        }
        None
    } else {
        proof {
            lemma_pivots_independent(
                mat_view(&m),
                pivots@,
                rows as nat,
                (ncols + 1) as nat,
                ncols as nat,
            );
        }
        let x = back_substitute(&m, &pivots, ncols, r);
        assert(solves(orig, x@, ncols as nat));
        proof {
            let fin = mat_view(&m);
            assert forall|c: int|
                0 <= c < ncols && #[trigger] column_depends(orig, c as nat) implies x@[c]
                == r@[c] by {
                if x@[c] != r@[c] {
                    let q = choose|q: int| 0 <= q < pivots@.len() && #[trigger] pivots@[q] == c;
                    lemma_pivot_column_independent(
                        fin,
                        pivots@,
                        rows as nat,
                        (ncols + 1) as nat,
                        ncols as nat,
                        q,
                    );
                    let lam = choose|lam: Seq<u8>|
                        is_vec(lam) && lam.len() == c as nat && #[trigger] solves(
                            orig,
                            lam,
                            c as nat,
                        );
                    assert(solves(fin, lam, c as nat));
                    assert(false);
                }
            }
        }
        Some(x)
    }
}

} // verus!
