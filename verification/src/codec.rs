//! Byte codecs: bitsliced batches of matrices and nibble-packed vectors.
//!
//! A batch of `m` matrices is written position by position. At each position
//! that is kept, the `m` entries found there across the batch form one vector,
//! which is bitsliced: four bit planes, one per bit of a field element, each
//! plane packing eight entries per byte with the first entry in the highest
//! bit. A vector outside a batch is nibble-packed, two entries per byte with
//! the first in the low half.

use crate::error::MayoError;
use crate::linalg::{batch_view, is_batch, is_matrix, is_vec, mat_view};
use vstd::prelude::*;

verus! {

/// Bit `s` of `b`.
pub open spec fn pick(b: u8, s: u8) -> u8 {
    (b >> s) & 1
}

/// The field element whose four bits stand at position `s` of four plane bytes.
pub open spec fn nibble_of(b0: u8, b1: u8, b2: u8, b3: u8, s: u8) -> u8 {
    pick(b0, s) | (pick(b1, s) << 1) | (pick(b2, s) << 2) | (pick(b3, s) << 3)
}

/// One plane byte: bit `p` of eight entries, the first entry highest.
pub open spec fn pack8(e0: u8, e1: u8, e2: u8, e3: u8, e4: u8, e5: u8, e6: u8, e7: u8, p: u8) -> u8 {
    (pick(e0, p) << 7) | (pick(e1, p) << 6) | (pick(e2, p) << 5) | (pick(e3, p) << 4) | (pick(
        e4,
        p,
    ) << 3) | (pick(e5, p) << 2) | (pick(e6, p) << 1) | pick(e7, p)
}

/// Bit plane `p` of the vector `v`, one byte per group of eight entries.
pub open spec fn plane(v: Seq<u8>, p: u8) -> Seq<u8> {
    Seq::new(
        v.len() / 8,
        |g: int|
            pack8(
                v[8 * g],
                v[8 * g + 1],
                v[8 * g + 2],
                v[8 * g + 3],
                v[8 * g + 4],
                v[8 * g + 5],
                v[8 * g + 6],
                v[8 * g + 7],
                p,
            ),
    )
}

/// The bitsliced encoding of a vector whose length is a multiple of eight:
/// its four bit planes in order, half a byte per entry.
pub open spec fn encode_vector_spec(v: Seq<u8>) -> Seq<u8> {
    plane(v, 0) + plane(v, 1) + plane(v, 2) + plane(v, 3)
}

/// Entry `a` of the bitsliced vector that starts at byte `off` of `bytes`,
/// with planes of `h` bytes.
pub open spec fn decode_elem(bytes: Seq<u8>, off: int, h: int, a: int) -> u8 {
    nibble_of(
        bytes[off + a / 8],
        bytes[off + h + a / 8],
        bytes[off + 2 * h + a / 8],
        bytes[off + 3 * h + a / 8],
        (7 - a % 8) as u8,
    )
}

/// The vector of `m` entries that a bitsliced byte string holds.
pub open spec fn decode_vector_spec(bytes: Seq<u8>, m: nat) -> Seq<u8> {
    Seq::new(m, |a: int| decode_elem(bytes, 0, (m / 8) as int, a))
}

/// Whether position `(i, j)` is written: all of them, or with `tri` those on
/// and above the diagonal.
pub open spec fn keeps(tri: bool, i: int, j: int) -> bool {
    !tri || i <= j
}

/// How many positions of row `i` are written.
pub open spec fn row_slots(cols: nat, tri: bool, i: nat) -> nat {
    if tri {
        if i < cols {
            (cols - i) as nat
        } else {
            0
        }
    } else {
        cols
    }
}

/// How many positions are written in the rows before row `i`.
pub open spec fn slots_before(cols: nat, tri: bool, i: nat) -> nat
    decreases i,
{
    if i == 0 {
        0
    } else {
        slots_before(cols, tri, (i - 1) as nat) + row_slots(cols, tri, (i - 1) as nat)
    }
}

/// How many written positions of row `i` come before column `j`.
pub open spec fn kept_before(tri: bool, i: int, j: int) -> int {
    if tri {
        if j > i {
            j - i
        } else {
            0
        }
    } else {
        j
    }
}

/// The rank of position `(i, j)` among the written positions, in row-major
/// order.
pub open spec fn slot(cols: nat, tri: bool, i: int, j: int) -> int {
    slots_before(cols, tri, i as nat) + kept_before(tri, i, j)
}

/// How many positions of a `rows` by `cols` matrix are written.
pub open spec fn slot_count(rows: nat, cols: nat, tri: bool) -> nat {
    slots_before(cols, tri, rows)
}

/// The length in bytes of an encoded batch of `m` matrices.
pub open spec fn batch_bytes(m: nat, rows: nat, cols: nat, tri: bool) -> nat {
    slot_count(rows, cols, tri) * (m / 2)
}

/// The entries at position `(i, j)` across a batch.
pub open spec fn gather(b: Seq<Seq<Seq<u8>>>, i: int, j: int) -> Seq<u8> {
    Seq::new(b.len(), |a: int| b[a][i][j])
}

/// The encoding of the written positions of row `i` before column `j`.
pub open spec fn encode_row(b: Seq<Seq<Seq<u8>>>, tri: bool, i: int, j: nat) -> Seq<u8>
    decreases j,
{
    if j == 0 {
        Seq::empty()
    } else {
        encode_row(b, tri, i, (j - 1) as nat) + (if keeps(tri, i, j - 1) {
            encode_vector_spec(gather(b, i, j - 1))
        } else {
            Seq::empty()
        })
    }
}

/// The encoding of the rows before row `i`.
pub open spec fn encode_rows(b: Seq<Seq<Seq<u8>>>, cols: nat, tri: bool, i: nat) -> Seq<u8>
    decreases i,
{
    if i == 0 {
        Seq::empty()
    } else {
        encode_rows(b, cols, tri, (i - 1) as nat) + encode_row(b, tri, i - 1, cols)
    }
}

/// The encoding of a batch of `rows` by `cols` matrices.
pub open spec fn encode_batch_spec(b: Seq<Seq<Seq<u8>>>, rows: nat, cols: nat, tri: bool) -> Seq<
    u8,
> {
    encode_rows(b, cols, tri, rows)
}

/// The batch of `m` matrices that a byte string holds. Positions that are not
/// written are zero.
pub open spec fn decode_batch_spec(bytes: Seq<u8>, m: nat, rows: nat, cols: nat, tri: bool) -> Seq<
    Seq<Seq<u8>>,
> {
    Seq::new(
        m,
        |a: int|
            Seq::new(
                rows,
                |i: int|
                    Seq::new(
                        cols,
                        |j: int|
                            if keeps(tri, i, j) {
                                decode_elem(
                                    bytes,
                                    slot(cols, tri, i, j) * ((m / 2) as int),
                                    (m / 8) as int,
                                    a,
                                )
                            } else {
                                0u8
                            },
                    ),
            ),
    )
}

/// Whether `bytes` can be decoded into a batch of `m` matrices.
pub open spec fn batch_decodable(bytes: Seq<u8>, m: nat, rows: nat, cols: nat, tri: bool) -> bool {
    m % 8 == 0 && bytes.len() >= batch_bytes(m, rows, cols, tri)
}

/// Entry `idx` of a nibble-packed vector.
pub open spec fn nibble_at(bytes: Seq<u8>, idx: int) -> u8 {
    if idx % 2 == 0 {
        bytes[idx / 2] & 15
    } else {
        bytes[idx / 2] >> 4
    }
}

/// The vector of `n` entries that a nibble-packed byte string holds.
pub open spec fn decode_vec_spec(bytes: Seq<u8>, n: nat) -> Seq<u8> {
    Seq::new(n, |i: int| nibble_at(bytes, i))
}

/// The nibble-packed encoding of a vector. An odd last entry is padded with a
/// zero high half.
pub open spec fn encode_vec_spec(v: Seq<u8>) -> Seq<u8> {
    Seq::new(
        (v.len() + 1) / 2,
        |i: int|
            if 2 * i + 1 < v.len() {
                v[2 * i] | (v[2 * i + 1] << 4)
            } else {
                v[2 * i]
            },
    )
}

/// The `rows` by `cols` matrix that a nibble-packed byte string holds in
/// row-major order.
pub open spec fn decode_o_spec(bytes: Seq<u8>, rows: nat, cols: nat) -> Seq<Seq<u8>> {
    Seq::new(rows, |i: int| Seq::new(cols, |j: int| nibble_at(bytes, i * cols + j)))
}

/// What is read from four plane bytes is a field element.
pub proof fn lemma_nibble_of_is_elem(b0: u8, b1: u8, b2: u8, b3: u8, s: u8)
    by (bit_vector)
    ensures
        nibble_of(b0, b1, b2, b3, s) < 16,
{
}

/// Both halves of a byte are field elements.
pub proof fn lemma_nibble_halves(b: u8)
    by (bit_vector)
    ensures
        b & 15 < 16,
        b >> 4 < 16,
{
}

/// Packing two field elements into a byte and taking the halves gives them back.
pub proof fn lemma_nibble_pack(lo: u8, hi: u8)
    by (bit_vector)
    requires
        lo < 16,
        hi < 16,
    ensures
        (lo | (hi << 4)) & 15 == lo,
        (lo | (hi << 4)) >> 4 == hi,
        lo & 15 == lo,
{
}

/// Reading position `s` of the four planes packed from eight field elements
/// gives the element that was packed at that position.
pub proof fn lemma_unpack_pack(
    e0: u8,
    e1: u8,
    e2: u8,
    e3: u8,
    e4: u8,
    e5: u8,
    e6: u8,
    e7: u8,
    s: u8,
)
    by (bit_vector)
    requires
        e0 < 16,
        e1 < 16,
        e2 < 16,
        e3 < 16,
        e4 < 16,
        e5 < 16,
        e6 < 16,
        e7 < 16,
        s < 8,
    ensures
        nibble_of(
            pack8(e0, e1, e2, e3, e4, e5, e6, e7, 0),
            pack8(e0, e1, e2, e3, e4, e5, e6, e7, 1),
            pack8(e0, e1, e2, e3, e4, e5, e6, e7, 2),
            pack8(e0, e1, e2, e3, e4, e5, e6, e7, 3),
            s,
        ) == (if s == 7 {
            e0
        } else if s == 6 {
            e1
        } else if s == 5 {
            e2
        } else if s == 4 {
            e3
        } else if s == 3 {
            e4
        } else if s == 2 {
            e5
        } else if s == 1 {
            e6
        } else {
            e7
        }),
{
}

/// Later rows have no fewer written positions before them.
pub proof fn lemma_slots_before_monotonic(cols: nat, tri: bool, i: nat, k: nat)
    requires
        i <= k,
    ensures
        slots_before(cols, tri, i) <= slots_before(cols, tri, k),
    decreases k,
{
    if i < k {
        lemma_slots_before_monotonic(cols, tri, i, (k - 1) as nat);
    }
}

/// A written position of the matrix has a rank below the number of them.
pub proof fn lemma_slot_in_range(rows: nat, cols: nat, tri: bool, i: int, j: int)
    requires
        0 <= i < rows,
        0 <= j < cols,
        keeps(tri, i, j),
    ensures
        0 <= slot(cols, tri, i, j) < slot_count(rows, cols, tri),
        slot(cols, tri, i, j) + 1 <= slots_before(cols, tri, (i + 1) as nat),
{
    lemma_slots_before_monotonic(cols, tri, (i + 1) as nat, rows);
}

/// Chunk `q` of `n` chunks of `h` bytes lies within the `n * h` bytes.
pub proof fn lemma_chunk_bounds(q: int, n: int, h: int)
    by (nonlinear_arith)
    requires
        0 <= q < n,
        0 <= h,
    ensures
        0 <= q * h,
        q * h + h <= n * h,
        (q + 1) * h == q * h + h,
{
}

/// Whether every matrix of a batch vanishes below the diagonal.
pub open spec fn is_upper_batch(b: Seq<Seq<Seq<u8>>>, rows: nat, cols: nat) -> bool {
    forall|a: int, i: int, j: int|
        0 <= a < b.len() && 0 <= j < i < rows && j < cols ==> #[trigger] b[a][i][j] == 0
}

/// A bitsliced vector takes four planes of an eighth of its length.
pub proof fn lemma_encode_vector_len(v: Seq<u8>)
    ensures
        encode_vector_spec(v).len() == 4 * (v.len() / 8),
{
}

/// Where a byte string holds the encoding of `v` from byte `off` on, entry `a`
/// read there is entry `a` of `v`.
pub proof fn lemma_decode_elem_of_encoding(v: Seq<u8>, bytes: Seq<u8>, off: int, a: int)
    requires
        is_vec(v),
        v.len() % 8 == 0,
        0 <= a < v.len(),
        forall|t: int|
            0 <= t < 4 * (v.len() / 8) ==> #[trigger] bytes[off + t] == encode_vector_spec(v)[t],
    ensures
        decode_elem(bytes, off, (v.len() / 8) as int, a) == v[a],
{
    let h = (v.len() / 8) as int;
    let g = a / 8;
    let s = (7 - a % 8) as u8;
    let e = encode_vector_spec(v);
    assert(bytes[off + g] == e[g]);
    assert(bytes[off + (h + g)] == e[h + g]);
    assert(bytes[off + (2 * h + g)] == e[2 * h + g]);
    assert(bytes[off + (3 * h + g)] == e[3 * h + g]);
    assert(e[g] == plane(v, 0)[g]);
    assert(e[h + g] == plane(v, 1)[g]);
    assert(e[2 * h + g] == plane(v, 2)[g]);
    assert(e[3 * h + g] == plane(v, 3)[g]);
    lemma_unpack_pack(
        v[8 * g],
        v[8 * g + 1],
        v[8 * g + 2],
        v[8 * g + 3],
        v[8 * g + 4],
        v[8 * g + 5],
        v[8 * g + 6],
        v[8 * g + 7],
        s,
    );
}

/// Decoding the bitsliced encoding of a vector gives the vector back.
pub proof fn lemma_vector_round_trip(v: Seq<u8>)
    requires
        is_vec(v),
        v.len() % 8 == 0,
    ensures
        encode_vector_spec(v).len() == v.len() / 2,
        decode_vector_spec(encode_vector_spec(v), v.len()) == v,
{
    let e = encode_vector_spec(v);
    assert forall|a: int| 0 <= a < v.len() implies decode_elem(
        e,
        0,
        (v.len() / 8) as int,
        a,
    ) == v[a] by {
        lemma_decode_elem_of_encoding(v, e, 0, a);
    }
    assert(decode_vector_spec(e, v.len()) =~= v);
}

/// Decoding the nibble-packed encoding of a vector gives the vector back.
pub proof fn lemma_vec_round_trip(v: Seq<u8>)
    requires
        is_vec(v),
    ensures
        encode_vec_spec(v).len() == (v.len() + 1) / 2,
        decode_vec_spec(encode_vec_spec(v), v.len()) == v,
{
    let e = encode_vec_spec(v);
    assert forall|i: int| 0 <= i < v.len() implies nibble_at(e, i) == v[i] by {
        let q = i / 2;
        if 2 * q + 1 < v.len() {
            lemma_nibble_pack(v[2 * q], v[2 * q + 1]);
        } else {
            lemma_nibble_pack(v[2 * q], 0);
        }
    }
    assert(decode_vec_spec(e, v.len()) =~= v);
}

/// The encoded start of a row takes `m / 2` bytes per written position.
pub proof fn lemma_encode_row_len(b: Seq<Seq<Seq<u8>>>, tri: bool, i: int, j: nat)
    requires
        b.len() % 8 == 0,
        0 <= i,
    ensures
        encode_row(b, tri, i, j).len() == kept_before(tri, i, j as int) * (b.len() / 2),
    decreases j,
{
    let h4 = (b.len() / 2) as int;
    if j == 0 {
        assert(kept_before(tri, i, 0) * h4 == 0) by (nonlinear_arith)
            requires
                kept_before(tri, i, 0) == 0,
        ;
    } else {
        lemma_encode_row_len(b, tri, i, (j - 1) as nat);
        let q = kept_before(tri, i, j - 1);
        if keeps(tri, i, j - 1) {
            lemma_encode_vector_len(gather(b, i, j - 1));
            assert((q + 1) * h4 == q * h4 + h4) by (nonlinear_arith);
        }
    }
}

/// The encoded first rows take `m / 2` bytes per written position.
pub proof fn lemma_encode_rows_len(b: Seq<Seq<Seq<u8>>>, cols: nat, tri: bool, i: nat)
    requires
        b.len() % 8 == 0,
    ensures
        encode_rows(b, cols, tri, i).len() == slots_before(cols, tri, i) * (b.len() / 2),
    decreases i,
{
    let h4 = (b.len() / 2) as int;
    if i == 0 {
        assert(slots_before(cols, tri, 0) * h4 == 0) by (nonlinear_arith)
            requires
                slots_before(cols, tri, 0) == 0,
        ;
    } else {
        lemma_encode_rows_len(b, cols, tri, (i - 1) as nat);
        lemma_encode_row_len(b, tri, i - 1, cols);
        let x = slots_before(cols, tri, (i - 1) as nat) as int;
        let y = row_slots(cols, tri, (i - 1) as nat) as int;
        assert(kept_before(tri, i - 1, cols as int) == y);
        assert((x + y) * h4 == x * h4 + y * h4) by (nonlinear_arith);
    }
}

/// Within the encoding of a row, the bytes of a written position stand at its
/// rank among the written positions of that row.
pub proof fn lemma_encode_row_chunk(b: Seq<Seq<Seq<u8>>>, tri: bool, i: int, jmax: nat, j: int, t: int)
    requires
        b.len() % 8 == 0,
        0 <= i,
        0 <= j < jmax,
        keeps(tri, i, j),
        0 <= t < b.len() / 2,
    ensures
        0 <= kept_before(tri, i, j) * (b.len() / 2) + t < encode_row(b, tri, i, jmax).len(),
        encode_row(b, tri, i, jmax)[kept_before(tri, i, j) * (b.len() / 2) + t]
            == encode_vector_spec(gather(b, i, j))[t],
    decreases jmax,
{
    let h4 = (b.len() / 2) as int;
    let q = kept_before(tri, i, j);
    lemma_encode_row_len(b, tri, i, jmax);
    lemma_encode_row_len(b, tri, i, (jmax - 1) as nat);
    lemma_encode_vector_len(gather(b, i, j));
    lemma_chunk_bounds(q, kept_before(tri, i, jmax as int), h4);
    if j == jmax - 1 {
    } else {
        lemma_encode_row_chunk(b, tri, i, (jmax - 1) as nat, j, t);
    }
}

/// Within the encoding of a batch, the bytes of a written position stand at
/// its rank among all written positions.
pub proof fn lemma_encode_rows_chunk(
    b: Seq<Seq<Seq<u8>>>,
    cols: nat,
    tri: bool,
    imax: nat,
    i: int,
    j: int,
    t: int,
)
    requires
        b.len() % 8 == 0,
        0 <= i < imax,
        0 <= j < cols,
        keeps(tri, i, j),
        0 <= t < b.len() / 2,
    ensures
        0 <= slot(cols, tri, i, j) * (b.len() / 2) + t < encode_rows(b, cols, tri, imax).len(),
        encode_rows(b, cols, tri, imax)[slot(cols, tri, i, j) * (b.len() / 2) + t]
            == encode_vector_spec(gather(b, i, j))[t],
    decreases imax,
{
    let h4 = (b.len() / 2) as int;
    lemma_encode_rows_len(b, cols, tri, imax);
    lemma_encode_rows_len(b, cols, tri, (imax - 1) as nat);
    lemma_slot_in_range(imax, cols, tri, i, j);
    lemma_chunk_bounds(slot(cols, tri, i, j), slots_before(cols, tri, imax) as int, h4);
    if i == imax - 1 {
        lemma_encode_row_chunk(b, tri, i, cols, j, t);
        let x = slots_before(cols, tri, i as nat) as int;
        let y = kept_before(tri, i, j);
        assert((x + y) * h4 == x * h4 + y * h4) by (nonlinear_arith);
    } else {
        lemma_encode_rows_chunk(b, cols, tri, (imax - 1) as nat, i, j, t);
    }
}

/// Decoding the encoding of a batch gives the batch back: of any batch when
/// all positions are written, and of a batch of upper-triangular matrices when
/// only those on and above the diagonal are.
pub proof fn lemma_batch_round_trip(b: Seq<Seq<Seq<u8>>>, rows: nat, cols: nat, tri: bool)
    requires
        b.len() % 8 == 0,
        is_batch(b, b.len(), rows, cols),
        tri ==> is_upper_batch(b, rows, cols),
    ensures
        encode_batch_spec(b, rows, cols, tri).len() == batch_bytes(b.len(), rows, cols, tri),
        batch_decodable(encode_batch_spec(b, rows, cols, tri), b.len(), rows, cols, tri),
        decode_batch_spec(encode_batch_spec(b, rows, cols, tri), b.len(), rows, cols, tri) == b,
{
    let m = b.len();
    let h4 = (m / 2) as int;
    let enc = encode_batch_spec(b, rows, cols, tri);
    let dec = decode_batch_spec(enc, m, rows, cols, tri);
    lemma_encode_rows_len(b, cols, tri, rows);
    assert forall|a: int| 0 <= a < m implies #[trigger] dec[a] == b[a] by {
        assert(is_matrix(b[a], rows, cols));
        assert forall|i: int| 0 <= i < rows implies #[trigger] dec[a][i] == b[a][i] by {
            assert forall|j: int| 0 <= j < cols implies #[trigger] dec[a][i][j] == b[a][i][j] by {
                if keeps(tri, i, j) {
                    let v = gather(b, i, j);
                    let off = slot(cols, tri, i, j) * h4;
                    assert(is_vec(v)) by {
                        assert forall|k: int| 0 <= k < v.len() implies #[trigger] v[k] < 16 by {
                            assert(is_matrix(b[k], rows, cols));
                            assert(is_vec(b[k][i]));
                        }
                    }
                    assert forall|t: int| 0 <= t < 4 * (v.len() / 8) implies #[trigger] enc[off
                        + t] == encode_vector_spec(v)[t] by {
                        lemma_encode_rows_chunk(b, cols, tri, rows, i, j, t);
                    }
                    lemma_decode_elem_of_encoding(v, enc, off, a);
                } else {
                    assert(b[a][i][j] == 0);
                }
            }
            assert(dec[a][i] =~= b[a][i]);
        }
        assert(dec[a] =~= b[a]);
    }
    assert(dec =~= b);
}

/// Packing the eight field elements read from four plane bytes gives the
/// plane bytes back.
pub proof fn lemma_pack_unpack(b0: u8, b1: u8, b2: u8, b3: u8, p: u8)
    by (bit_vector)
    requires
        p < 4,
    ensures
        pack8(
            nibble_of(b0, b1, b2, b3, 7),
            nibble_of(b0, b1, b2, b3, 6),
            nibble_of(b0, b1, b2, b3, 5),
            nibble_of(b0, b1, b2, b3, 4),
            nibble_of(b0, b1, b2, b3, 3),
            nibble_of(b0, b1, b2, b3, 2),
            nibble_of(b0, b1, b2, b3, 1),
            nibble_of(b0, b1, b2, b3, 0),
            p,
        ) == (if p == 0 {
            b0
        } else if p == 1 {
            b1
        } else if p == 2 {
            b2
        } else {
            b3
        }),
{
}

/// One byte of a bit plane of the vector decoded from a byte string is the
/// byte that it was decoded from.
pub proof fn lemma_plane_byte(bytes: Seq<u8>, m: nat, g: int, p: u8)
    requires
        m % 8 == 0,
        0 <= g < m / 8,
        p < 4,
    ensures
        plane(decode_vector_spec(bytes, m), p)[g] == (if p == 0 {
            bytes[g]
        } else if p == 1 {
            bytes[m / 8 + g]
        } else if p == 2 {
            bytes[2 * (m / 8) + g]
        } else {
            bytes[3 * (m / 8) + g]
        }),
{
    let h = (m / 8) as int;
    let v = decode_vector_spec(bytes, m);
    let b0 = bytes[g];
    let b1 = bytes[h + g];
    let b2 = bytes[2 * h + g];
    let b3 = bytes[3 * h + g];
    assert(v[8 * g] == nibble_of(b0, b1, b2, b3, 7)) by {
        assert((8 * g) / 8 == g && (8 * g) % 8 == 0);
    }
    assert(v[8 * g + 1] == nibble_of(b0, b1, b2, b3, 6)) by {
        assert((8 * g + 1) / 8 == g && (8 * g + 1) % 8 == 1);
    }
    assert(v[8 * g + 2] == nibble_of(b0, b1, b2, b3, 5)) by {
        assert((8 * g + 2) / 8 == g && (8 * g + 2) % 8 == 2);
    }
    assert(v[8 * g + 3] == nibble_of(b0, b1, b2, b3, 4)) by {
        assert((8 * g + 3) / 8 == g && (8 * g + 3) % 8 == 3);
    }
    assert(v[8 * g + 4] == nibble_of(b0, b1, b2, b3, 3)) by {
        assert((8 * g + 4) / 8 == g && (8 * g + 4) % 8 == 4);
    }
    assert(v[8 * g + 5] == nibble_of(b0, b1, b2, b3, 2)) by {
        assert((8 * g + 5) / 8 == g && (8 * g + 5) % 8 == 5);
    }
    assert(v[8 * g + 6] == nibble_of(b0, b1, b2, b3, 1)) by {
        assert((8 * g + 6) / 8 == g && (8 * g + 6) % 8 == 6);
    }
    assert(v[8 * g + 7] == nibble_of(b0, b1, b2, b3, 0)) by {
        assert((8 * g + 7) / 8 == g && (8 * g + 7) % 8 == 7);
    }
    lemma_pack_unpack(b0, b1, b2, b3, p);
}

/// Encoding the vector decoded from a byte string gives its bytes back.
pub proof fn lemma_vector_left_inverse(bytes: Seq<u8>, m: nat)
    requires
        m % 8 == 0,
        bytes.len() >= m / 2,
    ensures
        encode_vector_spec(decode_vector_spec(bytes, m)) == bytes.subrange(0, (m / 2) as int),
{
    let h = (m / 8) as int;
    let v = decode_vector_spec(bytes, m);
    let e = encode_vector_spec(v);
    let want = bytes.subrange(0, (m / 2) as int);
    assert(e.len() == 4 * h);
    assert forall|t: int| 0 <= t < 4 * h implies #[trigger] e[t] == want[t] by {
        if t < h {
            lemma_plane_byte(bytes, m, t, 0);
            assert(e[t] == plane(v, 0)[t]);
        } else if t < 2 * h {
            lemma_plane_byte(bytes, m, t - h, 1);
            assert(e[t] == plane(v, 1)[t - h]);
        } else if t < 3 * h {
            lemma_plane_byte(bytes, m, t - 2 * h, 2);
            assert(e[t] == plane(v, 2)[t - 2 * h]);
        } else {
            lemma_plane_byte(bytes, m, t - 3 * h, 3);
            assert(e[t] == plane(v, 3)[t - 3 * h]);
        }
    }
    assert(e =~= want);
}

/// Multiplying by a common factor that is not negative keeps the order.
pub proof fn lemma_scaled_order(a: int, b: int, h: int)
    by (nonlinear_arith)
    requires
        0 <= a <= b,
        0 <= h,
    ensures
        0 <= a * h <= b * h,
        (b + 1) * h == b * h + h,
{
}

/// The entries that a batch decoded from `bytes` holds at a written position
/// are the vector decoded from the bytes of that position.
pub proof fn lemma_gather_of_decoded(
    bytes: Seq<u8>,
    m: nat,
    rows: nat,
    cols: nat,
    tri: bool,
    i: int,
    j: int,
)
    requires
        m % 8 == 0,
        0 <= i < rows,
        0 <= j < cols,
        keeps(tri, i, j),
        bytes.len() >= batch_bytes(m, rows, cols, tri),
    ensures
        0 <= slot(cols, tri, i, j) * (m / 2),
        slot(cols, tri, i, j) * (m / 2) + m / 2 <= bytes.len(),
        gather(decode_batch_spec(bytes, m, rows, cols, tri), i, j) == decode_vector_spec(
            bytes.subrange(
                slot(cols, tri, i, j) * (m / 2),
                slot(cols, tri, i, j) * (m / 2) + m / 2,
            ),
            m,
        ),
{
    let h4 = (m / 2) as int;
    let q = slot(cols, tri, i, j);
    lemma_slot_in_range(rows, cols, tri, i, j);
    lemma_chunk_bounds(q, slot_count(rows, cols, tri) as int, h4);
    let b = decode_batch_spec(bytes, m, rows, cols, tri);
    let chunk = bytes.subrange(q * h4, q * h4 + h4);
    let g = gather(b, i, j);
    let v = decode_vector_spec(chunk, m);
    assert forall|a: int| 0 <= a < m implies #[trigger] g[a] == v[a] by {
        let h = (m / 8) as int;
        assert(0 <= a / 8 < h);
        assert(chunk[a / 8] == bytes[q * h4 + a / 8]);
        assert(chunk[h + a / 8] == bytes[q * h4 + (h + a / 8)]);
        assert(chunk[2 * h + a / 8] == bytes[q * h4 + (2 * h + a / 8)]);
        assert(chunk[3 * h + a / 8] == bytes[q * h4 + (3 * h + a / 8)]);
        assert(b[a][i][j] == decode_elem(bytes, q * h4, h, a));
    }
    assert(g =~= v);
}

/// Two adjoining stretches of a sequence make one stretch.
pub proof fn lemma_subrange_join(s: Seq<u8>, a: int, b: int, c: int)
    requires
        0 <= a <= b <= c <= s.len(),
    ensures
        s.subrange(a, b) + s.subrange(b, c) == s.subrange(a, c),
{
    assert(s.subrange(a, b) + s.subrange(b, c) =~= s.subrange(a, c));
}

/// The encoding of the start of a row of the batch decoded from `bytes` is
/// the bytes of the positions written there.
pub proof fn lemma_encode_row_of_decoded(
    bytes: Seq<u8>,
    m: nat,
    rows: nat,
    cols: nat,
    tri: bool,
    i: int,
    j: nat,
)
    requires
        m % 8 == 0,
        0 <= i < rows,
        j <= cols,
        bytes.len() >= batch_bytes(m, rows, cols, tri),
    ensures
        0 <= slots_before(cols, tri, i as nat) * (m / 2) <= (slots_before(cols, tri, i as nat)
            + kept_before(tri, i, j as int)) * (m / 2) <= bytes.len(),
        encode_row(decode_batch_spec(bytes, m, rows, cols, tri), tri, i, j) == bytes.subrange(
            (slots_before(cols, tri, i as nat) * (m / 2)) as int,
            (slots_before(cols, tri, i as nat) + kept_before(tri, i, j as int)) * (m / 2),
        ),
    decreases j,
{
    let h4 = (m / 2) as int;
    let s0 = slots_before(cols, tri, i as nat) as int;
    let kj = kept_before(tri, i, j as int);
    let b = decode_batch_spec(bytes, m, rows, cols, tri);
    let total = slot_count(rows, cols, tri) as int;
    let lo = s0 * h4;
    let hi = (s0 + kj) * h4;
    assert(0 <= lo <= hi <= bytes.len()) by {
        lemma_slots_before_monotonic(cols, tri, (i + 1) as nat, rows);
        assert(kj <= row_slots(cols, tri, i as nat));
        lemma_scaled_order(s0, s0 + kj, h4);
        lemma_scaled_order(s0 + kj, total, h4);
        assert(total * h4 == batch_bytes(m, rows, cols, tri));
    }
    if j == 0 {
        assert(hi == lo);
        assert(encode_row(b, tri, i, 0) =~= bytes.subrange(lo, hi));
    } else {
        lemma_encode_row_of_decoded(bytes, m, rows, cols, tri, i, (j - 1) as nat);
        let k0 = kept_before(tri, i, j - 1);
        let mid = (s0 + k0) * h4;
        let prev = encode_row(b, tri, i, (j - 1) as nat);
        assert(prev == bytes.subrange(lo, mid));
        if keeps(tri, i, j - 1) {
            assert(kj == k0 + 1);
            assert(hi == mid + h4) by {
                lemma_scaled_order(0, s0 + k0, h4);
            }
            let piece = encode_vector_spec(gather(b, i, j - 1));
            assert(piece == bytes.subrange(mid, hi)) by {
                lemma_gather_of_decoded(bytes, m, rows, cols, tri, i, j - 1);
                let chunk = bytes.subrange(mid, mid + h4);
                lemma_vector_left_inverse(chunk, m);
                assert(chunk.subrange(0, h4) =~= chunk);
            }
            lemma_subrange_join(bytes, lo, mid, hi);
        } else {
            assert(kj == k0);
        }
    }
}

/// The encoding of the first rows of the batch decoded from `bytes` is the
/// start of `bytes`.
pub proof fn lemma_encode_rows_of_decoded(
    bytes: Seq<u8>,
    m: nat,
    rows: nat,
    cols: nat,
    tri: bool,
    i: nat,
)
    requires
        m % 8 == 0,
        i <= rows,
        bytes.len() >= batch_bytes(m, rows, cols, tri),
    ensures
        slots_before(cols, tri, i) * (m / 2) <= bytes.len(),
        encode_rows(decode_batch_spec(bytes, m, rows, cols, tri), cols, tri, i) == bytes.subrange(
            0,
            (slots_before(cols, tri, i) * (m / 2)) as int,
        ),
    decreases i,
{
    let h4 = (m / 2) as int;
    let b = decode_batch_spec(bytes, m, rows, cols, tri);
    lemma_slots_before_monotonic(cols, tri, i, rows);
    let total = slot_count(rows, cols, tri) as int;
    let si = slots_before(cols, tri, i) as int;
    lemma_scaled_order(si, total, h4);
    assert(total * h4 == batch_bytes(m, rows, cols, tri));
    if i == 0 {
        lemma_scaled_order(0, 0, h4);
        assert(encode_rows(b, cols, tri, 0) =~= bytes.subrange(0, si * h4));
    } else {
        lemma_encode_rows_of_decoded(bytes, m, rows, cols, tri, (i - 1) as nat);
        lemma_encode_row_of_decoded(bytes, m, rows, cols, tri, i - 1, cols);
        let s0 = slots_before(cols, tri, (i - 1) as nat) as int;
        assert(kept_before(tri, i - 1, cols as int) == row_slots(cols, tri, (i - 1) as nat));
        assert(si == s0 + kept_before(tri, i - 1, cols as int));
        let head = encode_rows(b, cols, tri, (i - 1) as nat);
        let row = encode_row(b, tri, i - 1, cols);
        assert(head == bytes.subrange(0, s0 * h4));
        assert(row == bytes.subrange(s0 * h4, si * h4));
        assert(encode_rows(b, cols, tri, i) == head + row);
        assert(head + row =~= bytes.subrange(0, si * h4));
    }
}

/// Encoding the batch decoded from a byte string gives its bytes back: the
/// two are inverse to each other on either side.
pub proof fn lemma_batch_left_inverse(bytes: Seq<u8>, m: nat, rows: nat, cols: nat, tri: bool)
    requires
        batch_decodable(bytes, m, rows, cols, tri),
    ensures
        encode_batch_spec(decode_batch_spec(bytes, m, rows, cols, tri), rows, cols, tri)
            == bytes.subrange(0, batch_bytes(m, rows, cols, tri) as int),
{
    lemma_encode_rows_of_decoded(bytes, m, rows, cols, tri, rows);
}

/// Whatever the bytes, a decoded batch holds field elements, and vanishes
/// below the diagonal when only the upper positions are read.
pub proof fn lemma_decode_batch_is_batch(bytes: Seq<u8>, m: nat, rows: nat, cols: nat, tri: bool)
    ensures
        is_batch(decode_batch_spec(bytes, m, rows, cols, tri), m, rows, cols),
        tri ==> is_upper_batch(decode_batch_spec(bytes, m, rows, cols, tri), rows, cols),
{
    let b = decode_batch_spec(bytes, m, rows, cols, tri);
    assert forall|a: int| 0 <= a < m implies is_matrix(#[trigger] b[a], rows, cols) by {
        assert forall|i: int| 0 <= i < rows implies is_vec(#[trigger] b[a][i]) by {
            assert forall|j: int| 0 <= j < cols implies #[trigger] b[a][i][j] < 16 by {
                if keeps(tri, i, j) {
                    let off = slot(cols, tri, i, j) * ((m / 2) as int);
                    let h = (m / 8) as int;
                    lemma_nibble_of_is_elem(
                        bytes[off + a / 8],
                        bytes[off + h + a / 8],
                        bytes[off + 2 * h + a / 8],
                        bytes[off + 3 * h + a / 8],
                        (7 - a % 8) as u8,
                    );
                }
            }
        }
    }
}

/// Whatever the bytes, a decoded oil space holds field elements.
pub proof fn lemma_decode_o_is_matrix(bytes: Seq<u8>, rows: nat, cols: nat)
    ensures
        is_matrix(decode_o_spec(bytes, rows, cols), rows, cols),
{
    let o = decode_o_spec(bytes, rows, cols);
    assert forall|i: int| 0 <= i < rows implies is_vec(#[trigger] o[i]) by {
        assert forall|j: int| 0 <= j < cols implies #[trigger] o[i][j] < 16 by {
            lemma_nibble_halves(bytes[(i * cols + j) / 2]);
        }
    }
}

/// Whatever the bytes, a decoded vector holds field elements.
pub proof fn lemma_decode_vec_is_vec(bytes: Seq<u8>, n: nat)
    ensures
        is_vec(decode_vec_spec(bytes, n)),
        decode_vec_spec(bytes, n).len() == n,
{
    let v = decode_vec_spec(bytes, n);
    assert forall|i: int| 0 <= i < n implies #[trigger] v[i] < 16 by {
        lemma_nibble_halves(bytes[i / 2]);
    }
}

/// Packs bit `p` of eight field elements into one plane byte.
fn pack_byte(e0: u8, e1: u8, e2: u8, e3: u8, e4: u8, e5: u8, e6: u8, e7: u8, p: u8) -> (r: u8)
    requires
        p < 4,
    ensures
        r == pack8(e0, e1, e2, e3, e4, e5, e6, e7, p),
{
    (((e0 >> p) & 1) << 7) | (((e1 >> p) & 1) << 6) | (((e2 >> p) & 1) << 5) | (((e3 >> p) & 1)
        << 4) | (((e4 >> p) & 1) << 3) | (((e5 >> p) & 1) << 2) | (((e6 >> p) & 1) << 1) | ((e7
        >> p) & 1)
}

/// Reads the field element at position `s` of four plane bytes.
fn unpack_nibble(b0: u8, b1: u8, b2: u8, b3: u8, s: u8) -> (r: u8)
    requires
        s < 8,
    ensures
        r == nibble_of(b0, b1, b2, b3, s),
        r < 16,
{
    proof {
        lemma_nibble_of_is_elem(b0, b1, b2, b3, s);
    }
    ((b0 >> s) & 1) | (((b1 >> s) & 1) << 1) | (((b2 >> s) & 1) << 2) | (((b3 >> s) & 1) << 3)
}

/// One bit plane of a vector.
fn encode_plane(v: &Vec<u8>, p: u8) -> (out: Vec<u8>)
    requires
        p < 4,
    ensures
        out@ == plane(v@, p),
{
    let h = v.len() / 8;
    let mut out: Vec<u8> = Vec::new();
    let mut g: usize = 0;
    while g < h
        invariant
            g <= h,
            h == v.len() / 8,
            p < 4,
            out@.len() == g,
            forall|t: int| 0 <= t < g ==> out@[t] == plane(v@, p)[t],
        decreases h - g,
    {
        let b = pack_byte(
            v[8 * g],
            v[8 * g + 1],
            v[8 * g + 2],
            v[8 * g + 3],
            v[8 * g + 4],
            v[8 * g + 5],
            v[8 * g + 6],
            v[8 * g + 7],
            p,
        );
        out.push(b);
        g += 1;
    }
    assert(out@ =~= plane(v@, p));
    out
}

/// Bitslices a vector of field elements whose length is a multiple of eight
/// into half a byte per entry.
pub fn encode_bitsliced_vector(v: &Vec<u8>) -> (byte_string: Vec<u8>)
    requires
        v.len() % 8 == 0,
        is_vec(v@),
    ensures
        byte_string@ == encode_vector_spec(v@),
        byte_string@.len() == v.len() / 2,
{
    let mut out = encode_plane(v, 0);
    let mut p1 = encode_plane(v, 1);
    let mut p2 = encode_plane(v, 2);
    let mut p3 = encode_plane(v, 3);
    out.append(&mut p1);
    out.append(&mut p2);
    out.append(&mut p3);
    out
}

/// Reads a bitsliced vector of `m` field elements from the start of a byte
/// string. Fails when `m` is not a multiple of eight or fewer than `m / 2`
/// bytes are given.
pub fn decode_bitsliced_vector(bytestring: &[u8], m: usize) -> (res: Result<Vec<u8>, MayoError>)
    ensures
        match res {
            Ok(v) => m % 8 == 0 && bytestring@.len() >= m / 2 && v@ == decode_vector_spec(
                bytestring@,
                m as nat,
            ) && is_vec(v@),
            Err(e) => e == MayoError::InvalidLength && !(m % 8 == 0 && bytestring@.len() >= m / 2),
        },
{
    if m % 8 != 0 || bytestring.len() < m / 2 {
        return Err(MayoError::InvalidLength);
    }
    let h = m / 8;
    let mut v: Vec<u8> = Vec::new();
    let mut a: usize = 0;
    while a < m
        invariant
            a <= m,
            m % 8 == 0,
            h == m / 8,
            bytestring@.len() >= m / 2,
            v@.len() == a,
            forall|t: int| 0 <= t < a ==> v@[t] == decode_elem(bytestring@, 0, h as int, t),
            is_vec(v@),
        decreases m - a,
    {
        let g = a / 8;
        let s: u8 = 7 - ((a % 8) as u8);
        let e = unpack_nibble(
            bytestring[g],
            bytestring[h + g],
            bytestring[2 * h + g],
            bytestring[3 * h + g],
            s,
        );
        v.push(e);
        a += 1;
    }
    assert(v@ =~= decode_vector_spec(bytestring@, m as nat));
    Ok(v)
}

/// The number of written positions of a `rows` by `cols` matrix, unless it
/// exceeds the machine's range.
fn count_slots(rows: usize, cols: usize, tri: bool) -> (res: Option<usize>)
    ensures
        match res {
            Some(n) => n == slot_count(rows as nat, cols as nat, tri),
            None => slot_count(rows as nat, cols as nat, tri) > usize::MAX,
        },
{
    let mut acc: usize = 0;
    let mut i: usize = 0;
    while i < rows
        invariant
            i <= rows,
            acc == slots_before(cols as nat, tri, i as nat),
        decreases rows - i,
    {
        let w: usize = if tri {
            if i < cols {
                cols - i
            } else {
                0
            }
        } else {
            cols
        };
        match acc.checked_add(w) {
            Some(s) => {
                acc = s;
            },
            None => {
                proof {
                    lemma_slots_before_monotonic(cols as nat, tri, (i + 1) as nat, rows as nat);
                }
                return None;
            },
        }
        i += 1;
    }
    Some(acc)
}

/// The length in bytes of an encoded batch of `m` matrices, unless it exceeds
/// the machine's range.
pub fn encoded_len(m: usize, rows: usize, cols: usize, tri: bool) -> (res: Option<usize>)
    ensures
        match res {
            Some(n) => n == batch_bytes(m as nat, rows as nat, cols as nat, tri),
            None => batch_bytes(m as nat, rows as nat, cols as nat, tri) > usize::MAX,
        },
{
    match count_slots(rows, cols, tri) {
        Some(n) => n.checked_mul(m / 2),
        None => {
            if m / 2 == 0 {
                proof {
                    assert(batch_bytes(m as nat, rows as nat, cols as nat, tri) == 0) by (nonlinear_arith)
                        requires
                            batch_bytes(m as nat, rows as nat, cols as nat, tri) == slot_count(
                                rows as nat,
                                cols as nat,
                                tri,
                            ) * ((m as nat) / 2),
                            (m as nat) / 2 == 0,
                    ;
                }
                Some(0)
            } else {
                proof {
                    let c = slot_count(rows as nat, cols as nat, tri);
                    let h = (m as nat) / 2;
                    assert(c * h >= c) by (nonlinear_arith)
                        requires
                            h >= 1,
                            c >= 0,
                    ;
                }
                None
            }
        },
    }
}

/// Gathers the entries at one position across a batch.
fn gather_position(a: &Vec<Vec<Vec<u8>>>, m: usize, r: usize, c: usize, i: usize, j: usize) -> (v:
    Vec<u8>)
    requires
        is_batch(batch_view(a), m as nat, r as nat, c as nat),
        i < r,
        j < c,
    ensures
        v@ == gather(batch_view(a), i as int, j as int),
        is_vec(v@),
        v.len() == m,
{
    let ghost bv = batch_view(a);
    let mut v: Vec<u8> = Vec::new();
    let mut k: usize = 0;
    while k < m
        invariant
            k <= m,
            bv == batch_view(a),
            is_batch(bv, m as nat, r as nat, c as nat),
            i < r,
            j < c,
            v@.len() == k,
            forall|t: int| 0 <= t < k ==> v@[t] == bv[t][i as int][j as int],
            is_vec(v@),
        decreases m - k,
    {
        assert(is_matrix(bv[k as int], r as nat, c as nat));
        assert(bv[k as int] == mat_view(&a@[k as int]));
        assert(bv[k as int][i as int] == a@[k as int]@[i as int]@);
        assert(is_vec(bv[k as int][i as int]));
        assert(bv[k as int][i as int].len() == c);
        v.push(a[k][i][j]);
        k += 1;
    }
    assert(v@ =~= gather(bv, i as int, j as int));
    v
}

/// Encodes a batch of `m` matrices of `r` by `c` field elements, `m` a
/// multiple of eight. With `is_triangular`, only the positions on and above
/// the diagonal are written.
pub fn encode_bitsliced_matrices(
    a: Vec<Vec<Vec<u8>>>,
    m: usize,
    r: usize,
    c: usize,
    is_triangular: bool,
) -> (bytestring: Vec<u8>)
    requires
        m % 8 == 0,
        is_batch(batch_view(&a), m as nat, r as nat, c as nat),
    ensures
        bytestring@ == encode_batch_spec(batch_view(&a), r as nat, c as nat, is_triangular),
{
    let ghost bv = batch_view(&a);
    let mut out: Vec<u8> = Vec::new();
    let mut i: usize = 0;
    while i < r
        invariant
            i <= r,
            m % 8 == 0,
            bv == batch_view(&a),
            is_batch(bv, m as nat, r as nat, c as nat),
            out@ == encode_rows(bv, c as nat, is_triangular, i as nat),
        decreases r - i,
    {
        let ghost before = out@;
        let mut j: usize = 0;
        while j < c
            invariant
                j <= c,
                i < r,
                m % 8 == 0,
                bv == batch_view(&a),
                is_batch(bv, m as nat, r as nat, c as nat),
                out@ == before + encode_row(bv, is_triangular, i as int, j as nat),
            decreases c - j,
        {
            if i <= j || !is_triangular {
                let v = gather_position(&a, m, r, c, i, j);
                let mut enc = encode_bitsliced_vector(&v);
                out.append(&mut enc);
            }
            assert(out@ =~= before + encode_row(bv, is_triangular, i as int, (j + 1) as nat));
            j += 1;
        }
        i += 1;
    }
    out
}

/// Decodes a batch of `m` matrices of `r` by `c` field elements from the start
/// of a byte string. Fails when `m` is not a multiple of eight or the byte
/// string is shorter than the batch; nothing is decoded then.
pub fn decode_bitsliced_matrices(
    bytestring: &[u8],
    m: usize,
    r: usize,
    c: usize,
    is_triangular: bool,
) -> (res: Result<Vec<Vec<Vec<u8>>>, MayoError>)
    ensures
        match res {
            Ok(a) => batch_decodable(bytestring@, m as nat, r as nat, c as nat, is_triangular)
                && batch_view(&a) == decode_batch_spec(
                bytestring@,
                m as nat,
                r as nat,
                c as nat,
                is_triangular,
            ) && is_batch(batch_view(&a), m as nat, r as nat, c as nat),
            Err(e) => e == MayoError::InvalidLength && !batch_decodable(
                bytestring@,
                m as nat,
                r as nat,
                c as nat,
                is_triangular,
            ),
        },
{
    if m % 8 != 0 {
        return Err(MayoError::InvalidLength);
    }
    let given = bytestring.len();
    let total = match encoded_len(m, r, c, is_triangular) {
        Some(n) => n,
        None => {
            return Err(MayoError::InvalidLength);
        },
    };
    if given < total {
        return Err(MayoError::InvalidLength);
    }
    let h = m / 8;
    let h4 = m / 2;
    let ghost spec_batch = decode_batch_spec(
        bytestring@,
        m as nat,
        r as nat,
        c as nat,
        is_triangular,
    );
    let mut batch: Vec<Vec<Vec<u8>>> = Vec::new();
    let mut a: usize = 0;
    while a < m
        invariant
            a <= m,
            m % 8 == 0,
            h == m / 8,
            h4 == m / 2,
            total == batch_bytes(m as nat, r as nat, c as nat, is_triangular),
            bytestring@.len() >= total,
            spec_batch == decode_batch_spec(
                bytestring@,
                m as nat,
                r as nat,
                c as nat,
                is_triangular,
            ),
            batch@.len() == a,
            forall|t: int| 0 <= t < a ==> mat_view(#[trigger] &batch@[t]) == spec_batch[t],
            forall|t: int|
                0 <= t < a ==> is_matrix(mat_view(#[trigger] &batch@[t]), r as nat, c as nat),
        decreases m - a,
    {
        let g = a / 8;
        let s: u8 = 7 - ((a % 8) as u8);
        let mut matrix: Vec<Vec<u8>> = Vec::new();
        let mut row_off: usize = 0;
        let mut i: usize = 0;
        proof {
            let z = slots_before(c as nat, is_triangular, 0);
            assert(z * h4 == 0) by (nonlinear_arith)
                requires
                    z == 0,
            ;
        }
        while i < r
            invariant
                i <= r,
                a < m,
                m % 8 == 0,
                h == m / 8,
                h4 == m / 2,
                g == a / 8,
                s == 7 - a % 8,
                total == batch_bytes(m as nat, r as nat, c as nat, is_triangular),
                bytestring@.len() >= total,
                spec_batch == decode_batch_spec(
                    bytestring@,
                    m as nat,
                    r as nat,
                    c as nat,
                    is_triangular,
                ),
                row_off == slots_before(c as nat, is_triangular, i as nat) * h4,
                matrix@.len() == i,
                forall|t: int| 0 <= t < i ==> (#[trigger] matrix@[t])@ == spec_batch[a as int][t],
                forall|t: int| 0 <= t < i ==> is_vec((#[trigger] matrix@[t])@),
                forall|t: int| 0 <= t < i ==> (#[trigger] matrix@[t])@.len() == c,
            decreases r - i,
        {
            let mut row: Vec<u8> = Vec::new();
            let mut off: usize = row_off;
            let mut j: usize = 0;
            while j < c
                invariant
                    j <= c,
                    i < r,
                    a < m,
                    m % 8 == 0,
                    h == m / 8,
                    h4 == m / 2,
                    g == a / 8,
                    s == 7 - a % 8,
                    total == batch_bytes(m as nat, r as nat, c as nat, is_triangular),
                    bytestring@.len() >= total,
                    spec_batch == decode_batch_spec(
                        bytestring@,
                        m as nat,
                        r as nat,
                        c as nat,
                        is_triangular,
                    ),
                    off == (slots_before(c as nat, is_triangular, i as nat) + kept_before(
                        is_triangular,
                        i as int,
                        j as int,
                    )) * h4,
                    row@.len() == j,
                    forall|t: int| 0 <= t < j ==> row@[t] == spec_batch[a as int][i as int][t],
                    is_vec(row@),
                decreases c - j,
            {
                let e: u8 = if i <= j || !is_triangular {
                    proof {
                        lemma_slot_in_range(r as nat, c as nat, is_triangular, i as int, j as int);
                        lemma_chunk_bounds(
                            slot(c as nat, is_triangular, i as int, j as int),
                            slot_count(r as nat, c as nat, is_triangular) as int,
                            h4 as int,
                        );
                    }
                    let x = unpack_nibble(
                        bytestring[off + g],
                        bytestring[off + h + g],
                        bytestring[off + 2 * h + g],
                        bytestring[off + 3 * h + g],
                        s,
                    );
                    off = off + h4;
                    x
                } else {
                    0u8
                };
                row.push(e);
                j += 1;
            }
            assert(row@ =~= spec_batch[a as int][i as int]);
            proof {
                assert(kept_before(is_triangular, i as int, c as int) == row_slots(
                    c as nat,
                    is_triangular,
                    i as nat,
                ));
            }
            matrix.push(row);
            row_off = off;
            i += 1;
        }
        assert(mat_view(&matrix) =~= spec_batch[a as int]);
        batch.push(matrix);
        a += 1;
    }
    assert(batch_view(&batch) =~= spec_batch);
    Ok(batch)
}

/// Nibble-packs a vector of field elements, two per byte.
pub fn encode_vec(v: &Vec<u8>) -> (bytes: Vec<u8>)
    requires
        is_vec(v@),
    ensures
        bytes@ == encode_vec_spec(v@),
        bytes@.len() == (v.len() + 1) / 2,
{
    let n = v.len();
    let count = n / 2 + n % 2;
    let mut out: Vec<u8> = Vec::new();
    let mut i: usize = 0;
    while i < count
        invariant
            i <= count,
            n == v.len(),
            count == (n + 1) / 2,
            is_vec(v@),
            out@.len() == i,
            forall|t: int| 0 <= t < i ==> out@[t] == encode_vec_spec(v@)[t],
        decreases count - i,
    {
        let lo = v[2 * i];
        let b = if 2 * i + 1 < n {
            lo | (v[2 * i + 1] << 4)
        } else {
            lo
        };
        out.push(b);
        i += 1;
    }
    assert(out@ =~= encode_vec_spec(v@));
    out
}

/// Reads a nibble-packed vector of `n` field elements from the start of a
/// byte string. Fails when fewer than `n` halves are given.
pub fn decode_vec(bytes: &[u8], n: usize) -> (res: Result<Vec<u8>, MayoError>)
    ensures
        match res {
            Ok(v) => n <= 2 * bytes@.len() && v@ == decode_vec_spec(bytes@, n as nat) && is_vec(
                v@,
            ),
            Err(e) => e == MayoError::InvalidLength && n > 2 * bytes@.len(),
        },
{
    if bytes.len() < n / 2 + n % 2 {
        return Err(MayoError::InvalidLength);
    }
    let mut v: Vec<u8> = Vec::new();
    let mut i: usize = 0;
    while i < n
        invariant
            i <= n,
            n <= 2 * bytes@.len(),
            v@.len() == i,
            forall|t: int| 0 <= t < i ==> v@[t] == nibble_at(bytes@, t),
            is_vec(v@),
        decreases n - i,
    {
        let b = bytes[i / 2];
        proof {
            lemma_nibble_halves(b);
        }
        let e = if i % 2 == 0 {
            b & 15
        } else {
            b >> 4
        };
        v.push(e);
        i += 1;
    }
    assert(v@ =~= decode_vec_spec(bytes@, n as nat));
    Ok(v)
}

/// The row-major index of an entry lies within the matrix.
pub proof fn lemma_flat_index(i: int, j: int, rows: int, cols: int)
    by (nonlinear_arith)
    requires
        0 <= i < rows,
        0 <= j < cols,
    ensures
        0 <= i * cols + j < rows * cols,
        (i + 1) * cols == i * cols + cols,
{
}

/// Reads a `rows` by `cols` matrix of field elements, nibble-packed in
/// row-major order, from the start of a byte string. Fails when fewer than
/// `rows * cols` halves are given.
pub fn decode_o(bytes: &[u8], rows: usize, cols: usize) -> (res: Result<Vec<Vec<u8>>, MayoError>)
    requires
        rows * cols <= usize::MAX,
    ensures
        match res {
            Ok(o) => rows * cols <= 2 * bytes@.len() && mat_view(&o) == decode_o_spec(
                bytes@,
                rows as nat,
                cols as nat,
            ) && is_matrix(mat_view(&o), rows as nat, cols as nat),
            Err(e) => e == MayoError::InvalidLength && rows * cols > 2 * bytes@.len(),
        },
{
    let total = rows * cols;
    if bytes.len() < total / 2 + total % 2 {
        return Err(MayoError::InvalidLength);
    }
    let ghost spec_o = decode_o_spec(bytes@, rows as nat, cols as nat);
    let mut matrix: Vec<Vec<u8>> = Vec::new();
    let mut idx: usize = 0;
    let mut i: usize = 0;
    while i < rows
        invariant
            i <= rows,
            total == rows * cols,
            total <= 2 * bytes@.len(),
            spec_o == decode_o_spec(bytes@, rows as nat, cols as nat),
            idx == i * cols,
            matrix@.len() == i,
            forall|t: int| 0 <= t < i ==> (#[trigger] matrix@[t])@ == spec_o[t],
            forall|t: int| 0 <= t < i ==> is_vec((#[trigger] matrix@[t])@),
            forall|t: int| 0 <= t < i ==> (#[trigger] matrix@[t])@.len() == cols,
        decreases rows - i,
    {
        let mut row: Vec<u8> = Vec::new();
        let mut j: usize = 0;
        while j < cols
            invariant
                j <= cols,
                i < rows,
                total == rows * cols,
                total <= 2 * bytes@.len(),
                spec_o == decode_o_spec(bytes@, rows as nat, cols as nat),
                idx == i * cols + j,
                row@.len() == j,
                forall|t: int| 0 <= t < j ==> row@[t] == spec_o[i as int][t],
                is_vec(row@),
            decreases cols - j,
        {
            proof {
                lemma_flat_index(i as int, j as int, rows as int, cols as int);
            }
            let b = bytes[idx / 2];
            proof {
                lemma_nibble_halves(b);
            }
            let e = if idx % 2 == 0 {
                b & 15
            } else {
                b >> 4
            };
            row.push(e);
            idx += 1;
            j += 1;
        }
        assert(row@ =~= spec_o[i as int]);
        proof {
            lemma_flat_index(i as int, 0, rows as int, cols as int + 1);
            assert((i + 1) * cols == i * cols + cols) by (nonlinear_arith);
        }
        matrix.push(row);
        i += 1;
    }
    assert(mat_view(&matrix) =~= spec_o);
    Ok(matrix)
}

} // verus!
