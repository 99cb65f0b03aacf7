//! Arithmetic in GF(16) = GF(2)[x] / (x^4 + x + 1).
//!
//! An element is a `u8` below 16 whose bits are the coefficients of a
//! polynomial of degree at most three.

use vstd::prelude::*;

verus! {

/// Field addition: coefficient-wise addition modulo two.
pub open spec fn gf_add(a: u8, b: u8) -> u8 {
    a ^ b
}

/// Product of two polynomials of degree at most three over GF(2),
/// before reduction. The result has degree at most six.
pub open spec fn carryless_product(a: u8, b: u8) -> u8 {
    (if b & 1 == 1 { a } else { 0 })
        ^ (if b & 2 == 2 { a << 1 } else { 0 })
        ^ (if b & 4 == 4 { a << 2 } else { 0 })
        ^ (if b & 8 == 8 { a << 3 } else { 0 })
}

/// Reduction of a polynomial of degree at most six modulo x^4 + x + 1,
/// using x^4 = x + 1.
pub open spec fn reduce(p: u8) -> u8 {
    (p & 15) ^ (p >> 4) ^ ((p >> 4) << 1)
}

/// Field multiplication.
pub open spec fn gf_mul(a: u8, b: u8) -> u8 {
    reduce(carryless_product(a, b))
}

/// The multiplicative inverse of a nonzero element, as its fourteenth power.
pub open spec fn gf_inv(a: u8) -> u8 {
    let a2 = gf_mul(a, a);
    let a4 = gf_mul(a2, a2);
    let a8 = gf_mul(a4, a4);
    gf_mul(gf_mul(a2, a4), a8)
}

/// Additive inverse. In characteristic two every element is its own negative.
pub open spec fn gf_neg(a: u8) -> u8 {
    a
}

/// The sum of two field elements is a field element.
pub proof fn lemma_add_closed(a: u8, b: u8)
    by (bit_vector)
    requires
        a < 16,
        b < 16,
    ensures
        gf_add(a, b) < 16,
{
}

/// The product of two field elements is a field element.
pub proof fn lemma_mul_closed(a: u8, b: u8)
    by (bit_vector)
    requires
        a < 16,
        b < 16,
    ensures
        gf_mul(a, b) < 16,
{
}

/// Addition is commutative and associative, zero is its identity and every
/// element is its own additive inverse.
pub proof fn lemma_add_laws(a: u8, b: u8, c: u8)
    by (bit_vector)
    ensures
        gf_add(a, b) == gf_add(b, a),
        gf_add(gf_add(a, b), c) == gf_add(a, gf_add(b, c)),
        gf_add(a, 0) == a,
        gf_add(0, a) == a,
        gf_add(a, a) == 0,
{
}

/// Multiplication is commutative.
pub proof fn lemma_mul_commutative(a: u8, b: u8)
    by (bit_vector)
    requires
        a < 16,
        b < 16,
    ensures
        gf_mul(a, b) == gf_mul(b, a),
{
}

/// Multiplication is associative.
pub proof fn lemma_mul_associative(a: u8, b: u8, c: u8)
    requires
        a < 16,
        b < 16,
        c < 16,
    ensures
        gf_mul(gf_mul(a, b), c) == gf_mul(a, gf_mul(b, c)),
{
    let ab = gf_mul(a, b);
    let bc = gf_mul(b, c);
    assert(gf_mul(ab, c) == gf_mul(a, bc)) by (bit_vector)
        requires
            a < 16,
            b < 16,
            c < 16,
            ab == gf_mul(a, b),
            bc == gf_mul(b, c),
    ;
}

/// One is the multiplicative identity and zero annihilates.
pub proof fn lemma_mul_identity(a: u8)
    by (bit_vector)
    requires
        a < 16,
    ensures
        gf_mul(a, 1) == a,
        gf_mul(1, a) == a,
        gf_mul(a, 0) == 0,
        gf_mul(0, a) == 0,
{
}

/// Multiplication distributes over addition, on either side.
pub proof fn lemma_mul_distributive(a: u8, b: u8, c: u8)
    by (bit_vector)
    requires
        a < 16,
        b < 16,
        c < 16,
    ensures
        gf_mul(a, gf_add(b, c)) == gf_add(gf_mul(a, b), gf_mul(a, c)),
        gf_mul(gf_add(b, c), a) == gf_add(gf_mul(b, a), gf_mul(c, a)),
{
}

/// Every nonzero element times its inverse is one.
pub proof fn lemma_mul_inverse(a: u8)
    requires
        0 < a < 16,
    ensures
        gf_inv(a) < 16,
        gf_inv(a) != 0,
        gf_mul(a, gf_inv(a)) == 1,
        gf_mul(gf_inv(a), a) == 1,
{
    let a2 = gf_mul(a, a);
    let a4 = gf_mul(a2, a2);
    let a8 = gf_mul(a4, a4);
    let a6 = gf_mul(a2, a4);
    let r = gf_mul(a6, a8);
    assert(r < 16 && r != 0 && gf_mul(a, r) == 1 && gf_mul(r, a) == 1) by (bit_vector)
        requires
            0 < a < 16,
            a2 == gf_mul(a, a),
            a4 == gf_mul(a2, a2),
            a8 == gf_mul(a4, a4),
            a6 == gf_mul(a2, a4),
            r == gf_mul(a6, a8),
    ;
}

/// The field has no zero divisors.
pub proof fn lemma_mul_nonzero(a: u8, b: u8)
    by (bit_vector)
    requires
        0 < a < 16,
        0 < b < 16,
    ensures
        gf_mul(a, b) != 0,
{
}

/// Rearrangements and cancellation of sums.
pub proof fn lemma_add_rearrange(a: u8, b: u8, c: u8, d: u8)
    by (bit_vector)
    ensures
        gf_add(gf_add(a, b), gf_add(c, d)) == gf_add(gf_add(a, c), gf_add(b, d)),
        gf_add(gf_add(a, b), c) == gf_add(gf_add(a, c), b),
        gf_add(gf_add(a, b), b) == a,
        gf_add(a, c) == gf_add(b, c) ==> a == b,
        gf_add(a, b) == 0 ==> a == b,
{
}

/// Adds two field elements.
pub fn add(a: u8, b: u8) -> (r: u8)
    requires
        a < 16,
        b < 16,
    ensures
        r == gf_add(a, b),
        r < 16,
{
    proof {
        lemma_add_closed(a, b);
    }
    a ^ b
}

/// Multiplies two field elements.
pub fn mul(a: u8, b: u8) -> (r: u8)
    requires
        a < 16,
        b < 16,
    ensures
        r == gf_mul(a, b),
        r < 16,
{
    proof {
        lemma_mul_closed(a, b);
    }
    let p: u8 = (if b & 1 == 1 { a } else { 0 })
        ^ (if b & 2 == 2 { a << 1 } else { 0 })
        ^ (if b & 4 == 4 { a << 2 } else { 0 })
        ^ (if b & 8 == 8 { a << 3 } else { 0 });
    (p & 15) ^ (p >> 4) ^ ((p >> 4) << 1)
}

/// Computes the multiplicative inverse of a nonzero field element.
pub fn inverse(a: u8) -> (r: u8)
    requires
        0 < a < 16,
    ensures
        r == gf_inv(a),
        0 < r < 16,
        gf_mul(a, r) == 1,
{
    proof {
        lemma_mul_inverse(a);
    }
    let a2 = self::mul(a, a);
    let a4 = self::mul(a2, a2);
    let a8 = self::mul(a4, a4);
    self::mul(self::mul(a2, a4), a8)
}

/// Negates a field element.
pub fn negate(a: u8) -> (r: u8)
    requires
        a < 16,
    ensures
        r == gf_neg(a),
        r < 16,
        gf_add(a, r) == 0,
{
    proof {
        lemma_add_laws(a, a, a);
    }
    a
}

} // verus!
