//! Arithmetic in the field of 256 elements.
//!
//! An element is a byte whose bits are the coefficients of a polynomial over the two-element
//! field, taken modulo `x^8 + x^4 + x^3 + x^2 + 1`.  Addition is exclusive or.
use vstd::prelude::*;

verus! {

/// A field element.
pub type Gf = u8;

/// `a * x^i` if bit `i` of `b` is set, zero otherwise.
pub open spec fn gf_term(a: u8, b: u8, i: u8) -> u16 {
    if (b >> i) & 1 == 1 {
        (a as u16) << (i as u16)
    } else {
        0
    }
}

/// The product of two polynomials over the two-element field, not yet reduced.
pub open spec fn gf_poly_product(a: u8, b: u8) -> u16 {
    gf_term(a, b, 0) ^ gf_term(a, b, 1) ^ gf_term(a, b, 2) ^ gf_term(a, b, 3) ^ gf_term(a, b, 4)
        ^ gf_term(a, b, 5) ^ gf_term(a, b, 6) ^ gf_term(a, b, 7)
}

/// Replaces `h * x^8` by `h * (x^4 + x^3 + x^2 + 1)`, where `h` is the upper byte of `p`.
pub open spec fn gf_fold(p: u16) -> u16 {
    (p & 0xff) ^ (p >> 8) ^ ((p >> 8) << 2) ^ ((p >> 8) << 3) ^ ((p >> 8) << 4)
}

/// The product of two field elements.
#[verifier::opaque]
pub open spec fn gf_mul(a: u8, b: u8) -> u8 {
    gf_fold(gf_fold(gf_poly_product(a, b))) as u8
}

/// The multiplicative inverse of `a`, and zero for zero.
pub open spec fn gf_inv(a: u8) -> u8 {
    if a == 0 {
        0
    } else {
        choose|b: u8| #[trigger] gf_mul(a, b) == 1
    }
}

proof fn lemma_bits_comm(a: u8, b: u8)
    by (bit_vector)
    ensures
        gf_poly_product(a, b) == gf_poly_product(b, a),
{
}

proof fn lemma_bits_dist(a: u8, b: u8, c: u8)
    by (bit_vector)
    ensures
        gf_poly_product(a, b ^ c) == gf_poly_product(a, b) ^ gf_poly_product(a, c),
{
}

proof fn lemma_bits_fold(p: u16, q: u16)
    by (bit_vector)
    ensures
        gf_fold(gf_fold(p ^ q)) as u8 == gf_fold(gf_fold(p)) as u8 ^ gf_fold(gf_fold(q)) as u8,
{
}

proof fn lemma_bits_assoc2(a: u8, b: u8, p: u8)
    by (bit_vector)
    requires
        p == gf_mul(a, b),
    ensures
        gf_mul(p, 2) == gf_mul(a, gf_mul(b, 2)),
{
}

proof fn lemma_bits_unit(a: u8)
    by (bit_vector)
    ensures
        gf_mul(a, 1) == a,
        gf_mul(a, 0) == 0,
{
}

spec fn gf_bit(a: u8, i: u8, c: u8) -> u8 {
    if (a >> i) & 1 == 1 {
        c
    } else {
        0
    }
}

/// Squaring is linear: the sum of the squares of the powers of `x` in `a`.
spec fn gf_square(a: u8) -> u8 {
    gf_bit(a, 0, 1) ^ gf_bit(a, 1, 4) ^ gf_bit(a, 2, 16) ^ gf_bit(a, 3, 64) ^ gf_bit(a, 4, 29) ^ gf_bit(a, 5, 116) ^ gf_bit(a, 6, 205) ^ gf_bit(a, 7, 19)
}

proof fn lemma_bits_norm(a: u8, a2: u8, a4: u8, a8: u8, a16: u8, b: u8, b2: u8, b4: u8, b8: u8)
    by (bit_vector)
    requires
        a2 == gf_square(a),
        a4 == gf_square(a2),
        a8 == gf_square(a4),
        a16 == gf_square(a8),
        b == gf_mul(a, a16),
        b2 == gf_square(b),
        b4 == gf_square(b2),
        b8 == gf_square(b4),
    ensures
        gf_square(b8) == b,
        a != 0 ==> b != 0,
{
}

proof fn lemma_bits_subfield(b: u8, b2: u8, b4: u8, b8: u8, c: u8, d: u8)
    by (bit_vector)
    requires
        b2 == gf_square(b),
        b4 == gf_square(b2),
        b8 == gf_square(b4),
        b == gf_square(b8),
        c == gf_mul(b2, b4),
        d == gf_mul(c, b8),
        b != 0,
    ensures
        gf_mul(b, d) == 1,
{
}

/// Multiplication is commutative.
pub proof fn lemma_mul_comm(a: u8, b: u8)
    ensures
        gf_mul(a, b) == gf_mul(b, a),
{
    reveal(gf_mul);
    lemma_bits_comm(a, b);
}

/// Multiplication distributes over addition.
pub proof fn lemma_mul_dist(a: u8, b: u8, c: u8)
    ensures
        gf_mul(a, b ^ c) == gf_mul(a, b) ^ gf_mul(a, c),
        gf_mul(b ^ c, a) == gf_mul(b, a) ^ gf_mul(c, a),
{
    reveal(gf_mul);
    lemma_bits_dist(a, b, c);
    lemma_bits_fold(gf_poly_product(a, b), gf_poly_product(a, c));
    lemma_bits_comm(a, b);
    lemma_bits_comm(a, c);
    lemma_bits_comm(a, b ^ c);
}

/// One is neutral and zero absorbs.
pub proof fn lemma_mul_unit(a: u8)
    ensures
        gf_mul(a, 1) == a,
        gf_mul(1, a) == a,
        gf_mul(a, 0) == 0,
        gf_mul(0, a) == 0,
{
    lemma_bits_unit(a);
    lemma_mul_comm(a, 1);
    lemma_mul_comm(a, 0);
}

proof fn lemma_bits_powers_of_two()
    by (bit_vector)
    ensures
        gf_mul(1, 2) == 2,
        gf_mul(2, 2) == 4,
        gf_mul(4, 2) == 8,
        gf_mul(8, 2) == 16,
        gf_mul(16, 2) == 32,
        gf_mul(32, 2) == 64,
        gf_mul(64, 2) == 128,
{
}

/// Doubling shifts the coefficients, and folds the one that falls out.
pub proof fn lemma_double(a: u8)
    by (bit_vector)
    ensures
        a >= 128 ==> gf_mul(a, 2) == 29 ^ ((a ^ 128) << 1),
        a < 128 ==> gf_mul(a, 2) == a << 1,
{
}

/// Associativity with a last factor `2 * c` follows from associativity with last factor `c`.
proof fn lemma_assoc_double(a: u8, b: u8, c: u8)
    requires
        gf_mul(gf_mul(a, b), c) == gf_mul(a, gf_mul(b, c)),
    ensures
        gf_mul(gf_mul(a, b), gf_mul(c, 2)) == gf_mul(a, gf_mul(b, gf_mul(c, 2))),
{
    let p = gf_mul(a, b);
    lemma_bits_assoc2(p, c, gf_mul(p, c));
    lemma_bits_assoc2(b, c, gf_mul(b, c));
    lemma_bits_assoc2(a, gf_mul(b, c), gf_mul(a, gf_mul(b, c)));
}

/// Associativity with a last factor that is a sum of two factors for which it holds.
proof fn lemma_assoc_sum(a: u8, b: u8, c: u8, d: u8)
    requires
        gf_mul(gf_mul(a, b), c) == gf_mul(a, gf_mul(b, c)),
        gf_mul(gf_mul(a, b), d) == gf_mul(a, gf_mul(b, d)),
    ensures
        gf_mul(gf_mul(a, b), c ^ d) == gf_mul(a, gf_mul(b, c ^ d)),
{
    lemma_mul_dist(gf_mul(a, b), c, d);
    lemma_mul_dist(b, c, d);
    lemma_mul_dist(a, gf_mul(b, c), gf_mul(b, d));
}

proof fn lemma_assoc_bit(a: u8, b: u8, c: u8)
    requires
        c == 0 || c == 1 || c == 2 || c == 4 || c == 8 || c == 16 || c == 32 || c == 64 || c == 128,
    ensures
        gf_mul(gf_mul(a, b), c) == gf_mul(a, gf_mul(b, c)),
{
    lemma_bits_powers_of_two();
    lemma_mul_unit(gf_mul(a, b));
    lemma_mul_unit(b);
    lemma_mul_unit(a);
    lemma_assoc_double(a, b, 1);
    lemma_assoc_double(a, b, 2);
    lemma_assoc_double(a, b, 4);
    lemma_assoc_double(a, b, 8);
    lemma_assoc_double(a, b, 16);
    lemma_assoc_double(a, b, 32);
    lemma_assoc_double(a, b, 64);
}

proof fn lemma_bits_split(c: u8)
    by (bit_vector)
    ensures
        c == ((((((((c & 1) ^ (c & 2)) ^ (c & 4)) ^ (c & 8)) ^ (c & 16)) ^ (c & 32)) ^ (c & 64)) ^ (c
            & 128)),
        c & 1 == 0 || c & 1 == 1,
        c & 2 == 0 || c & 2 == 2,
        c & 4 == 0 || c & 4 == 4,
        c & 8 == 0 || c & 8 == 8,
        c & 16 == 0 || c & 16 == 16,
        c & 32 == 0 || c & 32 == 32,
        c & 64 == 0 || c & 64 == 64,
        c & 128 == 0 || c & 128 == 128,
{
}

/// Multiplication is associative.
pub proof fn lemma_mul_assoc(a: u8, b: u8, c: u8)
    ensures
        gf_mul(gf_mul(a, b), c) == gf_mul(a, gf_mul(b, c)),
{
    lemma_bits_split(c);
    let (c0, c1, c2, c3) = (c & 1, c & 2, c & 4, c & 8);
    let (c4, c5, c6, c7) = (c & 16, c & 32, c & 64, c & 128);
    lemma_assoc_bit(a, b, c0);
    lemma_assoc_bit(a, b, c1);
    lemma_assoc_bit(a, b, c2);
    lemma_assoc_bit(a, b, c3);
    lemma_assoc_bit(a, b, c4);
    lemma_assoc_bit(a, b, c5);
    lemma_assoc_bit(a, b, c6);
    lemma_assoc_bit(a, b, c7);
    let s1 = c0 ^ c1;
    let s2 = s1 ^ c2;
    let s3 = s2 ^ c3;
    let s4 = s3 ^ c4;
    let s5 = s4 ^ c5;
    let s6 = s5 ^ c6;
    lemma_assoc_sum(a, b, c0, c1);
    lemma_assoc_sum(a, b, s1, c2);
    lemma_assoc_sum(a, b, s2, c3);
    lemma_assoc_sum(a, b, s3, c4);
    lemma_assoc_sum(a, b, s4, c5);
    lemma_assoc_sum(a, b, s5, c6);
    lemma_assoc_sum(a, b, s6, c7);
}

/// A nonzero element has an inverse, and the inverse of zero is set to zero.
pub proof fn lemma_inv(a: u8)
    ensures
        a != 0 ==> gf_mul(a, gf_inv(a)) == 1,
        gf_inv(0) == 0,
{
    if a != 0 {
        let a2 = gf_square(a);
        let a4 = gf_square(a2);
        let a8 = gf_square(a4);
        let a16 = gf_square(a8);
        let b = gf_mul(a, a16);
        let b2 = gf_square(b);
        let b4 = gf_square(b2);
        let b8 = gf_square(b4);
        lemma_bits_norm(a, a2, a4, a8, a16, b, b2, b4, b8);
        let c = gf_mul(b2, b4);
        let d = gf_mul(c, b8);
        lemma_bits_subfield(b, b2, b4, b8, c, d);
        lemma_mul_assoc(a, a16, d);
        assert(gf_mul(a, gf_mul(a16, d)) == 1);
    }
}

/// A product is zero only if a factor is.
pub proof fn lemma_mul_nonzero(a: u8, b: u8)
    requires
        a != 0,
        b != 0,
    ensures
        gf_mul(a, b) != 0,
{
    lemma_inv(a);
    lemma_mul_assoc(gf_inv(a), a, b);
    lemma_mul_comm(a, gf_inv(a));
    lemma_mul_unit(b);
    lemma_mul_unit(gf_inv(a));
}

/// A nonzero factor can be cancelled.
pub proof fn lemma_mul_cancel(a: u8, b: u8, c: u8)
    requires
        a != 0,
        gf_mul(a, b) == gf_mul(a, c),
    ensures
        b == c,
{
    lemma_inv(a);
    let i = gf_inv(a);
    lemma_mul_comm(a, i);
    lemma_mul_assoc(i, a, b);
    lemma_mul_assoc(i, a, c);
    lemma_mul_unit(b);
    lemma_mul_unit(c);
}

/// Exclusive or is a group operation in which every element is its own inverse.
pub broadcast proof fn lemma_xor(a: u8, b: u8)
    by (bit_vector)
    ensures
        #[trigger] (a ^ b) == b ^ a,
        a ^ 0 == a,
        0 ^ b == b,
        a ^ a == 0,
        a ^ b == 0 ==> a == b,
        (a ^ b) ^ b == a,
        a ^ (a ^ b) == b,
{
}

pub proof fn lemma_xor_assoc(a: u8, b: u8, c: u8)
    by (bit_vector)
    ensures
        (a ^ b) ^ c == a ^ (b ^ c),
        (a ^ b) ^ c == (a ^ c) ^ b,
{
}

/// `a` to the power `n`; the power zero is one, also for zero.
pub open spec fn gf_pow(a: u8, n: nat) -> u8
    decreases n,
{
    if n == 0 {
        1
    } else {
        gf_mul(gf_pow(a, (n - 1) as nat), a)
    }
}

/// Powers of one base multiply by adding exponents.
pub proof fn lemma_pow_add(a: u8, m: nat, n: nat)
    ensures
        gf_pow(a, m + n) == gf_mul(gf_pow(a, m), gf_pow(a, n)),
    decreases n,
{
    if n == 0 {
        lemma_mul_unit(gf_pow(a, m));
    } else {
        lemma_pow_add(a, m, (n - 1) as nat);
        lemma_mul_assoc(gf_pow(a, m), gf_pow(a, (n - 1) as nat), a);
    }
}

/// Powers of a nonzero element are nonzero.
pub proof fn lemma_pow_nonzero(a: u8, n: nat)
    requires
        a != 0,
    ensures
        gf_pow(a, n) != 0,
    decreases n,
{
    if n > 0 {
        lemma_pow_nonzero(a, (n - 1) as nat);
        lemma_mul_nonzero(gf_pow(a, (n - 1) as nat), a);
    }
}

proof fn lemma_bits_squares()
    by (bit_vector)
    ensures
        gf_mul(2, 2) == 4,
        gf_mul(4, 4) == 16,
        gf_mul(16, 16) == 29,
        gf_mul(29, 29) == 76,
        gf_mul(76, 76) == 157,
        gf_mul(157, 157) == 95,
        gf_mul(95, 95) == 133,
{
}

/// The binary powering of the generator `2` reaches one for no exponent but 0 and 255.
proof fn lemma_bits_order(d: u8, e0: u8, e1: u8, e2: u8, e3: u8, e4: u8, e5: u8, e6: u8, e7: u8)
    by (bit_vector)
    requires
        e0 == (if d & 1 == 1 { 2u8 } else { 1u8 }),
        e1 == (if (d >> 1) & 1 == 1 { gf_mul(e0, 4) } else { e0 }),
        e2 == (if (d >> 2) & 1 == 1 { gf_mul(e1, 16) } else { e1 }),
        e3 == (if (d >> 3) & 1 == 1 { gf_mul(e2, 29) } else { e2 }),
        e4 == (if (d >> 4) & 1 == 1 { gf_mul(e3, 76) } else { e3 }),
        e5 == (if (d >> 5) & 1 == 1 { gf_mul(e4, 157) } else { e4 }),
        e6 == (if (d >> 6) & 1 == 1 { gf_mul(e5, 95) } else { e5 }),
        e7 == (if (d >> 7) & 1 == 1 { gf_mul(e6, 133) } else { e6 }),
    ensures
        0 < d < 255 ==> e7 != 1,
        d == 255 ==> e7 == 1,
{
}

proof fn lemma_bits_digits(d: u8)
    by (bit_vector)
    ensures
        d & 1 == d % 2,
        (d >> 1) & 1 == 1 ==> d % 4 == d % 2 + 2,
        (d >> 1) & 1 != 1 ==> d % 4 == d % 2,
        (d >> 2) & 1 == 1 ==> d % 8 == d % 4 + 4,
        (d >> 2) & 1 != 1 ==> d % 8 == d % 4,
        (d >> 3) & 1 == 1 ==> d % 16 == d % 8 + 8,
        (d >> 3) & 1 != 1 ==> d % 16 == d % 8,
        (d >> 4) & 1 == 1 ==> d % 32 == d % 16 + 16,
        (d >> 4) & 1 != 1 ==> d % 32 == d % 16,
        (d >> 5) & 1 == 1 ==> d % 64 == d % 32 + 32,
        (d >> 5) & 1 != 1 ==> d % 64 == d % 32,
        (d >> 6) & 1 == 1 ==> d % 128 == d % 64 + 64,
        (d >> 6) & 1 != 1 ==> d % 128 == d % 64,
        (d >> 7) & 1 == 1 ==> d == d % 128 + 128,
        (d >> 7) & 1 != 1 ==> d == d % 128,
{
}

/// The element `2` has multiplicative order 255.
pub proof fn lemma_generator_order(d: u8)
    ensures
        0 < d < 255 ==> gf_pow(2, d as nat) != 1,
        d == 255 ==> gf_pow(2, d as nat) == 1,
{
    lemma_bits_squares();
    assert(gf_pow(2, 0) == 1);
    assert(gf_pow(2, 1) == 2) by {
        lemma_mul_unit(2);
        assert(gf_pow(2, 1) == gf_mul(gf_pow(2, 0), 2));
    }
    lemma_pow_add(2, 1, 1);
    lemma_pow_add(2, 2, 2);
    lemma_pow_add(2, 4, 4);
    lemma_pow_add(2, 8, 8);
    lemma_pow_add(2, 16, 16);
    lemma_pow_add(2, 32, 32);
    lemma_pow_add(2, 64, 64);
    lemma_bits_digits(d);
    let e0 = if d & 1 == 1 { 2u8 } else { 1u8 };
    let e1 = if (d >> 1) & 1 == 1 { gf_mul(e0, 4) } else { e0 };
    let e2 = if (d >> 2) & 1 == 1 { gf_mul(e1, 16) } else { e1 };
    let e3 = if (d >> 3) & 1 == 1 { gf_mul(e2, 29) } else { e2 };
    let e4 = if (d >> 4) & 1 == 1 { gf_mul(e3, 76) } else { e3 };
    let e5 = if (d >> 5) & 1 == 1 { gf_mul(e4, 157) } else { e4 };
    let e6 = if (d >> 6) & 1 == 1 { gf_mul(e5, 95) } else { e5 };
    let e7 = if (d >> 7) & 1 == 1 { gf_mul(e6, 133) } else { e6 };
    assert(e0 == gf_pow(2, (d % 2) as nat));
    lemma_pow_add(2, (d % 2) as nat, 2);
    assert(e1 == gf_pow(2, (d % 4) as nat));
    lemma_pow_add(2, (d % 4) as nat, 4);
    assert(e2 == gf_pow(2, (d % 8) as nat));
    lemma_pow_add(2, (d % 8) as nat, 8);
    assert(e3 == gf_pow(2, (d % 16) as nat));
    lemma_pow_add(2, (d % 16) as nat, 16);
    assert(e4 == gf_pow(2, (d % 32) as nat));
    lemma_pow_add(2, (d % 32) as nat, 32);
    assert(e5 == gf_pow(2, (d % 64) as nat));
    lemma_pow_add(2, (d % 64) as nat, 64);
    assert(e6 == gf_pow(2, (d % 128) as nat));
    lemma_pow_add(2, (d % 128) as nat, 128);
    assert(e7 == gf_pow(2, d as nat));
    lemma_bits_order(d, e0, e1, e2, e3, e4, e5, e6, e7);
}

/// Different exponents below 255 give different powers of `2`.
pub proof fn lemma_generator_distinct(i: nat, j: nat)
    requires
        i < j < 255,
    ensures
        gf_pow(2, i) != gf_pow(2, j),
{
    if gf_pow(2, i) == gf_pow(2, j) {
        lemma_pow_add(2, i, (j - i) as nat);
        lemma_pow_nonzero(2, i);
        lemma_mul_unit(gf_pow(2, i));
        lemma_mul_cancel(gf_pow(2, i), gf_pow(2, (j - i) as nat), 1);
        lemma_generator_order((j - i) as u8);
    }
}

} // verus!
