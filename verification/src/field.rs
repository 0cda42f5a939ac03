//! The mathematical model of GF(2^8) (the AES field, reduction polynomial
//! `x^8 + x^4 + x^3 + x + 1`) and the algebraic laws that the rest of the
//! library builds on.
use vstd::prelude::*;

verus! {

/// Multiplication by the polynomial `x`, reduced modulo `x^8 + x^4 + x^3 + x + 1`.
pub open spec fn xtime(r: u8) -> u8 {
    ((r << 1u8) ^ (if r & 0x80u8 == 0x80u8 {
        0x1bu8
    } else {
        0u8
    })) as u8
}

/// One Horner step over the bits of `b`: multiply the accumulator by `x`
/// and add `a` when bit `i` of `b` is set.
pub open spec fn mul_step(r: u8, a: u8, b: u8, i: u8) -> u8 {
    (xtime(r) ^ (if (b >> i) & 1u8 == 1u8 {
        a
    } else {
        0u8
    })) as u8
}

/// The product of `a` and `b` in GF(2^8): `a` times the polynomial whose
/// coefficients are the bits of `b`, evaluated by Horner's rule from the
/// highest bit down.
pub open spec fn gf_mul(a: u8, b: u8) -> u8 {
    mul_step(
        mul_step(
            mul_step(
                mul_step(
                    mul_step(
                        mul_step(mul_step(mul_step(0u8, a, b, 7u8), a, b, 6u8), a, b, 5u8),
                        a,
                        b,
                        4u8,
                    ),
                    a,
                    b,
                    3u8,
                ),
                a,
                b,
                2u8,
            ),
            a,
            b,
            1u8,
        ),
        a,
        b,
        0u8,
    )
}

/// The accumulator of the Horner product after the bits `7 ..= i` of `b`
/// have been processed.
pub open spec fn mul_prefix(a: u8, b: u8, i: u8) -> u8
    decreases 8 - i,
{
    if i >= 8 {
        0u8
    } else {
        mul_step(mul_prefix(a, b, (i + 1) as u8), a, b, i)
    }
}

/// `a` raised to the power `n`.
pub open spec fn gf_pow(a: u8, n: nat) -> u8
    decreases n,
{
    if n == 0 {
        1u8
    } else {
        gf_mul(a, gf_pow(a, (n - 1) as nat))
    }
}

/// The multiplicative inverse of `a`; zero has none and maps to zero.
pub open spec fn gf_inv(a: u8) -> u8 {
    if a == 0 {
        0u8
    } else {
        choose|b: u8| gf_mul(a, b) == 1u8
    }
}

// ---------------------------------------------------------------------------
// Addition (XOR)
// ---------------------------------------------------------------------------

/// Addition in GF(2^8) is XOR: an abelian group in which every element is
/// its own negative.
pub proof fn lemma_add_laws(a: u8, b: u8, c: u8)
    by (bit_vector)
    ensures
        a ^ b == b ^ a,
        (a ^ b) ^ c == a ^ (b ^ c),
        a ^ a == 0u8,
        a ^ 0u8 == a,
        0u8 ^ a == a,
        (a ^ b == 0u8) == (a == b),
{
}

// ---------------------------------------------------------------------------
// Multiplication
// ---------------------------------------------------------------------------

/// Zero annihilates and one is neutral.
pub proof fn lemma_mul_zero_one(a: u8)
    by (bit_vector)
    ensures
        gf_mul(0u8, a) == 0u8,
        gf_mul(a, 0u8) == 0u8,
        gf_mul(1u8, a) == a,
        gf_mul(a, 1u8) == a,
{
}

/// Multiplication is commutative.
pub proof fn lemma_mul_comm(a: u8, b: u8)
    by (bit_vector)
    ensures
        gf_mul(a, b) == gf_mul(b, a),
{
}

/// Multiplication distributes over addition.
pub proof fn lemma_mul_distrib(a: u8, b: u8, c: u8)
    by (bit_vector)
    ensures
        gf_mul(a, b ^ c) == gf_mul(a, b) ^ gf_mul(a, c),
{
}

/// Multiplication distributes over addition, from the left operand.
pub proof fn lemma_mul_distrib_left(a: u8, b: u8, c: u8)
    ensures
        gf_mul(a ^ b, c) == gf_mul(a, c) ^ gf_mul(b, c),
{
    lemma_mul_comm(a ^ b, c);
    lemma_mul_distrib(c, a, b);
    lemma_mul_comm(c, a);
    lemma_mul_comm(c, b);
}

proof fn lemma_mul_xtime(y: u8, c: u8)
    by (bit_vector)
    ensures
        gf_mul(xtime(y), c) == xtime(gf_mul(y, c)),
{
}

proof fn lemma_mul_step_right(r: u8, a: u8, b: u8, i: u8, c: u8)
    ensures
        gf_mul(mul_step(r, a, b, i), c) == mul_step(gf_mul(r, c), gf_mul(a, c), b, i),
{
    let s = if (b >> i) & 1u8 == 1u8 {
        a
    } else {
        0u8
    };
    lemma_mul_distrib_left(xtime(r), s, c);
    lemma_mul_xtime(r, c);
    lemma_mul_zero_one(c);
}

/// Right multiplications can be swapped: `(a b) c = (a c) b`.
proof fn lemma_mul_swap_right(a: u8, b: u8, c: u8)
    ensures
        gf_mul(gf_mul(a, b), c) == gf_mul(gf_mul(a, c), b),
{
    let r0 = 0u8;
    let r1 = mul_step(r0, a, b, 7u8);
    let r2 = mul_step(r1, a, b, 6u8);
    let r3 = mul_step(r2, a, b, 5u8);
    let r4 = mul_step(r3, a, b, 4u8);
    let r5 = mul_step(r4, a, b, 3u8);
    let r6 = mul_step(r5, a, b, 2u8);
    let r7 = mul_step(r6, a, b, 1u8);
    lemma_mul_zero_one(c);
    lemma_mul_step_right(r0, a, b, 7u8, c);
    lemma_mul_step_right(r1, a, b, 6u8, c);
    lemma_mul_step_right(r2, a, b, 5u8, c);
    lemma_mul_step_right(r3, a, b, 4u8, c);
    lemma_mul_step_right(r4, a, b, 3u8, c);
    lemma_mul_step_right(r5, a, b, 2u8, c);
    lemma_mul_step_right(r6, a, b, 1u8, c);
    lemma_mul_step_right(r7, a, b, 0u8, c);
}

/// Multiplication is associative.
pub proof fn lemma_mul_assoc(a: u8, b: u8, c: u8)
    ensures
        gf_mul(gf_mul(a, b), c) == gf_mul(a, gf_mul(b, c)),
{
    lemma_mul_comm(a, gf_mul(b, c));
    lemma_mul_swap_right(b, c, a);
    lemma_mul_comm(b, a);
}

/// The Horner accumulator after all eight bits is the product.
pub proof fn lemma_mul_prefix_full(a: u8, b: u8)
    ensures
        mul_prefix(a, b, 0u8) == gf_mul(a, b),
{
    reveal_with_fuel(mul_prefix, 9);
}

// ---------------------------------------------------------------------------
// Inverses
// ---------------------------------------------------------------------------

/// `a^254`, computed by the addition chain 2, 3, 6, 12, 15, 24, 48, 63,
/// 126, 127, 254, is an inverse of every nonzero `a`.
pub proof fn lemma_pow254_is_inverse(a: u8, b2: u8, c3: u8, b6: u8, b12: u8, c15: u8, b24: u8, b48: u8, b63: u8, b126: u8, b127: u8, b254: u8)
    requires
        b2 == gf_mul(a, a),
        c3 == gf_mul(a, b2),
        b6 == gf_mul(c3, c3),
        b12 == gf_mul(b6, b6),
        c15 == gf_mul(b12, c3),
        b24 == gf_mul(b12, b12),
        b48 == gf_mul(b24, b24),
        b63 == gf_mul(b48, c15),
        b126 == gf_mul(b63, b63),
        b127 == gf_mul(a, b126),
        b254 == gf_mul(b127, b127),
    ensures
        a != 0u8 ==> gf_mul(a, b254) == 1u8,
        a == 0u8 ==> b254 == 0u8,
{
    assert(a != 0u8 ==> gf_mul(a, b254) == 1u8) by (bit_vector)
        requires
            b2 == gf_mul(a, a),
            c3 == gf_mul(a, b2),
            b6 == gf_mul(c3, c3),
            b12 == gf_mul(b6, b6),
            c15 == gf_mul(b12, c3),
            b24 == gf_mul(b12, b12),
            b48 == gf_mul(b24, b24),
            b63 == gf_mul(b48, c15),
            b126 == gf_mul(b63, b63),
            b127 == gf_mul(a, b126),
            b254 == gf_mul(b127, b127),
    ;
    if a == 0u8 {
        lemma_mul_zero_one(0u8);
        lemma_mul_zero_one(b2);
        lemma_mul_zero_one(b127);
    }
}

/// The inverse exists: `a^254` is a witness.
proof fn lemma_inverse_exists(a: u8)
    requires
        a != 0,
    ensures
        exists|b: u8| gf_mul(a, b) == 1u8,
{
    let b2 = gf_mul(a, a);
    let c3 = gf_mul(a, b2);
    let b6 = gf_mul(c3, c3);
    let b12 = gf_mul(b6, b6);
    let c15 = gf_mul(b12, c3);
    let b24 = gf_mul(b12, b12);
    let b48 = gf_mul(b24, b24);
    let b63 = gf_mul(b48, c15);
    let b126 = gf_mul(b63, b63);
    let b127 = gf_mul(a, b126);
    let b254 = gf_mul(b127, b127);
    lemma_pow254_is_inverse(a, b2, c3, b6, b12, c15, b24, b48, b63, b126, b127, b254);
}

/// Every nonzero element has an inverse, and the inverse of zero is zero.
pub proof fn lemma_inv(a: u8)
    ensures
        a != 0 ==> gf_mul(a, gf_inv(a)) == 1u8,
        a != 0 ==> gf_mul(gf_inv(a), a) == 1u8,
        a != 0 ==> gf_inv(a) != 0,
        a == 0 ==> gf_inv(a) == 0,
{
    if a != 0 {
        lemma_inverse_exists(a);
        lemma_mul_comm(a, gf_inv(a));
        lemma_mul_zero_one(a);
    }
}

/// The inverse is the only element whose product with `a` is one.
pub proof fn lemma_inv_unique(a: u8, b: u8)
    requires
        gf_mul(a, b) == 1u8,
    ensures
        a != 0,
        b == gf_inv(a),
{
    lemma_mul_zero_one(a);
    lemma_inv(a);
    let i = gf_inv(a);
    // b = (i a) b = i (a b) = i
    lemma_mul_assoc(i, a, b);
    lemma_mul_zero_one(b);
    lemma_mul_zero_one(i);
}

/// The inverse of the inverse is the element itself.
pub proof fn lemma_inv_involution(a: u8)
    ensures
        gf_inv(gf_inv(a)) == a,
{
    lemma_inv(a);
    if a != 0 {
        lemma_inv_unique(gf_inv(a), a);
    } else {
        lemma_inv(0u8);
    }
}

/// The inverse of one is one.
pub proof fn lemma_inv_one()
    ensures
        gf_inv(1u8) == 1u8,
{
    lemma_mul_zero_one(1u8);
    lemma_inv_unique(1u8, 1u8);
}

/// A product is zero only when one of its factors is.
pub proof fn lemma_no_zero_divisors(a: u8, b: u8)
    ensures
        (gf_mul(a, b) == 0u8) == (a == 0u8 || b == 0u8),
{
    lemma_mul_zero_one(a);
    lemma_mul_zero_one(b);
    if a != 0 && gf_mul(a, b) == 0u8 {
        lemma_inv(a);
        let i = gf_inv(a);
        lemma_mul_assoc(i, a, b);
        lemma_mul_zero_one(i);
    }
}

/// Dividing by a nonzero factor: `a = (a / d) d`.
pub proof fn lemma_div_mul(a: u8, d: u8)
    requires
        d != 0,
    ensures
        gf_mul(gf_mul(a, gf_inv(d)), d) == a,
{
    lemma_inv(d);
    lemma_mul_assoc(a, gf_inv(d), d);
    lemma_mul_zero_one(a);
}

/// Powers add their exponents: `a^(m + n) = a^m a^n`.
pub proof fn lemma_pow_add(a: u8, m: nat, n: nat)
    ensures
        gf_pow(a, m + n) == gf_mul(gf_pow(a, m), gf_pow(a, n)),
    decreases m,
{
    if m == 0 {
        lemma_mul_zero_one(gf_pow(a, n));
    } else {
        lemma_pow_add(a, (m - 1) as nat, n);
        assert(gf_pow(a, m + n) == gf_mul(a, gf_pow(a, (m - 1 + n) as nat)));
        lemma_mul_assoc(a, gf_pow(a, (m - 1) as nat), gf_pow(a, n));
    }
}

/// The addition chain 2, 3, 6, 12, 15, 24, 48, 63, 126, 127, 254 computes `a^254`.
pub proof fn lemma_pow254_chain(a: u8, b2: u8, c3: u8, b6: u8, b12: u8, c15: u8, b24: u8, b48: u8, b63: u8, b126: u8, b127: u8, b254: u8)
    requires
        b2 == gf_mul(a, a),
        c3 == gf_mul(a, b2),
        b6 == gf_mul(c3, c3),
        b12 == gf_mul(b6, b6),
        c15 == gf_mul(b12, c3),
        b24 == gf_mul(b12, b12),
        b48 == gf_mul(b24, b24),
        b63 == gf_mul(b48, c15),
        b126 == gf_mul(b63, b63),
        b127 == gf_mul(a, b126),
        b254 == gf_mul(b127, b127),
    ensures
        b254 == gf_pow(a, 254),
{
    assert(gf_pow(a, 0) == 1u8);
    lemma_mul_zero_one(a);
    assert(gf_pow(a, 1) == a);
    lemma_pow_add(a, 1, 1);
    lemma_pow_add(a, 1, 2);
    lemma_pow_add(a, 3, 3);
    lemma_pow_add(a, 6, 6);
    lemma_pow_add(a, 12, 3);
    lemma_pow_add(a, 12, 12);
    lemma_pow_add(a, 24, 24);
    lemma_pow_add(a, 48, 15);
    lemma_pow_add(a, 63, 63);
    lemma_pow_add(a, 1, 126);
    lemma_pow_add(a, 127, 127);
}

/// A positive power of zero is zero.
pub proof fn lemma_pow_zero(n: nat)
    requires
        n > 0,
    ensures
        gf_pow(0u8, n) == 0u8,
{
    lemma_mul_zero_one(gf_pow(0u8, (n - 1) as nat));
}

/// The inverse is the 254th power: `inv(a) = a^254` (and `0^254 = 0`).
pub proof fn lemma_inv_is_pow254(a: u8)
    ensures
        gf_inv(a) == gf_pow(a, 254),
{
    if a == 0 {
        lemma_inv(0u8);
        lemma_pow_zero(254);
    } else {
        let b2 = gf_mul(a, a);
        let c3 = gf_mul(a, b2);
        let b6 = gf_mul(c3, c3);
        let b12 = gf_mul(b6, b6);
        let c15 = gf_mul(b12, c3);
        let b24 = gf_mul(b12, b12);
        let b48 = gf_mul(b24, b24);
        let b63 = gf_mul(b48, c15);
        let b126 = gf_mul(b63, b63);
        let b127 = gf_mul(a, b126);
        let b254 = gf_mul(b127, b127);
        lemma_pow254_is_inverse(a, b2, c3, b6, b12, c15, b24, b48, b63, b126, b127, b254);
        lemma_pow254_chain(a, b2, c3, b6, b12, c15, b24, b48, b63, b126, b127, b254);
        lemma_inv_unique(a, b254);
    }
}

/// The carry-less (polynomial) product of `a` and `b` over GF(2).
pub open spec fn clmul(a: u8, b: u8) -> u16 {
    let a16 = a as u16;
    (if (b >> 0u8) & 1u8 == 1u8 { a16 << 0u16 } else { 0u16 })
        ^ (if (b >> 1u8) & 1u8 == 1u8 { a16 << 1u16 } else { 0u16 })
        ^ (if (b >> 2u8) & 1u8 == 1u8 { a16 << 2u16 } else { 0u16 })
        ^ (if (b >> 3u8) & 1u8 == 1u8 { a16 << 3u16 } else { 0u16 })
        ^ (if (b >> 4u8) & 1u8 == 1u8 { a16 << 4u16 } else { 0u16 })
        ^ (if (b >> 5u8) & 1u8 == 1u8 { a16 << 5u16 } else { 0u16 })
        ^ (if (b >> 6u8) & 1u8 == 1u8 { a16 << 6u16 } else { 0u16 })
        ^ (if (b >> 7u8) & 1u8 == 1u8 { a16 << 7u16 } else { 0u16 })
}

/// The remainder of a polynomial of degree below 15 modulo
/// `x^8 + x^4 + x^3 + x + 1` (0x11B), by long division from the top bit down.
pub open spec fn reduce_11b(p: u16) -> u8 {
    let r14 = if p & 0x4000u16 != 0u16 { p ^ (0x11bu16 << 6u16) } else { p };
    let r13 = if r14 & 0x2000u16 != 0u16 { r14 ^ (0x11bu16 << 5u16) } else { r14 };
    let r12 = if r13 & 0x1000u16 != 0u16 { r13 ^ (0x11bu16 << 4u16) } else { r13 };
    let r11 = if r12 & 0x800u16 != 0u16 { r12 ^ (0x11bu16 << 3u16) } else { r12 };
    let r10 = if r11 & 0x400u16 != 0u16 { r11 ^ (0x11bu16 << 2u16) } else { r11 };
    let r9 = if r10 & 0x200u16 != 0u16 { r10 ^ (0x11bu16 << 1u16) } else { r10 };
    let r8 = if r9 & 0x100u16 != 0u16 { r9 ^ (0x11bu16 << 0u16) } else { r9 };
    r8 as u8
}

/// The product is the usual one of GF(2^8): the carry-less product of the
/// operands reduced modulo 0x11B.
#[verifier::rlimit(100)]
pub proof fn lemma_mul_is_reduced_clmul(a: u8, b: u8)
    by (bit_vector)
    ensures
        gf_mul(a, b) == reduce_11b(clmul(a, b)),
{
}

} // verus!
