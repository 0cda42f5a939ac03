//! Executable arithmetic in GF(2^8), random polynomials and Lagrange
//! interpolation.
use rand::rngs::SysError;
use vstd::prelude::*;

use crate::field::{
    gf_inv,
    gf_mul,
    gf_pow,
    lemma_add_laws,
    lemma_div_mul,
    lemma_inv,
    lemma_inv_is_pow254,
    lemma_inv_unique,
    lemma_mul_comm,
    lemma_mul_prefix_full,
    lemma_mul_zero_one,
    lemma_pow254_chain,
    lemma_pow254_is_inverse,
    lemma_pow_zero,
    mul_prefix,
    mul_step,
};
use crate::poly::{
    distinct,
    lagrange_basis,
    lagrange_interpolate,
    lagrange_sum,
    lemma_eval_at_zero,
    lemma_eval_const,
    lemma_eval_suffix,
    poly_eval,
    poly_eval_at,
    prod_except,
};
use crate::rng::fill_from_system_rng;
use crate::table::lemma_inv_table;
pub use crate::table::INV_TABLE;

verus! {

/// Errors of the field and polynomial operations.
#[derive(Debug, Clone, Copy, PartialEq, Eq)]
pub enum FieldError {
    DegreeTooLarge,
    RngFailure,
    InvalidInterpolationInput,
    DuplicateSampleX,
}

/// A polynomial of arbitrary degree over GF(2^8), coefficients lowest
/// degree first. It always has a constant coefficient.
pub struct Polynomial {
    coefficients: Vec<u8>,
}

impl View for Polynomial {
    type V = Seq<u8>;

    closed spec fn view(&self) -> Seq<u8> {
        self.coefficients@
    }
}

impl Polynomial {
    #[verifier::type_invariant]
    spec fn has_constant_term(self) -> bool {
        self.coefficients@.len() >= 1
    }

    /// Constructs a random polynomial of the given degree with the provided
    /// intercept value; the other coefficients come from the system's
    /// random number generator.
    pub fn new(intercept: u8, degree: u8) -> (res: Result<Polynomial, FieldError>)
        ensures
            res matches Ok(p) ==> p@.len() == degree + 1 && p@[0] == intercept,
            res matches Err(e) ==> e == FieldError::RngFailure,
            degree == 0 ==> (res matches Ok(p) && p@ == seq![intercept]),
    {
        let len = match (degree as usize).checked_add(1) {
            Some(len) => len,
            None => {
                return Err(FieldError::DegreeTooLarge);
            },
        };
        let mut higher = vec![0u8; len - 1];
        let drawn = fill_from_system_rng(&mut higher);
        let res = Polynomial::from_draw(intercept, drawn, higher);
        proof {
            if degree == 0 {
                assert(res matches Ok(p) && p@ =~= seq![intercept]);
            }
        }
        res
    }

    /// The polynomial that `new` builds from the outcome `drawn` of its
    /// random draw and the drawn coefficients `higher`: an error when the
    /// draw failed, else the intercept followed by the drawn coefficients.
    pub fn from_draw(intercept: u8, drawn: Result<(), SysError>, higher: Vec<u8>) -> (res: Result<
        Polynomial,
        FieldError,
    >)
        ensures
            drawn is Err ==> (res matches Err(e) && e == FieldError::RngFailure),
            drawn is Ok ==> (res matches Ok(p) && p@ == seq![intercept] + higher@),
    {
        match drawn {
            Ok(()) => Ok(Polynomial::with_coefficients(intercept, higher)),
            Err(_) => Err(FieldError::RngFailure),
        }
    }

    /// The polynomial with constant coefficient `intercept` and the
    /// coefficients `higher` for degrees one and up.
    pub fn with_coefficients(intercept: u8, higher: Vec<u8>) -> (p: Polynomial)
        ensures
            p@ == seq![intercept] + higher@,
    {
        let mut higher = higher;
        let mut coefficients: Vec<u8> = Vec::new();
        coefficients.push(intercept);
        coefficients.append(&mut higher);
        Polynomial { coefficients }
    }

    /// The coefficients, lowest degree first.
    pub fn coefficients(&self) -> (c: &[u8])
        ensures
            c@ == self@,
    {
        self.coefficients.as_slice()
    }

    /// Returns the value of the polynomial for the given x (Horner's method).
    pub fn evaluate(&self, x: u8) -> (r: u8)
        ensures
            r == poly_eval(self@, x),
            x == 0 ==> r == self@[0],
    {
        proof {
            use_type_invariant(self);
        }
        let c = &self.coefficients;
        if x == 0 {
            proof {
                lemma_eval_at_zero(c@);
            }
            return c[0];
        }
        let len = c.len();
        // Start with the highest coefficient.
        let mut result = c[len - 1];
        let mut k = len - 1;
        proof {
            assert(c@.subrange(k as int, len as int) =~= seq![c@[k as int]]);
            lemma_eval_const(c@[k as int], x);
        }
        while k > 0
            invariant
                len == c@.len(),
                k < len,
                result == poly_eval(c@.subrange(k as int, len as int), x),
            decreases k,
        {
            k -= 1;
            let ghost prev = result;
            result = mult(result, x) ^ c[k];
            proof {
                lemma_eval_suffix(c@, k as int, x);
                lemma_mul_comm(prev, x);
                lemma_add_laws(gf_mul(x, prev), c@[k as int], 0u8);
            }
        }
        proof {
            assert(c@.subrange(0, len as int) =~= c@);
        }
        result
    }
}

/// Combines two numbers in GF(2^8) (XOR).
pub fn add(a: u8, b: u8) -> (r: u8)
    ensures
        r == a ^ b,
{
    a ^ b
}

/// Multiplies two numbers in GF(2^8), without branches on the operands.
pub fn mult(a: u8, b: u8) -> (r: u8)
    ensures
        r == gf_mul(a, b),
{
    let mut r = 0u8;
    let mut i = 8u8;

    // Iterate from the most significant bit (7) down to the least (0).
    while i > 0
        invariant
            i <= 8,
            r == mul_prefix(a, b, i),
        decreases i,
    {
        i -= 1;
        let bit = (b >> i) & 1u8;
        let top = (r >> 7u8) & 1u8;
        proof {
            assert(bit == 0u8 || bit == 1u8) by (bit_vector)
                requires
                    bit == (b >> i) & 1u8,
            ;
            assert(top == 0u8 || top == 1u8) by (bit_vector)
                requires
                    top == (r >> 7u8) & 1u8,
            ;
        }

        // 0x00 or 0xFF
        let mask = 0u8.wrapping_sub(bit);
        let reduce = 0u8.wrapping_sub(top);

        let ghost prev = r;
        r = (mask & a) ^ (reduce & 0x1Bu8) ^ (r << 1u8);
        proof {
            assert(r == mul_step(prev, a, b, i)) by (bit_vector)
                requires
                    i < 8,
                    mask == (if (b >> i) & 1u8 == 1u8 {
                        0xffu8
                    } else {
                        0u8
                    }),
                    reduce == (if (prev >> 7u8) & 1u8 == 1u8 {
                        0xffu8
                    } else {
                        0u8
                    }),
                    r == (mask & a) ^ (reduce & 0x1Bu8) ^ (prev << 1u8),
            ;
        }
    }
    proof {
        lemma_mul_prefix_full(a, b);
    }
    r
}

/// Calculates the inverse of a number in GF(2^8) as `a^254`, with an
/// eleven-multiplication addition chain. Zero maps to zero.
pub fn inverse_11x(a: u8) -> (r: u8)
    ensures
        r == gf_inv(a),
        r == gf_pow(a, 254),
{
    if a == 0 {
        proof {
            lemma_inv(0u8);
            lemma_pow_zero(254);
        }
        return 0;
    }
    let mut b = mult(a, a);
    let ghost b2 = b;
    let mut c = mult(a, b);
    let ghost c3 = c;

    b = mult(c, c);
    let ghost b6 = b;
    b = mult(b, b);
    let ghost b12 = b;
    c = mult(b, c);
    let ghost c15 = c;
    b = mult(b, b);
    let ghost b24 = b;
    b = mult(b, b);
    let ghost b48 = b;
    b = mult(b, c);
    let ghost b63 = b;
    b = mult(b, b);
    let ghost b126 = b;
    b = mult(a, b);
    let ghost b127 = b;

    let r = mult(b, b);
    proof {
        lemma_pow254_is_inverse(a, b2, c3, b6, b12, c15, b24, b48, b63, b126, b127, r);
        lemma_pow254_chain(a, b2, c3, b6, b12, c15, b24, b48, b63, b126, b127, r);
        lemma_inv_unique(a, r);
    }
    r
}

/// The table of the inverses of all 256 field elements.
pub fn generate_inverse_table() -> (table: [u8; 256])
    ensures
        forall|i: int| 0 <= i < 256 ==> table[i] == gf_inv(i as u8),
        forall|i: int| 0 <= i < 256 ==> table[i] == gf_pow(i as u8, 254),
{
    let mut table = [0u8; 256];
    let mut i = 0usize;
    while i < 256
        invariant
            i <= 256,
            forall|j: int| 0 <= j < i ==> table[j] == gf_inv(j as u8),
            forall|j: int| 0 <= j < i ==> table[j] == gf_pow(j as u8, 254),
        decreases 256 - i,
    {
        table[i] = inverse_11x(i as u8);
        i += 1;
    }
    table
}

/// Calculates the inverse of a number in GF(2^8) (`a^254`) by a lookup in
/// the 256-byte table `INV_TABLE`; zero maps to zero. The index is a share's
/// public x-coordinate, never secret data.
pub fn inverse(a: u8) -> (r: u8)
    ensures
        r == gf_inv(a),
        r == gf_pow(a, 254),
        a != 0 ==> gf_mul(a, r) == 1u8,
{
    proof {
        lemma_inv(a);
        lemma_inv_table();
        lemma_inv_is_pow254(a);
        assert(INV_TABLE@[a as int] == gf_inv(a));
    }
    INV_TABLE[a as usize]
}

/// Divides two numbers in GF(2^8); there is no quotient by zero.
pub fn div(a: u8, b: u8) -> (r: Option<u8>)
    ensures
        b == 0 ==> r is None,
        b != 0 ==> r == Some(gf_mul(a, gf_inv(b))),
        r matches Some(q) ==> gf_mul(q, b) == a,
{
    if b == 0 {
        return None;
    }
    proof {
        lemma_div_mul(a, b);
    }
    Some(mult(a, inverse(b)))
}

/// What `interpolate_polynomial` returns: an error for empty or mismatched
/// samples or repeated x values, else the value at `x` of the Lagrange
/// interpolant through the samples.
pub open spec fn interpolate_result(xs: Seq<u8>, ys: Seq<u8>, x: u8) -> Result<u8, FieldError> {
    if xs.len() == 0 || xs.len() != ys.len() {
        Err(FieldError::InvalidInterpolationInput)
    } else if !distinct(xs) {
        Err(FieldError::DuplicateSampleX)
    } else {
        Ok(lagrange_interpolate(xs, ys, x))
    }
}

/// Interpolating the values of a polynomial at as many distinct points as it
/// has coefficients (or more) gives back the polynomial's value anywhere.
pub proof fn lemma_interpolate_samples(c: Seq<u8>, xs: Seq<u8>, z: u8)
    requires
        distinct(xs),
        xs.len() >= 1,
        c.len() <= xs.len(),
    ensures
        interpolate_result(xs, poly_eval_at(c, xs), z) == Ok::<u8, FieldError>(poly_eval(c, z)),
{
    let ys = poly_eval_at(c, xs);
    assert forall|i: int| 0 <= i < xs.len() implies ys[i] == poly_eval(c, #[trigger] xs[i]) by {}
    crate::poly::lemma_interpolation(c, xs, ys, z);
}

/// The interpolant through one point is constant.
proof fn lemma_interpolate_single(xs: Seq<u8>, ys: Seq<u8>, z: u8)
    requires
        xs.len() == 1,
        ys.len() == 1,
    ensures
        lagrange_interpolate(xs, ys, z) == ys[0],
{
    assert(prod_except(xs, 0, z, 0) == 1u8);
    assert(prod_except(xs, 0, z, 1) == 1u8);
    assert(prod_except(xs, 0, xs[0], 0) == 1u8);
    assert(prod_except(xs, 0, xs[0], 1) == 1u8);
    crate::field::lemma_inv_one();
    lemma_mul_zero_one(1u8);
    lemma_mul_zero_one(ys[0]);
    lemma_add_laws(ys[0], 0u8, 0u8);
    assert(lagrange_sum(xs, ys, z, 0) == 0u8);
}

/// The products `prod_{j < k, j != i} (z + xs[j])`, computed from left to right.
fn product_except(xs: &[u8], i: usize, z: u8) -> (p: u8)
    requires
        i < xs@.len(),
    ensures
        p == prod_except(xs@, i as int, z, xs@.len() as int),
{
    let n = xs.len();
    let mut prod = 1u8;
    let mut j = 0usize;
    while j < n
        invariant
            n == xs@.len(),
            j <= n,
            prod == prod_except(xs@, i as int, z, j as int),
        decreases n - j,
    {
        if i != j {
            prod = mult(prod, z ^ xs[j]);
        }
        j += 1;
    }
    prod
}

/// Takes N sample points and returns the value at a given x using Lagrange
/// interpolation over GF(2^8).
pub fn interpolate_polynomial(x_samples: &[u8], y_samples: &[u8], x: u8) -> (r: Result<u8, FieldError>)
    ensures
        r == interpolate_result(x_samples@, y_samples@, x),
{
    let n = x_samples.len();

    if n == 0 || n != y_samples.len() {
        return Err(FieldError::InvalidInterpolationInput);
    }
    if n == 1 {
        proof {
            lemma_interpolate_single(x_samples@, y_samples@, x);
            assert(distinct(x_samples@));
        }
        return Ok(y_samples[0]);
    }

    // Defensive duplicate check.
    let mut i = 0usize;
    while i < n
        invariant
            n == x_samples@.len(),
            n == y_samples@.len(),
            n >= 2,
            i <= n,
            forall|a: int, b: int| 0 <= a < i && a < b < n ==> x_samples@[a] != x_samples@[b],
        decreases n - i,
    {
        let mut j = i + 1;
        while j < n
            invariant
                n == x_samples@.len(),
                n == y_samples@.len(),
                n >= 2,
                i < n,
                i + 1 <= j <= n,
                forall|a: int, b: int| 0 <= a < i && a < b < n ==> x_samples@[a] != x_samples@[b],
                forall|b: int| i < b < j ==> x_samples@[i as int] != x_samples@[b],
            decreases n - j,
        {
            if x_samples[i] == x_samples[j] {
                proof {
                    assert(x_samples@[i as int] == x_samples@[j as int]);
                    assert(!distinct(x_samples@));
                }
                return Err(FieldError::DuplicateSampleX);
            }
            j += 1;
        }
        i += 1;
    }
    proof {
        assert forall|a: int, b: int|
            0 <= a < n && 0 <= b < n && a != b implies x_samples@[a] != x_samples@[b] by {
            if a > b {
                assert(x_samples@[b] != x_samples@[a]);
            }
        }
    }

    // Precompute the inverse denominators.
    let mut delta_inv: Vec<u8> = vec![0u8; n];
    let mut i = 0usize;
    while i < n
        invariant
            n == x_samples@.len(),
            delta_inv@.len() == n,
            i <= n,
            forall|k: int|
                0 <= k < i ==> delta_inv@[k] == gf_inv(
                    prod_except(x_samples@, k, x_samples@[k], n as int),
                ),
        decreases n - i,
    {
        let prod = product_except(x_samples, i, x_samples[i]);
        delta_inv[i] = inverse(prod);
        i += 1;
    }

    let mut result = 0u8;
    let mut i = 0usize;
    while i < n
        invariant
            n == x_samples@.len(),
            n == y_samples@.len(),
            delta_inv@.len() == n,
            i <= n,
            forall|k: int|
                0 <= k < n ==> delta_inv@[k] == gf_inv(
                    prod_except(x_samples@, k, x_samples@[k], n as int),
                ),
            result == lagrange_sum(x_samples@, y_samples@, x, i as int),
        decreases n - i,
    {
        let num = product_except(x_samples, i, x);
        let basis = mult(num, delta_inv[i]);
        result ^= mult(y_samples[i], basis);
        i += 1;
    }

    Ok(result)
}

/// Precomputes the Lagrange basis evaluated at x = 0.
pub fn compute_lagrange_basis_at_zero(x_samples: &[u8]) -> (basis: Vec<u8>)
    ensures
        basis@.len() == x_samples@.len(),
        forall|i: int| 0 <= i < x_samples@.len() ==> basis@[i] == lagrange_basis(x_samples@, i, 0u8),
{
    let n = x_samples.len();
    let mut basis = vec![0u8; n];

    let mut i = 0usize;
    while i < n
        invariant
            n == x_samples@.len(),
            basis@.len() == n,
            i <= n,
            forall|k: int| 0 <= k < i ==> basis@[k] == lagrange_basis(x_samples@, k, 0u8),
        decreases n - i,
    {
        let xi = x_samples[i];
        let mut num = 1u8;
        let mut denom = 1u8;

        let mut j = 0usize;
        while j < n
            invariant
                n == x_samples@.len(),
                i < n,
                xi == x_samples@[i as int],
                j <= n,
                num == prod_except(x_samples@, i as int, 0u8, j as int),
                denom == prod_except(x_samples@, i as int, xi, j as int),
            decreases n - j,
        {
            if i == j {
                j += 1;
                continue;
            }
            let xj = x_samples[j];
            proof {
                lemma_add_laws(xj, 0u8, 0u8);
            }
            num = mult(num, xj);
            denom = mult(denom, xi ^ xj);
            j += 1;
        }

        basis[i] = mult(num, inverse(denom));
        i += 1;
    }
    basis
}

} // verus!
