//! Polynomials over GF(2^8) as coefficient sequences (lowest degree first),
//! Lagrange interpolation, and the theorem that interpolation through as
//! many distinct points as a polynomial has coefficients gives back that
//! polynomial everywhere.
use vstd::prelude::*;

use crate::field::{
    gf_inv,
    gf_mul,
    lemma_add_laws,
    lemma_inv,
    lemma_mul_assoc,
    lemma_mul_comm,
    lemma_mul_distrib,
    lemma_mul_distrib_left,
    lemma_mul_zero_one,
    lemma_no_zero_divisors,
};

verus! {

// ---------------------------------------------------------------------------
// Definitions
// ---------------------------------------------------------------------------

/// The value at `z` of the polynomial `c[0] + c[1] z + c[2] z^2 + ...`.
pub open spec fn poly_eval(c: Seq<u8>, z: u8) -> u8
    decreases c.len(),
{
    if c.len() == 0 {
        0u8
    } else {
        c[0] ^ gf_mul(z, poly_eval(c.drop_first(), z))
    }
}

/// No value occurs twice in `xs`.
pub open spec fn distinct(xs: Seq<u8>) -> bool {
    forall|i: int, j: int| 0 <= i < xs.len() && 0 <= j < xs.len() && i != j ==> xs[i] != xs[j]
}

/// The product of the factors `z - xs[j]` (in GF(2^8), `z + xs[j]`) for
/// `j < k`, `j != i`, taken from left to right.
pub open spec fn prod_except(xs: Seq<u8>, i: int, z: u8, k: int) -> u8
    decreases k,
{
    if k <= 0 {
        1u8
    } else if k - 1 == i {
        prod_except(xs, i, z, k - 1)
    } else {
        gf_mul(prod_except(xs, i, z, k - 1), z ^ xs[k - 1])
    }
}

/// The `i`-th Lagrange basis polynomial of the nodes `xs`, at `z`:
/// `prod_{j != i} (z - xs[j]) / prod_{j != i} (xs[i] - xs[j])`.
pub open spec fn lagrange_basis(xs: Seq<u8>, i: int, z: u8) -> u8 {
    gf_mul(prod_except(xs, i, z, xs.len() as int), gf_inv(prod_except(xs, i, xs[i], xs.len() as int)))
}

/// `sum_{i < k} ys[i] * basis_i(z)`, summed from left to right.
pub open spec fn lagrange_sum(xs: Seq<u8>, ys: Seq<u8>, z: u8, k: int) -> u8
    decreases k,
{
    if k <= 0 {
        0u8
    } else {
        lagrange_sum(xs, ys, z, k - 1) ^ gf_mul(ys[k - 1], lagrange_basis(xs, k - 1, z))
    }
}

/// The value at `z` of the Lagrange interpolant through the points `(xs[i], ys[i])`.
pub open spec fn lagrange_interpolate(xs: Seq<u8>, ys: Seq<u8>, z: u8) -> u8 {
    lagrange_sum(xs, ys, z, xs.len() as int)
}

/// The values of the polynomial `c` at the points `xs`.
pub open spec fn poly_eval_at(c: Seq<u8>, xs: Seq<u8>) -> Seq<u8> {
    Seq::new(xs.len(), |i: int| poly_eval(c, xs[i]))
}

// ---------------------------------------------------------------------------
// Polynomial arithmetic on coefficient sequences (proof devices)
// ---------------------------------------------------------------------------

/// Sum of two polynomials.
spec fn padd(a: Seq<u8>, b: Seq<u8>) -> Seq<u8>
    decreases a.len() + b.len(),
{
    if a.len() == 0 {
        b
    } else if b.len() == 0 {
        a
    } else {
        seq![a[0] ^ b[0]] + padd(a.drop_first(), b.drop_first())
    }
}

/// A polynomial multiplied by the constant `s`.
spec fn pscale(a: Seq<u8>, s: u8) -> Seq<u8> {
    Seq::new(a.len(), |i: int| gf_mul(s, a[i]))
}

/// A polynomial multiplied by `X + r`.
spec fn pmul_lin(a: Seq<u8>, r: u8) -> Seq<u8>
    decreases a.len(),
{
    if a.len() == 0 {
        Seq::<u8>::empty()
    } else {
        seq![gf_mul(a[0], r)] + padd(seq![a[0]], pmul_lin(a.drop_first(), r))
    }
}

/// The quotient of a polynomial by `X + r` (synthetic division).
spec fn pquot(c: Seq<u8>, r: u8) -> Seq<u8>
    decreases c.len(),
{
    if c.len() <= 1 {
        Seq::<u8>::empty()
    } else {
        seq![poly_eval(c.drop_first(), r)] + pquot(c.drop_first(), r)
    }
}

/// The coefficients of `prod_{j < k, j != i} (X + xs[j])`.
spec fn lpoly(xs: Seq<u8>, i: int, k: int) -> Seq<u8>
    decreases k,
{
    if k <= 0 {
        seq![1u8]
    } else if k - 1 == i {
        lpoly(xs, i, k - 1)
    } else {
        pmul_lin(lpoly(xs, i, k - 1), xs[k - 1])
    }
}

/// The weight of the `i`-th basis polynomial: `ys[i] / prod_{j != i} (xs[i] - xs[j])`.
spec fn lweight(xs: Seq<u8>, ys: Seq<u8>, i: int) -> u8 {
    gf_mul(ys[i], gf_inv(prod_except(xs, i, xs[i], xs.len() as int)))
}

/// The coefficients of the partial Lagrange interpolant `sum_{i < k} ys[i] * basis_i`.
spec fn ipoly(xs: Seq<u8>, ys: Seq<u8>, k: int) -> Seq<u8>
    decreases k,
{
    if k <= 0 {
        Seq::<u8>::empty()
    } else {
        padd(ipoly(xs, ys, k - 1), pscale(lpoly(xs, k - 1, xs.len() as int), lweight(xs, ys, k - 1)))
    }
}

// ---------------------------------------------------------------------------
// XOR rearrangements
// ---------------------------------------------------------------------------

proof fn lemma_xor_shuffle(a: u8, b: u8, c: u8, d: u8)
    by (bit_vector)
    ensures
        (a ^ b) ^ (c ^ d) == (a ^ c) ^ (b ^ d),
{
}

proof fn lemma_xor_rotate(a: u8, b: u8, c: u8)
    by (bit_vector)
    ensures
        a ^ (b ^ c) == (b ^ a) ^ c,
{
}

proof fn lemma_xor_div(c0: u8, p: u8, u: u8, v: u8)
    by (bit_vector)
    ensures
        c0 ^ (p ^ u) == ((u ^ v) ^ p) ^ (c0 ^ v),
{
}

// ---------------------------------------------------------------------------
// Evaluation lemmas
// ---------------------------------------------------------------------------

/// A constant polynomial evaluates to its constant.
pub proof fn lemma_eval_const(c0: u8, z: u8)
    ensures
        poly_eval(seq![c0], z) == c0,
        poly_eval(Seq::<u8>::empty(), z) == 0u8,
{
    let s = seq![c0];
    assert(s.drop_first() =~= Seq::<u8>::empty());
    assert(s.len() == 1 && s[0] == c0);
    assert(poly_eval(Seq::<u8>::empty(), z) == 0u8);
    lemma_mul_zero_one(z);
    assert(poly_eval(s, z) == c0 ^ gf_mul(z, poly_eval(s.drop_first(), z)));
    lemma_add_laws(c0, 0u8, 0u8);
}

/// At zero a polynomial evaluates to its constant coefficient.
pub proof fn lemma_eval_at_zero(c: Seq<u8>)
    requires
        c.len() > 0,
    ensures
        poly_eval(c, 0u8) == c[0],
{
    lemma_mul_zero_one(poly_eval(c.drop_first(), 0u8));
    lemma_add_laws(c[0], 0u8, 0u8);
}

/// Horner's rule: a suffix of the coefficients evaluates to its first
/// coefficient plus `z` times the value of the rest.
pub proof fn lemma_eval_suffix(c: Seq<u8>, k: int, z: u8)
    requires
        0 <= k < c.len(),
    ensures
        poly_eval(c.subrange(k, c.len() as int), z) == c[k] ^ gf_mul(
            z,
            poly_eval(c.subrange(k + 1, c.len() as int), z),
        ),
{
    assert(c.subrange(k, c.len() as int).drop_first() =~= c.subrange(k + 1, c.len() as int));
}

proof fn lemma_padd(a: Seq<u8>, b: Seq<u8>, z: u8)
    ensures
        poly_eval(padd(a, b), z) == poly_eval(a, z) ^ poly_eval(b, z),
        padd(a, b).len() == if a.len() >= b.len() {
            a.len()
        } else {
            b.len()
        },
    decreases a.len() + b.len(),
{
    if a.len() == 0 {
        lemma_eval_const(0u8, z);
        lemma_add_laws(poly_eval(b, z), 0u8, 0u8);
    } else if b.len() == 0 {
        lemma_eval_const(0u8, z);
        lemma_add_laws(poly_eval(a, z), 0u8, 0u8);
    } else {
        let a1 = a.drop_first();
        let b1 = b.drop_first();
        lemma_padd(a1, b1, z);
        let p = padd(a, b);
        assert(p.drop_first() =~= padd(a1, b1));
        lemma_mul_distrib(z, poly_eval(a1, z), poly_eval(b1, z));
        lemma_xor_shuffle(a[0], b[0], gf_mul(z, poly_eval(a1, z)), gf_mul(z, poly_eval(b1, z)));
    }
}

proof fn lemma_pscale(a: Seq<u8>, s: u8, z: u8)
    ensures
        poly_eval(pscale(a, s), z) == gf_mul(s, poly_eval(a, z)),
        pscale(a, s).len() == a.len(),
    decreases a.len(),
{
    if a.len() == 0 {
        lemma_mul_zero_one(s);
    } else {
        let a1 = a.drop_first();
        lemma_pscale(a1, s, z);
        assert(pscale(a, s).drop_first() =~= pscale(a1, s));
        let e = poly_eval(a1, z);
        // z (s e) = s (z e)
        lemma_mul_assoc(z, s, e);
        lemma_mul_comm(z, s);
        lemma_mul_assoc(s, z, e);
        lemma_mul_distrib(s, a[0], gf_mul(z, e));
    }
}

proof fn lemma_pmul_lin(a: Seq<u8>, r: u8, z: u8)
    ensures
        poly_eval(pmul_lin(a, r), z) == gf_mul(z ^ r, poly_eval(a, z)),
        a.len() > 0 ==> pmul_lin(a, r).len() == a.len() + 1,
        a.len() == 0 ==> pmul_lin(a, r).len() == 0,
    decreases a.len(),
{
    if a.len() == 0 {
        lemma_eval_const(0u8, z);
        lemma_mul_zero_one(z ^ r);
    } else {
        let a0 = a[0];
        let a1 = a.drop_first();
        let p1 = pmul_lin(a1, r);
        lemma_pmul_lin(a1, r, z);
        let e1 = poly_eval(a1, z);
        let s = padd(seq![a0], p1);
        lemma_padd(seq![a0], p1, z);
        lemma_eval_const(a0, z);
        let whole = pmul_lin(a, r);
        assert(whole.drop_first() =~= s);
        // eval(whole) = a0 r ^ z (a0 ^ (z^r) e1) = a0 r ^ (z a0 ^ z ((z^r) e1))
        lemma_mul_distrib(z, a0, gf_mul(z ^ r, e1));
        // (z^r)(a0 ^ z e1) = (z a0 ^ r a0) ^ (z^r)(z e1)
        lemma_mul_distrib(z ^ r, a0, gf_mul(z, e1));
        lemma_mul_distrib_left(z, r, a0);
        lemma_mul_comm(a0, r);
        // z ((z^r) e1) = (z^r) (z e1)
        lemma_mul_assoc(z, z ^ r, e1);
        lemma_mul_comm(z, z ^ r);
        lemma_mul_assoc(z ^ r, z, e1);
        lemma_xor_rotate(gf_mul(r, a0), gf_mul(z, a0), gf_mul(gf_mul(z ^ r, z), e1));
        lemma_add_laws(gf_mul(z, a0), gf_mul(r, a0), 0u8);
    }
}

/// Synthetic division: `c(z) = (z - r) q(z) + c(r)`.
proof fn lemma_pquot(c: Seq<u8>, r: u8, z: u8)
    ensures
        poly_eval(c, z) == gf_mul(z ^ r, poly_eval(pquot(c, r), z)) ^ poly_eval(c, r),
        c.len() > 0 ==> pquot(c, r).len() == c.len() - 1,
        c.len() == 0 ==> pquot(c, r).len() == 0,
    decreases c.len(),
{
    if c.len() == 0 {
        lemma_eval_const(0u8, z);
        lemma_eval_const(0u8, r);
        lemma_mul_zero_one(z ^ r);
        lemma_add_laws(0u8, 0u8, 0u8);
    } else if c.len() == 1 {
        assert(c =~= seq![c[0]]);
        lemma_eval_const(c[0], z);
        lemma_eval_const(c[0], r);
        lemma_mul_zero_one(z ^ r);
        lemma_add_laws(c[0], 0u8, 0u8);
    } else {
        let c0 = c[0];
        let t = c.drop_first();
        let qt = pquot(t, r);
        lemma_pquot(t, r, z);
        let e = poly_eval(t, r);
        let eq = poly_eval(qt, z);
        let q = pquot(c, r);
        assert(q.drop_first() =~= qt);
        // eval(q, z) = e ^ z eq
        // LHS = c0 ^ z ((z^r) eq ^ e) = c0 ^ (z ((z^r) eq) ^ z e)
        lemma_mul_distrib(z, gf_mul(z ^ r, eq), e);
        // RHS = (z^r)(e ^ z eq) ^ (c0 ^ r e) = ((z e ^ r e) ^ (z^r)(z eq)) ^ (c0 ^ r e)
        lemma_mul_distrib(z ^ r, e, gf_mul(z, eq));
        lemma_mul_distrib_left(z, r, e);
        lemma_mul_comm(e, z);
        lemma_mul_comm(e, r);
        lemma_mul_assoc(z, z ^ r, eq);
        lemma_mul_comm(z, z ^ r);
        lemma_mul_assoc(z ^ r, z, eq);
        lemma_xor_div(c0, gf_mul(gf_mul(z ^ r, z), eq), gf_mul(z, e), gf_mul(r, e));
    }
}

/// A polynomial with at most `n` coefficients that vanishes at `n` distinct
/// points vanishes everywhere.
proof fn lemma_vanishing(q: Seq<u8>, pts: Seq<u8>, z: u8)
    requires
        distinct(pts),
        q.len() <= pts.len(),
        forall|i: int| 0 <= i < pts.len() ==> poly_eval(q, #[trigger] pts[i]) == 0u8,
    ensures
        poly_eval(q, z) == 0u8,
    decreases pts.len(),
{
    if pts.len() == 0 {
        lemma_eval_const(0u8, z);
        assert(q =~= Seq::<u8>::empty());
    } else {
        let n = pts.len() as int;
        let r = pts[n - 1];
        let rest = pts.drop_last();
        let q2 = pquot(q, r);
        lemma_pquot(q, r, z);
        assert(poly_eval(q, pts[n - 1]) == 0u8);
        assert forall|i: int| 0 <= i < rest.len() implies poly_eval(q2, #[trigger] rest[i]) == 0u8 by {
            assert(rest[i] == pts[i]);
            assert(poly_eval(q, pts[i]) == 0u8);
            lemma_pquot(q, r, rest[i]);
            lemma_add_laws(gf_mul(rest[i] ^ r, poly_eval(q2, rest[i])), 0u8, 0u8);
            lemma_no_zero_divisors(rest[i] ^ r, poly_eval(q2, rest[i]));
            lemma_add_laws(rest[i], r, 0u8);
        }
        lemma_vanishing(q2, rest, z);
        lemma_mul_zero_one(z ^ r);
        lemma_add_laws(0u8, 0u8, 0u8);
    }
}

// ---------------------------------------------------------------------------
// Lagrange interpolation
// ---------------------------------------------------------------------------

proof fn lemma_lpoly(xs: Seq<u8>, i: int, k: int, z: u8)
    requires
        0 <= k <= xs.len(),
    ensures
        poly_eval(lpoly(xs, i, k), z) == prod_except(xs, i, z, k),
        lpoly(xs, i, k).len() == k + 1 - (if 0 <= i < k {
            1int
        } else {
            0int
        }),
    decreases k,
{
    if k <= 0 {
        lemma_eval_const(1u8, z);
    } else if k - 1 == i {
        lemma_lpoly(xs, i, k - 1, z);
    } else {
        lemma_lpoly(xs, i, k - 1, z);
        lemma_pmul_lin(lpoly(xs, i, k - 1), xs[k - 1], z);
        lemma_mul_comm(z ^ xs[k - 1], prod_except(xs, i, z, k - 1));
    }
}

proof fn lemma_ipoly(xs: Seq<u8>, ys: Seq<u8>, k: int, z: u8)
    requires
        0 <= k <= xs.len(),
        ys.len() == xs.len(),
    ensures
        poly_eval(ipoly(xs, ys, k), z) == lagrange_sum(xs, ys, z, k),
        ipoly(xs, ys, k).len() <= xs.len(),
    decreases k,
{
    if k <= 0 {
        lemma_eval_const(0u8, z);
    } else {
        let n = xs.len() as int;
        let i = k - 1;
        lemma_ipoly(xs, ys, k - 1, z);
        let l = lpoly(xs, i, n);
        let w = lweight(xs, ys, i);
        lemma_lpoly(xs, i, n, z);
        lemma_pscale(l, w, z);
        lemma_padd(ipoly(xs, ys, k - 1), pscale(l, w), z);
        // w * P = (y * I) * P = y * (I * P) = y * (P * I)
        let p = prod_except(xs, i, z, n);
        let inv = gf_inv(prod_except(xs, i, xs[i], n));
        lemma_mul_assoc(ys[i], inv, p);
        lemma_mul_comm(inv, p);
    }
}

/// `prod_except` has a zero factor when `z` is one of the other nodes.
proof fn lemma_prod_except_zero(xs: Seq<u8>, i: int, m: int, k: int)
    requires
        0 <= m < k <= xs.len(),
        m != i,
    ensures
        prod_except(xs, i, xs[m], k) == 0u8,
    decreases k,
{
    if k - 1 == m {
        lemma_add_laws(xs[m], xs[m], 0u8);
        lemma_mul_zero_one(prod_except(xs, i, xs[m], k - 1));
    } else {
        lemma_prod_except_zero(xs, i, m, k - 1);
        if k - 1 != i {
            lemma_mul_zero_one(xs[m] ^ xs[k - 1]);
        }
    }
}

/// With distinct nodes, the denominators of the basis polynomials are nonzero.
proof fn lemma_prod_except_nonzero(xs: Seq<u8>, i: int, k: int)
    requires
        distinct(xs),
        0 <= i < xs.len(),
        0 <= k <= xs.len(),
    ensures
        prod_except(xs, i, xs[i], k) != 0u8,
    decreases k,
{
    if k <= 0 {
    } else if k - 1 == i {
        lemma_prod_except_nonzero(xs, i, k - 1);
    } else {
        lemma_prod_except_nonzero(xs, i, k - 1);
        lemma_add_laws(xs[i], xs[k - 1], 0u8);
        lemma_no_zero_divisors(prod_except(xs, i, xs[i], k - 1), xs[i] ^ xs[k - 1]);
    }
}

/// The basis polynomials are one at their own node and zero at the others.
proof fn lemma_basis_at_node(xs: Seq<u8>, i: int, m: int)
    requires
        distinct(xs),
        0 <= i < xs.len(),
        0 <= m < xs.len(),
    ensures
        lagrange_basis(xs, i, xs[m]) == (if i == m {
            1u8
        } else {
            0u8
        }),
{
    let n = xs.len() as int;
    if i == m {
        lemma_prod_except_nonzero(xs, i, n);
        lemma_inv(prod_except(xs, i, xs[i], n));
    } else {
        lemma_prod_except_zero(xs, i, m, n);
        lemma_mul_zero_one(gf_inv(prod_except(xs, i, xs[i], n)));
    }
}

/// At a node, the partial Lagrange sum picks out the value at that node.
proof fn lemma_sum_at_node(xs: Seq<u8>, ys: Seq<u8>, m: int, k: int)
    requires
        distinct(xs),
        ys.len() == xs.len(),
        0 <= m < xs.len(),
        0 <= k <= xs.len(),
    ensures
        lagrange_sum(xs, ys, xs[m], k) == (if m < k {
            ys[m]
        } else {
            0u8
        }),
    decreases k,
{
    if k > 0 {
        lemma_sum_at_node(xs, ys, m, k - 1);
        lemma_basis_at_node(xs, k - 1, m);
        lemma_mul_zero_one(ys[k - 1]);
        let prev = lagrange_sum(xs, ys, xs[m], k - 1);
        lemma_add_laws(prev, 0u8, 0u8);
        lemma_add_laws(ys[k - 1], 0u8, 0u8);
    }
}

/// Lagrange interpolation through `n` distinct points of a polynomial with
/// at most `n` coefficients gives back the polynomial's value everywhere.
pub proof fn lemma_interpolation(c: Seq<u8>, xs: Seq<u8>, ys: Seq<u8>, z: u8)
    requires
        distinct(xs),
        c.len() <= xs.len(),
        ys.len() == xs.len(),
        forall|i: int| 0 <= i < xs.len() ==> ys[i] == poly_eval(c, #[trigger] xs[i]),
    ensures
        lagrange_interpolate(xs, ys, z) == poly_eval(c, z),
{
    let n = xs.len() as int;
    let ip = ipoly(xs, ys, n);
    let q = padd(c, ip);
    lemma_ipoly(xs, ys, n, z);
    lemma_padd(c, ip, z);
    assert forall|m: int| 0 <= m < n implies poly_eval(q, #[trigger] xs[m]) == 0u8 by {
        lemma_ipoly(xs, ys, n, xs[m]);
        lemma_padd(c, ip, xs[m]);
        lemma_sum_at_node(xs, ys, m, n);
        lemma_add_laws(ys[m], ys[m], 0u8);
    }
    lemma_vanishing(q, xs, z);
    lemma_add_laws(poly_eval(c, z), lagrange_sum(xs, ys, z, n), 0u8);
}

/// The zero polynomial with `t` coefficients.
spec fn pzeros(t: nat) -> Seq<u8> {
    Seq::new(t, |i: int| 0u8)
}

proof fn lemma_eval_zeros(t: nat, z: u8)
    ensures
        poly_eval(pzeros(t), z) == 0u8,
    decreases t,
{
    if t > 0 {
        assert(pzeros(t).drop_first() =~= pzeros((t - 1) as nat));
        lemma_eval_zeros((t - 1) as nat, z);
        lemma_mul_zero_one(z);
        lemma_add_laws(0u8, 0u8, 0u8);
    }
}

/// Through at most `t` points with distinct nodes passes a polynomial with
/// exactly `t` coefficients.
pub proof fn lemma_interpolant_exists(xs: Seq<u8>, ys: Seq<u8>, t: nat)
    requires
        distinct(xs),
        ys.len() == xs.len(),
        xs.len() <= t,
    ensures
        exists|c: Seq<u8>|
            c.len() == t && forall|i: int|
                0 <= i < xs.len() ==> poly_eval(c, #[trigger] xs[i]) == ys[i],
{
    let n = xs.len() as int;
    let ip = ipoly(xs, ys, n);
    let c = padd(ip, pzeros(t));
    lemma_ipoly(xs, ys, n, 0u8);
    lemma_padd(ip, pzeros(t), 0u8);
    assert forall|i: int| 0 <= i < xs.len() implies poly_eval(c, #[trigger] xs[i]) == ys[i] by {
        lemma_ipoly(xs, ys, n, xs[i]);
        lemma_padd(ip, pzeros(t), xs[i]);
        lemma_eval_zeros(t, xs[i]);
        lemma_sum_at_node(xs, ys, i, n);
        lemma_add_laws(ys[i], 0u8, 0u8);
    }
    assert(c.len() == t);
}

/// `perm` is a permutation of `0 .. n`.
pub open spec fn is_permutation(perm: Seq<int>, n: int) -> bool {
    &&& perm.len() == n
    &&& forall|i: int| 0 <= i < n ==> 0 <= #[trigger] perm[i] < n
    &&& forall|i: int, j: int| 0 <= i < n && 0 <= j < n && i != j ==> perm[i] != perm[j]
    &&& forall|j: int| 0 <= j < n ==> #[trigger] perm.contains(j)
}

/// The elements of `s` in the order given by `perm`.
pub open spec fn permute<A>(s: Seq<A>, perm: Seq<int>) -> Seq<A> {
    Seq::new(perm.len(), |i: int| s[perm[i]])
}

/// Lagrange interpolation through distinct nodes does not depend on the
/// order in which the points are listed.
pub proof fn lemma_interpolate_permutation(xs: Seq<u8>, ys: Seq<u8>, perm: Seq<int>, z: u8)
    requires
        distinct(xs),
        ys.len() == xs.len(),
        is_permutation(perm, xs.len() as int),
    ensures
        lagrange_interpolate(permute(xs, perm), permute(ys, perm), z) == lagrange_interpolate(xs, ys, z),
{
    let n = xs.len() as int;
    let ip = ipoly(xs, ys, n);
    let xs2 = permute(xs, perm);
    let ys2 = permute(ys, perm);
    lemma_ipoly(xs, ys, n, z);
    assert(distinct(xs2)) by {
        assert forall|i: int, j: int|
            0 <= i < xs2.len() && 0 <= j < xs2.len() && i != j implies xs2[i] != xs2[j] by {
            assert(perm[i] != perm[j]);
        }
    }
    assert forall|i: int| 0 <= i < xs2.len() implies ys2[i] == poly_eval(ip, #[trigger] xs2[i]) by {
        lemma_ipoly(xs, ys, n, xs[perm[i]]);
        lemma_sum_at_node(xs, ys, perm[i], n);
    }
    lemma_interpolation(ip, xs2, ys2, z);
}

/// The coefficientwise sum (XOR) of two sequences of one length.
pub open spec fn poly_xor(a: Seq<u8>, b: Seq<u8>) -> Seq<u8> {
    Seq::new(a.len(), |i: int| a[i] ^ b[i])
}

/// Evaluation is additive: `(a + b)(z) = a(z) + b(z)`.
pub proof fn lemma_eval_xor(a: Seq<u8>, b: Seq<u8>, z: u8)
    requires
        a.len() == b.len(),
    ensures
        poly_eval(poly_xor(a, b), z) == poly_eval(a, z) ^ poly_eval(b, z),
    decreases a.len(),
{
    if a.len() == 0 {
        lemma_add_laws(0u8, 0u8, 0u8);
    } else {
        let a1 = a.drop_first();
        let b1 = b.drop_first();
        lemma_eval_xor(a1, b1, z);
        assert(poly_xor(a, b).drop_first() =~= poly_xor(a1, b1));
        lemma_mul_distrib(z, poly_eval(a1, z), poly_eval(b1, z));
        lemma_xor_shuffle(a[0], b[0], gf_mul(z, poly_eval(a1, z)), gf_mul(z, poly_eval(b1, z)));
    }
}

} // verus!
