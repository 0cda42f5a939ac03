# shamir_zero

Shamir's secret sharing over GF(2^8) (the AES field), written in Verus.
A secret is split into `parts` shares such that any `threshold` of them
reconstruct it, while fewer reveal nothing about it.

Layout:

- `src/field.rs`: the model of GF(2^8) (`gf_mul`, `gf_inv`) and its laws:
  commutativity, associativity, distributivity, inverses (which are 254th
  powers), no zero divisors, and that `gf_mul` is the carry-less product
  reduced modulo 0x11B.
- `src/poly.rs`: polynomials as coefficient sequences, Lagrange
  interpolation, and the theorem that interpolating `n` distinct samples of a
  polynomial with at most `n` coefficients gives the polynomial back.
- `src/math.rs`: executable field arithmetic, random polynomials,
  interpolation and the Lagrange basis at zero.
- `src/shamir.rs`: `shamir_split`, `shamir_combine`, the `ShamirZero` front
  end, and the laws: any `threshold` distinct shares recover the secret in
  any order, more than 255 shares are refused, and fewer than `threshold`
  shares fit every other secret equally well.
- `src/table.rs`: the 256-byte inverse table `INV_TABLE`, each entry proved
  to be the inverse of its index; `inverse` looks values up in it.
- `src/rng.rs`: the system random number generator, the only trusted code.
- `app/lib.rs`: random polynomials from a caller-supplied `rand` generator.
