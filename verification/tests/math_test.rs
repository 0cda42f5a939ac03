use shamir_zero::math::{
    add, compute_lagrange_basis_at_zero, div, generate_inverse_table, interpolate_polynomial,
    inverse, inverse_11x, mult, FieldError, Polynomial, INV_TABLE,
};
use rand::rngs::SysError;

#[test]
fn test_field_add() {
    assert_eq!(add(16, 16), 0);
    assert_eq!(add(3, 4), 7);
}

#[test]
fn test_field_mult() {
    assert_eq!(mult(3, 7), 9);
    assert_eq!(mult(3, 0), 0);
    assert_eq!(mult(0, 3), 0);
}

#[test]
fn test_field_divide() {
    assert_eq!(div(0, 7), Some(0));
    assert_eq!(div(3, 3), Some(1));
    assert_eq!(div(6, 3), Some(2));
    assert_eq!(div(12, 0), None);
}

#[test]
fn test_polynomial_random() {
    let p = Polynomial::new(42, 2).unwrap();
    assert_eq!(p.coefficients()[0], 42);
}

#[test]
fn test_polynomial_eval() {
    let p = Polynomial::new(42, 1).unwrap();
    assert_eq!(p.evaluate(0), 42);
    let exp = add(42, mult(1, p.coefficients()[1]));
    assert_eq!(p.evaluate(1), exp);
}

#[test]
fn test_interpolate() {
    let out = interpolate_polynomial(&[0, 1, 2], &[1], 0);
    assert!(out.is_err());

    let out = interpolate_polynomial(&[], &[], 3);
    assert!(out.is_err());

    let out = interpolate_polynomial(&[8], &[11], 3);
    assert_eq!(out, Ok(11));

    let out = interpolate_polynomial(&[], &[], 0);
    assert_eq!(out, Err(FieldError::InvalidInterpolationInput));

    let out = interpolate_polynomial(&[1, 2], &[10], 0);
    assert_eq!(out, Err(FieldError::InvalidInterpolationInput));

    let out = interpolate_polynomial(&[5, 5], &[10, 20], 0);
    assert_eq!(out, Err(FieldError::DuplicateSampleX));
}

#[test]
fn test_interpolate_rand() {
    for i in 0..=255u8 {
        let p = Polynomial::new(i, 2).unwrap();
        let x_vals = [1u8, 2, 3];
        let y_vals = [p.evaluate(1), p.evaluate(2), p.evaluate(3)];
        let out = interpolate_polynomial(&x_vals, &y_vals, 0).unwrap();
        assert_eq!(out, i, "Failed for intercept {}", i);
    }
}

#[test]
fn test_inverse_11x() {
    // 1. Zero and identity edge cases
    assert_eq!(inverse_11x(0), 0, "inverse(0) must be 0");
    assert_eq!(inverse_11x(1), 1, "inverse(1) must be 1");

    // 2. Exhaustive correctness test over the entire field (256 values)
    for a in 0u8..=255 {
        let inv = inverse_11x(a);

        if a != 0 {
            let product = mult(a, inv);
            assert_eq!(
                product, 1,
                "Round-trip failure for a = 0x{:02x}: a * inv(a) = 0x{:02x} (expected 1)",
                a, product
            );
        }

        let inv_inv = inverse_11x(inv);
        assert_eq!(
            inv_inv, a,
            "Involution failure for a = 0x{:02x}: inv(inv(a)) = 0x{:02x} (expected 0x{:02x})",
            a, inv_inv, a
        );
    }

    // 3. Must be identical to the fast lookup table (single source of truth)
    for a in 0u8..=255 {
        assert_eq!(
            inverse_11x(a),
            INV_TABLE[a as usize],
            "inverse_11x(0x{:02x}) does not match INV_TABLE entry",
            a
        );
    }

    // 4. Well-known values
    let known_cases = [
        (0x00, 0x00),
        (0x01, 0x01),
        (0x02, 0x8d),
        (0x03, 0xf6),
        (0x53, 0xca),
        (0xff, 0x1c),
    ];

    for (a, expected) in known_cases {
        let actual = inverse_11x(a);
        assert_eq!(
            actual, expected,
            "Known value failed: inverse(0x{:02x}) = 0x{:02x} (expected 0x{:02x})",
            a, actual, expected
        );
    }
}

#[test]
fn generates_inverse_lut() {
    let gen_lut = generate_inverse_table();
    let inverse_table: [u8; 256] = [
        0, 1, 141, 246, 203, 82, 123, 209, 232, 79, 41, 192, 176, 225, 229, 199, 116, 180, 170,
        75, 153, 43, 96, 95, 88, 63, 253, 204, 255, 64, 238, 178, 58, 110, 90, 241, 85, 77,
        168, 201, 193, 10, 152, 21, 48, 68, 162, 194, 44, 69, 146, 108, 243, 57, 102, 66, 242,
        53, 32, 111, 119, 187, 89, 25, 29, 254, 55, 103, 45, 49, 245, 105, 167, 100, 171, 19,
        84, 37, 233, 9, 237, 92, 5, 202, 76, 36, 135, 191, 24, 62, 34, 240, 81, 236, 97, 23,
        22, 94, 175, 211, 73, 166, 54, 67, 244, 71, 145, 223, 51, 147, 33, 59, 121, 183, 151,
        133, 16, 181, 186, 60, 182, 112, 208, 6, 161, 250, 129, 130, 131, 126, 127, 128, 150,
        115, 190, 86, 155, 158, 149, 217, 247, 2, 185, 164, 222, 106, 50, 109, 216, 138, 132,
        114, 42, 20, 159, 136, 249, 220, 137, 154, 251, 124, 46, 195, 143, 184, 101, 72, 38,
        200, 18, 74, 206, 231, 210, 98, 12, 224, 31, 239, 17, 117, 120, 113, 165, 142, 118, 61,
        189, 188, 134, 87, 11, 40, 47, 163, 218, 212, 228, 15, 169, 39, 83, 4, 27, 252, 172,
        230, 122, 7, 174, 99, 197, 219, 226, 234, 148, 139, 196, 213, 157, 248, 144, 107, 177,
        13, 214, 235, 198, 14, 207, 173, 8, 78, 215, 227, 93, 80, 30, 179, 91, 35, 56, 52, 104,
        70, 3, 140, 221, 156, 125, 160, 205, 26, 65, 28,
    ];

    assert_eq!(INV_TABLE, inverse_table);
    assert_eq!(gen_lut, inverse_table);
}

#[test]
fn field_multiplication_laws_on_samples() {
    let samples = [0u8, 1, 2, 3, 7, 0x53, 0x80, 0xca, 0xff];
    for &a in &samples {
        assert_eq!(mult(a, 1), a);
        assert_eq!(mult(1, a), a);
        assert_eq!(mult(a, 0), 0);
        for &b in &samples {
            assert_eq!(mult(a, b), mult(b, a));
            for &c in &samples {
                assert_eq!(mult(mult(a, b), c), mult(a, mult(b, c)));
                assert_eq!(mult(a, add(b, c)), add(mult(a, b), mult(a, c)));
            }
        }
    }
}

#[test]
fn field_known_products() {
    // x * x^7 = x^8 = x^4 + x^3 + x + 1
    assert_eq!(mult(0x02, 0x80), 0x1b);
    // The AES example: {57} x {83} = {c1}
    assert_eq!(mult(0x57, 0x83), 0xc1);
    assert_eq!(mult(0x57, 0x13), 0xfe);
}

#[test]
fn inverse_matches_reference_chain() {
    for a in 0u8..=255 {
        assert_eq!(inverse(a), inverse_11x(a));
    }
    assert_eq!(inverse(0x53), 0xca);
}

#[test]
fn division_undoes_multiplication() {
    for a in [0u8, 1, 9, 0x57, 0xff] {
        for b in 1u8..=255 {
            let q = div(a, b).unwrap();
            assert_eq!(mult(q, b), a);
            assert_eq!(div(mult(a, b), b), Some(a));
        }
    }
}

#[test]
fn polynomial_from_coefficients_evaluates_by_horner() {
    // 5 + 3x + x^2 at x = 2: 5 ^ mult(2, 3 ^ mult(2, 1)) = 5 ^ mult(2, 1) = 7
    let p = Polynomial::with_coefficients(5, vec![3, 1]);
    assert_eq!(p.coefficients(), &[5u8, 3, 1][..]);
    assert_eq!(p.evaluate(0), 5);
    assert_eq!(p.evaluate(1), 5 ^ 3 ^ 1);
    assert_eq!(p.evaluate(2), 7);
    let constant = Polynomial::with_coefficients(9, vec![]);
    assert_eq!(constant.evaluate(0), 9);
    assert_eq!(constant.evaluate(200), 9);
}

#[test]
fn polynomial_new_has_requested_degree() {
    let p = Polynomial::new(7, 5).unwrap();
    assert_eq!(p.coefficients().len(), 6);
    assert_eq!(p.coefficients()[0], 7);
    let p = Polynomial::new(7, 255).unwrap();
    assert_eq!(p.coefficients().len(), 256);
    let p = Polynomial::new(1, 0).unwrap();
    assert_eq!(p.coefficients(), &[1u8][..]);
}

#[test]
fn interpolation_gives_back_a_polynomial() {
    let p = Polynomial::with_coefficients(0x42, vec![0x17, 0xa0, 0x03]);
    let xs = [9u8, 200, 33, 4];
    let ys: Vec<u8> = xs.iter().map(|&x| p.evaluate(x)).collect();
    for z in 0u8..=255 {
        assert_eq!(interpolate_polynomial(&xs, &ys, z), Ok(p.evaluate(z)));
    }
}

#[test]
fn lagrange_basis_at_zero_values() {
    // nodes 1, 2: basis_0(0) = 2 / (1 ^ 2) = 2 / 3, basis_1(0) = 1 / 3
    let basis = compute_lagrange_basis_at_zero(&[1, 2]);
    assert_eq!(basis, vec![div(2, 3).unwrap(), div(1, 3).unwrap()]);
    assert_eq!(add(basis[0], basis[1]), 1);
    assert_eq!(compute_lagrange_basis_at_zero(&[7]), vec![1]);
    assert_eq!(compute_lagrange_basis_at_zero(&[]), Vec::<u8>::new());
}

#[test]
fn inverse_is_the_254th_power() {
    for a in 0u8..=255 {
        let mut p = 1u8;
        for _ in 0..254 {
            p = mult(a, p);
        }
        assert_eq!(inverse_11x(a), p);
        assert_eq!(inverse(a), p);
    }
}

#[test]
fn polynomial_of_degree_zero_is_its_intercept() {
    let p = Polynomial::new(5, 0).unwrap();
    assert_eq!(p.coefficients(), &[5u8][..]);
    assert_eq!(p.evaluate(77), 5);
}

#[test]
fn polynomial_from_draw() {
    let p = Polynomial::from_draw(4, Ok(()), vec![8, 9]).unwrap();
    assert_eq!(p.coefficients(), &[4u8, 8, 9][..]);
    assert_eq!(
        Polynomial::from_draw(4, Err(SysError::UNSUPPORTED), vec![8, 9]).err(),
        Some(FieldError::RngFailure)
    );
}

#[test]
fn inverse_uses_the_table() {
    for a in 0u8..=255 {
        assert_eq!(inverse(a), INV_TABLE[a as usize]);
    }
}
