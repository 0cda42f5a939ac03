use rand::rngs::SysRng;
use rand::TryRng;
use shamir_zero::math::mult;
use shamir_zero::shamir::{split_with_coefficients, split_with_draw};
use rand::rngs::SysError;
use shamir_zero::{shamir_combine, shamir_split, ShamirError, ShamirZero};

/// Helper method to generate random sized bytes
fn generate_random_bytes_sized<const N: usize>() -> [u8; N] {
    let mut data = [0u8; N];
    SysRng.try_fill_bytes(&mut data).unwrap();
    data
}

/// Allocates `parts` buffers one byte longer than the secret and splits into them.
fn split_into_buffers(
    secret: &[u8],
    parts: usize,
    threshold: usize,
) -> Result<Vec<Vec<u8>>, ShamirError> {
    let mut shares = vec![vec![0u8; secret.len() + 1]; parts];
    let mut shares_out: Vec<&mut [u8]> = shares.iter_mut().map(|v| v.as_mut_slice()).collect();
    shamir_split(secret, parts, threshold, &mut shares_out)?;
    Ok(shares)
}

#[test]
fn test_split_invalid() {
    let secret = b"test";

    assert_eq!(
        split_into_buffers(secret, 0, 0),
        Err(ShamirError::ThresholdLessThanMinimumLength)
    );
    assert_eq!(
        split_into_buffers(secret, 2, 3),
        Err(ShamirError::PartsLessThanThresholdLength)
    );
    assert_eq!(
        split_into_buffers(secret, 1000, 3),
        Err(ShamirError::PartsExceedMaximumLength)
    );
    assert_eq!(
        split_into_buffers(secret, 10, 1),
        Err(ShamirError::ThresholdLessThanMinimumLength)
    );
    assert_eq!(split_into_buffers(&[], 3, 2), Err(ShamirError::EmptySecret));
}

#[test]
fn test_split() {
    let secret = b"test";
    let out = split_into_buffers(secret, 5, 3).unwrap();

    assert_eq!(out.len(), 5);
    for share in &out {
        assert_eq!(share.len(), secret.len() + 1);
    }

    // Threshold max length
    let out = split_into_buffers(secret, 5, 256);
    assert_eq!(out, Err(ShamirError::ThresholdExceedsMaximumLength));
}

#[test]
fn test_combine_invalid() {
    let mut dummy = [0u8; 0];
    assert_eq!(
        shamir_combine(&[], &mut dummy),
        Err(ShamirError::RequiredMinimumParts)
    );

    // Length mismatch
    let parts = vec![b"foo".to_vec(), b"ba".to_vec()];
    let slices: Vec<&[u8]> = parts.iter().map(|p| p.as_slice()).collect();
    let mut out = vec![0u8; 2]; // first part len=3 → secret_len=2
    assert_eq!(
        shamir_combine(&slices, &mut out),
        Err(ShamirError::PartsLengthMismatch)
    );
}

#[test]
fn test_combine_invalid_output_length() {
    let secret = b"test";
    let shares = split_into_buffers(secret, 3, 2).unwrap();
    let slices: Vec<&[u8]> = shares.iter().map(|s| s.as_slice()).collect();

    let mut wrong_size = vec![0u8; 10];
    assert_eq!(
        shamir_combine(&slices[0..2], &mut wrong_size),
        Err(ShamirError::InvalidOutputLength)
    );
}

#[test]
fn test_combine_invalid_bytes() {
    // Too short (< 2 bytes)
    let parts = vec![b"f".to_vec(), b"b".to_vec()];
    let slices: Vec<&[u8]> = parts.iter().map(|p| p.as_slice()).collect();
    let mut dummy = [0u8; 0];
    assert_eq!(
        shamir_combine(&slices, &mut dummy),
        Err(ShamirError::MinimumPartByteLength)
    );

    // Duplicate x value
    let parts = vec![b"foo".to_vec(), b"foo".to_vec()];
    let slices: Vec<&[u8]> = parts.iter().map(|p| p.as_slice()).collect();
    let mut out = vec![0u8; 2]; // foo.len() = 3 → secret_len = 2
    assert_eq!(
        shamir_combine(&slices, &mut out),
        Err(ShamirError::DuplicatePartDetected)
    );
}

#[test]
fn test_combine_invalid_share() {
    // Invalid Share x value
    let secret = b"test";
    let mut parts = split_into_buffers(secret, 5, 3).unwrap();
    let x_index = secret.len();
    parts[2][x_index] = 0;

    let slices: Vec<&[u8]> = parts[0..3].iter().map(|s| s.as_slice()).collect();
    let mut out = vec![0u8; secret.len()];

    assert_eq!(
        shamir_combine(&slices, &mut out),
        Err(ShamirError::InvalidShareXValue)
    );
}

#[test]
fn test_combine() {
    let secret = b"test";
    let shares = split_into_buffers(secret, 5, 3).unwrap();

    // Brute-force all combinations of 3 shares
    for i in 0..5 {
        for j in 0..5 {
            if j == i {
                continue;
            }
            for k in 0..5 {
                if k == i || k == j {
                    continue;
                }
                let parts = vec![
                    shares[i].as_slice(),
                    shares[j].as_slice(),
                    shares[k].as_slice(),
                ];
                let mut recomb = vec![0u8; secret.len()];

                shamir_combine(&parts, &mut recomb).unwrap();

                assert_eq!(
                    recomb.as_slice(),
                    secret,
                    "Failed for i:{}, j:{}, k:{}",
                    i,
                    j,
                    k
                );
            }
        }
    }
}

#[test]
fn test_split_and_combine() {
    let key: [u8; 64] = generate_random_bytes_sized::<64>();
    let parts = 32;
    let threshold = 2;
    let shares = split_into_buffers(&key, parts, threshold).unwrap();
    let mut permutations = 0;
    let mut recovered = vec![0u8; key.len()];

    // Verify that ANY combination of `threshold` shares reconstructs the key
    for i in 0..parts {
        for j in (i + 1)..parts {
            permutations += 1;

            let subset = vec![shares[i].as_slice(), shares[j].as_slice()];

            shamir_combine(&subset, &mut recovered).unwrap();

            assert_eq!(
                key.as_slice(),
                recovered.as_slice(),
                "Reconstruction failed for shares {} and {}",
                i,
                j
            );
        }
    }
    assert_eq!(permutations, 32 * 31 / 2);
}

#[test]
fn test_split_and_combine_data_types() {
    // 1. Byte string
    let secret = b"0xdeadbeef";
    let shares = split_into_buffers(secret, 10, 5).unwrap();
    let slices: Vec<&[u8]> = shares[2..7].iter().map(|s| s.as_slice()).collect();
    let mut recovered = vec![0u8; secret.len()];
    shamir_combine(&slices, &mut recovered).unwrap();
    assert_eq!(secret.to_vec(), recovered);

    // 2. String
    let secret = "0xcafe".to_string();
    let shares = split_into_buffers(secret.as_bytes(), 7, 4).unwrap();
    let slices: Vec<&[u8]> = shares[0..4].iter().map(|s| s.as_slice()).collect();
    let mut recovered_bytes = vec![0u8; secret.len()];
    shamir_combine(&slices, &mut recovered_bytes).unwrap();
    let recovered = String::from_utf8(recovered_bytes).unwrap();
    assert_eq!(secret, recovered);

    // 3. Vec<u8>
    let secret: Vec<u8> = vec![0x01, 0x02, 0x03, 0xFF, 0xAA];
    let shares = split_into_buffers(&secret, 8, 3).unwrap();
    let slices: Vec<&[u8]> = shares[3..6].iter().map(|s| s.as_slice()).collect();
    let mut recovered = vec![0u8; secret.len()];
    shamir_combine(&slices, &mut recovered).unwrap();
    assert_eq!(secret, recovered);

    // 4. Fixed array [u8; 32]
    let secret: [u8; 32] = [0x42; 32];
    let shares = split_into_buffers(&secret, 6, 4).unwrap();
    let slices: Vec<&[u8]> = shares[1..5].iter().map(|s| s.as_slice()).collect();
    let mut recovered = vec![0u8; 32];
    shamir_combine(&slices, &mut recovered).unwrap();
    assert_eq!(secret.to_vec(), recovered);

    // 5. Numeric type (u128)
    let number: u128 = 12345678901234567890;
    let secret_bytes = number.to_le_bytes();
    let shares = split_into_buffers(&secret_bytes, 5, 3).unwrap();
    let slices: Vec<&[u8]> = shares[0..3].iter().map(|s| s.as_slice()).collect();
    let mut recovered_bytes = vec![0u8; 16];
    shamir_combine(&slices, &mut recovered_bytes).unwrap();
    let recovered_number = u128::from_le_bytes(recovered_bytes.try_into().unwrap());
    assert_eq!(number, recovered_number);
}

#[test]
fn zero_split_and_combine_roundtrip() {
    let secret = b"top secret security key";
    let shares = ShamirZero::split(secret, 5, 3).unwrap();
    assert_eq!(shares.len(), 5);
    for (i, share) in shares.iter().enumerate() {
        assert_eq!(share.len(), secret.len() + 1);
        assert_eq!(share[secret.len()], (i + 1) as u8);
    }
    let recovered = ShamirZero::combine(&shares[0..3]).unwrap();
    assert_eq!(recovered, secret);
    let recovered = ShamirZero::combine(&shares[2..5]).unwrap();
    assert_eq!(recovered, secret);
    let recovered = ShamirZero::combine(&shares).unwrap();
    assert_eq!(recovered, secret);
}

#[test]
fn zero_split_errors() {
    assert_eq!(ShamirZero::split(b"", 3, 2), Err(ShamirError::EmptySecret));
    assert_eq!(
        ShamirZero::split(b"abc", 3, 1),
        Err(ShamirError::ThresholdLessThanMinimumLength)
    );
    assert_eq!(
        ShamirZero::split(b"abc", 300, 256),
        Err(ShamirError::ThresholdExceedsMaximumLength)
    );
    assert_eq!(
        ShamirZero::split(b"abc", 2, 3),
        Err(ShamirError::PartsLessThanThresholdLength)
    );
    assert_eq!(
        ShamirZero::split(b"abc", 256, 3),
        Err(ShamirError::PartsExceedMaximumLength)
    );
    let shares = ShamirZero::split(b"abc", 255, 255).unwrap();
    assert_eq!(shares.len(), 255);
    assert_eq!(ShamirZero::combine(&shares).unwrap(), b"abc".to_vec());
}

#[test]
fn zero_combine_errors() {
    assert_eq!(ShamirZero::combine(&[]), Err(ShamirError::RequiredMinimumParts));
    assert_eq!(
        ShamirZero::combine(&[vec![1, 2]]),
        Err(ShamirError::RequiredMinimumParts)
    );
    assert_eq!(
        ShamirZero::combine(&[vec![1], vec![2]]),
        Err(ShamirError::MinimumPartByteLength)
    );
    // A zero x value in the first share, and a length mismatch further on:
    // the lengths are checked first.
    assert_eq!(
        ShamirZero::combine(&[vec![1, 0], vec![2, 1], vec![3, 4, 5]]),
        Err(ShamirError::PartsLengthMismatch)
    );
    assert_eq!(
        ShamirZero::combine(&[vec![1, 0], vec![2, 1]]),
        Err(ShamirError::InvalidShareXValue)
    );
    assert_eq!(
        ShamirZero::combine(&[vec![1, 7], vec![2, 7]]),
        Err(ShamirError::DuplicatePartDetected)
    );
}

#[test]
fn combine_checks_shares_in_order() {
    // shamir_combine meets the zero x value of the first share before the
    // length mismatch of the third.
    let a = [1u8, 0];
    let b = [2u8, 1];
    let c = [3u8, 4, 5];
    let mut out = [0u8; 1];
    assert_eq!(
        shamir_combine(&[&a, &b, &c], &mut out),
        Err(ShamirError::InvalidShareXValue)
    );
    assert_eq!(out, [0u8]);
}

#[test]
fn split_with_fixed_coefficients() {
    // secret byte 5 with coefficient 3 (degree 1): share x holds 5 ^ mult(x, 3)
    let secret = [5u8, 9];
    let random = [3u8, 0];
    let mut a = [0u8, 0, 0xaa];
    let mut b = [0u8, 0, 0xbb];
    let mut shares_out: Vec<&mut [u8]> = vec![&mut a, &mut b];
    split_with_coefficients(&secret, 2, &random, &mut shares_out);
    // x = 1: 5 ^ 3 = 6; x = 2: 5 ^ 6 = 3; the second byte has coefficient 0.
    assert_eq!(a, [6, 9, 0xaa]);
    assert_eq!(b, [3, 9, 0xbb]);

    let a = [6u8, 9, 1];
    let b = [3u8, 9, 2];
    let mut out = [0u8; 2];
    shamir_combine(&[&a, &b], &mut out).unwrap();
    assert_eq!(out, secret);
}

#[test]
fn split_output_length_errors() {
    let secret = b"abc";
    // wrong number of buffers
    let mut a = [0u8; 4];
    let mut shares_out: Vec<&mut [u8]> = vec![&mut a];
    assert_eq!(
        shamir_split(secret, 2, 2, &mut shares_out),
        Err(ShamirError::InvalidOutputLength)
    );
    // the second buffer is too short: the first gets its tag, the rest is untouched
    let mut a = [0u8; 4];
    let mut b = [0u8; 3];
    let mut c = [0u8; 4];
    let mut shares_out: Vec<&mut [u8]> = vec![&mut a, &mut b, &mut c];
    assert_eq!(
        shamir_split(secret, 3, 2, &mut shares_out),
        Err(ShamirError::InvalidOutputLength)
    );
    assert_eq!(a, [0, 0, 0, 1]);
    assert_eq!(b, [0, 0, 0]);
    assert_eq!(c, [0, 0, 0, 0]);
}

#[test]
fn fewer_than_threshold_shares_do_not_recover() {
    // With a fixed polynomial of degree 2, two shares interpolate a line that
    // misses the secret.
    let secret = [0x42u8];
    let random = [0x17u8, 0xa0];
    let mut s1 = [0u8, 0];
    let mut s2 = [0u8, 0];
    let mut s3 = [0u8, 0];
    let mut shares_out: Vec<&mut [u8]> = vec![&mut s1, &mut s2, &mut s3];
    split_with_coefficients(&secret, 3, &random, &mut shares_out);
    s1[1] = 1;
    s2[1] = 2;
    s3[1] = 3;
    let mut out = [0u8; 1];
    shamir_combine(&[&s1, &s2, &s3], &mut out).unwrap();
    assert_eq!(out, secret);
    shamir_combine(&[&s1, &s2], &mut out).unwrap();
    assert_ne!(out, secret);
}

#[test]
fn split_roundtrip_over_many_sizes() {
    // Deterministic roundtrips over a range of sizes and thresholds.
    let data: Vec<u8> = (0..40u8).map(|i| i.wrapping_mul(37).wrapping_add(11)).collect();
    for (parts, threshold) in [(2usize, 2usize), (3, 2), (5, 5), (17, 9), (255, 2), (255, 200)] {
        let secret = &data[..(parts % 13) + 1];
        let shares = split_into_buffers(secret, parts, threshold).unwrap();
        let slices: Vec<&[u8]> = shares[parts - threshold..].iter().map(|s| s.as_slice()).collect();
        let mut recovered = vec![0u8; secret.len()];
        shamir_combine(&slices, &mut recovered).unwrap();
        assert_eq!(recovered.as_slice(), secret);
    }
}

#[test]
fn one_share_below_threshold_fits_any_secret() {
    // Threshold 2: a single share at x = 3 of secret 0x42 with coefficient
    // 0x17 is also the share of any other secret s under the coefficient
    // (share ^ s) / 3.
    let x = 3u8;
    let secret = [0x42u8];
    let mut share = [0u8, 0];
    {
        let (mut s1, mut s2) = ([0u8, 0], [0u8, 0]);
        let mut shares_out: Vec<&mut [u8]> = vec![&mut s1, &mut s2, &mut share];
        split_with_coefficients(&secret, 2, &[0x17], &mut shares_out);
    }
    for other in 0u8..=255 {
        let coefficient = shamir_zero::math::div(share[0] ^ other, x).unwrap();
        let mut other_share = [0u8, 0];
        {
            let (mut s1, mut s2) = ([0u8, 0], [0u8, 0]);
            let mut shares_out: Vec<&mut [u8]> = vec![&mut s1, &mut s2, &mut other_share];
            split_with_coefficients(&[other], 2, &[coefficient], &mut shares_out);
        }
        assert_eq!(other_share[0], share[0]);
    }
}

#[test]
fn combine_ignores_share_order() {
    let secret = b"order";
    let shares = split_into_buffers(secret, 6, 4).unwrap();
    let forward: Vec<&[u8]> = vec![&shares[0], &shares[2], &shares[3], &shares[5]];
    let backward: Vec<&[u8]> = vec![&shares[5], &shares[3], &shares[0], &shares[2]];
    let mut out1 = vec![0u8; secret.len()];
    let mut out2 = vec![0u8; secret.len()];
    shamir_combine(&forward, &mut out1).unwrap();
    shamir_combine(&backward, &mut out2).unwrap();
    assert_eq!(out1, out2);
    assert_eq!(out1.as_slice(), secret);
}

#[test]
fn more_than_255_shares_are_refused() {
    let parts: Vec<Vec<u8>> = (0..256u32).map(|i| vec![9u8, (i % 256) as u8]).collect();
    let slices: Vec<&[u8]> = parts.iter().map(|p| p.as_slice()).collect();
    let mut out = [0u8; 1];
    assert_eq!(
        shamir_combine(&slices, &mut out),
        Err(ShamirError::InvalidShareXValue)
    );
    let parts: Vec<Vec<u8>> = (0..256u32).map(|i| vec![9u8, (i % 255 + 1) as u8]).collect();
    let slices: Vec<&[u8]> = parts.iter().map(|p| p.as_slice()).collect();
    assert_eq!(
        shamir_combine(&slices, &mut out),
        Err(ShamirError::DuplicatePartDetected)
    );
}

#[test]
fn zero_split_refuses_before_allocating() {
    assert_eq!(
        ShamirZero::split(b"abc", usize::MAX, 3),
        Err(ShamirError::PartsExceedMaximumLength)
    );
}

#[test]
fn masked_coefficients_give_the_same_shares_for_another_secret() {
    // Threshold 3, shares 1 and 4 picked: the mask is the coefficients of a
    // polynomial q with q(0) = s1 ^ s2 and q(1) = q(4) = 0, i.e.
    // q = c (x + 1)(x + 4) = c x^2 + c*5 x + c*4, with c*4 = s1 ^ s2.
    let s1 = [0x42u8];
    let s2 = [0x99u8];
    let c = shamir_zero::math::div(s1[0] ^ s2[0], 4).unwrap();
    let mask = [mult(c, 5), c];
    let random = [0x17u8, 0xa0];
    let masked = [random[0] ^ mask[0], random[1] ^ mask[1]];
    let split = |secret: &[u8], coefficients: &[u8]| {
        let mut shares = vec![vec![0u8; 2]; 4];
        let mut out: Vec<&mut [u8]> = shares.iter_mut().map(|v| v.as_mut_slice()).collect();
        split_with_coefficients(secret, 3, coefficients, &mut out);
        shares
    };
    let a = split(&s1, &random);
    let b = split(&s2, &masked);
    assert_eq!(a[0], b[0]);
    assert_eq!(a[3], b[3]);
    assert_ne!(a[1], b[1]);
}

#[test]
fn split_reports_a_failed_draw() {
    let secret = [5u8, 9];
    let random = [3u8, 0];
    let mut a = [0u8, 0, 1];
    let mut b = [0u8, 0, 2];
    {
        let mut shares_out: Vec<&mut [u8]> = vec![&mut a, &mut b];
        assert_eq!(
            split_with_draw(&secret, 2, Err(SysError::UNSUPPORTED), &random, &mut shares_out),
            Err(ShamirError::FailedToGeneratePolynomial)
        );
    }
    assert_eq!(a, [0, 0, 1]);
    assert_eq!(b, [0, 0, 2]);
    {
        let mut shares_out: Vec<&mut [u8]> = vec![&mut a, &mut b];
        assert_eq!(split_with_draw(&secret, 2, Ok(()), &random, &mut shares_out), Ok(()));
    }
    assert_eq!(a, [6, 9, 1]);
    assert_eq!(b, [3, 9, 2]);
}
