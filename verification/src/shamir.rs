//! Splitting a secret into shares and combining shares back into the secret.
use rand::rngs::SysError;
use vstd::prelude::*;

use crate::field::{gf_mul, lemma_add_laws, lemma_mul_comm};
use crate::math::{compute_lagrange_basis_at_zero, mult};
use crate::poly::{lagrange_interpolate, lagrange_sum, lemma_eval_const, lemma_eval_suffix, poly_eval};
use crate::rng::fill_from_system_rng;

verus! {

/// A convenience front end over `shamir_split` and `shamir_combine` that
/// works with owned `Vec<Vec<u8>>` shares.
pub struct ShamirZero;

/// Why a split or a combination was refused.
#[derive(Debug, PartialEq, Eq)]
pub enum ShamirError {
    /// `parts` cannot be less than `threshold`.
    PartsLessThanThresholdLength,
    /// `parts` cannot exceed the maximum value of `255`.
    PartsExceedMaximumLength,
    /// `threshold` is less than the minimum value of `2`.
    ThresholdLessThanMinimumLength,
    /// `threshold` cannot exceed the maximum value of `255`.
    ThresholdExceedsMaximumLength,
    /// The `secret` value cannot be empty.
    EmptySecret,
    /// Failed to generate the random polynomial coefficients.
    FailedToGeneratePolynomial,
    /// Duplicate `part` detected.
    DuplicatePartDetected,
    /// Less than two `parts` cannot be used to reconstruct the `secret`.
    RequiredMinimumParts,
    /// `parts` must be at least two bytes.
    MinimumPartByteLength,
    /// All `parts` must be the same length.
    PartsLengthMismatch,
    /// x-value of a secret share cannot be 0
    InvalidShareXValue,
    /// The output buffer does not have the expected length.
    InvalidOutputLength,
}

// ---------------------------------------------------------------------------
// Specification of splitting
// ---------------------------------------------------------------------------

/// The error with which the arguments of a split are refused, if any.
pub open spec fn split_args_error(secret_len: nat, parts: usize, threshold: usize) -> Option<ShamirError> {
    if secret_len == 0 {
        Some(ShamirError::EmptySecret)
    } else if threshold < 2 {
        Some(ShamirError::ThresholdLessThanMinimumLength)
    } else if threshold > 255 {
        Some(ShamirError::ThresholdExceedsMaximumLength)
    } else if parts < threshold {
        Some(ShamirError::PartsLessThanThresholdLength)
    } else if parts > 255 {
        Some(ShamirError::PartsExceedMaximumLength)
    } else {
        None
    }
}

/// The polynomial that hides byte `b` of the secret: the secret byte as
/// constant coefficient, then the `degree` random coefficients of that byte.
pub open spec fn byte_poly(secret: Seq<u8>, random: Seq<u8>, degree: int, b: int) -> Seq<u8> {
    seq![secret[b]] + random.subrange(b * degree, b * degree + degree)
}

/// The values at `x` of the polynomials of all bytes of the secret.
pub open spec fn share_values(secret: Seq<u8>, random: Seq<u8>, degree: int, x: u8) -> Seq<u8> {
    Seq::new(secret.len(), |b: int| poly_eval(byte_poly(secret, random, degree, b), x))
}

/// The share with x-coordinate `x`: the values, then `x` itself as a tag.
pub open spec fn share(secret: Seq<u8>, random: Seq<u8>, degree: int, x: u8) -> Seq<u8> {
    share_values(secret, random, degree, x).push(x)
}

/// `shares` are the shares with x-coordinates `1, 2, ...` of `secret`, for
/// `threshold`, under the random coefficients `random`.
pub open spec fn is_split(secret: Seq<u8>, threshold: int, random: Seq<u8>, shares: Seq<Seq<u8>>) -> bool {
    &&& random.len() == secret.len() * (threshold - 1)
    &&& forall|i: int|
        0 <= i < shares.len() ==> #[trigger] shares[i] == share(secret, random, threshold - 1, (i + 1) as u8)
}

/// The contents of a sequence of mutable byte slices.
pub open spec fn slice_views(s: Seq<&mut [u8]>) -> Seq<Seq<u8>> {
    Seq::new(s.len(), |i: int| s[i]@)
}

/// The contents of a sequence of byte slices.
pub open spec fn part_views(s: Seq<&[u8]>) -> Seq<Seq<u8>> {
    Seq::new(s.len(), |i: int| s[i]@)
}

/// The contents of a sequence of byte vectors.
pub open spec fn vec_views(s: Seq<Vec<u8>>) -> Seq<Seq<u8>> {
    Seq::new(s.len(), |i: int| s[i]@)
}

/// The buffers after the tags of the first `k` of them were written.
pub open spec fn tagged_prefix(before: Seq<Seq<u8>>, n: int, k: int) -> Seq<Seq<u8>> {
    Seq::new(
        before.len(),
        |j: int|
            if j < k {
                before[j].update(n, (j + 1) as u8)
            } else {
                before[j]
            },
    )
}

// ---------------------------------------------------------------------------
// Specification of combining
// ---------------------------------------------------------------------------

/// The x-coordinate of a share: its last byte.
pub open spec fn share_x(p: Seq<u8>) -> u8 {
    p[p.len() - 1]
}

/// The x-coordinates of the shares.
pub open spec fn share_xs(parts: Seq<Seq<u8>>) -> Seq<u8> {
    Seq::new(parts.len(), |i: int| share_x(parts[i]))
}

/// Byte `b` of every share.
pub open spec fn share_column(parts: Seq<Seq<u8>>, b: int) -> Seq<u8> {
    Seq::new(parts.len(), |i: int| parts[i][b])
}

/// The first problem met when the shares `parts[0..k]` are checked one by
/// one: a length that differs from the first share's, a zero x-coordinate,
/// or an x-coordinate seen before.
pub open spec fn part_error(parts: Seq<Seq<u8>>, k: int) -> Option<ShamirError>
    decreases k,
{
    if k <= 0 {
        None
    } else if part_error(parts, k - 1) is Some {
        part_error(parts, k - 1)
    } else if parts[k - 1].len() != parts[0].len() {
        Some(ShamirError::PartsLengthMismatch)
    } else if share_x(parts[k - 1]) == 0 {
        Some(ShamirError::InvalidShareXValue)
    } else if exists|j: int| 0 <= j < k - 1 && share_x(#[trigger] parts[j]) == share_x(parts[k - 1]) {
        Some(ShamirError::DuplicatePartDetected)
    } else {
        None
    }
}

/// The error with which `shamir_combine` refuses `parts` and an output
/// buffer of length `out_len`, if any.
pub open spec fn combine_error(parts: Seq<Seq<u8>>, out_len: nat) -> Option<ShamirError> {
    if parts.len() < 2 {
        Some(ShamirError::RequiredMinimumParts)
    } else if parts[0].len() < 2 {
        Some(ShamirError::MinimumPartByteLength)
    } else if out_len != parts[0].len() - 1 {
        Some(ShamirError::InvalidOutputLength)
    } else {
        part_error(parts, parts.len() as int)
    }
}

/// What `shamir_combine` computes: byte by byte, the value at zero of the
/// Lagrange interpolant through the shares.
pub open spec fn combine_result(parts: Seq<Seq<u8>>, out_len: nat) -> Result<Seq<u8>, ShamirError> {
    match combine_error(parts, out_len) {
        Some(e) => Err(e),
        None => Ok(
            Seq::new(out_len, |b: int| lagrange_interpolate(share_xs(parts), share_column(parts, b), 0u8)),
        ),
    }
}

/// What `ShamirZero::combine` computes: it checks that all shares have the
/// same length before anything else is checked of them.
pub open spec fn zero_combine_result(parts: Seq<Seq<u8>>) -> Result<Seq<u8>, ShamirError> {
    if parts.len() < 2 {
        Err(ShamirError::RequiredMinimumParts)
    } else if parts[0].len() < 2 {
        Err(ShamirError::MinimumPartByteLength)
    } else if exists|i: int| 0 <= i < parts.len() && (#[trigger] parts[i]).len() != parts[0].len() {
        Err(ShamirError::PartsLengthMismatch)
    } else {
        combine_result(parts, (parts[0].len() - 1) as nat)
    }
}

// ---------------------------------------------------------------------------
// Splitting
// ---------------------------------------------------------------------------

/// The random coefficients of byte `b` sit at `b * degree .. (b + 1) * degree`.
proof fn lemma_coefficient_offsets(b: int, n: int, degree: int)
    requires
        0 <= b < n,
        degree >= 1,
    ensures
        b * degree + degree <= n * degree,
        0 <= b * degree,
{
    assert(b * degree + degree <= n * degree) by (nonlinear_arith)
        requires
            0 <= b < n,
            degree >= 1,
    ;
    assert(0 <= b * degree) by (nonlinear_arith)
        requires
            0 <= b,
            degree >= 1,
    ;
}

/// The buffers after the values of the first `k` shares were written.
spec fn filled_prefix(
    before: Seq<Seq<u8>>,
    secret: Seq<u8>,
    random: Seq<u8>,
    degree: int,
    k: int,
) -> Seq<Seq<u8>> {
    Seq::new(
        before.len(),
        |j: int|
            if j < k {
                share_values(secret, random, degree, (j + 1) as u8).push(before[j][secret.len() as int])
            } else {
                before[j]
            },
    )
}

/// Writes into every share the values of the byte polynomials at the
/// share's x-coordinate (its index plus one), given the random coefficients
/// `random` (`threshold - 1` of them per secret byte, byte after byte). The
/// tag byte at the end of each share is left as it is.
pub fn split_with_coefficients(
    secret: &[u8],
    threshold: usize,
    random: &[u8],
    shares_out: &mut [&mut [u8]],
)
    requires
        2 <= threshold,
        random@.len() == secret@.len() * (threshold - 1),
        forall|k: int|
            0 <= k < old(shares_out)@.len() ==> old(shares_out)@[k]@.len() == secret@.len() + 1,
    ensures
        final(shares_out)@.len() == old(shares_out)@.len(),
        forall|k: int|
            0 <= k < final(shares_out)@.len() ==> final(final(shares_out)@[k])@ == final(old(shares_out)@[k])@,
        forall|k: int|
            0 <= k < final(shares_out)@.len() ==> final(shares_out)@[k]@ == share_values(
                secret@,
                random@,
                threshold - 1,
                (k + 1) as u8,
            ).push(old(shares_out)@[k]@[secret@.len() as int]),
{
    let n = secret.len();
    let degree = threshold - 1;
    let parts = shares_out.len();
    let rlen = random.len();
    let ghost start = slice_views(shares_out@);

    let mut share_idx = 0usize;
    while share_idx < parts
        invariant
            parts == shares_out@.len(),
            n == secret@.len(),
            degree == threshold - 1,
            1 <= degree,
            rlen == random@.len(),
            rlen == n * degree,
            share_idx <= parts,
            start == slice_views(old(shares_out)@),
            forall|k: int| 0 <= k < parts ==> (#[trigger] start[k]).len() == n + 1,
            forall|k: int| 0 <= k < parts ==> final(shares_out@[k])@ == final(old(shares_out)@[k])@,
            slice_views(shares_out@) == filled_prefix(start, secret@, random@, degree as int, share_idx as int),
        decreases parts - share_idx,
    {
        let x = (share_idx + 1) as u8;
        let ghost values = share_values(secret@, random@, degree as int, x);
        let ghost done = slice_views(shares_out@);
        let ghost before = start[share_idx as int];
        proof {
            assert(done.len() == parts);
            assert(filled_prefix(start, secret@, random@, degree as int, share_idx as int)[share_idx as int] == start[share_idx as int]);
            assert(done[share_idx as int] == before);
            assert(before.subrange(0, n + 1) =~= before);
            assert(done =~= done.update(share_idx as int, values.subrange(0, 0) + before.subrange(0, n + 1)));
        }

        let mut byte_idx = 0usize;
        while byte_idx < n
            invariant
                parts == shares_out@.len(),
                n == secret@.len(),
                degree == threshold - 1,
                1 <= degree,
                rlen == random@.len(),
                rlen == n * degree,
                share_idx < parts,
                x == (share_idx + 1) as u8,
                values == share_values(secret@, random@, degree as int, x),
                before.len() == n + 1,
                byte_idx <= n,
                done.len() == parts,
                forall|k: int| 0 <= k < parts ==> final(shares_out@[k])@ == final(old(shares_out)@[k])@,
                slice_views(shares_out@) == done.update(
                    share_idx as int,
                    values.subrange(0, byte_idx as int) + before.subrange(byte_idx as int, n + 1),
                ),
            decreases n - byte_idx,
        {
            proof {
                lemma_coefficient_offsets(byte_idx as int, n as int, degree as int);
            }
            let ghost c = byte_poly(secret@, random@, degree as int, byte_idx as int);
            let off = byte_idx * degree;
            proof {
                assert(c.len() == degree + 1);
                assert forall|j: int| 1 <= j <= degree implies #[trigger] c[j] == random@[off + j - 1] by {}
            }

            // Horner's method, starting with the highest coefficient.
            let mut result = random[off + degree - 1];
            let mut k = degree - 1;
            proof {
                assert(c.subrange(degree as int, degree + 1) =~= seq![c[degree as int]]);
                lemma_eval_const(c[degree as int], x);
            }
            while k > 0
                invariant
                    1 <= degree,
                    rlen == random@.len(),
                    off + degree <= rlen,
                    c.len() == degree + 1,
                    forall|j: int| 1 <= j <= degree ==> #[trigger] c[j] == random@[off + j - 1],
                    k < degree,
                    result == poly_eval(c.subrange(k + 1, degree + 1), x),
                decreases k,
            {
                k -= 1;
                let ghost prev = result;
                result = mult(result, x) ^ random[off + k];
                proof {
                    lemma_eval_suffix(c, k + 1, x);
                    lemma_mul_comm(prev, x);
                    lemma_add_laws(gf_mul(x, prev), c[k + 1], 0u8);
                }
            }
            let ghost prev = result;
            result = mult(result, x) ^ secret[byte_idx];
            proof {
                lemma_eval_suffix(c, 0, x);
                lemma_mul_comm(prev, x);
                lemma_add_laws(gf_mul(x, prev), c[0], 0u8);
                assert(c.subrange(0, degree + 1) =~= c);
                assert(result == values[byte_idx as int]);
            }
            let ghost pre = slice_views(shares_out@);
            proof {
                assert(pre[share_idx as int] == shares_out@[share_idx as int]@);
                assert(pre[share_idx as int].len() == n + 1);
            }
            shares_out[share_idx][byte_idx] = result;
            proof {
                assert(shares_out@[share_idx as int]@ == pre[share_idx as int].update(byte_idx as int, result));
                assert forall|j: int| 0 <= j < parts && j != share_idx implies shares_out@[j]@ == pre[j] by {}
                assert(pre[share_idx as int].update(byte_idx as int, result) =~= values.subrange(0, byte_idx + 1) + before.subrange(byte_idx + 1, n + 1));
                let goal = done.update(
                    share_idx as int,
                    values.subrange(0, byte_idx + 1) + before.subrange(byte_idx + 1, n + 1),
                );
                assert forall|j: int| 0 <= j < parts implies slice_views(shares_out@)[j] == goal[j] by {
                    assert(slice_views(shares_out@)[j] == shares_out@[j]@);
                    if j != share_idx {
                        assert(pre[j] == done[j]);
                    }
                }
                assert(slice_views(shares_out@) =~= goal);
            }
            byte_idx += 1;
        }
        proof {
            assert(values.subrange(0, n as int) + before.subrange(n as int, n + 1) =~= values.push(before[n as int]));
            assert(slice_views(shares_out@) =~= filled_prefix(start, secret@, random@, degree as int, share_idx + 1));
        }
        share_idx += 1;
    }
    proof {
        assert forall|k: int| 0 <= k < parts implies shares_out@[k]@ == share_values(
                secret@,
                random@,
                threshold - 1,
                (k + 1) as u8,
            ).push(old(shares_out)@[k]@[n as int]) by {
            assert(slice_views(shares_out@)[k] == shares_out@[k]@);
            assert(start[k] == old(shares_out)@[k]@);
        }
    }
}

/// What `shamir_split` does once the tags are written, given the outcome
/// `drawn` of its random draw and the drawn coefficients `random`: when the
/// draw failed it reports it and writes nothing, else it writes the values
/// of the byte polynomials into every share.
pub fn split_with_draw(
    secret: &[u8],
    threshold: usize,
    drawn: Result<(), SysError>,
    random: &[u8],
    shares_out: &mut [&mut [u8]],
) -> (r: Result<(), ShamirError>)
    requires
        2 <= threshold,
        random@.len() == secret@.len() * (threshold - 1),
        forall|k: int|
            0 <= k < old(shares_out)@.len() ==> old(shares_out)@[k]@.len() == secret@.len() + 1,
    ensures
        final(shares_out)@.len() == old(shares_out)@.len(),
        forall|k: int|
            0 <= k < final(shares_out)@.len() ==> final(final(shares_out)@[k])@ == final(old(shares_out)@[k])@,
        drawn is Err ==> r == Err::<(), _>(ShamirError::FailedToGeneratePolynomial) && slice_views(
            final(shares_out)@,
        ) == slice_views(old(shares_out)@),
        drawn is Ok ==> r is Ok && forall|k: int|
            0 <= k < final(shares_out)@.len() ==> final(shares_out)@[k]@ == share_values(
                secret@,
                random@,
                threshold - 1,
                (k + 1) as u8,
            ).push(old(shares_out)@[k]@[secret@.len() as int]),
{
    match drawn {
        Ok(()) => {
            split_with_coefficients(secret, threshold, random, shares_out);
            Ok(())
        },
        Err(_) => {
            proof {
                assert(slice_views(shares_out@) =~= slice_views(old(shares_out)@));
            }
            Err(ShamirError::FailedToGeneratePolynomial)
        },
    }
}

/// The error with which the arguments of a split are refused, if any.
fn check_split_args(secret_len: usize, parts: usize, threshold: usize) -> (e: Option<ShamirError>)
    ensures
        e == split_args_error(secret_len as nat, parts, threshold),
{
    if secret_len == 0 || threshold < 2 || threshold > 255 || parts < threshold || parts > 255 {
        Some(
            if secret_len == 0 {
                ShamirError::EmptySecret
            } else if threshold < 2 {
                ShamirError::ThresholdLessThanMinimumLength
            } else if threshold > 255 {
                ShamirError::ThresholdExceedsMaximumLength
            } else if parts < threshold {
                ShamirError::PartsLessThanThresholdLength
            } else {
                ShamirError::PartsExceedMaximumLength
            },
        )
    } else {
        None
    }
}

/// Splits `secret` into `parts` shares, `threshold` of which are needed to
/// reconstruct it, written into the caller's buffers `shares_out` (each
/// one byte longer than the secret; the last byte is the share's tag).
pub fn shamir_split(
    secret: &[u8],
    parts: usize,
    threshold: usize,
    shares_out: &mut [&mut [u8]],
) -> (r: Result<(), ShamirError>)
    requires
        2 <= threshold <= 255 ==> secret@.len() * threshold <= usize::MAX,
    ensures
        final(shares_out)@.len() == old(shares_out)@.len(),
        forall|k: int|
            0 <= k < final(shares_out)@.len() ==> final(final(shares_out)@[k])@ == final(old(shares_out)@[k])@,
        split_args_error(secret@.len(), parts, threshold) matches Some(e) ==> r == Err::<(), _>(e)
            && slice_views(final(shares_out)@) == slice_views(old(shares_out)@),
        split_args_error(secret@.len(), parts, threshold) is None && old(shares_out)@.len() != parts
            ==> r == Err::<(), _>(ShamirError::InvalidOutputLength) && slice_views(final(shares_out)@)
            == slice_views(old(shares_out)@),
        forall|k: int|
            split_args_error(secret@.len(), parts, threshold) is None && old(shares_out)@.len() == parts
                && 0 <= k < parts && old(shares_out)@[k]@.len() != secret@.len() + 1 && (
            forall|j: int| 0 <= j < k ==> old(shares_out)@[j]@.len() == secret@.len() + 1)
                ==> r == Err::<(), _>(ShamirError::InvalidOutputLength) && slice_views(
                final(shares_out)@,
            ) == tagged_prefix(slice_views(old(shares_out)@), secret@.len() as int, k),
        split_args_error(secret@.len(), parts, threshold) is None && old(shares_out)@.len() == parts
            && (forall|k: int|
            0 <= k < parts ==> old(shares_out)@[k]@.len() == secret@.len() + 1) ==> (r
            is Ok || r == Err::<(), _>(ShamirError::FailedToGeneratePolynomial)),
        r == Err::<(), _>(ShamirError::FailedToGeneratePolynomial) ==> slice_views(final(shares_out)@)
            == tagged_prefix(slice_views(old(shares_out)@), secret@.len() as int, parts as int),
        r is Ok ==> split_args_error(secret@.len(), parts, threshold) is None && exists|random: Seq<u8>|
            is_split(secret@, threshold as int, random, slice_views(final(shares_out)@)),
        r is Ok ==> final(shares_out)@.len() == parts,
{
    match check_split_args(secret.len(), parts, threshold) {
        Some(e) => {
            proof {
                assert(slice_views(shares_out@) =~= slice_views(old(shares_out)@));
            }
            return Err(e);
        },
        None => {},
    }

    if shares_out.len() != parts {
        proof {
            assert(slice_views(shares_out@) =~= slice_views(old(shares_out)@));
        }
        return Err(ShamirError::InvalidOutputLength);
    }

    let n = secret.len();
    let degree = threshold - 1;
    proof {
        assert(n * degree <= n * threshold) by (nonlinear_arith)
            requires
                degree < threshold,
        ;
        assert(n + 1 <= n * threshold) by (nonlinear_arith)
            requires
                n >= 1,
                threshold >= 2,
        ;
    }
    let share_len = n + 1;
    let total_random = n * degree;

    let mut i = 0usize;
    while i < parts
        invariant
            parts == shares_out@.len(),
            parts == old(shares_out)@.len(),
            split_args_error(secret@.len(), parts, threshold) is None,
            n == secret@.len(),
            share_len == n + 1,
            i <= parts,
            parts <= 255,
            forall|j: int| 0 <= j < i ==> old(shares_out)@[j]@.len() == share_len,
            forall|k: int|
                0 <= k < parts ==> final(shares_out@[k])@ == final(old(shares_out)@[k])@,
            slice_views(shares_out@) == tagged_prefix(slice_views(old(shares_out)@), n as int, i as int),
        decreases parts - i,
    {
        proof {
            assert(slice_views(shares_out@)[i as int] == old(shares_out)@[i as int]@);
        }
        if shares_out[i].len() != share_len {
            proof {
                assert forall|k: int|
                    split_args_error(secret@.len(), parts, threshold) is None && old(shares_out)@.len()
                        == parts && 0 <= k < parts && old(shares_out)@[k]@.len()
                        != secret@.len() + 1 && (forall|j: int|
                        0 <= j < k ==> old(shares_out)@[j]@.len() == secret@.len() + 1)
                    implies k == i by {
                    if k < i {
                        assert(old(shares_out)@[k]@.len() == share_len);
                    }
                    if k > i {
                        assert(old(shares_out)@[i as int]@.len() == secret@.len() + 1);
                    }
                }
            }
            return Err(ShamirError::InvalidOutputLength);
        }
        let ghost pre = slice_views(shares_out@);
        shares_out[i][n] = (i + 1) as u8;
        proof {
            assert(shares_out@[i as int]@ == pre[i as int].update(n as int, (i + 1) as u8));
            assert forall|j: int| 0 <= j < parts && j != i implies shares_out@[j]@ == pre[j] by {}
            assert(pre[i as int] == old(shares_out)@[i as int]@);
            assert forall|j: int| 0 <= j < parts implies slice_views(shares_out@)[j] == tagged_prefix(
                slice_views(old(shares_out)@),
                n as int,
                i + 1,
            )[j] by {
                assert(pre[j] == tagged_prefix(slice_views(old(shares_out)@), n as int, i as int)[j]);
            }
            assert(slice_views(shares_out@) =~= tagged_prefix(
                slice_views(old(shares_out)@),
                n as int,
                i + 1,
            ));
        }
        i += 1;
    }
    let ghost tagged = slice_views(shares_out@);

    // Draw all random coefficients at once.
    let mut random_coeffs = vec![0u8; total_random];
    let drawn = fill_from_system_rng(&mut random_coeffs);

    proof {
        assert forall|k: int| 0 <= k < parts implies shares_out@[k]@.len() == n + 1 by {
            assert(slice_views(shares_out@)[k] == shares_out@[k]@);
        }
    }
    let res = split_with_draw(secret, threshold, drawn, random_coeffs.as_slice(), shares_out);
    if res.is_err() {
        return res;
    }
    proof {
        let random = random_coeffs@;
        assert forall|k: int| 0 <= k < parts implies #[trigger] slice_views(shares_out@)[k] == share(
            secret@,
            random,
            threshold - 1,
            (k + 1) as u8,
        ) by {
            assert(tagged[k] == old(shares_out)@[k]@.update(n as int, (k + 1) as u8));
        }
        assert(is_split(secret@, threshold as int, random, slice_views(shares_out@)));
    }
    Ok(())
}

/// The mutable views of the owned shares, as slices.
fn share_slices<'a>(shares: &'a mut [Vec<u8>]) -> (out: Vec<&'a mut [u8]>)
    ensures
        out@.len() == old(shares)@.len(),
        forall|i: int| 0 <= i < out@.len() ==> out@[i]@ == old(shares)@[i]@,
        final(shares)@.len() == old(shares)@.len(),
        forall|i: int| 0 <= i < out@.len() ==> final(shares)@[i]@ == final(out@[i])@,
    decreases old(shares)@.len(),
{
    if shares.len() == 0 {
        return Vec::new();
    }
    let (head, tail) = shares.split_at_mut(1);
    let first = head.first_mut().unwrap();
    proof {
        assert(*first == old(shares)@[0]);
    }
    let s = first.as_mut_slice();
    let ghost tail_v = tail@;
    proof {
        assert(tail_v =~= old(shares)@.subrange(1, old(shares)@.len() as int));
    }
    let mut rest = share_slices(tail);
    let mut out: Vec<&'a mut [u8]> = Vec::new();
    let ghost s_v = s@;
    out.push(s);
    let ghost rest_v = rest@;
    out.append(&mut rest);
    proof {
        assert forall|i: int| 0 <= i < out@.len() implies out@[i]@ == old(shares)@[i]@ by {
            if i > 0 {
                assert(out@[i] == rest_v[i - 1]);
                assert(rest_v[i - 1]@ == tail_v[i - 1]@);
                assert(tail_v[i - 1] == old(shares)@[i]);
            } else {
                assert(out@[0]@ == s_v);
            }
        }
    }
    out
}

impl ShamirZero {
    /// Splits a secret into `parts` shares, requiring `threshold` shares to
    /// reconstruct it. Checks the arguments, allocates the shares and
    /// delegates to `shamir_split`.
    pub fn split(secret: &[u8], parts: usize, threshold: usize) -> (r: Result<Vec<Vec<u8>>, ShamirError>)
        requires
            secret@.len() < usize::MAX,
            2 <= threshold <= 255 ==> secret@.len() * threshold <= usize::MAX,
        ensures
            split_args_error(secret@.len(), parts, threshold) matches Some(e) ==> r == Err::<
                Vec<Vec<u8>>,
                _,
            >(e),
            split_args_error(secret@.len(), parts, threshold) is None ==> r is Ok || r == Err::<
                Vec<Vec<u8>>,
                _,
            >(ShamirError::FailedToGeneratePolynomial),
            r matches Ok(shares) ==> shares@.len() == parts && exists|random: Seq<u8>|
                is_split(secret@, threshold as int, random, vec_views(shares@)),
    {
        // Refuse bad arguments before anything is allocated.
        if let Some(e) = check_split_args(secret.len(), parts, threshold) {
            return Err(e);
        }
        let share_len = secret.len() + 1;

        let mut shares: Vec<Vec<u8>> = Vec::new();
        let mut i = 0usize;
        while i < parts
            invariant
                i <= parts,
                shares@.len() == i,
                forall|j: int| 0 <= j < i ==> shares@[j]@.len() == share_len,
            decreases parts - i,
        {
            shares.push(vec![0u8; share_len]);
            i += 1;
        }
        let ghost before = shares@;
        let mut shares_out = share_slices(shares.as_mut_slice());
        let ghost refs = shares_out@;
        proof {
            assert forall|k: int| 0 <= k < shares_out@.len() implies shares_out@[k]@.len()
                == share_len by {
                assert(before[k]@.len() == share_len);
            }
        }
        let res = shamir_split(secret, parts, threshold, shares_out.as_mut_slice());
        match res {
            Ok(()) => {
                proof {
                    assert forall|k: int| 0 <= k < parts implies final(refs[k])@
                        == slice_views(shares_out@)[k] by {
                        assert(has_resolved(shares_out@[k]));
                        assert(final(refs[k])@ == final(shares_out@[k])@);
                    }
                }
                let ghost views = slice_views(shares_out@);
                proof {
                    assert(vec_views(shares@) =~= views);
                }
                Ok(shares)
            },
            Err(e) => Err(e),
        }
    }
}

// ---------------------------------------------------------------------------
// Combining
// ---------------------------------------------------------------------------

/// Once a problem is found among the first `k` shares, checking more shares
/// reports the same problem.
proof fn lemma_part_error_stable(parts: Seq<Seq<u8>>, k: int, m: int)
    requires
        0 <= k <= m,
        part_error(parts, k) is Some,
    ensures
        part_error(parts, m) == part_error(parts, k),
    decreases m - k,
{
    if m > k {
        lemma_part_error_stable(parts, k, m - 1);
    }
}

/// Combine is used to reverse a split and reconstruct a secret once a
/// `threshold` number of parts are available; the secret is written into
/// `secret_out`.
pub fn shamir_combine(parts: &[&[u8]], secret_out: &mut [u8]) -> (r: Result<(), ShamirError>)
    ensures
        combine_result(part_views(parts@), old(secret_out)@.len()) matches Err(e) ==> r == Err::<
            (),
            _,
        >(e) && final(secret_out)@ == old(secret_out)@,
        combine_result(part_views(parts@), old(secret_out)@.len()) matches Ok(s) ==> r is Ok
            && final(secret_out)@ == s,
{
    let ghost views = part_views(parts@);
    let n = parts.len();
    if n < 2 {
        return Err(ShamirError::RequiredMinimumParts);
    }
    proof {
        assert(views[0] == parts@[0]@);
    }
    let share_len = if parts[0].len() >= 2 {
        parts[0].len()
    } else {
        return Err(ShamirError::MinimumPartByteLength);
    };

    let secret_len = share_len - 1;
    if secret_out.len() != secret_len {
        return Err(ShamirError::InvalidOutputLength);
    }

    let mut x_samples: Vec<u8> = Vec::new();
    let mut seen: Vec<bool> = vec![false; 256];

    let mut i = 0usize;
    while i < n
        invariant
            n == parts@.len(),
            views == part_views(parts@),
            n >= 2,
            share_len == views[0].len(),
            share_len >= 2,
            old(secret_out)@.len() == share_len - 1,
            secret_out@ == old(secret_out)@,
            i <= n,
            part_error(views, i as int) is None,
            x_samples@ == share_xs(views).subrange(0, i as int),
            forall|j: int| 0 <= j < i ==> (#[trigger] views[j]).len() == share_len,
            seen@.len() == 256,
            forall|v: int| 0 <= v < 256 ==> (#[trigger] seen@[v]) == x_samples@.contains(v as u8),
        decreases n - i,
    {
        let part = parts[i];
        proof {
            assert(views[i as int] == part@);
        }
        if part.len() != share_len {
            proof {
                assert(part_error(views, i + 1) == Some(ShamirError::PartsLengthMismatch));
                lemma_part_error_stable(views, i + 1, n as int);
            }
            return Err(ShamirError::PartsLengthMismatch);
        }
        let x = part[share_len - 1];
        proof {
            assert(share_x(views[i as int]) == x);
        }
        if x == 0 {
            proof {
                assert(part_error(views, i + 1) == Some(ShamirError::InvalidShareXValue));
                lemma_part_error_stable(views, i + 1, n as int);
            }
            return Err(ShamirError::InvalidShareXValue);
        }
        if seen[x as usize] {
            proof {
                assert(x_samples@.contains(x));
                let j = choose|j: int| 0 <= j < x_samples@.len() && x_samples@[j] == x;
                assert(share_x(views[j]) == x);
                assert(part_error(views, i + 1) == Some(ShamirError::DuplicatePartDetected));
                lemma_part_error_stable(views, i + 1, n as int);
            }
            return Err(ShamirError::DuplicatePartDetected);
        }
        proof {
            assert forall|j: int| 0 <= j < i implies share_x(#[trigger] views[j]) != x by {
                assert(x_samples@[j] == share_x(views[j]));
                assert(x_samples@.contains(x_samples@[j]));
            }
            assert(part_error(views, i + 1) is None);
        }
        seen[x as usize] = true;
        x_samples.push(x);
        proof {
            assert(x_samples@ =~= share_xs(views).subrange(0, i + 1));
            assert forall|v: int| 0 <= v < 256 implies (#[trigger] seen@[v]) == x_samples@.contains(v as u8) by {
                if v == x as int {
                    assert(x_samples@[i as int] == x);
                } else {
                    if x_samples@.contains(v as u8) {
                        let j = choose|j: int| 0 <= j < x_samples@.len() && x_samples@[j] == v as u8;
                        assert(j < i);
                        assert(x_samples@.subrange(0, i as int)[j] == v as u8);
                    }
                    if x_samples@.subrange(0, i as int).contains(v as u8) {
                        let j = choose|j: int| 0 <= j < i && x_samples@.subrange(0, i as int)[j] == v as u8;
                        assert(x_samples@[j] == v as u8);
                    }
                }
            }
        }
        i += 1;
    }
    proof {
        assert(x_samples@ =~= share_xs(views));
        assert(combine_error(views, old(secret_out)@.len()) is None);
    }

    // Precompute the Lagrange basis at zero.
    let basis = compute_lagrange_basis_at_zero(x_samples.as_slice());

    let ghost expected = Seq::new(
        secret_len as nat,
        |b: int| lagrange_interpolate(share_xs(views), share_column(views, b), 0u8),
    );
    let mut byte_idx = 0usize;
    while byte_idx < secret_len
        invariant
            n == parts@.len(),
            views == part_views(parts@),
            x_samples@ == share_xs(views),
            basis@.len() == n,
            forall|k: int| 0 <= k < n ==> basis@[k] == crate::poly::lagrange_basis(x_samples@, k, 0u8),
            forall|j: int| 0 <= j < n ==> (#[trigger] views[j]).len() == share_len,
            secret_len == share_len - 1,
            secret_out@.len() == secret_len,
            expected.len() == secret_len,
            forall|b: int|
                0 <= b < secret_len ==> expected[b] == lagrange_interpolate(
                    share_xs(views),
                    share_column(views, b),
                    0u8,
                ),
            byte_idx <= secret_len,
            forall|b: int| 0 <= b < byte_idx ==> secret_out@[b] == expected[b],
        decreases secret_len - byte_idx,
    {
        let mut val = 0u8;
        let mut i = 0usize;
        while i < n
            invariant
                n == parts@.len(),
                views == part_views(parts@),
                basis@.len() == n,
                forall|j: int| 0 <= j < n ==> (#[trigger] views[j]).len() == share_len,
                byte_idx < secret_len,
                secret_len == share_len - 1,
                i <= n,
                val == lagrange_sum(share_xs(views), share_column(views, byte_idx as int), 0u8, i as int),
                forall|k: int| 0 <= k < n ==> basis@[k] == crate::poly::lagrange_basis(share_xs(views), k, 0u8),
            decreases n - i,
        {
            proof {
                assert(views[i as int] == parts@[i as int]@);
                assert(share_column(views, byte_idx as int)[i as int] == parts@[i as int]@[byte_idx as int]);
            }
            val ^= mult(parts[i][byte_idx], basis[i]);
            i += 1;
        }
        proof {
            assert(share_xs(views).len() == n);
            assert(val == expected[byte_idx as int]);
        }
        secret_out[byte_idx] = val;
        byte_idx += 1;
    }
    proof {
        assert(secret_out@ =~= expected);
    }
    Ok(())
}

impl ShamirZero {
    /// Reconstructs the secret from `threshold` or more shares. Checks that
    /// the shares have one length, allocates the secret and delegates to
    /// `shamir_combine`.
    pub fn combine(parts: &[Vec<u8>]) -> (r: Result<Vec<u8>, ShamirError>)
        ensures
            zero_combine_result(vec_views(parts@)) matches Err(e) ==> r == Err::<Vec<u8>, _>(e),
            zero_combine_result(vec_views(parts@)) matches Ok(s) ==> r matches Ok(v) && v@ == s,
    {
        let ghost views = vec_views(parts@);
        if parts.len() < 2 {
            return Err(ShamirError::RequiredMinimumParts);
        }
        proof {
            assert(views[0] == parts@[0]@);
        }
        let share_len = if parts[0].len() >= 2 {
            parts[0].len()
        } else {
            return Err(ShamirError::MinimumPartByteLength);
        };

        let mut i = 0usize;
        while i < parts.len()
            invariant
                views == vec_views(parts@),
                parts@.len() >= 2,
                share_len == views[0].len(),
                share_len >= 2,
                i <= parts@.len(),
                forall|j: int| 0 <= j < i ==> (#[trigger] views[j]).len() == share_len,
            decreases parts@.len() - i,
        {
            proof {
                assert(views[i as int] == parts@[i as int]@);
            }
            if parts[i].len() != share_len {
                proof {
                    assert(views[i as int].len() != views[0].len());
                }
                return Err(ShamirError::PartsLengthMismatch);
            }
            i += 1;
        }

        let secret_len = share_len - 1;
        let mut recovered = vec![0u8; secret_len];

        let mut slices: Vec<&[u8]> = Vec::new();
        let mut i = 0usize;
        while i < parts.len()
            invariant
                i <= parts@.len(),
                slices@.len() == i,
                forall|j: int| 0 <= j < i ==> (#[trigger] slices@[j])@ == parts@[j]@,
            decreases parts@.len() - i,
        {
            slices.push(parts[i].as_slice());
            i += 1;
        }
        proof {
            assert(part_views(slices@) =~= views);
        }

        match shamir_combine(slices.as_slice(), recovered.as_mut_slice()) {
            Ok(()) => Ok(recovered),
            Err(e) => Err(e),
        }
    }
}

// ---------------------------------------------------------------------------
// Laws
// ---------------------------------------------------------------------------

/// The shares at the given indices, in the given order.
pub open spec fn pick(shares: Seq<Seq<u8>>, picked: Seq<int>) -> Seq<Seq<u8>> {
    Seq::new(picked.len(), |k: int| shares[picked[k]])
}

/// `picked` holds distinct indices below `bound`.
pub open spec fn distinct_indices(picked: Seq<int>, bound: int) -> bool {
    &&& forall|k: int| 0 <= k < picked.len() ==> 0 <= #[trigger] picked[k] < bound
    &&& forall|k: int, l: int|
        0 <= k < picked.len() && 0 <= l < picked.len() && k != l ==> picked[k] != picked[l]
}

/// Shares of equal length with distinct nonzero x-coordinates pass the checks.
proof fn lemma_no_part_error(parts: Seq<Seq<u8>>, k: int)
    requires
        0 <= k <= parts.len(),
        forall|j: int| 0 <= j < k ==> (#[trigger] parts[j]).len() == parts[0].len(),
        forall|j: int| 0 <= j < k ==> share_x(#[trigger] parts[j]) != 0,
        forall|i: int, j: int| 0 <= i < k && 0 <= j < k && i != j ==> share_x(parts[i]) != share_x(parts[j]),
    ensures
        part_error(parts, k) is None,
    decreases k,
{
    if k > 0 {
        lemma_no_part_error(parts, k - 1);
        if exists|j: int| 0 <= j < k - 1 && share_x(#[trigger] parts[j]) == share_x(parts[k - 1]) {
            let j = choose|j: int| 0 <= j < k - 1 && share_x(#[trigger] parts[j]) == share_x(parts[k - 1]);
            assert(share_x(parts[j]) != share_x(parts[k - 1]));
        }
    }
}

/// The polynomial of byte `b` has `threshold` coefficients and the secret
/// byte as constant coefficient.
proof fn lemma_byte_poly(secret: Seq<u8>, random: Seq<u8>, degree: int, b: int)
    requires
        degree >= 1,
        0 <= b < secret.len(),
        random.len() == secret.len() * degree,
    ensures
        byte_poly(secret, random, degree, b).len() == degree + 1,
        byte_poly(secret, random, degree, b)[0] == secret[b],
        poly_eval(byte_poly(secret, random, degree, b), 0u8) == secret[b],
{
    lemma_coefficient_offsets(b, secret.len() as int, degree);
    crate::poly::lemma_eval_at_zero(byte_poly(secret, random, degree, b));
}

/// Any `threshold` or more distinct shares of a split reconstruct the
/// secret, through `shamir_combine` and through `ShamirZero::combine` alike,
/// whatever the random coefficients were.
pub proof fn lemma_combine_recovers_secret(
    secret: Seq<u8>,
    threshold: int,
    random: Seq<u8>,
    shares: Seq<Seq<u8>>,
    picked: Seq<int>,
)
    requires
        secret.len() > 0,
        2 <= threshold <= 255,
        shares.len() <= 255,
        is_split(secret, threshold, random, shares),
        picked.len() >= threshold,
        distinct_indices(picked, shares.len() as int),
    ensures
        combine_result(pick(shares, picked), secret.len()) == Ok::<Seq<u8>, ShamirError>(secret),
        zero_combine_result(pick(shares, picked)) == Ok::<Seq<u8>, ShamirError>(secret),
{
    let d = threshold - 1;
    let n = secret.len();
    let sel = pick(shares, picked);
    let m = picked.len() as int;
    let xs = share_xs(sel);
    assert forall|k: int| 0 <= k < m implies (#[trigger] sel[k]) == share(
        secret,
        random,
        d,
        (picked[k] + 1) as u8,
    ) && sel[k].len() == n + 1 && xs[k] == picked[k] + 1 by {
        assert(sel[k] == shares[picked[k]]);
    }
    assert forall|i: int, j: int| 0 <= i < m && 0 <= j < m && i != j implies share_x(sel[i]) != share_x(
        sel[j],
    ) by {
        assert(xs[i] == share_x(sel[i]));
        assert(xs[j] == share_x(sel[j]));
    }
    assert forall|j: int| 0 <= j < m implies share_x(#[trigger] sel[j]) != 0 by {
        assert(xs[j] == share_x(sel[j]));
    }
    lemma_no_part_error(sel, m);
    assert(combine_error(sel, n) is None);
    assert(crate::poly::distinct(xs)) by {
        assert forall|i: int, j: int| 0 <= i < xs.len() && 0 <= j < xs.len() && i != j implies xs[i]
            != xs[j] by {
            assert(share_x(sel[i]) != share_x(sel[j]));
        }
    }
    let recovered = Seq::new(n, |b: int| lagrange_interpolate(xs, share_column(sel, b), 0u8));
    assert forall|b: int| 0 <= b < n implies recovered[b] == secret[b] by {
        let c = byte_poly(secret, random, d, b);
        lemma_byte_poly(secret, random, d, b);
        let col = share_column(sel, b);
        assert forall|k: int| 0 <= k < xs.len() implies col[k] == poly_eval(c, #[trigger] xs[k]) by {
            assert(sel[k] == share(secret, random, d, (picked[k] + 1) as u8));
            assert(col[k] == sel[k][b]);
        }
        crate::poly::lemma_interpolation(c, xs, col, 0u8);
    }
    assert(recovered =~= secret);
    assert(!(exists|i: int| 0 <= i < sel.len() && (#[trigger] sel[i]).len() != sel[0].len()));
}

/// A polynomial with `t` coefficients through the points `(nodes[i], vals[i])`.
spec fn refit_poly(nodes: Seq<u8>, vals: Seq<u8>, t: nat) -> Seq<u8> {
    choose|c: Seq<u8>|
        c.len() == t && forall|i: int| 0 <= i < nodes.len() ==> poly_eval(c, #[trigger] nodes[i]) == vals[i]
}

/// Fewer than `threshold` shares say nothing about the secret: whatever
/// other secret of the same length is put in its place, some choice of the
/// random coefficients gives exactly the same shares at those indices.
pub proof fn lemma_fewer_shares_reveal_nothing(
    secret: Seq<u8>,
    other: Seq<u8>,
    threshold: int,
    random: Seq<u8>,
    picked: Seq<int>,
)
    requires
        other.len() == secret.len(),
        2 <= threshold <= 255,
        random.len() == secret.len() * (threshold - 1),
        picked.len() < threshold,
        distinct_indices(picked, 255),
    ensures
        exists|random2: Seq<u8>|
            random2.len() == random.len() && forall|k: int|
                0 <= k < picked.len() ==> share(other, random2, threshold - 1, (#[trigger] picked[k] + 1) as u8)
                    == share(secret, random, threshold - 1, (picked[k] + 1) as u8),
{
    let d = threshold - 1;
    let n = secret.len() as int;
    let m = picked.len() as int;
    let t = threshold as nat;
    let xs = Seq::new(m as nat, |k: int| (picked[k] + 1) as u8);
    let nodes = seq![0u8] + xs;
    assert(crate::poly::distinct(nodes)) by {
        assert forall|i: int, j: int|
            0 <= i < nodes.len() && 0 <= j < nodes.len() && i != j implies nodes[i] != nodes[j] by {
            if i > 0 && j > 0 {
                assert(picked[i - 1] != picked[j - 1]);
            }
        }
    }
    let vals = |b: int|
        seq![other[b]] + Seq::new(m as nat, |k: int| poly_eval(byte_poly(secret, random, d, b), xs[k]));
    let random2 = Seq::new((n * d) as nat, |j: int| refit_poly(nodes, vals(j / d), t)[1 + j % d]);
    assert(n * d >= 0) by (nonlinear_arith)
        requires
            n >= 0,
            d >= 1,
    ;
    assert forall|b: int| 0 <= b < n implies #[trigger] byte_poly(other, random2, d, b) == refit_poly(
        nodes,
        vals(b),
        t,
    ) by {
        crate::poly::lemma_interpolant_exists(nodes, vals(b), t);
        let c = refit_poly(nodes, vals(b), t);
        lemma_coefficient_offsets(b, n, d);
        crate::poly::lemma_eval_at_zero(c);
        assert(poly_eval(c, nodes[0]) == vals(b)[0]);
        let bp = byte_poly(other, random2, d, b);
        assert forall|i: int| 0 <= i < c.len() implies bp[i] == c[i] by {
            if i > 0 {
                let j = b * d + (i - 1);
                vstd::arithmetic::div_mod::lemma_fundamental_div_mod_converse_div(j, d, b, i - 1);
                vstd::arithmetic::div_mod::lemma_fundamental_div_mod_converse_mod(j, d, b, i - 1);
                assert(bp[i] == random2[j]);
            }
        }
        assert(bp =~= c);
    }
    assert forall|k: int| 0 <= k < m implies share(other, random2, d, (#[trigger] picked[k] + 1) as u8)
        == share(secret, random, d, (picked[k] + 1) as u8) by {
        let x = (picked[k] + 1) as u8;
        assert(xs[k] == x);
        assert(nodes[k + 1] == x);
        assert forall|b: int| 0 <= b < n implies share_values(other, random2, d, x)[b] == share_values(
            secret,
            random,
            d,
            x,
        )[b] by {
            crate::poly::lemma_interpolant_exists(nodes, vals(b), t);
            let c = refit_poly(nodes, vals(b), t);
            assert(byte_poly(other, random2, d, b) == c);
            assert(poly_eval(c, nodes[k + 1]) == vals(b)[k + 1]);
        }
        assert(share_values(other, random2, d, x) =~= share_values(secret, random, d, x));
    }
    assert(random2.len() == random.len());
}

/// XOR with `mask` turns every choice of random coefficients for `secret`
/// into one for `other` that gives the same shares at the picked indices,
/// and XOR with `mask` undoes itself.
pub open spec fn masks_secret(secret: Seq<u8>, other: Seq<u8>, threshold: int, picked: Seq<int>, mask: Seq<u8>) -> bool {
    &&& mask.len() == secret.len() * (threshold - 1)
    &&& forall|random: Seq<u8>|
        random.len() == mask.len() ==> crate::poly::poly_xor(
            #[trigger] crate::poly::poly_xor(random, mask),
            mask,
        ) == random && forall|k: int|
            0 <= k < picked.len() ==> share(
                other,
                crate::poly::poly_xor(random, mask),
                threshold - 1,
                (#[trigger] picked[k] + 1) as u8,
            ) == share(secret, random, threshold - 1, (picked[k] + 1) as u8)
}

/// Fewer than `threshold` shares say nothing about the secret, in the
/// uniform sense: for any other secret of the same length there is a mask
/// such that XOR with it, which undoes itself and so pairs the coefficient
/// sequences of that length one to one, carries every choice of random
/// coefficients for `secret` to one for `other` that gives exactly the same
/// shares at the picked indices. For any values of those shares, the choices
/// that produce them are therefore equally many for both secrets.
pub proof fn lemma_fewer_shares_uniform(
    secret: Seq<u8>,
    other: Seq<u8>,
    threshold: int,
    picked: Seq<int>,
)
    requires
        other.len() == secret.len(),
        2 <= threshold <= 255,
        picked.len() < threshold,
        distinct_indices(picked, 255),
    ensures
        exists|mask: Seq<u8>| #[trigger] masks_secret(secret, other, threshold, picked, mask),
{
    let d = threshold - 1;
    let n = secret.len() as int;
    let m = picked.len() as int;
    let t = threshold as nat;
    let xs = Seq::new(m as nat, |k: int| (picked[k] + 1) as u8);
    let nodes = seq![0u8] + xs;
    assert(crate::poly::distinct(nodes)) by {
        assert forall|i: int, j: int|
            0 <= i < nodes.len() && 0 <= j < nodes.len() && i != j implies nodes[i] != nodes[j] by {
            if i > 0 && j > 0 {
                assert(picked[i - 1] != picked[j - 1]);
            }
        }
    }
    let vals = |b: int| seq![secret[b] ^ other[b]] + Seq::new(m as nat, |k: int| 0u8);
    let mask = Seq::new((n * d) as nat, |j: int| refit_poly(nodes, vals(j / d), t)[1 + j % d]);
    assert(n * d >= 0) by (nonlinear_arith)
        requires
            n >= 0,
            d >= 1,
    ;
    assert forall|random: Seq<u8>| random.len() == mask.len() implies crate::poly::poly_xor(
        #[trigger] crate::poly::poly_xor(random, mask),
        mask,
    ) == random && forall|k: int|
        0 <= k < picked.len() ==> share(
            other,
            crate::poly::poly_xor(random, mask),
            d,
            (#[trigger] picked[k] + 1) as u8,
        ) == share(secret, random, d, (picked[k] + 1) as u8) by {
        let r2 = crate::poly::poly_xor(random, mask);
        assert forall|j: int| 0 <= j < random.len() implies crate::poly::poly_xor(r2, mask)[j]
            == random[j] by {
            assert(r2[j] == random[j] ^ mask[j]);
            lemma_add_laws(random[j], mask[j], mask[j]);
            lemma_add_laws(mask[j], 0u8, 0u8);
            lemma_add_laws(random[j], 0u8, 0u8);
        }
        assert(crate::poly::poly_xor(r2, mask) =~= random);
        assert forall|k: int| 0 <= k < picked.len() implies share(
            other,
            r2,
            d,
            (#[trigger] picked[k] + 1) as u8,
        ) == share(secret, random, d, (picked[k] + 1) as u8) by {
            let x = (picked[k] + 1) as u8;
            assert(xs[k] == x);
            assert(nodes[k + 1] == x);
            assert forall|b: int| 0 <= b < n implies share_values(other, r2, d, x)[b] == share_values(
                secret,
                random,
                d,
                x,
            )[b] by {
                crate::poly::lemma_interpolant_exists(nodes, vals(b), t);
                let q = refit_poly(nodes, vals(b), t);
                lemma_coefficient_offsets(b, n, d);
                crate::poly::lemma_eval_at_zero(q);
                assert(poly_eval(q, nodes[0]) == vals(b)[0]);
                let bp = byte_poly(secret, random, d, b);
                let bp2 = byte_poly(other, r2, d, b);
                assert forall|i: int| 0 <= i < q.len() implies bp2[i] == crate::poly::poly_xor(bp, q)[i] by {
                    if i > 0 {
                        let j = b * d + (i - 1);
                        vstd::arithmetic::div_mod::lemma_fundamental_div_mod_converse_div(j, d, b, i - 1);
                        vstd::arithmetic::div_mod::lemma_fundamental_div_mod_converse_mod(j, d, b, i - 1);
                        assert(bp2[i] == r2[j]);
                        assert(mask[j] == q[i]);
                    } else {
                        lemma_add_laws(secret[b], secret[b], other[b]);
                        lemma_add_laws(other[b], 0u8, 0u8);
                        assert(q[0] == secret[b] ^ other[b]);
                    }
                }
                assert(bp2 =~= crate::poly::poly_xor(bp, q));
                crate::poly::lemma_eval_xor(bp, q, x);
                assert(poly_eval(q, nodes[k + 1]) == vals(b)[k + 1]);
                lemma_add_laws(poly_eval(bp, x), 0u8, 0u8);
            }
            assert(share_values(other, r2, d, x) =~= share_values(secret, random, d, x));
        }
    }
    assert(masks_secret(secret, other, threshold, picked, mask));
}

/// Shares that `shamir_combine` accepts with an output buffer of length
/// `out_len`: at least two, all one byte longer than the output, with
/// distinct nonzero x-coordinates.
pub open spec fn valid_shares(parts: Seq<Seq<u8>>, out_len: nat) -> bool {
    &&& parts.len() >= 2
    &&& out_len >= 1
    &&& forall|i: int| 0 <= i < parts.len() ==> (#[trigger] parts[i]).len() == out_len + 1
    &&& forall|i: int| 0 <= i < parts.len() ==> share_x(#[trigger] parts[i]) != 0
    &&& crate::poly::distinct(share_xs(parts))
}

proof fn lemma_part_error_none(parts: Seq<Seq<u8>>, k: int)
    requires
        0 <= k <= parts.len(),
    ensures
        (part_error(parts, k) is None) == ((forall|j: int|
            0 <= j < k ==> (#[trigger] parts[j]).len() == parts[0].len() && share_x(parts[j]) != 0)
            && (forall|i: int, j: int|
            0 <= i < k && 0 <= j < k && i != j ==> share_x(parts[i]) != share_x(parts[j]))),
    decreases k,
{
    if k > 0 {
        lemma_part_error_none(parts, k - 1);
        if part_error(parts, k) is None {
            assert forall|i: int, j: int|
                0 <= i < k && 0 <= j < k && i != j implies share_x(parts[i]) != share_x(parts[j]) by {
                if i == k - 1 {
                    assert(!(0 <= j < k - 1 && share_x(parts[j]) == share_x(parts[k - 1])));
                } else if j == k - 1 {
                    assert(!(0 <= i < k - 1 && share_x(parts[i]) == share_x(parts[k - 1])));
                }
            }
        }
        if exists|j: int| 0 <= j < k - 1 && share_x(#[trigger] parts[j]) == share_x(parts[k - 1]) {
            let j = choose|j: int| 0 <= j < k - 1 && share_x(#[trigger] parts[j]) == share_x(parts[k - 1]);
            assert(share_x(parts[j]) == share_x(parts[k - 1]));
        }
    }
}

/// `shamir_combine` accepts exactly the valid shares.
pub proof fn lemma_combine_ok_iff(parts: Seq<Seq<u8>>, out_len: nat)
    ensures
        (combine_error(parts, out_len) is None) == valid_shares(parts, out_len),
{
    if parts.len() >= 2 {
        lemma_part_error_none(parts, parts.len() as int);
        let xs = share_xs(parts);
        if valid_shares(parts, out_len) {
            assert forall|i: int, j: int|
                0 <= i < parts.len() && 0 <= j < parts.len() && i != j implies share_x(parts[i])
                != share_x(parts[j]) by {
                assert(xs[i] != xs[j]);
            }
        }
        if combine_error(parts, out_len) is None {
            assert forall|i: int, j: int| 0 <= i < xs.len() && 0 <= j < xs.len() && i != j implies xs[i]
                != xs[j] by {
                assert(share_x(parts[i]) != share_x(parts[j]));
            }
            assert forall|i: int| 0 <= i < parts.len() implies (#[trigger] parts[i]).len() == out_len + 1 by {
                assert(parts[i].len() == parts[0].len());
            }
        }
    }
}

/// The order in which the shares are given to `shamir_combine` does not
/// matter: a reordering is accepted exactly when the shares are, and then
/// gives the same secret.
pub proof fn lemma_combine_order_irrelevant(parts: Seq<Seq<u8>>, perm: Seq<int>, out_len: nat)
    requires
        crate::poly::is_permutation(perm, parts.len() as int),
    ensures
        (combine_result(crate::poly::permute(parts, perm), out_len) is Ok) == (combine_result(
            parts,
            out_len,
        ) is Ok),
        combine_result(parts, out_len) is Ok ==> combine_result(crate::poly::permute(parts, perm), out_len)
            == combine_result(parts, out_len),
{
    let n = parts.len() as int;
    let parts2 = crate::poly::permute(parts, perm);
    let xs = share_xs(parts);
    let xs2 = share_xs(parts2);
    lemma_combine_ok_iff(parts, out_len);
    lemma_combine_ok_iff(parts2, out_len);
    assert(xs2 =~= crate::poly::permute(xs, perm));
    if valid_shares(parts, out_len) {
        assert forall|i: int| 0 <= i < n implies (#[trigger] parts2[i]).len() == out_len + 1 && share_x(
            parts2[i],
        ) != 0 by {
            assert(parts2[i] == parts[perm[i]]);
        }
        assert forall|i: int, j: int| 0 <= i < n && 0 <= j < n && i != j implies xs2[i] != xs2[j] by {
            assert(perm[i] != perm[j]);
            assert(xs[perm[i]] != xs[perm[j]]);
        }
        assert(valid_shares(parts2, out_len));
        assert forall|b: int| 0 <= b < out_len implies lagrange_interpolate(xs2, share_column(parts2, b), 0u8)
            == lagrange_interpolate(xs, share_column(parts, b), 0u8) by {
            assert(share_column(parts2, b) =~= crate::poly::permute(share_column(parts, b), perm));
            crate::poly::lemma_interpolate_permutation(xs, share_column(parts, b), perm, 0u8);
        }
        assert(Seq::new(out_len, |b: int| lagrange_interpolate(xs2, share_column(parts2, b), 0u8)) =~= Seq::new(
            out_len,
            |b: int| lagrange_interpolate(xs, share_column(parts, b), 0u8),
        ));
    }
    if valid_shares(parts2, out_len) {
        assert forall|j: int| 0 <= j < n implies (#[trigger] parts[j]).len() == out_len + 1 && share_x(
            parts[j],
        ) != 0 by {
            assert(perm.contains(j));
            let i = choose|i: int| 0 <= i < perm.len() && perm[i] == j;
            assert(parts2[i] == parts[j]);
        }
        assert forall|j1: int, j2: int| 0 <= j1 < n && 0 <= j2 < n && j1 != j2 implies xs[j1] != xs[j2] by {
            assert(perm.contains(j1));
            assert(perm.contains(j2));
            let i1 = choose|i: int| 0 <= i < perm.len() && perm[i] == j1;
            let i2 = choose|i: int| 0 <= i < perm.len() && perm[i] == j2;
            assert(xs2[i1] != xs2[i2]);
        }
        assert(valid_shares(parts, out_len));
    }
}

/// No more than 255 shares can be combined: with more, two of them share an
/// x-coordinate or one has x-coordinate zero, and `shamir_combine` refuses them.
pub proof fn lemma_too_many_shares(parts: Seq<Seq<u8>>, out_len: nat)
    requires
        parts.len() > 255,
    ensures
        combine_result(parts, out_len) is Err,
{
    lemma_combine_ok_iff(parts, out_len);
    if valid_shares(parts, out_len) {
        let xs = share_xs(parts);
        let xi = Seq::new(xs.len(), |i: int| xs[i] as int);
        assert(xi.no_duplicates()) by {
            assert forall|i: int, j: int| 0 <= i < xi.len() && 0 <= j < xi.len() && i != j implies xi[i]
                != xi[j] by {
                assert(xs[i] != xs[j]);
            }
        }
        xi.unique_seq_to_set();
        assert(xi.to_set().subset_of(vstd::set_lib::set_int_range(1, 256))) by {
            assert forall|v: int| xi.to_set().contains(v) implies 1 <= v < 256 by {
                let i = choose|i: int| 0 <= i < xi.len() && xi[i] == v;
                assert(share_x(parts[i]) != 0);
                assert(xs[i] == share_x(parts[i]));
            }
        }
        vstd::set_lib::lemma_int_range(1, 256);
        vstd::set_lib::lemma_len_subset(xi.to_set(), vstd::set_lib::set_int_range(1, 256));
    }
}

} // verus!
