//! # `shamir_zero`: Shamir's secret sharing over GF(2^8)
//!
//! Split a secret into `n` shares such that any `k` of them (the threshold)
//! reconstruct it, while fewer than `k` shares reveal nothing about it.
//!
//! - `field`: the mathematical model of GF(2^8) and its laws.
//! - `poly`: polynomials over GF(2^8) and the Lagrange interpolation theorem.
//! - `math`: executable field arithmetic, random polynomials, interpolation.
//! - `shamir`: splitting and combining, with the laws that tie them together.
//! - `table`: the table of inverses, proved entry by entry.
use vstd::prelude::*;

pub mod field;
pub mod math;
pub mod poly;
mod rng;
pub mod shamir;
pub mod table;

pub use shamir::shamir_combine;
pub use shamir::shamir_split;
pub use shamir::ShamirError;
pub use shamir::ShamirZero;
