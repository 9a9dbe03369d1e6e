//! Numeric engine for the product-of-four identity: for integers n and k, the
//! product n·(n+k)·(n+2k)·(n+3k) plus k⁴ is the square of n·k + (n+k)².
//!
//! The crate offers the closed-form root, the divisor-square-sum of a square in
//! two interchangeable strategies, trial-division factorisation over a caller's
//! table of primes, and the search for other progressions that share a root.

pub mod bignum;
pub mod divisibility;
pub mod divisor_sum;
pub mod error;
pub mod factor;
pub mod factorization;
pub mod formula;
pub mod isqrt;
pub mod laws;
pub mod multiplicative;
pub mod number_list;
pub mod pairs;
pub mod sigma;
pub mod sums;
