//! Threshold secret sharing over the scalar field of BN254.
//!
//! A secret is the constant term of a random polynomial of degree `t - 1`;
//! its values at `x = 1..=n` are the shares, and any `t` of them give the
//! secret back by Lagrange interpolation at zero.

pub mod field;
pub mod polynomial;
pub mod shamir;
