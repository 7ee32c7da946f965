//! Arithmetic for the GHASH field, `GF(2)[X] / (X^128 + X^7 + X^2 + X + 1)`.
//!
//! Bit `i` of an element is the coefficient of `X^i`.

pub mod aarch64;
pub mod laws;
pub mod portable;
pub mod reduction;
pub mod soft64;
pub mod wide;

use vstd::prelude::*;

verus! {

/// The multiplicative identity.
pub const ONE: u128 = 0x01;

/// The multiplicative inverse of `X`, which is `X^127 + X^6 + X + 1`.
pub const INV_X: u128 = 0x80000000000000000000000000000043;

/// The field generator `X`.
pub const X: u128 = 0x02;

} // verus!
