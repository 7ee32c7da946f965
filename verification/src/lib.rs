//! Verified building blocks of a binary-field proof system over 64-bit words.

pub mod algebra;
pub mod bits;
pub mod circuits;
pub mod constraint_system;
pub mod crossfield;
pub mod field;
pub mod frontend;
pub mod ghash;
pub mod ghash_sq;
pub mod hash;
pub mod iop;
pub mod math;
pub mod prover;
pub mod recursion;
pub mod rijndael;
pub mod shift;
pub mod sumcheck;
pub mod utils;
pub mod word;
