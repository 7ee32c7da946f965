//! Binary fields and vectors of their elements.

pub mod aes;
pub mod b1;
pub mod frobenius;
pub mod ghash;
pub mod ghash_sq;
pub mod ghash_trace;
pub mod packed;
pub mod simd;
pub mod types;
