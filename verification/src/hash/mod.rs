//! Hash functions, several messages at a time.

pub mod blake3_neon;
pub mod blake3_vectors;
pub mod sha256;
