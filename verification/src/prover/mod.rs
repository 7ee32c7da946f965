//! Prover-side folding and the protocols built on it.

pub mod bit_transpose;
pub mod fold_word;
