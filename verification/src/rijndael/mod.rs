//! Arithmetic for the Rijndael field, GF(2)\[x\] / (x^8 + x^4 + x^3 + x + 1).

pub mod laws;
pub mod vmull;
