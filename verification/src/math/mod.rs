//! Index arithmetic, multilinear buffers and codes.

pub mod bit_reverse;
pub mod eq;
pub mod evaluation;
pub mod field_buffer;
pub mod index;
pub mod ntt;
pub mod reed_solomon;
pub mod subset;
pub mod transpose;
pub mod univariate;
