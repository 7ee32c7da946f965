//! The quadratic extension of the GHASH field by a root `Y` of `Y^2 + X Y + 1`.
//!
//! An element `x0 + x1 Y` is held sliced, as the pair of its GHASH coordinates.

pub mod aarch64;
pub mod laws;
pub mod sliced;
pub mod soft64;
