//! The cross-field switch: an evaluation claim over the GHASH field moved to a field of 162 bits.
//!
//! The witness is packed 128 bits an element. Its claim is split by the low coordinates into one
//! partial evaluation a bit position, and those are batched and summed over the larger field.

pub mod codec;
pub mod laws;
pub mod layout;
pub mod partial;
pub mod receiving;
pub mod sending;
