//! Circuits built from gadgets.

pub mod aggregate;
pub mod builder;
pub mod bytes;
pub mod fields;
pub mod populate;
