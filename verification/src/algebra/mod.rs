//! Characteristic-two algebra: groups, finite sums and fields.

pub mod field;
pub mod group;
pub mod sum;
