//! The gates of a circuit, one file each.

pub mod kind;
pub mod shift;
