//! The oracle layer of a protocol.

pub mod oracle_setup;
