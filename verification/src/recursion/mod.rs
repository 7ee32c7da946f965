//! A verifier's run recorded as a circuit.

pub mod channel;
pub mod laws;
pub mod symbolic;
