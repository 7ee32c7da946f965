//! Circuits as graphs of gates.

pub mod gate_laws;
pub mod gates;
pub mod graph;
pub mod ops;
pub mod wire_set;
pub mod zero_fold;
pub mod zero_laws;
