//! The shift reduction: operand claims under shifts become one claim on the witness.

pub mod agreement;
pub mod builder;
pub mod claims;
pub mod completeness;
pub mod evaluation;
pub mod g;
pub mod keys;
pub mod layout;
pub mod laws;
pub mod monster;
pub mod operator;
pub mod outer;
pub mod phase_1;
pub mod phase_2;
pub mod prove;
pub mod references;
pub mod shift_ind;
pub mod sparse;
pub mod wire;
