//! Sumcheck rounds and the provers that run them.

pub mod channel;
pub mod evaluate;
pub mod frac_add_mle;
pub mod mle_check;
pub mod product;
pub mod prover;
pub mod replay;
pub mod round;
pub mod round_state;
