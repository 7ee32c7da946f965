//! What a round prover carries between two phases.

use vstd::prelude::*;

verus! {

/// The value a prover carries: a claim before a round, the round polynomials within it.
///
/// A prover holds exactly one of the two, so a call out of order can be told.
#[derive(Clone, Copy, Debug, PartialEq, Eq)]
pub enum RoundState<Coeffs, Claim> {
    /// Round polynomials awaiting the challenge that reduces them.
    Coeffs(Coeffs),
    /// Claims awaiting the next round polynomials.
    Claim(Claim),
}

impl<Coeffs, Claim> RoundState<Coeffs, Claim> {
    /// The carried claim, needed to produce this round's polynomials.
    pub fn claim(&self) -> (r: &Claim)
        requires
            self is Claim,
        ensures
            *r == self->Claim_0,
    {
        match self {
            RoundState::Claim(claim) => claim,
            RoundState::Coeffs(_) => vstd::pervasive::unreached(),
        }
    }

    /// This round's polynomials, needed to reduce them to the next claim.
    pub fn coeffs(&self) -> (r: &Coeffs)
        requires
            self is Coeffs,
        ensures
            *r == self->Coeffs_0,
    {
        match self {
            RoundState::Coeffs(coeffs) => coeffs,
            RoundState::Claim(_) => vstd::pervasive::unreached(),
        }
    }
}

} // verus!
