//! Round polynomials and how they are recovered from sampled values.

use crate::algebra::field::{FieldOps, lemma_times_nil, lemma_unit_times};
use crate::algebra::group::{AdditiveGroup, lemma_plus_cancel};
use vstd::prelude::*;

verus! {

/// The value at `x` of the polynomial with the given coefficients, lowest degree first.
pub open spec fn poly_eval<F: FieldOps>(coeffs: Seq<F>, x: F) -> F
    decreases coeffs.len(),
{
    if coeffs.len() == 0 {
        F::nil()
    } else {
        coeffs[0].plus(x.times(poly_eval(coeffs.skip(1), x)))
    }
}

/// The coefficients of one round's polynomial, lowest degree first.
#[derive(Debug, PartialEq, Eq)]
pub struct RoundCoeffs<F>(pub Vec<F>);

impl<F: FieldOps> RoundCoeffs<F> {
    /// The value of the polynomial at a point.
    pub fn evaluate(&self, x: F) -> (r: F)
        ensures
            r == poly_eval(self.0@, x),
    {
        let mut r = F::zero();
        let mut i: usize = self.0.len();
        assert(self.0@.skip(i as int) =~= Seq::<F>::empty());
        while i > 0
            invariant
                i <= self.0.len(),
                r == poly_eval(self.0@.skip(i as int), x),
            decreases i,
        {
            i = i - 1;
            proof {
                assert(self.0@.skip(i as int).skip(1) =~= self.0@.skip(i + 1));
            }
            r = self.0[i].add(x.mul(r));
        }
        assert(self.0@.skip(0) =~= self.0@);
        r
    }

    /// The coefficients without the highest one, which the receiver recovers from the claim.
    pub fn truncate(&self) -> (r: Vec<F>)
        ensures
            self.0.len() > 0 ==> r@ == self.0@.drop_last(),
            self.0.len() == 0 ==> r.len() == 0,
    {
        let mut r: Vec<F> = Vec::new();
        let mut i: usize = 0;
        while i + 1 < self.0.len()
            invariant
                i == r.len(),
                i < self.0.len() || self.0.len() == 0,
                self.0.len() == 0 ==> i == 0,
                forall|j: int| 0 <= j < i ==> #[trigger] r[j] == self.0[j],
            decreases self.0.len() - i,
        {
            r.push(self.0[i]);
            i = i + 1;
        }
        proof {
            if self.0.len() > 0 {
                assert(r@ =~= self.0@.drop_last());
            }
        }
        r
    }
}

/// The quadratic with values `claim - y_1` at zero, `y_1` at one, and leading coefficient `y_inf`.
pub open spec fn quadratic<F: FieldOps>(claim: F, y_1: F, y_inf: F) -> Seq<F> {
    let c0 = claim.plus(y_1);
    seq![c0, y_1.plus(c0).plus(y_inf), y_inf]
}

/// A round polynomial sampled at one and at infinity.
#[derive(Clone, Copy, Debug, PartialEq, Eq)]
pub struct RoundEvals<F> {
    pub y_1: F,
    pub y_inf: F,
}

impl<F: FieldOps> RoundEvals<F> {
    /// Recovers the polynomial whose values at zero and one sum to the claim.
    pub fn interpolate(&self, claim: F) -> (r: RoundCoeffs<F>)
        ensures
            r.0@ == quadratic(claim, self.y_1, self.y_inf),
    {
        let c0 = claim.add(self.y_1);
        let c1 = self.y_1.add(c0).add(self.y_inf);
        let mut coeffs: Vec<F> = Vec::new();
        coeffs.push(c0);
        coeffs.push(c1);
        coeffs.push(self.y_inf);
        assert(coeffs@ =~= quadratic(claim, self.y_1, self.y_inf));
        RoundCoeffs(coeffs)
    }
}

/// The value of a quadratic at a point.
pub proof fn lemma_quadratic_eval<F: FieldOps>(c: Seq<F>, x: F)
    requires
        c.len() == 3,
    ensures
        poly_eval(c, x) == c[0].plus(x.times(c[1])).plus(x.times(x.times(c[2]))),
{
    reveal_with_fuel(poly_eval, 4);
    assert(c.skip(1).skip(1).skip(1) =~= Seq::<F>::empty());
    assert(c.skip(1).skip(1)[0] == c[2]);
    assert(c.skip(1)[0] == c[1]);
    lemma_times_nil(x);
    F::plus_nil(c[2]);
    F::times_plus(x, c[1], x.times(c[2]));
    F::plus_assoc(c[0], x.times(c[1]), x.times(x.times(c[2])));
}

/// The recovered polynomial takes the sampled value at one, and its values at zero and one sum to
/// the claim.
pub proof fn interpolation_matches_samples<F: FieldOps>(claim: F, y_1: F, y_inf: F)
    ensures
        poly_eval(quadratic(claim, y_1, y_inf), F::unit()) == y_1,
        poly_eval(quadratic(claim, y_1, y_inf), F::nil()).plus(
            poly_eval(quadratic(claim, y_1, y_inf), F::unit()),
        ) == claim,
{
    let c = quadratic(claim, y_1, y_inf);
    let (c0, c1, c2) = (c[0], c[1], c[2]);
    lemma_quadratic_eval(c, F::unit());
    lemma_quadratic_eval(c, F::nil());
    lemma_unit_times(c1);
    lemma_unit_times(c2);
    lemma_times_nil(c1);
    lemma_times_nil(c2);
    lemma_times_nil(F::nil().times(c2));
    F::plus_nil(c0);
    // c0 + c1 + c2 = c0 + (y_1 + c0 + y_inf) + y_inf = y_1
    let a = y_1.plus(c0);
    F::plus_assoc(c0, a, c2);
    F::plus_assoc(c0.plus(a), c2, c2);
    F::plus_self(c2);
    F::plus_nil(c0.plus(a));
    F::plus_comm(y_1, c0);
    lemma_plus_cancel(y_1, c0);
    lemma_plus_cancel(claim, y_1);
}

} // verus!
