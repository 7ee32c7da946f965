//! The quadratic extension of the GHASH field as a type.

use crate::algebra::field::{Field, FieldOps};
use crate::algebra::group::{AdditiveGroup, lemma_xor};
use crate::field::frobenius::{frobenius_product, invert};
use crate::ghash::ONE;
use crate::ghash_sq::laws::{
    mul_is_associative, mul_is_commutative, mul_is_distributive, one_is_identity, sq_plus, sq_times,
};
use vstd::prelude::*;

verus! {

/// An element `lo + hi Y` of the extension.
#[derive(Clone, Copy, Debug, PartialEq, Eq, Structural)]
pub struct GhashSq256b {
    pub lo: u128,
    pub hi: u128,
}

impl GhashSq256b {
    /// The coordinates as a pair.
    pub open spec fn pair(self) -> (u128, u128) {
        (self.lo, self.hi)
    }

    /// The element with the given coordinates.
    pub open spec fn of(p: (u128, u128)) -> Self {
        GhashSq256b { lo: p.0, hi: p.1 }
    }
}

impl AdditiveGroup for GhashSq256b {
    open spec fn nil() -> Self {
        GhashSq256b { lo: 0, hi: 0 }
    }

    open spec fn plus(self, rhs: Self) -> Self {
        Self::of(sq_plus(self.pair(), rhs.pair()))
    }

    proof fn plus_comm(a: Self, b: Self) {
        lemma_xor(a.lo, b.lo, 0);
        lemma_xor(a.hi, b.hi, 0);
    }

    proof fn plus_assoc(a: Self, b: Self, c: Self) {
        lemma_xor(a.lo, b.lo, c.lo);
        lemma_xor(a.hi, b.hi, c.hi);
    }

    proof fn plus_nil(a: Self) {
        lemma_xor(a.lo, 0, 0);
        lemma_xor(a.hi, 0, 0);
    }

    proof fn plus_self(a: Self) {
        lemma_xor(a.lo, 0, 0);
        lemma_xor(a.hi, 0, 0);
    }
}

impl FieldOps for GhashSq256b {
    type Wide = GhashSq256b;

    open spec fn unit() -> Self {
        GhashSq256b { lo: 1, hi: 0 }
    }

    open spec fn times(self, rhs: Self) -> Self {
        Self::of(sq_times(self.pair(), rhs.pair()))
    }

    open spec fn wide_value(w: Self) -> Self {
        w
    }

    proof fn times_comm(a: Self, b: Self) {
        mul_is_commutative(a.pair(), b.pair());
    }

    proof fn times_assoc(a: Self, b: Self, c: Self) {
        mul_is_associative(a.pair(), b.pair(), c.pair());
    }

    proof fn times_unit(a: Self) {
        one_is_identity(a.pair());
    }

    proof fn times_plus(a: Self, b: Self, c: Self) {
        mul_is_distributive(a.pair(), b.pair(), c.pair());
    }

    fn zero() -> (r: Self) {
        GhashSq256b { lo: 0, hi: 0 }
    }

    fn one() -> (r: Self) {
        GhashSq256b { lo: ONE, hi: 0 }
    }

    fn add(self, rhs: Self) -> (r: Self) {
        GhashSq256b { lo: self.lo ^ rhs.lo, hi: self.hi ^ rhs.hi }
    }

    fn mul(self, rhs: Self) -> (r: Self) {
        let p = crate::ghash_sq::soft64::mul_sliced([self.lo, self.hi], [rhs.lo, rhs.hi]);
        GhashSq256b { lo: p[0], hi: p[1] }
    }

    fn square(self) -> (r: Self) {
        let p = crate::ghash_sq::soft64::square_sliced([self.lo, self.hi]);
        GhashSq256b { lo: p[0], hi: p[1] }
    }

    fn wide_zero() -> (w: Self) {
        Self::zero()
    }

    fn wide_mul(a: Self, b: Self) -> (w: Self) {
        a.mul(b)
    }

    fn wide_add(x: Self, y: Self) -> (w: Self) {
        x.add(y)
    }

    fn reduce(w: Self) -> (r: Self) {
        w
    }
}

impl Field for GhashSq256b {
    open spec fn inverse(self) -> Self {
        frobenius_product(self, 255)
    }

    fn invert_or_zero(self) -> (r: Self) {
        invert(self, 255)
    }
}

} // verus!
