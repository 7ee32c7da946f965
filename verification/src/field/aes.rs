//! The Rijndael field as a type.

use crate::algebra::field::{Field, FieldOps};
use crate::algebra::group::AdditiveGroup;
use crate::field::frobenius::{frobenius_product, invert};
use crate::rijndael::laws::{byte_product, lemma_byte_xor};
use crate::rijndael::vmull::mul_byte;
use vstd::prelude::*;

verus! {

/// An element of the Rijndael field.
#[derive(Clone, Copy, Debug, PartialEq, Eq, Structural)]
pub struct AESTowerField8b(pub u8);

impl AdditiveGroup for AESTowerField8b {
    open spec fn nil() -> Self {
        AESTowerField8b(0)
    }

    open spec fn plus(self, rhs: Self) -> Self {
        AESTowerField8b(self.0 ^ rhs.0)
    }

    proof fn plus_comm(a: Self, b: Self) {
        lemma_byte_xor(a.0, b.0, 0);
    }

    proof fn plus_assoc(a: Self, b: Self, c: Self) {
        lemma_byte_xor(a.0, b.0, c.0);
    }

    proof fn plus_nil(a: Self) {
        lemma_byte_xor(a.0, 0, 0);
    }

    proof fn plus_self(a: Self) {
        lemma_byte_xor(a.0, 0, 0);
    }
}

impl FieldOps for AESTowerField8b {
    type Wide = AESTowerField8b;

    open spec fn unit() -> Self {
        AESTowerField8b(1)
    }

    open spec fn times(self, rhs: Self) -> Self {
        AESTowerField8b(byte_product(self.0, rhs.0))
    }

    open spec fn wide_value(w: Self) -> Self {
        w
    }

    proof fn times_comm(a: Self, b: Self) {
        crate::rijndael::laws::mul_is_commutative(a.0, b.0);
    }

    proof fn times_assoc(a: Self, b: Self, c: Self) {
        crate::rijndael::laws::mul_is_associative(a.0, b.0, c.0);
    }

    proof fn times_unit(a: Self) {
        crate::rijndael::laws::one_is_identity(a.0);
    }

    proof fn times_plus(a: Self, b: Self, c: Self) {
        crate::rijndael::laws::mul_is_distributive(a.0, b.0, c.0);
    }

    fn zero() -> (r: Self) {
        AESTowerField8b(0)
    }

    fn one() -> (r: Self) {
        AESTowerField8b(1)
    }

    fn add(self, rhs: Self) -> (r: Self) {
        AESTowerField8b(self.0 ^ rhs.0)
    }

    fn mul(self, rhs: Self) -> (r: Self) {
        AESTowerField8b(mul_byte(self.0, rhs.0))
    }

    fn square(self) -> (r: Self) {
        AESTowerField8b(mul_byte(self.0, self.0))
    }

    fn wide_zero() -> (w: Self) {
        AESTowerField8b(0)
    }

    fn wide_mul(a: Self, b: Self) -> (w: Self) {
        AESTowerField8b(mul_byte(a.0, b.0))
    }

    fn wide_add(x: Self, y: Self) -> (w: Self) {
        AESTowerField8b(x.0 ^ y.0)
    }

    fn reduce(w: Self) -> (r: Self) {
        w
    }
}

impl Field for AESTowerField8b {
    open spec fn inverse(self) -> Self {
        frobenius_product(self, 7)
    }

    fn invert_or_zero(self) -> (r: Self) {
        invert(self, 7)
    }
}

} // verus!
