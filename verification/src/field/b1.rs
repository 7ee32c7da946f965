//! The field of two elements.

use crate::algebra::field::{Field, FieldOps};
use crate::algebra::group::AdditiveGroup;
use vstd::prelude::*;

verus! {

/// A bit, added by exclusive-or and multiplied by conjunction.
#[derive(Clone, Copy, Debug, PartialEq, Eq, Structural)]
pub struct BinaryField1b(pub bool);

impl AdditiveGroup for BinaryField1b {
    open spec fn nil() -> Self {
        BinaryField1b(false)
    }

    open spec fn plus(self, rhs: Self) -> Self {
        BinaryField1b(self.0 != rhs.0)
    }

    proof fn plus_comm(a: Self, b: Self) {
    }

    proof fn plus_assoc(a: Self, b: Self, c: Self) {
    }

    proof fn plus_nil(a: Self) {
    }

    proof fn plus_self(a: Self) {
    }
}

impl FieldOps for BinaryField1b {
    type Wide = BinaryField1b;

    open spec fn unit() -> Self {
        BinaryField1b(true)
    }

    open spec fn times(self, rhs: Self) -> Self {
        BinaryField1b(self.0 && rhs.0)
    }

    open spec fn wide_value(w: Self) -> Self {
        w
    }

    proof fn times_comm(a: Self, b: Self) {
    }

    proof fn times_assoc(a: Self, b: Self, c: Self) {
    }

    proof fn times_unit(a: Self) {
    }

    proof fn times_plus(a: Self, b: Self, c: Self) {
    }

    fn zero() -> (r: Self) {
        BinaryField1b(false)
    }

    fn one() -> (r: Self) {
        BinaryField1b(true)
    }

    fn add(self, rhs: Self) -> (r: Self) {
        BinaryField1b(self.0 != rhs.0)
    }

    fn mul(self, rhs: Self) -> (r: Self) {
        BinaryField1b(self.0 && rhs.0)
    }

    fn square(self) -> (r: Self) {
        self
    }

    fn wide_zero() -> (w: Self) {
        BinaryField1b(false)
    }

    fn wide_mul(a: Self, b: Self) -> (w: Self) {
        BinaryField1b(a.0 && b.0)
    }

    fn wide_add(x: Self, y: Self) -> (w: Self) {
        BinaryField1b(x.0 != y.0)
    }

    fn reduce(w: Self) -> (r: Self) {
        w
    }
}

impl Field for BinaryField1b {
    open spec fn inverse(self) -> Self {
        self
    }

    fn invert_or_zero(self) -> (r: Self) {
        self
    }
}

} // verus!
