//! The GHASH field as a type.

use crate::algebra::field::{Field, FieldOps};
use crate::algebra::group::{AdditiveGroup, lemma_xor};
use crate::bits::lemma_xor64;
use crate::field::frobenius::{frobenius_product, invert};
use crate::ghash::ONE;
use crate::ghash::laws::{
    lemma_product_assoc, lemma_product_comm, lemma_product_one, lemma_product_xor, product,
};
use crate::ghash::wide::lemma_wide_value_xor;
use vstd::prelude::*;

verus! {

/// An element of the GHASH field; bit `i` is the coefficient of `X^i`.
#[derive(Clone, Copy, Debug, PartialEq, Eq, Structural)]
pub struct BinaryField128bGhash(pub u128);

impl AdditiveGroup for BinaryField128bGhash {
    open spec fn nil() -> Self {
        BinaryField128bGhash(0)
    }

    open spec fn plus(self, rhs: Self) -> Self {
        BinaryField128bGhash(self.0 ^ rhs.0)
    }

    proof fn plus_comm(a: Self, b: Self) {
        lemma_xor(a.0, b.0, 0);
    }

    proof fn plus_assoc(a: Self, b: Self, c: Self) {
        lemma_xor(a.0, b.0, c.0);
    }

    proof fn plus_nil(a: Self) {
        lemma_xor(a.0, 0, 0);
    }

    proof fn plus_self(a: Self) {
        lemma_xor(a.0, 0, 0);
    }
}

impl FieldOps for BinaryField128bGhash {
    type Wide = [u64; 4];

    open spec fn unit() -> Self {
        BinaryField128bGhash(1)
    }

    open spec fn times(self, rhs: Self) -> Self {
        BinaryField128bGhash(product(self.0, rhs.0))
    }

    open spec fn wide_value(w: [u64; 4]) -> Self {
        BinaryField128bGhash(crate::ghash::wide::wide_value(w))
    }

    proof fn times_comm(a: Self, b: Self) {
        lemma_product_comm(a.0, b.0);
    }

    proof fn times_assoc(a: Self, b: Self, c: Self) {
        lemma_product_assoc(a.0, b.0, c.0);
    }

    proof fn times_unit(a: Self) {
        lemma_product_one(a.0);
    }

    proof fn times_plus(a: Self, b: Self, c: Self) {
        lemma_product_xor(b.0, c.0, a.0);
    }

    fn zero() -> (r: Self) {
        BinaryField128bGhash(0)
    }

    fn one() -> (r: Self) {
        BinaryField128bGhash(ONE)
    }

    fn add(self, rhs: Self) -> (r: Self) {
        BinaryField128bGhash(self.0 ^ rhs.0)
    }

    fn mul(self, rhs: Self) -> (r: Self) {
        BinaryField128bGhash(crate::ghash::soft64::mul(self.0, rhs.0))
    }

    fn square(self) -> (r: Self) {
        BinaryField128bGhash(crate::ghash::soft64::square(self.0))
    }

    fn wide_zero() -> (w: [u64; 4]) {
        proof {
            let w = [0u64, 0u64, 0u64, 0u64];
            lemma_xor64(0);
            lemma_wide_value_xor(w, w, w);
            lemma_xor(crate::ghash::wide::wide_value(w), 0, 0);
        }
        [0, 0, 0, 0]
    }

    fn wide_mul(a: Self, b: Self) -> (w: [u64; 4]) {
        crate::ghash::soft64::mul_wide(a.0, b.0)
    }

    fn wide_add(x: [u64; 4], y: [u64; 4]) -> (w: [u64; 4]) {
        let w = [x[0] ^ y[0], x[1] ^ y[1], x[2] ^ y[2], x[3] ^ y[3]];
        proof {
            lemma_wide_value_xor(x, y, w);
        }
        w
    }

    fn reduce(w: [u64; 4]) -> (r: Self) {
        BinaryField128bGhash(crate::ghash::soft64::reduce(w))
    }
}

impl Field for BinaryField128bGhash {
    open spec fn inverse(self) -> Self {
        frobenius_product(self, 127)
    }

    fn invert_or_zero(self) -> (r: Self) {
        invert(self, 127)
    }
}

} // verus!
