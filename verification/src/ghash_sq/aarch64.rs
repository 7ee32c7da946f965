//! Sliced arithmetic in the extension with the vector-register GHASH arithmetic.

use crate::algebra::field::FieldOps;
use crate::bits::{bit64, lemma_bit64_xor};
use crate::ghash::aarch64::{Poly64x2, limbs_value, mul_wide_schoolbook};
use crate::ghash::laws::product;
use crate::ghash_sq::laws::sq_times;
use crate::ghash_sq::sliced::{GhashArithmetic, sliced_value, sliced_wide_value};
use vstd::prelude::*;

verus! {

/// The implementation of GHASH on pairs of 64-bit lanes.
pub struct Lanes;

impl GhashArithmetic for Lanes {
    type Elem = Poly64x2;

    type Wide = [Poly64x2; 3];

    open spec fn value(x: Poly64x2) -> u128 {
        x.value()
    }

    open spec fn wide_value(w: [Poly64x2; 3]) -> u128 {
        limbs_value(w)
    }

    open spec fn shiftable(w: [Poly64x2; 3]) -> bool {
        !bit64(w[2].hi, 63)
    }

    fn mul_wide(x: Poly64x2, y: Poly64x2) -> (w: [Poly64x2; 3]) {
        mul_wide_schoolbook(x, y)
    }

    fn xor(x: Poly64x2, y: Poly64x2) -> (r: Poly64x2) {
        x.xor(y)
    }

    fn xor_wide(x: [Poly64x2; 3], y: [Poly64x2; 3]) -> (r: [Poly64x2; 3]) {
        let r = [x[0].xor(y[0]), x[1].xor(y[1]), x[2].xor(y[2])];
        proof {
            crate::ghash::aarch64::reduction_is_additive(x, y, r);
            lemma_bit64_xor(x[2].hi, y[2].hi, 63);
        }
        r
    }

    fn reduce(w: [Poly64x2; 3]) -> (r: Poly64x2) {
        crate::ghash::aarch64::reduce(w)
    }

    fn mul_x_wide(w: [Poly64x2; 3]) -> (r: [Poly64x2; 3]) {
        crate::ghash::aarch64::mul_x_wide(w)
    }

    fn square(x: Poly64x2) -> (r: Poly64x2) {
        crate::ghash::aarch64::square(x)
    }

    fn mul_x(x: Poly64x2) -> (r: Poly64x2) {
        crate::ghash::aarch64::mul_x(x)
    }
}

/// The product of two elements.
pub fn mul_sliced(x: [Poly64x2; 2], y: [Poly64x2; 2]) -> (r: [Poly64x2; 2])
    ensures
        sliced_value::<Lanes>(r) == sq_times(sliced_value::<Lanes>(x), sliced_value::<Lanes>(y)),
{
    crate::ghash_sq::sliced::mul_sliced::<Lanes>(x, y)
}

/// The three raw GHASH products of a multiplication; [`reduce_sliced`] finishes it.
pub fn mul_wide_sliced(x: [Poly64x2; 2], y: [Poly64x2; 2]) -> (t: [[Poly64x2; 3]; 3])
    ensures
        limbs_value(t[0]) == product(x[0].value(), y[0].value()),
        limbs_value(t[1]) == product(
            x[0].value() ^ x[1].value(),
            y[0].value() ^ y[1].value(),
        ),
        limbs_value(t[2]) == product(x[1].value(), y[1].value()),
        sliced_wide_value::<Lanes>(t) == sq_times(
            sliced_value::<Lanes>(x),
            sliced_value::<Lanes>(y),
        ),
        !bit64(t[2][2].hi, 63),
{
    crate::ghash_sq::sliced::mul_wide_sliced::<Lanes>(x, y)
}

/// Reduces three raw products, or sums of them, to one element.
pub fn reduce_sliced(t: [[Poly64x2; 3]; 3]) -> (r: [Poly64x2; 2])
    ensures
        r[0].value() == limbs_value(t[0]) ^ limbs_value(t[2]),
        !bit64(t[2][2].hi, 63) ==> sliced_value::<Lanes>(r) == sliced_wide_value::<Lanes>(t),
{
    crate::ghash_sq::sliced::reduce_sliced::<Lanes>(t)
}

/// The square of an element.
pub fn square_sliced(x: [Poly64x2; 2]) -> (r: [Poly64x2; 2])
    ensures
        sliced_value::<Lanes>(r) == sq_times(sliced_value::<Lanes>(x), sliced_value::<Lanes>(x)),
{
    crate::ghash_sq::sliced::square_sliced::<Lanes>(x)
}

} // verus!
