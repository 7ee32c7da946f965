//! Sliced arithmetic in the extension with the software GHASH arithmetic.

use crate::algebra::field::FieldOps;
use crate::bits::lemma_bit64_xor;
use crate::ghash::laws::product;
use crate::ghash::wide::{lemma_wide_value_xor, wide_bit, wide_value};
use crate::ghash_sq::laws::sq_times;
use crate::ghash_sq::sliced::{GhashArithmetic, sliced_wide_value};
use vstd::prelude::*;

verus! {

/// The software implementation of GHASH.
pub struct Soft64;

impl GhashArithmetic for Soft64 {
    type Elem = u128;

    type Wide = [u64; 4];

    open spec fn value(x: u128) -> u128 {
        x
    }

    open spec fn wide_value(w: [u64; 4]) -> u128 {
        crate::ghash::wide::wide_value(w)
    }

    open spec fn shiftable(w: [u64; 4]) -> bool {
        !wide_bit(w, 255)
    }

    fn mul_wide(x: u128, y: u128) -> (w: [u64; 4]) {
        crate::ghash::soft64::mul_wide(x, y)
    }

    fn xor(x: u128, y: u128) -> (r: u128) {
        x ^ y
    }

    fn xor_wide(x: [u64; 4], y: [u64; 4]) -> (r: [u64; 4]) {
        let r = [x[0] ^ y[0], x[1] ^ y[1], x[2] ^ y[2], x[3] ^ y[3]];
        proof {
            lemma_wide_value_xor(x, y, r);
            lemma_bit64_xor(x[3], y[3], 63);
        }
        r
    }

    fn reduce(w: [u64; 4]) -> (r: u128) {
        crate::ghash::soft64::reduce(w)
    }

    fn mul_x_wide(w: [u64; 4]) -> (r: [u64; 4]) {
        crate::ghash::soft64::mul_x_wide(w)
    }

    fn square(x: u128) -> (r: u128) {
        crate::ghash::soft64::square(x)
    }

    fn mul_x(x: u128) -> (r: u128) {
        crate::ghash::soft64::mul_x(x)
    }
}

/// The product of two elements.
pub fn mul_sliced(x: [u128; 2], y: [u128; 2]) -> (r: [u128; 2])
    ensures
        (r[0], r[1]) == sq_times((x[0], x[1]), (y[0], y[1])),
{
    crate::ghash_sq::sliced::mul_sliced::<Soft64>(x, y)
}

/// The three raw GHASH products of a multiplication; [`reduce_sliced`] finishes it.
pub fn mul_wide_sliced(x: [u128; 2], y: [u128; 2]) -> (t: [[u64; 4]; 3])
    ensures
        wide_value(t[0]) == product(x[0], y[0]),
        wide_value(t[1]) == product(x[0] ^ x[1], y[0] ^ y[1]),
        wide_value(t[2]) == product(x[1], y[1]),
        sliced_wide_value::<Soft64>(t) == sq_times((x[0], x[1]), (y[0], y[1])),
        !wide_bit(t[2], 255),
{
    crate::ghash_sq::sliced::mul_wide_sliced::<Soft64>(x, y)
}

/// Reduces three raw products, or sums of them, to one element.
pub fn reduce_sliced(t: [[u64; 4]; 3]) -> (r: [u128; 2])
    ensures
        r[0] == wide_value(t[0]) ^ wide_value(t[2]),
        !wide_bit(t[2], 255) ==> (r[0], r[1]) == sliced_wide_value::<Soft64>(t),
{
    crate::ghash_sq::sliced::reduce_sliced::<Soft64>(t)
}

/// The square of an element.
pub fn square_sliced(x: [u128; 2]) -> (r: [u128; 2])
    ensures
        (r[0], r[1]) == sq_times((x[0], x[1]), (x[0], x[1])),
{
    crate::ghash_sq::sliced::square_sliced::<Soft64>(x)
}

} // verus!
