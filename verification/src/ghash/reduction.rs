//! Folding the upper part of a product back below `X^128`.

use crate::ghash::laws::{lemma_times_x_pow_add, times_x, times_x_pow};
use vstd::prelude::*;

verus! {

/// `t` times `X^7 + X^2 + X + 1`, cut off at 128 bits.
pub open spec fn times_poly(t: u128) -> u128 {
    t ^ (t << 1) ^ (t << 2) ^ (t << 7)
}

/// `X^64` times an element, computed in one step.
pub open spec fn shift_fold(h: u128) -> u128 {
    (h << 64) ^ times_poly(h >> 64)
}

/// The multiplication by `X^n` as a shift and a fold.
spec fn fold_step(h: u128, n: u128) -> u128 {
    (h << n) ^ times_poly(h >> ((128 - n) as u128))
}

/// The shift and fold doubles.
proof fn lemma_fold_step(h: u128)
    by (bit_vector)
    ensures
        times_x(h) == fold_step(h, 1),
        fold_step(fold_step(h, 1), 1) == fold_step(h, 2),
        fold_step(fold_step(h, 2), 2) == fold_step(h, 4),
        fold_step(fold_step(h, 4), 4) == fold_step(h, 8),
        fold_step(fold_step(h, 8), 8) == fold_step(h, 16),
        fold_step(fold_step(h, 16), 16) == fold_step(h, 32),
        fold_step(fold_step(h, 32), 32) == shift_fold(h),
{
}

/// One doubling of the exponent.
proof fn lemma_double(h: u128, n: u128)
    requires
        n == 1 || n == 2 || n == 4 || n == 8 || n == 16 || n == 32 || n == 64,
    ensures
        n < 64 ==> times_x_pow(h, n as int) == fold_step(h, n),
        n == 64 ==> times_x_pow(h, 64) == shift_fold(h),
    decreases n,
{
    if n == 1 {
        lemma_fold_step(h);
        assert(times_x_pow(h, 1) == times_x(times_x_pow(h, 0)));
    } else {
        let m = n / 2;
        lemma_double(h, m);
        lemma_double(fold_step(h, m), m);
        lemma_times_x_pow_add(h, m as int, m as int);
        lemma_fold_step(h);
    }
}

/// Multiplication by `X^64` and by `X^128`.
pub proof fn lemma_shift_fold(h: u128)
    ensures
        times_x_pow(h, 64) == shift_fold(h),
        times_x_pow(h, 128) == shift_fold(shift_fold(h)),
{
    lemma_double(h, 64);
    lemma_times_x_pow_add(h, 64, 64);
    lemma_double(shift_fold(h), 64);
}

} // verus!
