//! Inversion by raising to a power.

use crate::algebra::field::FieldOps;
use vstd::prelude::*;

verus! {

/// An element squared `n` times.
pub open spec fn frobenius<F: FieldOps>(a: F, n: int) -> F
    decreases n,
{
    if n <= 0 {
        a
    } else {
        frobenius(a, n - 1).times(frobenius(a, n - 1))
    }
}

/// The product of `a^2, a^4, a^8, ...` over the first `n` squarings: the power `2^(n + 1) - 2`.
pub open spec fn frobenius_product<F: FieldOps>(a: F, n: int) -> F
    decreases n,
{
    if n <= 0 {
        F::unit()
    } else {
        frobenius_product(a, n - 1).times(frobenius(a, n))
    }
}

/// Raises an element to the power `2^(n + 1) - 2`.
///
/// In a field of `2^(n + 1)` elements this is the inverse of every nonzero element, and zero for
/// zero.
pub fn invert<F: FieldOps>(a: F, n: usize) -> (r: F)
    ensures
        r == frobenius_product(a, n as int),
{
    let mut current = a;
    let mut r = F::one();
    let mut i: usize = 0;
    while i < n
        invariant
            i <= n,
            current == frobenius(a, i as int),
            r == frobenius_product(a, i as int),
        decreases n - i,
    {
        current = current.square();
        r = r.mul(current);
        i = i + 1;
    }
    r
}

} // verus!
