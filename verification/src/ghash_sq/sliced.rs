//! Sliced arithmetic in the extension over any implementation of the GHASH field.

use crate::algebra::field::FieldOps;
use crate::algebra::group::lemma_plus_exchange;
use crate::ghash::laws::{lemma_times_x_xor, product, times_x};
use crate::ghash_sq::laws::{lemma_karatsuba, sq_plus, sq_times, square_formula};
use vstd::prelude::*;

verus! {

/// An implementation of GHASH arithmetic with unreduced products.
pub trait GhashArithmetic {
    /// A field element.
    type Elem: Copy;

    /// An unreduced product, or a sum of them.
    type Wide: Copy;

    /// The field element a representation holds.
    spec fn value(x: Self::Elem) -> u128;

    /// The field element an unreduced product stands for.
    spec fn wide_value(w: Self::Wide) -> u128;

    /// Whether an unreduced product can be shifted without losing its top bit.
    spec fn shiftable(w: Self::Wide) -> bool;

    /// The unreduced product.
    fn mul_wide(x: Self::Elem, y: Self::Elem) -> (w: Self::Wide)
        ensures
            Self::wide_value(w) == product(Self::value(x), Self::value(y)),
            Self::shiftable(w),
    ;

    /// The sum of two elements.
    fn xor(x: Self::Elem, y: Self::Elem) -> (r: Self::Elem)
        ensures
            Self::value(r) == Self::value(x) ^ Self::value(y),
    ;

    /// The sum of two unreduced products.
    fn xor_wide(x: Self::Wide, y: Self::Wide) -> (r: Self::Wide)
        ensures
            Self::wide_value(r) == Self::wide_value(x) ^ Self::wide_value(y),
            Self::shiftable(x) && Self::shiftable(y) ==> Self::shiftable(r),
    ;

    /// Reduces a product.
    fn reduce(w: Self::Wide) -> (r: Self::Elem)
        ensures
            Self::value(r) == Self::wide_value(w),
    ;

    /// `X` times an unreduced product.
    fn mul_x_wide(w: Self::Wide) -> (r: Self::Wide)
        ensures
            Self::shiftable(w) ==> Self::wide_value(r) == times_x(Self::wide_value(w)),
    ;

    /// The square of an element.
    fn square(x: Self::Elem) -> (r: Self::Elem)
        ensures
            Self::value(r) == product(Self::value(x), Self::value(x)),
    ;

    /// `X` times an element.
    fn mul_x(x: Self::Elem) -> (r: Self::Elem)
        ensures
            Self::value(r) == times_x(Self::value(x)),
    ;
}

/// The coordinates a sliced element holds.
pub open spec fn sliced_value<A: GhashArithmetic>(x: [A::Elem; 2]) -> (u128, u128) {
    (A::value(x[0]), A::value(x[1]))
}

/// The element three raw products `[x0 y0, (x0 + x1)(y0 + y1), x1 y1]` stand for.
pub open spec fn sliced_wide_value<A: GhashArithmetic>(t: [A::Wide; 3]) -> (u128, u128) {
    let (p, q, r) = (A::wide_value(t[0]), A::wide_value(t[1]), A::wide_value(t[2]));
    (p ^ r, q ^ (p ^ r) ^ times_x(r))
}

/// The three raw GHASH products of a Karatsuba multiplication, not reduced.
pub fn mul_wide_sliced<A: GhashArithmetic>(x: [A::Elem; 2], y: [A::Elem; 2]) -> (t: [A::Wide; 3])
    ensures
        A::wide_value(t[0]) == product(A::value(x[0]), A::value(y[0])),
        A::wide_value(t[1]) == product(
            A::value(x[0]) ^ A::value(x[1]),
            A::value(y[0]) ^ A::value(y[1]),
        ),
        A::wide_value(t[2]) == product(A::value(x[1]), A::value(y[1])),
        sliced_wide_value::<A>(t) == sq_times(sliced_value::<A>(x), sliced_value::<A>(y)),
        A::shiftable(t[2]),
{
    let t0 = A::mul_wide(x[0], y[0]);
    let t2 = A::mul_wide(x[1], y[1]);
    let t1 = A::mul_wide(A::xor(x[0], x[1]), A::xor(y[0], y[1]));
    proof {
        lemma_karatsuba(sliced_value::<A>(x), sliced_value::<A>(y));
    }
    [t0, t1, t2]
}

/// Reduces three raw products, or sums of them, to one element.
///
/// The multiplication by `X` of the last one is deferred to here.
pub fn reduce_sliced<A: GhashArithmetic>(t: [A::Wide; 3]) -> (r: [A::Elem; 2])
    ensures
        A::value(r[0]) == A::wide_value(t[0]) ^ A::wide_value(t[2]),
        A::shiftable(t[2]) ==> sliced_value::<A>(r) == sliced_wide_value::<A>(t),
{
    let low = A::xor_wide(t[0], t[2]);
    let cross = A::xor_wide(t[1], low);
    let high = A::xor_wide(cross, A::mul_x_wide(t[2]));
    [A::reduce(low), A::reduce(high)]
}

/// The product of two elements.
pub fn mul_sliced<A: GhashArithmetic>(x: [A::Elem; 2], y: [A::Elem; 2]) -> (r: [A::Elem; 2])
    ensures
        sliced_value::<A>(r) == sq_times(sliced_value::<A>(x), sliced_value::<A>(y)),
{
    reduce_sliced::<A>(mul_wide_sliced::<A>(x, y))
}

/// The square of an element.
pub fn square_sliced<A: GhashArithmetic>(x: [A::Elem; 2]) -> (r: [A::Elem; 2])
    ensures
        sliced_value::<A>(r) == sq_times(sliced_value::<A>(x), sliced_value::<A>(x)),
{
    let s0 = A::square(x[0]);
    let s1 = A::square(x[1]);
    proof {
        square_formula(sliced_value::<A>(x));
    }
    [A::xor(s0, s1), A::mul_x(s1)]
}

/// Reduction is additive: raw products can be summed before reducing instead of after.
pub proof fn reduction_is_additive<A: GhashArithmetic>(
    s: [A::Wide; 3],
    t: [A::Wide; 3],
    u: [A::Wide; 3],
)
    requires
        forall|i: int|
            0 <= i < 3 ==> A::wide_value(#[trigger] u[i]) == A::wide_value(s[i]) ^ A::wide_value(
                t[i],
            ),
    ensures
        sliced_wide_value::<A>(u) == sq_plus(
            sliced_wide_value::<A>(s),
            sliced_wide_value::<A>(t),
        ),
{
    let (a, c, e) = (A::wide_value(s[0]), A::wide_value(s[1]), A::wide_value(s[2]));
    let (b, d, f) = (A::wide_value(t[0]), A::wide_value(t[1]), A::wide_value(t[2]));
    assert(A::wide_value(u[0]) == a ^ b);
    assert(A::wide_value(u[1]) == c ^ d);
    assert(A::wide_value(u[2]) == e ^ f);
    lemma_times_x_xor(e, f);
    lemma_plus_exchange(a, b, e, f);
    lemma_plus_exchange(c, d, a ^ e, b ^ f);
    lemma_plus_exchange(c ^ (a ^ e), d ^ (b ^ f), times_x(e), times_x(f));
}

} // verus!
