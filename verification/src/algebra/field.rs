//! Binary fields as the algorithms see them: a ring with deferred reduction.

use crate::algebra::group::{AdditiveGroup, lemma_nil_plus};
use crate::algebra::sum::sum;
use vstd::prelude::*;

verus! {

/// The arithmetic of a binary field.
///
/// Products come in two forms.
/// [`mul`](FieldOps::mul) reduces at once.
/// [`wide_mul`](FieldOps::wide_mul) leaves the product unreduced, so a sum of products is reduced
/// only once.
pub trait FieldOps: AdditiveGroup {
    /// An unreduced product, or a sum of them.
    type Wide: Copy;

    /// The multiplicative identity.
    spec fn unit() -> Self;

    /// The product.
    spec fn times(self, rhs: Self) -> Self;

    /// The element an unreduced value stands for.
    spec fn wide_value(w: Self::Wide) -> Self;

    /// Multiplication is commutative.
    proof fn times_comm(a: Self, b: Self)
        ensures
            a.times(b) == b.times(a),
    ;

    /// Multiplication is associative.
    proof fn times_assoc(a: Self, b: Self, c: Self)
        ensures
            a.times(b).times(c) == a.times(b.times(c)),
    ;

    /// The identity changes nothing.
    proof fn times_unit(a: Self)
        ensures
            a.times(Self::unit()) == a,
    ;

    /// Multiplication distributes over addition.
    proof fn times_plus(a: Self, b: Self, c: Self)
        ensures
            a.times(b.plus(c)) == a.times(b).plus(a.times(c)),
    ;

    /// The additive identity.
    fn zero() -> (r: Self)
        ensures
            r == Self::nil(),
    ;

    /// The multiplicative identity.
    fn one() -> (r: Self)
        ensures
            r == Self::unit(),
    ;

    /// The sum of two elements, which is also their difference.
    fn add(self, rhs: Self) -> (r: Self)
        ensures
            r == self.plus(rhs),
    ;

    /// The product of two elements.
    fn mul(self, rhs: Self) -> (r: Self)
        ensures
            r == self.times(rhs),
    ;

    /// The square of an element.
    fn square(self) -> (r: Self)
        ensures
            r == self.times(self),
    ;

    /// The unreduced zero.
    fn wide_zero() -> (w: Self::Wide)
        ensures
            Self::wide_value(w) == Self::nil(),
    ;

    /// The unreduced product of two elements.
    fn wide_mul(a: Self, b: Self) -> (w: Self::Wide)
        ensures
            Self::wide_value(w) == a.times(b),
    ;

    /// The sum of two unreduced values.
    fn wide_add(x: Self::Wide, y: Self::Wide) -> (w: Self::Wide)
        ensures
            Self::wide_value(w) == Self::wide_value(x).plus(Self::wide_value(y)),
    ;

    /// Reduces an unreduced value to the element it stands for.
    fn reduce(w: Self::Wide) -> (r: Self)
        ensures
            r == Self::wide_value(w),
    ;
}

/// A binary field with inversion.
pub trait Field: FieldOps {
    /// What [`invert_or_zero`](Field::invert_or_zero) returns.
    spec fn inverse(self) -> Self;

    /// The inverse of an element, zero for zero.
    fn invert_or_zero(self) -> (r: Self)
        ensures
            r == self.inverse(),
    ;
}

/// Zero absorbs every factor.
pub proof fn lemma_times_nil<F: FieldOps>(a: F)
    ensures
        a.times(F::nil()) == F::nil(),
        F::nil().times(a) == F::nil(),
{
    let z = F::nil();
    F::plus_self(z);
    F::times_plus(a, z, z);
    F::plus_self(a.times(z));
    F::times_comm(a, z);
}

/// Multiplication distributes over addition from the right.
pub proof fn lemma_plus_times<F: FieldOps>(a: F, b: F, c: F)
    ensures
        a.plus(b).times(c) == a.times(c).plus(b.times(c)),
{
    F::times_comm(a.plus(b), c);
    F::times_plus(c, a, b);
    F::times_comm(c, a);
    F::times_comm(c, b);
}

/// The identity changes nothing from the left either.
pub proof fn lemma_unit_times<F: FieldOps>(a: F)
    ensures
        F::unit().times(a) == a,
{
    F::times_comm(F::unit(), a);
    F::times_unit(a);
}

/// A factor can be moved into a sum.
pub proof fn lemma_sum_scale<F: FieldOps>(n: int, c: F, f: spec_fn(int) -> F)
    ensures
        c.times(sum(n, f)) == sum(n, |i: int| c.times(f(i))),
        sum(n, f).times(c) == sum(n, |i: int| f(i).times(c)),
    decreases n,
{
    let g = |i: int| c.times(f(i));
    let h = |i: int| f(i).times(c);
    if n > 0 {
        lemma_sum_scale(n - 1, c, f);
        F::times_plus(c, sum(n - 1, f), f(n - 1));
        lemma_plus_times(sum(n - 1, f), f(n - 1), c);
    } else {
        lemma_times_nil(c);
    }
}

/// The scalar a bit stands for.
pub open spec fn select<G: AdditiveGroup>(bit: bool, value: G) -> G {
    if bit {
        value
    } else {
        G::nil()
    }
}

/// Selecting by the exclusive-or of two bits adds the two selections.
pub proof fn lemma_select_plus<G: AdditiveGroup>(a: bool, b: bool, value: G)
    ensures
        select(a != b, value) == select(a, value).plus(select(b, value)),
{
    G::plus_self(value);
    G::plus_nil(value);
    G::plus_nil(G::nil());
    lemma_nil_plus(value);
}

} // verus!
