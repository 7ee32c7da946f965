//! Additive groups in which every element is its own negative.

use vstd::prelude::*;

verus! {

/// An additive group of characteristic two.
pub trait AdditiveGroup: Sized + Copy {
    /// The neutral element.
    spec fn nil() -> Self;

    /// The group operation.
    spec fn plus(self, rhs: Self) -> Self;

    /// Addition is commutative.
    proof fn plus_comm(a: Self, b: Self)
        ensures
            a.plus(b) == b.plus(a),
    ;

    /// Addition is associative.
    proof fn plus_assoc(a: Self, b: Self, c: Self)
        ensures
            a.plus(b).plus(c) == a.plus(b.plus(c)),
    ;

    /// The neutral element changes nothing.
    proof fn plus_nil(a: Self)
        ensures
            a.plus(Self::nil()) == a,
    ;

    /// Every element cancels itself.
    proof fn plus_self(a: Self)
        ensures
            a.plus(a) == Self::nil(),
    ;
}

impl AdditiveGroup for bool {
    open spec fn nil() -> Self {
        false
    }

    open spec fn plus(self, rhs: Self) -> Self {
        self != rhs
    }

    proof fn plus_comm(a: Self, b: Self) {
    }

    proof fn plus_assoc(a: Self, b: Self, c: Self) {
    }

    proof fn plus_nil(a: Self) {
    }

    proof fn plus_self(a: Self) {
    }
}

impl AdditiveGroup for u128 {
    open spec fn nil() -> Self {
        0
    }

    open spec fn plus(self, rhs: Self) -> Self {
        self ^ rhs
    }

    proof fn plus_comm(a: Self, b: Self) {
        lemma_xor(a, b, 0);
    }

    proof fn plus_assoc(a: Self, b: Self, c: Self) {
        lemma_xor(a, b, c);
    }

    proof fn plus_nil(a: Self) {
        lemma_xor(a, 0, 0);
    }

    proof fn plus_self(a: Self) {
        lemma_xor(a, 0, 0);
    }
}

/// The exclusive-or of 128-bit words is a group operation of characteristic two.
pub proof fn lemma_xor(a: u128, b: u128, c: u128)
    by (bit_vector)
    ensures
        a ^ b == b ^ a,
        (a ^ b) ^ c == a ^ (b ^ c),
        a ^ 0 == a,
        a ^ a == 0,
{
}

/// The middle two of four summands trade places.
pub proof fn lemma_plus_exchange<G: AdditiveGroup>(a: G, b: G, c: G, d: G)
    ensures
        a.plus(b).plus(c.plus(d)) == a.plus(c).plus(b.plus(d)),
{
    G::plus_assoc(a, b, c.plus(d));
    G::plus_assoc(b, c, d);
    G::plus_comm(b, c);
    G::plus_assoc(c, b, d);
    G::plus_assoc(a, c, b.plus(d));
}

/// The neutral element changes nothing from the left either.
pub proof fn lemma_nil_plus<G: AdditiveGroup>(a: G)
    ensures
        G::nil().plus(a) == a,
{
    G::plus_comm(G::nil(), a);
    G::plus_nil(a);
}

/// Adding the same element twice gives back the other summand.
pub proof fn lemma_plus_cancel<G: AdditiveGroup>(a: G, b: G)
    ensures
        a.plus(b).plus(b) == a,
        b.plus(b.plus(a)) == a,
{
    G::plus_assoc(a, b, b);
    G::plus_self(b);
    G::plus_nil(a);
    G::plus_assoc(b, b, a);
    lemma_nil_plus(a);
}

} // verus!
