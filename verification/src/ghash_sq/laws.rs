//! The extension's arithmetic and that it is a commutative ring.

use crate::algebra::group::lemma_xor;
use crate::ghash::ONE;
use crate::ghash::laws::{
    lemma_product_assoc, lemma_product_comm, lemma_product_one, lemma_product_x_pow,
    lemma_product_xor, lemma_product_zero, lemma_times_x_xor, product, times_x, times_x_pow,
};
use vstd::prelude::*;

verus! {

/// The sum of two elements.
pub open spec fn sq_plus(x: (u128, u128), y: (u128, u128)) -> (u128, u128) {
    (x.0 ^ y.0, x.1 ^ y.1)
}

/// The product of two elements, with `Y^2` replaced by `X Y + 1`.
pub open spec fn sq_times(x: (u128, u128), y: (u128, u128)) -> (u128, u128) {
    (
        product(x.0, y.0) ^ product(x.1, y.1),
        product(x.0, y.1) ^ product(x.1, y.0) ^ times_x(product(x.1, y.1)),
    )
}

/// Multiplication is commutative.
pub proof fn mul_is_commutative(x: (u128, u128), y: (u128, u128))
    ensures
        sq_times(x, y) == sq_times(y, x),
{
    lemma_product_comm(x.0, y.0);
    lemma_product_comm(x.1, y.1);
    lemma_product_comm(x.0, y.1);
    lemma_product_comm(x.1, y.0);
    lemma_xor(product(x.0, y.1), product(x.1, y.0), 0);
}

/// The pair `(1, 0)` is the identity.
pub proof fn one_is_identity(x: (u128, u128))
    ensures
        sq_times(x, (ONE, 0)) == x,
{
    lemma_product_one(x.0);
    lemma_product_one(x.1);
    lemma_product_zero(x.0);
    lemma_product_zero(x.1);
    lemma_times_x_xor(0, 0);
    lemma_xor(x.0, 0, 0);
    lemma_xor(x.1, 0, 0);
}

/// Multiplication distributes over addition.
pub proof fn mul_is_distributive(x: (u128, u128), y: (u128, u128), z: (u128, u128))
    ensures
        sq_times(x, sq_plus(y, z)) == sq_plus(sq_times(x, y), sq_times(x, z)),
{
    lemma_product_xor(y.0, z.0, x.0);
    lemma_product_xor(y.1, z.1, x.1);
    lemma_product_xor(y.1, z.1, x.0);
    lemma_product_xor(y.0, z.0, x.1);
    lemma_times_x_xor(product(x.1, y.1), product(x.1, z.1));
    lemma_xor_terms(
        product(x.0, y.0),
        product(x.0, z.0),
        product(x.1, y.1),
        product(x.1, z.1),
        0,
        0,
        0,
        0,
    );
    lemma_xor_terms(
        product(x.0, y.1),
        product(x.0, z.1),
        product(x.1, y.0),
        product(x.1, z.0),
        times_x(product(x.1, y.1)),
        times_x(product(x.1, z.1)),
        0,
        0,
    );
}

/// Multiplication is associative.
pub proof fn mul_is_associative(x: (u128, u128), y: (u128, u128), z: (u128, u128))
    ensures
        sq_times(sq_times(x, y), z) == sq_times(x, sq_times(y, z)),
{
    let (a, b) = x;
    let (c, d) = y;
    let (e, f) = z;
    let (ac, ad, bc, bd) = (product(a, c), product(a, d), product(b, c), product(b, d));
    let (ce, cf, de, df) = (product(c, e), product(c, f), product(d, e), product(d, f));
    let tbd = times_x(bd);
    let tdf = times_x(df);
    let bdf = product(bd, f);
    // Every triple product, grouped either way.
    lemma_product_assoc(a, c, e);
    lemma_product_assoc(a, c, f);
    lemma_product_assoc(a, d, e);
    lemma_product_assoc(a, d, f);
    lemma_product_assoc(b, c, e);
    lemma_product_assoc(b, c, f);
    lemma_product_assoc(b, d, e);
    lemma_product_assoc(b, d, f);
    // The left grouping.
    lemma_product_xor(ac, bd, e);
    lemma_product_xor(ac, bd, f);
    lemma_product_xor(ad ^ bc, tbd, e);
    lemma_product_xor(ad ^ bc, tbd, f);
    lemma_product_xor(ad, bc, e);
    lemma_product_xor(ad, bc, f);
    lemma_product_times_x(bd, e);
    lemma_product_times_x(bd, f);
    // The right grouping.
    lemma_product_xor(ce, df, a);
    lemma_product_xor(ce, df, b);
    lemma_product_xor(cf ^ de, tdf, a);
    lemma_product_xor(cf ^ de, tdf, b);
    lemma_product_xor(cf, de, a);
    lemma_product_xor(cf, de, b);
    lemma_product_times_x(a, df);
    lemma_product_times_x(b, df);
    // Shifts of sums.
    lemma_times_x_xor(product(ad, f) ^ product(bc, f), times_x(bdf));
    lemma_times_x_xor(product(ad, f), product(bc, f));
    lemma_times_x_xor(product(b, cf) ^ product(b, de), times_x(bdf));
    lemma_times_x_xor(product(b, cf), product(b, de));
    lemma_xor_terms(
        product(ac, e),
        product(bd, e),
        product(ad, f),
        product(bc, f),
        times_x(bdf),
        0,
        0,
        0,
    );
    lemma_xor_terms(
        product(ac, f),
        bdf,
        product(ad, e),
        product(bc, e),
        times_x(product(bd, e)),
        times_x(product(ad, f)),
        times_x(product(bc, f)),
        times_x(times_x(bdf)),
    );
}

/// The square has no cross term.
pub proof fn square_formula(x: (u128, u128))
    ensures
        sq_times(x, x) == (
            product(x.0, x.0) ^ product(x.1, x.1),
            times_x(product(x.1, x.1)),
        ),
{
    lemma_product_comm(x.0, x.1);
    lemma_xor(product(x.0, x.1), 0, 0);
    lemma_xor(times_x(product(x.1, x.1)), 0, 0);
}

/// A shift can be moved out of either factor.
proof fn lemma_product_times_x(a: u128, b: u128)
    ensures
        product(times_x(a), b) == times_x(product(a, b)),
        product(a, times_x(b)) == times_x(product(a, b)),
{
    lemma_product_x_pow(a, b, 1);
    let p = product(a, b);
    assert(times_x_pow(a, 1) == times_x(times_x_pow(a, 0)));
    assert(times_x_pow(b, 1) == times_x(times_x_pow(b, 0)));
    assert(times_x_pow(p, 1) == times_x(times_x_pow(p, 0)));
}

/// Rearranged sums of words.
proof fn lemma_xor_terms(
    a: u128,
    b: u128,
    c: u128,
    d: u128,
    e: u128,
    f: u128,
    g: u128,
    h: u128,
)
    by (bit_vector)
    ensures
        0u128 ^ a == a,
        a ^ 0u128 == a,
        a ^ b == b ^ a,
        (a ^ b) ^ (c ^ d) == (a ^ c) ^ (b ^ d),
        (a ^ b) ^ (c ^ d) ^ (e ^ f) == (a ^ c ^ e) ^ (b ^ d ^ f),
        (a ^ b) ^ ((c ^ d) ^ e) == (a ^ c) ^ ((d ^ b) ^ e),
        (a ^ b) ^ ((c ^ d) ^ e) ^ ((f ^ g) ^ h) == ((a ^ c) ^ f) ^ (d ^ b) ^ ((g ^ e) ^ h),
{
}

/// The product by three GHASH multiplications: the middle one is taken of the coordinates' sums.
pub proof fn lemma_karatsuba(x: (u128, u128), y: (u128, u128))
    ensures
        product(x.0 ^ x.1, y.0 ^ y.1) ^ (product(x.0, y.0) ^ product(x.1, y.1)) == product(
            x.0,
            y.1,
        ) ^ product(x.1, y.0),
{
    lemma_product_xor(x.0, x.1, y.0 ^ y.1);
    lemma_product_xor(y.0, y.1, x.0);
    lemma_product_xor(y.0, y.1, x.1);
    let (p, q, r, s) = (
        product(x.0, y.0),
        product(x.0, y.1),
        product(x.1, y.0),
        product(x.1, y.1),
    );
    lemma_xor_terms(p, q, s, r, 0, 0, 0, 0);
    lemma_xor(p ^ s, q ^ r, p ^ s);
    lemma_xor(q ^ r, p ^ s, p ^ s);
    lemma_xor(p ^ s, 0, 0);
    lemma_xor(q ^ r, 0, 0);
    lemma_xor(r, s, 0);
}

} // verus!
