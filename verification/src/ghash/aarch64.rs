//! GHASH arithmetic laid out for 128-bit vector registers.
//!
//! An element is a pair of 64-bit lanes.
//! An unreduced product is three such pairs `[t0, t1, t2]`, standing for
//! `t0 + t1 X^64 + t2 X^128`: consecutive limbs overlap by one lane.

use crate::algebra::group::lemma_xor;
use crate::algebra::sum::lemma_sum_nil;
use crate::bits::{bit64, lemma_bit64_xor, lemma_bit64_zero, lemma_halves};
use crate::ghash::X;
use crate::ghash::laws::{
    lemma_product_comm, lemma_product_one, lemma_product_x_pow, lemma_product_xor,
    lemma_times_x_pow_add, lemma_times_x_pow_xor, lemma_times_x_xor, lemma_x_pow, product, times_x,
    times_x_pow,
};
use crate::ghash::portable::clmul64;
use crate::ghash::reduction::{lemma_shift_fold, shift_fold, times_poly};
use crate::ghash::soft64::lemma_times_x_product;
use crate::ghash::wide::{
    coeff128, coeff64, join, lemma_coeff128_halves, lemma_coeff64_range, lemma_wide_product,
    lemma_wide_value, wide_bit,
};
use vstd::prelude::*;

verus! {

/// Low part of the reduction polynomial `X^128 + X^7 + X^2 + X + 1`.
pub const POLY: u64 = 0x87;

/// Two 64-bit polynomial lanes, the low one first.
#[derive(Clone, Copy, Debug, PartialEq, Eq, Structural)]
pub struct Poly64x2 {
    pub lo: u64,
    pub hi: u64,
}

impl Poly64x2 {
    /// The 128-bit word the lanes make up.
    pub open spec fn value(self) -> u128 {
        join(self.lo, self.hi)
    }

    /// Splits a word into lanes.
    pub fn new(x: u128) -> (r: Self)
        ensures
            r.value() == x,
    {
        proof {
            lemma_halves(x);
        }
        Poly64x2 { lo: x as u64, hi: (x >> 64) as u64 }
    }

    /// The word the lanes make up.
    pub fn to_u128(self) -> (r: u128)
        ensures
            r == self.value(),
    {
        (self.lo as u128) | ((self.hi as u128) << 64)
    }

    /// Lane-wise exclusive-or.
    pub fn xor(self, other: Self) -> (r: Self)
        ensures
            r.value() == self.value() ^ other.value(),
            r.lo == self.lo ^ other.lo,
            r.hi == self.hi ^ other.hi,
    {
        proof {
            lemma_lanes(self.lo, self.hi, other.lo, other.hi);
        }
        Poly64x2 { lo: self.lo ^ other.lo, hi: self.hi ^ other.hi }
    }

    /// The lanes exchanged.
    pub fn swap(self) -> (r: Self)
        ensures
            r.lo == self.hi,
            r.hi == self.lo,
    {
        Poly64x2 { lo: self.hi, hi: self.lo }
    }
}

/// The element an unreduced product `[t0, t1, t2]` stands for.
pub open spec fn limbs_value(t: [Poly64x2; 3]) -> u128 {
    t[0].value() ^ times_x_pow(t[1].value(), 64) ^ times_x_pow(t[2].value(), 128)
}

/// Words and lanes: sums, shifts and folds.
proof fn lemma_lanes(a: u64, b: u64, c: u64, d: u64)
    by (bit_vector)
    ensures
        join(a ^ c, b ^ d) == join(a, b) ^ join(c, d),
        join(0, 0) == 0,
        join(a, 0) == a as u128,
        join(a, b) == (a as u128) ^ shift_fold(b as u128),
        shift_fold(join(a, b)) == join(0, a) ^ times_poly(b as u128),
        b >> 63 == 0 || b >> 63 == 1,
        (b >> 63u64) & 1 != 1 ==> b >> 63u64 == 0,
        b >> 63 == 0 ==> times_x(join(a, b)) == join(
            (a << 1) ^ (POLY & 0),
            (b << 1) ^ (a >> 63),
        ),
        b >> 63 == 1 ==> times_x(join(a, b)) == join(
            (a << 1) ^ (POLY & u64::MAX),
            (b << 1) ^ (a >> 63),
        ),
        times_x(join(a, b)) == join(a << 1, b << 1) ^ shift_fold(join(a >> 63, b >> 63)),
        b >> 63 == 0 ==> times_x(join(a, b)) == join(a << 1, b << 1) ^ join(b >> 63, a >> 63),
{
}

/// Rearranged sums of words.
proof fn lemma_xor_words(a: u128, b: u128, c: u128, d: u128, e: u128, f: u128)
    by (bit_vector)
    ensures
        (a ^ b) ^ (c ^ d) == a ^ (b ^ c) ^ d,
        (((a ^ b) ^ (c ^ d)) ^ a) ^ d == b ^ c,
        a ^ (c ^ b) ^ ((e ^ d) ^ f) == ((a ^ b) ^ (c ^ d)) ^ (e ^ f),
        (a ^ b) ^ (c ^ d) ^ (e ^ f) == (a ^ c ^ e) ^ (b ^ d ^ f),
{
}

/// The high lane of a word carries the weight `X^64`.
proof fn lemma_join_value(lo: u64, hi: u64)
    ensures
        join(lo, hi) == (lo as u128) ^ times_x_pow(hi as u128, 64),
{
    lemma_shift_fold(hi as u128);
    lemma_lanes(lo, hi, 0, 0);
}

/// The carry-less product of two lanes.
fn vmull(x: u64, y: u64) -> (r: Poly64x2)
    ensures
        r.value() == product(x as u128, y as u128),
        !bit64(r.hi, 63),
{
    let (lo, hi) = clmul64(x, y);
    proof {
        let v = [lo, hi, 0u64, 0u64];
        lemma_lanes(x, 0, 0, 0);
        lemma_lanes(y, 0, 0, 0);
        assert forall|k: int| 0 <= k < 256 implies #[trigger] wide_bit(v, k) == coeff128(
            x as u128,
            y as u128,
            k,
        ) by {
            lemma_coeff128_halves(x, 0, y, 0, k);
            lemma_coeff64_zero(x, k - 64);
            lemma_coeff64_zero(y, k - 64);
            lemma_coeff64_zero(0, k - 128);
            if k < 64 {
                assert(bit64(lo, k) == coeff64(x, y, k));
            } else if k < 128 {
                assert(bit64(hi, k - 64) == coeff64(x, y, 64 + (k - 64)));
            } else {
                lemma_coeff64_range(x, y, k);
                lemma_bit64_zero(k % 64);
            }
        }
        lemma_wide_product(v, x as u128, y as u128);
        lemma_wide_value(v);
        lemma_times_x_pow_xor(0, 0, 128);
        lemma_xor(join(lo, hi), 0, 0);
        assert(bit64(hi, 63) == coeff64(x, y, 64int + 63));
        lemma_coeff64_range(x, y, 127);
    }
    Poly64x2 { lo, hi }
}

/// A zero factor makes every coefficient vanish.
proof fn lemma_coeff64_zero(x: u64, k: int)
    ensures
        !coeff64(x, 0, k),
        !coeff64(0, x, k),
{
    let f = |i: int| bit64(x, i) && bit64(0, k - i);
    let g = |i: int| bit64(0, i) && bit64(x, k - i);
    assert forall|i: int| 0 <= i < 64 implies #[trigger] f(i) == false by {
        lemma_bit64_zero(k - i);
    }
    assert forall|i: int| 0 <= i < 64 implies #[trigger] g(i) == false by {
        lemma_bit64_zero(i);
    }
    lemma_sum_nil(64, f);
    lemma_sum_nil(64, g);
}

/// The product of two elements from the products of their lanes.
proof fn lemma_product_lanes(a: u128, b: u128, c: u128, d: u128)
    ensures
        product(a ^ times_x_pow(b, 64), c ^ times_x_pow(d, 64)) == product(a, c) ^ times_x_pow(
            product(a, d) ^ product(b, c),
            64,
        ) ^ times_x_pow(product(b, d), 128),
{
    let tb = times_x_pow(b, 64);
    let td = times_x_pow(d, 64);
    lemma_product_xor(a, tb, c ^ td);
    lemma_product_xor(c, td, a);
    lemma_product_xor(c, td, tb);
    lemma_product_x_pow(a, d, 64);
    lemma_product_x_pow(b, c, 64);
    lemma_product_x_pow(b, td, 64);
    lemma_product_x_pow(b, d, 64);
    lemma_times_x_pow_add(product(b, d), 64, 64);
    lemma_times_x_pow_xor(product(a, d), product(b, c), 64);
    lemma_xor_words(
        product(a, c),
        times_x_pow(product(a, d), 64),
        times_x_pow(product(b, c), 64),
        times_x_pow(product(b, d), 128),
        0,
        0,
    );
}

/// The lane-wise left shift by one bit, and the bits it drops from each lane.
pub open spec fn lanes_shl(v: Poly64x2) -> Poly64x2 {
    Poly64x2 { lo: v.lo << 1, hi: v.hi << 1 }
}

/// The top bit of each lane, moved to the lane's bottom.
pub open spec fn lanes_top(v: Poly64x2) -> Poly64x2 {
    Poly64x2 { lo: v.lo >> 63, hi: v.hi >> 63 }
}

/// Schoolbook widening product: four lane products, no reduction.
pub fn mul_wide_schoolbook(x: Poly64x2, y: Poly64x2) -> (t: [Poly64x2; 3])
    ensures
        t[0].value() == product(x.lo as u128, y.lo as u128),
        t[1].value() == product(x.lo as u128, y.hi as u128) ^ product(
            x.hi as u128,
            y.lo as u128,
        ),
        t[2].value() == product(x.hi as u128, y.hi as u128),
        limbs_value(t) == product(x.value(), y.value()),
        forall|i: int| 0 <= i < 3 ==> !bit64(#[trigger] t[i].hi, 63),
{
    let y_swapped = y.swap();
    let cross_a = vmull(x.lo, y_swapped.lo);
    let cross_b = vmull(x.hi, y_swapped.hi);
    let t1 = cross_a.xor(cross_b);
    let t0 = vmull(x.lo, y.lo);
    let t2 = vmull(x.hi, y.hi);
    proof {
        lemma_bit64_xor(cross_a.hi, cross_b.hi, 63);
        lemma_join_value(x.lo, x.hi);
        lemma_join_value(y.lo, y.hi);
        lemma_product_lanes(x.lo as u128, x.hi as u128, y.lo as u128, y.hi as u128);
    }
    [t0, t1, t2]
}

/// Karatsuba widening product: three lane products, no reduction.
///
/// The middle limb is `(x0 + x1)(y0 + y1) + t0 + t2`.
pub fn mul_wide_karatsuba(x: Poly64x2, y: Poly64x2) -> (t: [Poly64x2; 3])
    ensures
        t[0].value() == product(x.lo as u128, y.lo as u128),
        t[1].value() == product(x.lo as u128, y.hi as u128) ^ product(
            x.hi as u128,
            y.lo as u128,
        ),
        t[2].value() == product(x.hi as u128, y.hi as u128),
        limbs_value(t) == product(x.value(), y.value()),
        forall|i: int| 0 <= i < 3 ==> !bit64(#[trigger] t[i].hi, 63),
{
    let t0 = vmull(x.lo, y.lo);
    let t2 = vmull(x.hi, y.hi);
    let x_fold = x.xor(x.swap());
    let y_fold = y.xor(y.swap());
    let mid = vmull(x_fold.lo, y_fold.lo);
    let m0 = mid.xor(t0);
    let t1 = m0.xor(t2);
    proof {
        let (a, b, c, d) = (x.lo as u128, x.hi as u128, y.lo as u128, y.hi as u128);
        lemma_bit64_xor(mid.hi, t0.hi, 63);
        lemma_bit64_xor(m0.hi, t2.hi, 63);
        lemma_join_value(x.lo, x.hi);
        lemma_join_value(y.lo, y.hi);
        lemma_product_lanes(a, b, c, d);
        assert((x.lo ^ x.hi) as u128 == a ^ b);
        assert((y.lo ^ y.hi) as u128 == c ^ d);
        lemma_product_xor(a, b, c ^ d);
        lemma_product_xor(c, d, a);
        lemma_product_xor(c, d, b);
        lemma_xor_words(product(a, c), product(a, d), product(b, c), product(b, d), 0, 0);
    }
    [t0, t1, t2]
}

/// Folds the limb `b`, standing at offset `X^64`, into `a`.
fn fold(a: Poly64x2, b: Poly64x2) -> (r: Poly64x2)
    ensures
        r.value() == a.value() ^ times_x_pow(b.value(), 64),
{
    // The low lane moves up; the high lane is congruent to its product with the polynomial.
    let shifted = Poly64x2 { lo: 0, hi: b.lo };
    let folded = vmull(b.hi, POLY);
    proof {
        lemma_shift_fold(b.value());
        lemma_poly_product(b.hi);
        lemma_lanes(b.lo, b.hi, 0, 0);
        lemma_xor(a.value(), shifted.value(), folded.value());
    }
    a.xor(shifted).xor(folded)
}

/// The product with the reduction polynomial as shifts.
proof fn lemma_poly_product(t: u64)
    ensures
        product(t as u128, POLY as u128) == times_poly(t as u128),
{
    let a = t as u128;
    lemma_low_lane_shifts(t);
    lemma_product_xor(1u128 ^ 2u128 ^ 4u128, 0x80u128, a);
    lemma_product_xor(1u128 ^ 2u128, 4u128, a);
    lemma_product_xor(1u128, 2u128, a);
    lemma_product_one(a);
    lemma_x_pow(1);
    lemma_x_pow(2);
    lemma_x_pow(7);
    lemma_product_x_pow(a, 1, 1);
    lemma_product_x_pow(a, 1, 2);
    lemma_product_x_pow(a, 1, 7);
    reveal_with_fuel(times_x_pow, 8);
}

proof fn lemma_low_lane_shifts(t: u64)
    by (bit_vector)
    ensures
        (POLY as u128) == 1u128 ^ 2u128 ^ 4u128 ^ 0x80u128,
        1u128 << 1u128 == 2,
        1u128 << 2u128 == 4,
        1u128 << 7u128 == 0x80,
        times_x(t as u128) == (t as u128) << 1,
        times_x(times_x(t as u128)) == (t as u128) << 2,
        times_x(times_x(times_x(times_x(times_x(times_x(times_x(t as u128))))))) == (t as u128)
            << 7,
{
}

/// Reduces the unreduced product `[t0, t1, t2]` to one element.
pub fn reduce(t: [Poly64x2; 3]) -> (r: Poly64x2)
    ensures
        r.value() == limbs_value(t),
{
    let t1 = fold(t[1], t[2]);
    proof {
        let (a, b, c) = (t[0].value(), t[1].value(), t[2].value());
        lemma_times_x_pow_xor(b, times_x_pow(c, 64), 64);
        lemma_times_x_pow_add(c, 64, 64);
        lemma_xor(a, times_x_pow(b, 64), times_x_pow(c, 128));
    }
    fold(t[0], t1)
}

/// `X` times an element: a left shift across both lanes, with the overflowing bit folded back in.
pub fn mul_x(x: Poly64x2) -> (r: Poly64x2)
    ensures
        r.value() == times_x(x.value()),
        r.value() == product(x.value(), X),
{
    let carry: u64 = x.lo >> 63;
    let mask: u64 = 0u64.wrapping_sub(x.hi >> 63);
    proof {
        lemma_times_x_product(x.value());
        lemma_lanes(x.lo, x.hi, 0, 0);
    }
    Poly64x2 { lo: (x.lo << 1) ^ (POLY & mask), hi: (x.hi << 1) ^ carry }
}

/// `X` times an unreduced product.
///
/// Each lane is shifted, and the bit it drops moves to the limb one step up.
/// The top limb has no limb above it, so its top bit must be clear; this holds for every sum of
/// widening products.
/// The result itself may have that bit set, so it is to be reduced before the next shift.
pub fn mul_x_wide(t: [Poly64x2; 3]) -> (r: [Poly64x2; 3])
    ensures
        r[0].value() == lanes_shl(t[0]).value(),
        r[1].value() == lanes_shl(t[1]).value() ^ lanes_top(t[0]).value(),
        r[2].value() == lanes_shl(t[2]).value() ^ lanes_top(t[1]).value() ^ join(
            t[2].hi >> 63,
            t[2].lo >> 63,
        ),
        !bit64(t[2].hi, 63) ==> limbs_value(r) == times_x(limbs_value(t)),
{
    let s0 = Poly64x2 { lo: t[0].lo << 1, hi: t[0].hi << 1 };
    let s1 = Poly64x2 { lo: t[1].lo << 1, hi: t[1].hi << 1 };
    let s2 = Poly64x2 { lo: t[2].lo << 1, hi: t[2].hi << 1 };
    let c0 = Poly64x2 { lo: t[0].lo >> 63, hi: t[0].hi >> 63 };
    let c1 = Poly64x2 { lo: t[1].lo >> 63, hi: t[1].hi >> 63 };
    let c2 = Poly64x2 { lo: t[2].lo >> 63, hi: t[2].hi >> 63 };
    let carry2 = c2.swap();
    let r = [s0, s1.xor(c0), s2.xor(c1).xor(carry2)];
    proof {
        if !bit64(t[2].hi, 63) {
            let (a, b, c) = (t[0].value(), t[1].value(), t[2].value());
            lemma_lanes(t[0].lo, t[0].hi, 0, 0);
            lemma_lanes(t[1].lo, t[1].hi, 0, 0);
            lemma_lanes(t[2].lo, t[2].hi, 0, 0);
            lemma_shift_fold(c0.value());
            lemma_shift_fold(c1.value());
            // Move the shift through the three weights.
            lemma_times_x_xor(a ^ times_x_pow(b, 64), times_x_pow(c, 128));
            lemma_times_x_xor(a, times_x_pow(b, 64));
            lemma_times_x_pow_shift(b, 64);
            lemma_times_x_pow_shift(c, 128);
            lemma_times_x_pow_xor(s1.value(), c0.value(), 64);
            lemma_times_x_pow_xor(s1.value(), times_x_pow(c1.value(), 64), 64);
            lemma_times_x_pow_xor(s2.value() ^ c1.value(), carry2.value(), 128);
            lemma_times_x_pow_xor(s2.value(), c1.value(), 128);
            lemma_times_x_pow_xor(s2.value(), carry2.value(), 128);
            lemma_times_x_pow_add(c1.value(), 64, 64);
            lemma_xor_words(
                s0.value(),
                times_x_pow(c0.value(), 64),
                times_x_pow(s1.value(), 64),
                times_x_pow(c1.value(), 128),
                times_x_pow(s2.value(), 128),
                times_x_pow(carry2.value(), 128),
            );
        }
    }
    r
}

/// A shift commutes with a power of `X`.
proof fn lemma_times_x_pow_shift(a: u128, n: int)
    requires
        0 <= n,
    ensures
        times_x(times_x_pow(a, n)) == times_x_pow(times_x(a), n),
{
    lemma_times_x_pow_add(a, n, 1);
    lemma_times_x_pow_add(a, 1, n);
    assert(times_x_pow(a, 1) == times_x(times_x_pow(a, 0)));
    assert(times_x_pow(times_x_pow(a, n), 1) == times_x(times_x_pow(times_x_pow(a, n), 0)));
}

/// The square of an element: the cross term cancels, so the middle limb is zero.
pub fn square(x: Poly64x2) -> (r: Poly64x2)
    ensures
        r.value() == product(x.value(), x.value()),
{
    let t0 = vmull(x.lo, x.lo);
    let t2 = vmull(x.hi, x.hi);
    let mid = Poly64x2 { lo: 0, hi: 0 };
    proof {
        let (a, b) = (x.lo as u128, x.hi as u128);
        lemma_join_value(x.lo, x.hi);
        lemma_product_lanes(a, b, a, b);
        lemma_product_comm(a, b);
        lemma_xor(product(a, b), 0, 0);
        lemma_lanes(0, 0, 0, 0);
    }
    reduce([t0, mid, t2])
}

/// The product of two elements by the schoolbook widening product.
pub fn mul_schoolbook(x: Poly64x2, y: Poly64x2) -> (r: Poly64x2)
    ensures
        r.value() == product(x.value(), y.value()),
{
    reduce(mul_wide_schoolbook(x, y))
}

/// The product of two elements by the Karatsuba widening product.
pub fn mul_karatsuba(x: Poly64x2, y: Poly64x2) -> (r: Poly64x2)
    ensures
        r.value() == product(x.value(), y.value()),
{
    reduce(mul_wide_karatsuba(x, y))
}

/// Reduction is additive: unreduced products can be summed limb by limb and reduced once.
pub proof fn reduction_is_additive(s: [Poly64x2; 3], t: [Poly64x2; 3], u: [Poly64x2; 3])
    requires
        forall|i: int| 0 <= i < 3 ==> #[trigger] u[i].value() == s[i].value() ^ t[i].value(),
    ensures
        limbs_value(u) == limbs_value(s) ^ limbs_value(t),
{
    assert(u[0].value() == s[0].value() ^ t[0].value());
    assert(u[1].value() == s[1].value() ^ t[1].value());
    assert(u[2].value() == s[2].value() ^ t[2].value());
    lemma_times_x_pow_xor(s[1].value(), t[1].value(), 64);
    lemma_times_x_pow_xor(s[2].value(), t[2].value(), 128);
    lemma_xor_words(
        s[0].value(),
        t[0].value(),
        times_x_pow(s[1].value(), 64),
        times_x_pow(t[1].value(), 64),
        times_x_pow(s[2].value(), 128),
        times_x_pow(t[2].value(), 128),
    );
}

} // verus!
