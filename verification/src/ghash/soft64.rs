//! Constant-time software arithmetic in the GHASH field for 64-bit architectures.

use crate::bits::{
    bit128, bit64, lemma_bit128_join, lemma_bit64_low_half, lemma_bit64_shl, lemma_bit64_shr,
    lemma_bit64_xor, lemma_halves,
};
use crate::ghash::{INV_X, X};
use crate::ghash::laws::{lemma_product_one, lemma_product_x_pow, product, times_x, times_x_pow};
use crate::ghash::portable::{bmul64, bsqr64, high_half, lemma_spread_bits, rev64, spread_bits};
use crate::ghash::reduction::{lemma_shift_fold, shift_fold};
use crate::ghash::wide::{
    coeff128, coeff64, join, lemma_coeff128_halves, lemma_coeff64_range, lemma_coeff64_reverse,
    lemma_coeff64_xor, lemma_wide_product, lemma_wide_square, lemma_wide_value,
    lemma_wide_value_shift, lemma_wide_value_xor, wide_bit, wide_value,
};
use vstd::prelude::*;

verus! {

/// The widening product of two elements: the 256-bit polynomial product, not reduced.
///
/// The result holds the four 64-bit limbs `v0 + v1 X^64 + v2 X^128 + v3 X^192`.
/// [`reduce`] is additive, so products can be summed limb by limb and reduced once.
pub fn mul_wide(x: u128, y: u128) -> (v: [u64; 4])
    ensures
        forall|k: int| 0 <= k < 256 ==> #[trigger] wide_bit(v, k) == coeff128(x, y, k),
        wide_value(v) == product(x, y),
        !wide_bit(v, 255),
{
    let x0 = x as u64;
    let x1 = (x >> 64) as u64;
    let y0 = y as u64;
    let y1 = (y >> 64) as u64;

    let x0r = rev64(x0);
    let x1r = rev64(x1);
    let x2 = x0 ^ x1;
    let x2r = x0r ^ x1r;

    let y0r = rev64(y0);
    let y1r = rev64(y1);
    let y2 = y0 ^ y1;
    let y2r = y0r ^ y1r;

    let z0 = bmul64(x0, y0);
    let z1 = bmul64(x1, y1);
    let p2 = bmul64(x2, y2);

    let r0 = bmul64(x0r, y0r);
    let r1 = bmul64(x1r, y1r);
    let p2r = bmul64(x2r, y2r);

    let z2 = p2 ^ (z0 ^ z1);
    let r2 = p2r ^ (r0 ^ r1);
    let z0h = high_half(r0);
    let z1h = high_half(r1);
    let z2h = high_half(r2);

    let v = [z0, z0h ^ z2, z1 ^ z2h, z1h];
    proof {
        lemma_halves(x);
        lemma_halves(y);
        // The low and high coefficients of the two products of equal halves.
        assert forall|k: int| 0 <= k < 64 implies #[trigger] bit64(z0h, k) == coeff64(
            x0,
            y0,
            64 + k,
        ) by {
            lemma_high(x0, y0, x0r, y0r, r0, k);
        }
        assert forall|k: int| 0 <= k < 64 implies #[trigger] bit64(z1h, k) == coeff64(
            x1,
            y1,
            64 + k,
        ) by {
            lemma_high(x1, y1, x1r, y1r, r1, k);
        }
        // The same for the cross term.
        assert forall|k: int| 0 <= k < 64 implies #[trigger] bit64(z2, k) == (coeff64(x0, y1, k)
            != coeff64(x1, y0, k)) by {
            lemma_bit64_xor(p2, z0 ^ z1, k);
            lemma_bit64_xor(z0, z1, k);
            lemma_cross(x0, x1, y0, y1, k);
        }
        assert forall|k: int| 0 <= k < 64 implies #[trigger] bit64(z2h, k) == (coeff64(
            x0,
            y1,
            64 + k,
        ) != coeff64(x1, y0, 64 + k)) by {
            assert(bit64(z2h, k) == bit64(r2, 62 - k));
            if k == 63 {
                lemma_coeff64_range(x0, y1, 127);
                lemma_coeff64_range(x1, y0, 127);
            } else {
                let j = 62 - k;
                lemma_bit64_xor(p2r, r0 ^ r1, j);
                lemma_bit64_xor(r0, r1, j);
                assert(bit64(p2r, j) == coeff64(x2r, y2r, j));
                assert(bit64(r0, j) == coeff64(x0r, y0r, j));
                assert(bit64(r1, j) == coeff64(x1r, y1r, j));
                lemma_cross(x0r, x1r, y0r, y1r, j);
                lemma_coeff64_reverse(x0, y1, x0r, y1r, j);
                lemma_coeff64_reverse(x1, y0, x1r, y0r, j);
            }
        }
        assert forall|k: int| 0 <= k < 256 implies #[trigger] wide_bit(v, k) == coeff128(
            x,
            y,
            k,
        ) by {
            lemma_coeff128_halves(x0, x1, y0, y1, k);
            let j = k % 64;
            if k < 64 {
                lemma_coeff64_range(x0, y1, k - 64);
                lemma_coeff64_range(x1, y0, k - 64);
                lemma_coeff64_range(x1, y1, k - 128);
            } else if k < 128 {
                lemma_coeff64_range(x1, y1, k - 128);
                lemma_bit64_xor(z0h, z2, j);
                assert(bit64(z0h, j) == coeff64(x0, y0, 64 + j));
                assert(bit64(z2, j) == (coeff64(x0, y1, j) != coeff64(x1, y0, j)));
            } else if k < 192 {
                lemma_coeff64_range(x0, y0, k);
                lemma_bit64_xor(z1, z2h, j);
                assert(bit64(z2h, j) == (coeff64(x0, y1, 64 + j) != coeff64(x1, y0, 64 + j)));
            } else {
                lemma_coeff64_range(x0, y0, k);
                lemma_coeff64_range(x0, y1, k - 64);
                lemma_coeff64_range(x1, y0, k - 64);
                assert(bit64(z1h, j) == coeff64(x1, y1, 64 + j));
            }
        }
        lemma_wide_product(v, x, y);
        assert(bit64(z1h, 63) == coeff64(x1, y1, 127));
        lemma_coeff64_range(x1, y1, 127);
    }
    v
}

/// The upper coefficients of a product, read off the product of the reversed factors.
proof fn lemma_high(x: u64, y: u64, xr: u64, yr: u64, r: u64, k: int)
    requires
        0 <= k < 64,
        forall|i: int| #[trigger] bit64(xr, i) == bit64(x, 63 - i),
        forall|i: int| #[trigger] bit64(yr, i) == bit64(y, 63 - i),
        forall|i: int| 0 <= i < 64 ==> #[trigger] bit64(r, i) == coeff64(xr, yr, i),
    ensures
        bit64(r, 62 - k) == coeff64(x, y, 64 + k),
{
    lemma_coeff64_reverse(x, y, xr, yr, 62 - k);
    if k == 63 {
        lemma_coeff64_range(x, y, 127);
    } else {
        assert(bit64(r, 62 - k) == coeff64(xr, yr, 62 - k));
    }
}

/// The cross term of a product of two sums.
proof fn lemma_cross(x0: u64, x1: u64, y0: u64, y1: u64, k: int)
    ensures
        (coeff64(x0 ^ x1, y0 ^ y1, k) != (coeff64(x0, y0, k) != coeff64(x1, y1, k))) == (coeff64(
            x0,
            y1,
            k,
        ) != coeff64(x1, y0, k)),
{
    lemma_coeff64_xor(x0, x1, y0 ^ y1, k);
    lemma_coeff64_xor(y0, y1, x0, k);
    lemma_coeff64_xor(y0, y1, x1, k);
}

/// Reduces a 256-bit polynomial modulo `X^128 + X^7 + X^2 + X + 1`.
pub fn reduce(v: [u64; 4]) -> (r: u128)
    ensures
        r == wide_value(v),
{
    let v3 = v[3];
    let w1 = v[1] ^ (v3 ^ (v3 << 1) ^ (v3 << 2) ^ (v3 << 7));
    let v2 = v[2] ^ ((v3 >> 63) ^ (v3 >> 62) ^ (v3 >> 57));
    let v0 = v[0] ^ (v2 ^ (v2 << 1) ^ (v2 << 2) ^ (v2 << 7));
    let v1 = w1 ^ ((v2 >> 63) ^ (v2 >> 62) ^ (v2 >> 57));
    proof {
        lemma_wide_value(v);
        lemma_shift_fold(join(v[2], v[3]));
        lemma_reduce(v[0], v[1], v[2], v[3], w1, v2, v0, v1);
    }
    (v0 as u128) | ((v1 as u128) << 64)
}

/// The two folding steps of the reduction, limb by limb.
proof fn lemma_reduce(
    a0: u64,
    a1: u64,
    a2: u64,
    a3: u64,
    w1: u64,
    v2: u64,
    v0: u64,
    v1: u64,
)
    by (bit_vector)
    requires
        w1 == a1 ^ (a3 ^ (a3 << 1) ^ (a3 << 2) ^ (a3 << 7)),
        v2 == a2 ^ ((a3 >> 63) ^ (a3 >> 62) ^ (a3 >> 57)),
        v0 == a0 ^ (v2 ^ (v2 << 1) ^ (v2 << 2) ^ (v2 << 7)),
        v1 == w1 ^ ((v2 >> 63) ^ (v2 >> 62) ^ (v2 >> 57)),
    ensures
        join(v0, v1) == join(a0, a1) ^ shift_fold(shift_fold(join(a2, a3))),
{
}

/// The product of two elements.
pub fn mul(x: u128, y: u128) -> (r: u128)
    ensures
        r == product(x, y),
{
    reduce(mul_wide(x, y))
}

/// A polynomial whose limbs are the quarters of `x`, spread, stands for the square of `x`.
pub proof fn lemma_spread_is_square(v: [u64; 4], x: u128)
    requires
        v[0] == spread_bits(x as u64 & 0xffffffff),
        v[1] == spread_bits(x as u64 >> 32),
        v[2] == spread_bits((x >> 64) as u64 & 0xffffffff),
        v[3] == spread_bits((x >> 64) as u64 >> 32),
    ensures
        wide_value(v) == product(x, x),
{
    let (x0, x1) = (x as u64, (x >> 64) as u64);
    let (x0l, x0h) = (x0 & 0xffffffff, x0 >> 32);
    let (x1l, x1h) = (x1 & 0xffffffff, x1 >> 32);
    lemma_halves(x);
    assert forall|k: int| 0 <= k < 128 implies #[trigger] bit128(x, k) == wide_bit(v, 2 * k)
        && !wide_bit(v, 2 * k + 1) by {
        lemma_bit128_join(x0, x1, k);
        let j = k % 32;
        lemma_bit64_low_half(x0, j);
        lemma_bit64_low_half(x1, j);
        lemma_bit64_shr(x0, 32, j);
        lemma_bit64_shr(x1, 32, j);
        assert((2 * k) % 64 == 2 * j && (2 * k + 1) % 64 == 2 * j + 1);
        if k < 32 {
            lemma_spread_bits(x0l, j);
            assert(bit64(x0l, j) == bit64(v[0], 2 * j) && !bit64(v[0], 2 * j + 1));
        } else if k < 64 {
            lemma_spread_bits(x0h, j);
            assert(bit64(x0h, j) == bit64(v[1], 2 * j) && !bit64(v[1], 2 * j + 1));
        } else if k < 96 {
            lemma_spread_bits(x1l, j);
            assert(bit64(x1l, j) == bit64(v[2], 2 * j) && !bit64(v[2], 2 * j + 1));
        } else {
            lemma_spread_bits(x1h, j);
            assert(bit64(x1h, j) == bit64(v[3], 2 * j) && !bit64(v[3], 2 * j + 1));
        }
    }
    assert forall|k: int| 0 <= k < 128 implies !#[trigger] wide_bit(v, 2 * k + 1) by {
        assert(bit128(x, k) == wide_bit(v, 2 * k));
    }
    lemma_wide_square(v, x);
}

/// The square of an element.
///
/// All cross terms of a square cancel, so the square of `a0 + a1 X + a2 X^2 + ...` is
/// `a0 + a1 X^2 + a2 X^4 + ...`: the bits move to the even positions.
pub fn square(x: u128) -> (r: u128)
    ensures
        r == product(x, x),
{
    let x0 = x as u64;
    let x1 = (x >> 64) as u64;

    let x0l: u64 = x0 & 0x00000000FFFFFFFF;
    let x0h: u64 = x0 >> 32;
    let x1l: u64 = x1 & 0x00000000FFFFFFFF;
    let x1h: u64 = x1 >> 32;

    let v = [bsqr64(x0l), bsqr64(x0h), bsqr64(x1l), bsqr64(x1h)];
    proof {
        lemma_spread_is_square(v, x);
    }
    reduce(v)
}

/// `X^-1` times an element: a right shift, with the dropped bit folded back in.
pub fn mul_inv_x(x: u128) -> (r: u128)
    ensures
        r == product(x, INV_X),
{
    let lsb: u128 = x & 1;
    let shifted: u128 = x >> 1;
    let mask: u128 = 0u128.wrapping_sub(lsb);
    proof {
        lemma_mask(x, product(x, INV_X));
        lemma_product_x_pow(x, INV_X, 1);
        lemma_product_one(x);
        let p = product(x, INV_X);
        assert(times_x_pow(INV_X, 1) == times_x(times_x_pow(INV_X, 0)));
        assert(times_x_pow(p, 1) == times_x(times_x_pow(p, 0)));
    }
    // The mask is all ones when the dropped bit is set, and zero otherwise.
    shifted ^ (INV_X & mask)
}

/// `X` times an element: a left shift, with the overflowing bit folded back in.
pub fn mul_x(x: u128) -> (r: u128)
    ensures
        r == product(x, X),
        r == times_x(x),
{
    let msb: u128 = x >> 127;
    let shifted: u128 = x << 1;
    let mask: u128 = 0u128.wrapping_sub(msb);
    proof {
        lemma_mask(x, 0);
        lemma_times_x_product(x);
    }
    // The mask is all ones when the top bit is set, and zero otherwise.
    shifted ^ (0x87 & mask)
}

/// The lowest and the highest bit of a word, the masks made from them, and that shifting down
/// with feedback is the only way to undo multiplication by `X`.
proof fn lemma_mask(x: u128, b: u128)
    by (bit_vector)
    ensures
        times_x(1) == X,
        times_x(INV_X) == 1,
        times_x(b) == x ==> b == (x >> 1) ^ (if x & 1 == 1 {
            INV_X
        } else {
            0u128
        }),
        x & 1 == 0 || x & 1 == 1,
        x >> 127 == 0 || x >> 127 == 1,
        INV_X & 0u128 == 0,
        INV_X & u128::MAX == INV_X,
        0x87u128 & 0u128 == 0,
        0x87u128 & u128::MAX == 0x87,
{
}

/// Multiplication by the element `X` is the shift with feedback.
pub proof fn lemma_times_x_product(x: u128)
    ensures
        product(x, X) == times_x(x),
{
    lemma_product_x_pow(x, 1, 1);
    lemma_product_one(x);
    assert(times_x_pow(1, 1) == times_x(times_x_pow(1, 0)));
    assert(times_x_pow(x, 1) == times_x(times_x_pow(x, 0)));
    lemma_mask(x, 0);
}

/// `X` times an unreduced product: a one-bit left shift of the whole 256-bit polynomial.
///
/// A product of two elements has degree at most 254, so its bit 255 is clear and nothing is
/// shifted out.
pub fn mul_x_wide(v: [u64; 4]) -> (r: [u64; 4])
    ensures
        forall|k: int| 0 <= k < 256 ==> #[trigger] wide_bit(r, k) == wide_bit(v, k - 1),
        !wide_bit(v, 255) ==> wide_value(r) == times_x(wide_value(v)),
{
    let r = [
        v[0] << 1,
        (v[1] << 1) ^ (v[0] >> 63),
        (v[2] << 1) ^ (v[1] >> 63),
        (v[3] << 1) ^ (v[2] >> 63),
    ];
    proof {
        assert forall|k: int| 0 <= k < 256 implies #[trigger] wide_bit(r, k) == wide_bit(
            v,
            k - 1,
        ) by {
            let i = k / 64;
            let j = k % 64;
            lemma_bit64_shl(v[i], 1, j);
            if 0 < i {
                lemma_bit64_xor(v[i] << 1, v[i - 1] >> 63, j);
                lemma_bit64_shr(v[i - 1], 63, j);
            }
        }
        if !wide_bit(v, 255) {
            lemma_wide_value_shift(v, r);
        }
    }
    r
}

/// Reduction is additive: limbs can be summed before reducing instead of after.
pub proof fn reduction_is_additive(u: [u64; 4], v: [u64; 4], w: [u64; 4])
    requires
        forall|i: int| 0 <= i < 4 ==> #[trigger] w[i] == u[i] ^ v[i],
    ensures
        wide_value(w) == wide_value(u) ^ wide_value(v),
{
    lemma_wide_value_xor(u, v, w);
}

} // verus!
