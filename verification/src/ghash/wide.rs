//! Unreduced products: carry-less multiplication and its coefficients.

use crate::algebra::field::{lemma_select_plus, select};
use crate::algebra::group::{AdditiveGroup, lemma_nil_plus};
use crate::algebra::sum::{
    lemma_sum_blocks, lemma_sum_ext, lemma_sum_first, lemma_sum_map, lemma_sum_nil, lemma_sum_plus,
    lemma_sum_prefix, lemma_sum_reverse, lemma_sum_split, lemma_sum_swap, lemma_sum_symmetric, sum,
};
use crate::bits::{bit128, bit64, lemma_bit128_join, lemma_bit64_xor};
use crate::ghash::laws::{
    lemma_expand, lemma_product_bits, lemma_product_comm, lemma_times_x_pow_add,
    lemma_times_x_pow_sum, lemma_times_x_pow_xor, product, times_x, times_x_pow,
};
use vstd::prelude::*;

verus! {

/// Coefficient `k` of the polynomial product of two 64-bit polynomials.
pub open spec fn coeff64(x: u64, y: u64, k: int) -> bool {
    sum(64, |i: int| bit64(x, i) && bit64(y, k - i))
}

/// Coefficient `k` of the polynomial product of two 128-bit polynomials.
pub open spec fn coeff128(x: u128, y: u128, k: int) -> bool {
    sum(128, |i: int| bit128(x, i) && bit128(y, k - i))
}

/// `X^k` as a field element.
pub open spec fn x_pow(k: int) -> u128 {
    times_x_pow(1, k)
}

/// Coefficient `k` of a 256-bit polynomial held in four limbs, lowest first.
pub open spec fn wide_bit(v: [u64; 4], k: int) -> bool {
    0 <= k < 256 && bit64(v[k / 64], k % 64)
}

/// The field element a 256-bit polynomial is congruent to.
pub open spec fn wide_value(v: [u64; 4]) -> u128 {
    sum(256, |k: int| select(wide_bit(v, k), x_pow(k)))
}

/// The word whose halves are `lo` and `hi`.
pub open spec fn join(lo: u64, hi: u64) -> u128 {
    (lo as u128) | ((hi as u128) << 64)
}

/// The product's coefficients are additive in either factor.
pub proof fn lemma_coeff64_xor(x: u64, y: u64, z: u64, k: int)
    ensures
        coeff64(x ^ y, z, k) == (coeff64(x, z, k) != coeff64(y, z, k)),
        coeff64(z, x ^ y, k) == (coeff64(z, x, k) != coeff64(z, y, k)),
{
    let f = |i: int| bit64(x, i) && bit64(z, k - i);
    let g = |i: int| bit64(y, i) && bit64(z, k - i);
    let h = |i: int| bit64(x ^ y, i) && bit64(z, k - i);
    let s = |i: int| f(i).plus(g(i));
    assert forall|i: int| 0 <= i < 64 implies #[trigger] h(i) == s(i) by {
        lemma_bit64_xor(x, y, i);
    }
    lemma_sum_ext(64, h, s);
    lemma_sum_plus(64, f, g);
    let f = |i: int| bit64(z, i) && bit64(x, k - i);
    let g = |i: int| bit64(z, i) && bit64(y, k - i);
    let h = |i: int| bit64(z, i) && bit64(x ^ y, k - i);
    let s = |i: int| f(i).plus(g(i));
    assert forall|i: int| 0 <= i < 64 implies #[trigger] h(i) == s(i) by {
        lemma_bit64_xor(x, y, k - i);
    }
    lemma_sum_ext(64, h, s);
    lemma_sum_plus(64, f, g);
}

/// The product has no coefficient outside `0..127`.
pub proof fn lemma_coeff64_range(x: u64, y: u64, k: int)
    requires
        k < 0 || 127 <= k,
    ensures
        !coeff64(x, y, k),
{
    let f = |i: int| bit64(x, i) && bit64(y, k - i);
    lemma_sum_nil(64, f);
}

/// Reversing both factors reverses the product.
pub proof fn lemma_coeff64_reverse(x: u64, y: u64, xr: u64, yr: u64, k: int)
    requires
        forall|i: int| #[trigger] bit64(xr, i) == bit64(x, 63 - i),
        forall|i: int| #[trigger] bit64(yr, i) == bit64(y, 63 - i),
    ensures
        coeff64(xr, yr, k) == coeff64(x, y, 126 - k),
{
    let f = |i: int| bit64(xr, i) && bit64(yr, k - i);
    let g = |i: int| bit64(x, i) && bit64(y, 126 - k - i);
    lemma_sum_reverse(64, f);
    let h = |i: int| f(64 - 1 - i);
    assert forall|i: int| 0 <= i < 64 implies #[trigger] h(i) == g(i) by {
        assert(bit64(xr, 63 - i) == bit64(x, i));
        assert(bit64(yr, k - (63 - i)) == bit64(y, 126 - k - i));
    }
    lemma_sum_ext(64, h, g);
}

/// The 128-bit product in terms of the four products of halves.
pub proof fn lemma_coeff128_halves(x0: u64, x1: u64, y0: u64, y1: u64, k: int)
    ensures
        coeff128(join(x0, x1), join(y0, y1), k) == ((coeff64(x0, y0, k) != coeff64(
            x0,
            y1,
            k - 64,
        )) != (coeff64(x1, y0, k - 64) != coeff64(x1, y1, k - 128))),
{
    let x = join(x0, x1);
    let y = join(y0, y1);
    let f = |i: int| bit128(x, i) && bit128(y, k - i);
    lemma_sum_split(64, 64, f);
    let hi = |i: int| f(64 + i);
    lemma_coeff128_half(x0, y0, y1, k);
    lemma_coeff128_half(x1, y0, y1, k - 64);
    let f0 = |i: int| bit64(x0, i) && bit128(y, k - i);
    let f1 = |i: int| bit64(x1, i) && bit128(y, k - 64 - i);
    assert forall|i: int| 0 <= i < 64 implies #[trigger] f(i) == f0(i) by {
        lemma_bit128_join(x0, x1, i);
    }
    assert forall|i: int| 0 <= i < 64 implies #[trigger] hi(i) == f1(i) by {
        lemma_bit128_join(x0, x1, 64 + i);
    }
    lemma_sum_ext(64, f, f0);
    lemma_sum_ext(64, hi, f1);
}

proof fn lemma_coeff128_half(x: u64, y0: u64, y1: u64, k: int)
    ensures
        sum(64, |i: int| bit64(x, i) && bit128(join(y0, y1), k - i)) == (coeff64(x, y0, k)
            != coeff64(x, y1, k - 64)),
{
    let y = join(y0, y1);
    let f = |i: int| bit64(x, i) && bit128(y, k - i);
    let a = |i: int| bit64(x, i) && bit64(y0, k - i);
    let b = |i: int| bit64(x, i) && bit64(y1, k - 64 - i);
    let s = |i: int| a(i).plus(b(i));
    assert forall|i: int| 0 <= i < 64 implies #[trigger] f(i) == s(i) by {
        lemma_bit128_join(y0, y1, k - i);
        assert(k - i - 64 == k - 64 - i);
    }
    lemma_sum_ext(64, f, s);
    lemma_sum_plus(64, a, b);
}

/// The low and high halves of a 256-bit polynomial.
pub proof fn lemma_wide_value(v: [u64; 4])
    ensures
        wide_value(v) == join(v[0], v[1]) ^ times_x_pow(join(v[2], v[3]), 128),
{
    let f = |k: int| select(wide_bit(v, k), x_pow(k));
    let lo = join(v[0], v[1]);
    let hi = join(v[2], v[3]);
    lemma_sum_split(128, 128, f);
    let g = |k: int| f(128 + k);
    let l = |k: int| select(bit128(lo, k), times_x_pow(1, k));
    let h = |k: int| select(bit128(hi, k), times_x_pow(1, k));
    let h1 = |k: int| times_x_pow(h(k), 128);
    assert forall|k: int| 0 <= k < 128 implies #[trigger] f(k) == l(k) by {
        lemma_bit128_join(v[0], v[1], k);
    }
    assert forall|k: int| 0 <= k < 128 implies #[trigger] g(k) == h1(k) by {
        lemma_bit128_join(v[2], v[3], k);
        lemma_times_x_pow_add(1, k, 128);
        lemma_times_x_pow_xor(0, 0, 128);
    }
    lemma_sum_ext(128, f, l);
    lemma_sum_ext(128, g, h1);
    lemma_expand(lo);
    lemma_expand(hi);
    lemma_times_x_pow_sum(128, h, 128);
}

/// A polynomial whose coefficients are those of a product stands for the product.
pub proof fn lemma_wide_product(v: [u64; 4], x: u128, y: u128)
    requires
        forall|k: int| 0 <= k < 256 ==> #[trigger] wide_bit(v, k) == coeff128(x, y, k),
    ensures
        wide_value(v) == product(x, y),
{
    let f = |k: int| select(wide_bit(v, k), x_pow(k));
    let t = |k: int, i: int| select(bit128(x, i) && bit128(y, k - i), x_pow(k));
    let rows = |k: int| sum(128, |i: int| t(k, i));
    assert forall|k: int| 0 <= k < 256 implies #[trigger] f(k) == rows(k) by {
        assert(wide_bit(v, k) == coeff128(x, y, k));
        let c = |i: int| bit128(x, i) && bit128(y, k - i);
        let h = |b: bool| select(b, x_pow(k));
        assert forall|a: bool, b: bool| #[trigger] h(a.plus(b)) == h(a).plus(h(b)) by {
            lemma_select_plus(a, b, x_pow(k));
        }
        lemma_sum_map(128, c, h);
        lemma_sum_ext(128, |i: int| h(c(i)), |i: int| t(k, i));
    }
    lemma_sum_ext(256, f, rows);
    lemma_sum_swap(256, 128, t);
    let cols = |i: int| sum(256, |k: int| t(k, i));
    let prod = |i: int|
        sum(128, |j: int| select(bit128(x, i) && bit128(y, j), times_x_pow(1, i + j)));
    assert forall|i: int| 0 <= i < 128 implies #[trigger] cols(i) == prod(i) by {
        let c = |k: int| t(k, i);
        lemma_sum_split(i, 256 - i, c);
        lemma_sum_nil(i, c);
        let d = |j: int| c(i + j);
        lemma_sum_prefix(128, 256 - i, d);
        let p = |j: int| select(bit128(x, i) && bit128(y, j), times_x_pow(1, i + j));
        assert forall|j: int| 0 <= j < 128 implies #[trigger] d(j) == p(j) by {
            assert(i + j - i == j);
        }
        lemma_sum_ext(128, d, p);
        lemma_nil_plus(sum(256 - i, d));
    }
    lemma_sum_ext(128, cols, prod);
    lemma_product_bits(y, x);
    lemma_product_comm(x, y);
}

/// A polynomial with the bits of `x` spread to the even positions stands for the square of `x`.
pub proof fn lemma_wide_square(v: [u64; 4], x: u128)
    requires
        forall|k: int| 0 <= k < 128 ==> #[trigger] bit128(x, k) == wide_bit(v, 2 * k),
        forall|k: int| 0 <= k < 128 ==> !#[trigger] wide_bit(v, 2 * k + 1),
    ensures
        wide_value(v) == product(x, x),
{
    let f = |k: int| select(wide_bit(v, k), x_pow(k));
    lemma_sum_blocks(128, 2, f);
    let pairs = |b: int| sum(2, |j: int| f(b * 2 + j));
    let t = |i: int, j: int| select(bit128(x, i) && bit128(x, j), times_x_pow(1, i + j));
    let d = |i: int| t(i, i);
    assert forall|b: int| 0 <= b < 128 implies #[trigger] pairs(b) == d(b) by {
        let p = |j: int| f(b * 2 + j);
        assert(bit128(x, b) == wide_bit(v, 2 * b));
        assert(!wide_bit(v, 2 * b + 1));
        assert(sum(2, p) == sum(1, p).plus(p(1)));
        assert(sum(1, p) == sum(0, p).plus(p(0)));
        lemma_nil_plus(p(0));
        u128::plus_nil(p(0));
        assert(b + b == 2 * b);
    }
    lemma_sum_ext(128, pairs, d);
    lemma_sum_symmetric(128, t);
    lemma_product_bits(x, x);
    let l = |i: int| sum(128, |j: int| t(i, j));
    let l1 = |i: int|
        sum(128, |j: int| select(bit128(x, i) && bit128(x, j), times_x_pow(1, i + j)));
    assert forall|i: int| 0 <= i < 128 implies #[trigger] l(i) == l1(i) by {
        lemma_sum_ext(
            128,
            |j: int| t(i, j),
            |j: int| select(bit128(x, i) && bit128(x, j), times_x_pow(1, i + j)),
        );
    }
    lemma_sum_ext(128, l, l1);
}

/// The value of a polynomial is additive.
pub proof fn lemma_wide_value_xor(u: [u64; 4], v: [u64; 4], w: [u64; 4])
    requires
        forall|i: int| 0 <= i < 4 ==> #[trigger] w[i] == u[i] ^ v[i],
    ensures
        wide_value(w) == wide_value(u) ^ wide_value(v),
{
    let f = |k: int| select(wide_bit(u, k), x_pow(k));
    let g = |k: int| select(wide_bit(v, k), x_pow(k));
    let h = |k: int| select(wide_bit(w, k), x_pow(k));
    let s = |k: int| f(k).plus(g(k));
    assert forall|k: int| 0 <= k < 256 implies #[trigger] h(k) == s(k) by {
        assert(w[k / 64] == u[k / 64] ^ v[k / 64]);
        lemma_bit64_xor(u[k / 64], v[k / 64], k % 64);
        lemma_select_plus(wide_bit(u, k), wide_bit(v, k), x_pow(k));
    }
    lemma_sum_ext(256, h, s);
    lemma_sum_plus(256, f, g);
}

/// Shifting a polynomial without overflow multiplies its value by `X`.
pub proof fn lemma_wide_value_shift(v: [u64; 4], w: [u64; 4])
    requires
        !wide_bit(v, 255),
        forall|k: int| 0 <= k < 256 ==> #[trigger] wide_bit(w, k) == wide_bit(v, k - 1),
    ensures
        wide_value(w) == times_x(wide_value(v)),
{
    let f = |k: int| select(wide_bit(v, k), x_pow(k));
    let g = |k: int| select(wide_bit(w, k), x_pow(k));
    lemma_sum_first(256, g);
    assert(wide_bit(w, 0) == wide_bit(v, -1));
    let g1 = |k: int| g(1 + k);
    let f1 = |k: int| times_x_pow(f(k), 1);
    assert forall|k: int| 0 <= k < 255 implies #[trigger] g1(k) == f1(k) by {
        assert(wide_bit(w, 1 + k) == wide_bit(v, 1 + k - 1));
        lemma_times_x_pow_add(1, k, 1);
        lemma_times_x_pow_xor(0, 0, 1);
    }
    lemma_sum_ext(255, g1, f1);
    lemma_times_x_pow_sum(255, f, 1);
    lemma_nil_plus(sum(255, g1));
    lemma_sum_prefix(255, 256, f);
    assert(times_x_pow(sum(255, f), 1) == times_x(times_x_pow(sum(255, f), 0)));
}

} // verus!
