//! The GHASH field as a vector space over GF(2) with a multiplication-by-`X` operator.

use crate::algebra::field::select;
use crate::algebra::group::AdditiveGroup;
use crate::algebra::sum::{
    lemma_sum_ext, lemma_sum_map, lemma_sum_nil, lemma_sum_plus, lemma_sum_swap, sum,
};
use crate::bits::{bit128, lemma_bit128_zero};
use vstd::prelude::*;

verus! {

/// `X` times an element: a left shift, with `X^128` folded back as `X^7 + X^2 + X + 1`.
pub open spec fn times_x(a: u128) -> u128 {
    (a << 1) ^ (if a >> 127 == 1 {
        0x87u128
    } else {
        0u128
    })
}

/// `X^n` times an element.
pub open spec fn times_x_pow(a: u128, n: int) -> u128
    decreases n,
{
    if n <= 0 {
        a
    } else {
        times_x(times_x_pow(a, n - 1))
    }
}

/// The product of two elements: the sum of `X^i * a` over the set bits `i` of `b`.
pub open spec fn product(a: u128, b: u128) -> u128 {
    sum(128, |i: int| select(bit128(b, i), times_x_pow(a, i)))
}

/// Multiplication by `X` is additive.
pub proof fn lemma_times_x_xor(a: u128, b: u128)
    by (bit_vector)
    ensures
        times_x(a ^ b) == times_x(a) ^ times_x(b),
        times_x(0) == 0,
{
}

/// Multiplication by a power of `X` is additive.
pub proof fn lemma_times_x_pow_xor(a: u128, b: u128, n: int)
    ensures
        times_x_pow(a ^ b, n) == times_x_pow(a, n) ^ times_x_pow(b, n),
        times_x_pow(0, n) == 0,
    decreases n,
{
    if n > 0 {
        lemma_times_x_pow_xor(a, b, n - 1);
        lemma_times_x_xor(times_x_pow(a, n - 1), times_x_pow(b, n - 1));
    }
}

/// Powers of `X` compose.
pub proof fn lemma_times_x_pow_add(a: u128, m: int, n: int)
    requires
        0 <= m,
        0 <= n,
    ensures
        times_x_pow(times_x_pow(a, m), n) == times_x_pow(a, m + n),
    decreases n,
{
    if n > 0 {
        lemma_times_x_pow_add(a, m, n - 1);
    }
}

/// Multiplication by a power of `X` goes through a sum.
pub proof fn lemma_times_x_pow_sum(k: int, f: spec_fn(int) -> u128, n: int)
    ensures
        times_x_pow(sum(k, f), n) == sum(k, |i: int| times_x_pow(f(i), n)),
{
    let h = |a: u128| times_x_pow(a, n);
    assert forall|a: u128, b: u128| #[trigger] h(a.plus(b)) == h(a).plus(h(b)) by {
        lemma_times_x_pow_xor(a, b, n);
    }
    lemma_times_x_pow_xor(0, 0, n);
    lemma_sum_map(k, f, h);
    lemma_sum_ext(k, |i: int| h(f(i)), |i: int| times_x_pow(f(i), n));
}

/// Single bits as powers of `X`, and the bits of a word below a power.
proof fn lemma_power_bits(a: u128, k: u128)
    by (bit_vector)
    requires
        k < 127,
    ensures
        1u128 << 0u128 == 1u128,
        times_x(1u128 << k) == 1u128 << ((k + 1) as u128),
        a & (((1u128 << 0u128) - 1) as u128) == 0,
        a & (((1u128 << ((k + 1) as u128)) - 1) as u128) == (a & (((1u128 << k) - 1) as u128)) ^ (
        if (a >> k) & 1 == 1 {
            1u128 << k
        } else {
            0u128
        }),
        a == (a & (((1u128 << 127u128) - 1) as u128)) ^ (if (a >> 127) & 1 == 1 {
            1u128 << 127
        } else {
            0u128
        }),
{
}

/// The low powers of `X` are single bits.
pub proof fn lemma_x_pow(n: int)
    requires
        0 <= n < 128,
    ensures
        times_x_pow(1, n) == 1u128 << (n as u128),
    decreases n,
{
    if n > 0 {
        lemma_x_pow(n - 1);
        lemma_power_bits(0, (n - 1) as u128);
    } else {
        lemma_power_bits(0, 0);
    }
}

/// The low `n` bits of a word are the sum of its set low powers of `X`.
proof fn lemma_low_bits(a: u128, n: int)
    requires
        0 <= n < 128,
    ensures
        sum(n, |i: int| select(bit128(a, i), times_x_pow(1, i))) == a & (((1u128 << (n as u128)) - 1) as u128),
    decreases n,
{
    let f = |i: int| select(bit128(a, i), times_x_pow(1, i));
    if n > 0 {
        lemma_low_bits(a, n - 1);
        lemma_x_pow(n - 1);
        lemma_power_bits(a, (n - 1) as u128);
    } else {
        lemma_power_bits(a, 0);
    }
}

/// Every element is the sum of the powers of `X` its bits name.
pub proof fn lemma_expand(a: u128)
    ensures
        a == sum(128, |i: int| select(bit128(a, i), times_x_pow(1, i))),
{
    let f = |i: int| select(bit128(a, i), times_x_pow(1, i));
    lemma_low_bits(a, 127);
    lemma_x_pow(127);
    lemma_power_bits(a, 0);
    assert(sum(128, f) == sum(127, f).plus(f(127)));
}

/// The product written over both factors' bits.
pub proof fn lemma_product_bits(a: u128, b: u128)
    ensures
        product(a, b) == sum(
            128,
            |i: int|
                sum(128, |j: int| select(bit128(b, i) && bit128(a, j), times_x_pow(1, i + j))),
        ),
{
    let f = |i: int| select(bit128(b, i), times_x_pow(a, i));
    let g = |i: int|
        sum(128, |j: int| select(bit128(b, i) && bit128(a, j), times_x_pow(1, i + j)));
    let e = |j: int| select(bit128(a, j), times_x_pow(1, j));
    lemma_expand(a);
    assert forall|i: int| 0 <= i < 128 implies #[trigger] f(i) == g(i) by {
        let t = |j: int| select(bit128(b, i) && bit128(a, j), times_x_pow(1, i + j));
        let e1 = |j: int| times_x_pow(e(j), i);
        if bit128(b, i) {
            lemma_times_x_pow_sum(128, e, i);
            assert forall|j: int| 0 <= j < 128 implies #[trigger] t(j) == e1(j) by {
                lemma_times_x_pow_add(1, j, i);
                lemma_times_x_pow_xor(0, 0, i);
            }
            lemma_sum_ext(128, t, e1);
        } else {
            lemma_sum_nil(128, t);
        }
    }
    lemma_sum_ext(128, f, g);
}

/// Multiplication is commutative.
pub proof fn lemma_product_comm(a: u128, b: u128)
    ensures
        product(a, b) == product(b, a),
{
    lemma_product_bits(a, b);
    lemma_product_bits(b, a);
    let t = |i: int, j: int| select(bit128(b, i) && bit128(a, j), times_x_pow(1, i + j));
    lemma_sum_swap(128, 128, t);
    let l = |i: int| sum(128, |j: int| t(i, j));
    let l1 = |i: int|
        sum(128, |j: int| select(bit128(b, i) && bit128(a, j), times_x_pow(1, i + j)));
    let r = |j: int| sum(128, |i: int| t(i, j));
    let r1 = |i: int|
        sum(128, |j: int| select(bit128(a, i) && bit128(b, j), times_x_pow(1, i + j)));
    assert forall|i: int| 0 <= i < 128 implies #[trigger] l(i) == l1(i) by {
        lemma_sum_ext(
            128,
            |j: int| t(i, j),
            |j: int| select(bit128(b, i) && bit128(a, j), times_x_pow(1, i + j)),
        );
    }
    assert forall|j: int| 0 <= j < 128 implies #[trigger] r(j) == r1(j) by {
        let u = |i: int| t(i, j);
        let v = |i: int| select(bit128(a, j) && bit128(b, i), times_x_pow(1, j + i));
        assert forall|i: int| 0 <= i < 128 implies #[trigger] u(i) == v(i) by {
            assert(i + j == j + i);
        }
        lemma_sum_ext(128, u, v);
    }
    lemma_sum_ext(128, l, l1);
    lemma_sum_ext(128, r, r1);
}

/// Multiplication distributes over addition.
pub proof fn lemma_product_xor(a: u128, b: u128, c: u128)
    ensures
        product(a ^ b, c) == product(a, c) ^ product(b, c),
        product(c, a ^ b) == product(c, a) ^ product(c, b),
{
    let f = |i: int| select(bit128(c, i), times_x_pow(a, i));
    let g = |i: int| select(bit128(c, i), times_x_pow(b, i));
    let h = |i: int| select(bit128(c, i), times_x_pow(a ^ b, i));
    let s = |i: int| f(i).plus(g(i));
    assert forall|i: int| 0 <= i < 128 implies #[trigger] h(i) == s(i) by {
        lemma_times_x_pow_xor(a, b, i);
        u128::plus_nil(0);
    }
    lemma_sum_ext(128, h, s);
    lemma_sum_plus(128, f, g);
    lemma_product_comm(a ^ b, c);
    lemma_product_comm(a, c);
    lemma_product_comm(b, c);
}

/// Zero absorbs every factor.
pub proof fn lemma_product_zero(a: u128)
    ensures
        product(a, 0) == 0,
        product(0, a) == 0,
{
    let f = |i: int| select(bit128(0, i), times_x_pow(a, i));
    assert forall|i: int| 0 <= i < 128 implies #[trigger] f(i) == 0 by {
        lemma_bit128_zero(i);
    }
    lemma_sum_nil(128, f);
    lemma_product_comm(a, 0);
}

/// One is the identity.
pub proof fn lemma_product_one(a: u128)
    ensures
        product(a, 1) == a,
        product(1, a) == a,
{
    lemma_expand(a);
    lemma_product_comm(a, 1);
}

/// A power of `X` can be moved into either factor.
pub proof fn lemma_product_x_pow(a: u128, b: u128, n: int)
    requires
        0 <= n,
    ensures
        product(times_x_pow(a, n), b) == times_x_pow(product(a, b), n),
        product(a, times_x_pow(b, n)) == times_x_pow(product(a, b), n),
{
    lemma_product_x_pow_left(a, b, n);
    lemma_product_x_pow_left(b, a, n);
    lemma_product_comm(a, b);
    lemma_product_comm(a, times_x_pow(b, n));
}

proof fn lemma_product_x_pow_left(a: u128, b: u128, n: int)
    requires
        0 <= n,
    ensures
        product(times_x_pow(a, n), b) == times_x_pow(product(a, b), n),
{
    let f = |i: int| select(bit128(b, i), times_x_pow(a, i));
    let g = |i: int| select(bit128(b, i), times_x_pow(times_x_pow(a, n), i));
    let h = |i: int| times_x_pow(f(i), n);
    lemma_times_x_pow_sum(128, f, n);
    assert forall|i: int| 0 <= i < 128 implies #[trigger] g(i) == h(i) by {
        lemma_times_x_pow_add(a, n, i);
        lemma_times_x_pow_add(a, i, n);
        lemma_times_x_pow_xor(0, 0, n);
    }
    lemma_sum_ext(128, g, h);
}

/// Multiplication is associative.
pub proof fn lemma_product_assoc(a: u128, b: u128, c: u128)
    ensures
        product(product(a, b), c) == product(a, product(b, c)),
{
    let f = |i: int| select(bit128(c, i), times_x_pow(product(a, b), i));
    let g = |i: int| select(bit128(c, i), times_x_pow(b, i));
    let h = |x: u128| product(a, x);
    assert forall|x: u128, y: u128| #[trigger] h(x.plus(y)) == h(x).plus(h(y)) by {
        lemma_product_xor(x, y, a);
    }
    lemma_product_zero(a);
    lemma_sum_map(128, g, h);
    let hg = |i: int| h(g(i));
    assert forall|i: int| 0 <= i < 128 implies #[trigger] f(i) == hg(i) by {
        lemma_product_x_pow(a, b, i);
    }
    lemma_sum_ext(128, f, hg);
}

} // verus!
