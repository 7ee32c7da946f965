//! Carry-less arithmetic on 64-bit words without special instructions.

use crate::algebra::group::AdditiveGroup;
use crate::algebra::sum::sum;
use crate::bits::{
    bit64, lemma_bit64_shl, lemma_bit64_shr, lemma_bit64_single, lemma_bit64_xor, lemma_bit64_zero,
};
use crate::ghash::wide::{coeff64, lemma_coeff64_range, lemma_coeff64_reverse};
use vstd::prelude::*;

verus! {

/// The low 32 bits of a word, spread to the even positions.
pub open spec fn spread_bits(x: u64) -> u64 {
    let a = x & 0xFFFFFFFF;
    let b = (a | (a << 16)) & 0x0000FFFF0000FFFF;
    let c = (b | (b << 8)) & 0x00FF00FF00FF00FF;
    let d = (c | (c << 4)) & 0x0F0F0F0F0F0F0F0F;
    let e = (d | (d << 2)) & 0x3333333333333333;
    (e | (e << 1)) & 0x5555555555555555
}

/// Reverses the order of the bits of a word.
pub fn rev64(x: u64) -> (r: u64)
    ensures
        forall|i: int| #[trigger] bit64(r, i) == bit64(x, 63 - i),
{
    let mut r: u64 = 0;
    let mut i: u64 = 0;
    proof {
        assert forall|j: int| #[trigger] bit64(r, j) == (0 <= j < 0 && bit64(x, -1 - j)) by {
            lemma_bit64_zero(j);
        }
    }
    while i < 64
        invariant
            i <= 64,
            forall|j: int| #[trigger] bit64(r, j) == (0 <= j < i && bit64(x, i - 1 - j)),
        decreases 64 - i,
    {
        let ghost r0 = r;
        let low: u64 = (x >> i) & 1;
        r = (r << 1) ^ low;
        proof {
            assert forall|j: int| #[trigger]
                bit64(r, j) == (0 <= j < i + 1 && bit64(x, i - j)) by {
                lemma_bit64_xor(r0 << 1, low, j);
                lemma_bit64_shl(r0, 1, j);
                lemma_bit64_single(x, i, j);
                if 0 <= j < 64 {
                    assert(bit64(r0, j - 1) == (0 <= j - 1 < i && bit64(x, i - 1 - (j - 1))));
                }
            }
        }
        i = i + 1;
    }
    r
}

/// Carry-less multiplication, low half: coefficients `0..64` of the polynomial product.
pub fn bmul64(x: u64, y: u64) -> (r: u64)
    ensures
        forall|k: int| 0 <= k < 64 ==> #[trigger] bit64(r, k) == coeff64(x, y, k),
{
    let mut r: u64 = 0;
    let mut i: u64 = 0;
    proof {
        assert forall|k: int| 0 <= k < 64 implies #[trigger] bit64(r, k) == sum(
            0,
            |j: int| bit64(x, j) && bit64(y, k - j),
        ) by {
            lemma_bit64_zero(k);
        }
    }
    while i < 64
        invariant
            i <= 64,
            forall|k: int|
                0 <= k < 64 ==> #[trigger] bit64(r, k) == sum(
                    i as int,
                    |j: int| bit64(x, j) && bit64(y, k - j),
                ),
        decreases 64 - i,
    {
        let ghost r0 = r;
        let bit: u64 = (x >> i) & 1;
        let mask: u64 = 0u64.wrapping_sub(bit);
        let term: u64 = (y << i) & mask;
        r = r ^ term;
        proof {
            assert(mask == if bit == 1 { u64::MAX } else { 0 }) by {
                lemma_bit64_single(x, i, 0);
            }
            let shifted = y << i;
            assert(shifted & u64::MAX == shifted && shifted & 0 == 0) by (bit_vector);
            assert forall|k: int| 0 <= k < 64 implies #[trigger] bit64(r, k) == sum(
                i + 1,
                |j: int| bit64(x, j) && bit64(y, k - j),
            ) by {
                let f = |j: int| bit64(x, j) && bit64(y, k - j);
                assert(bit64(r0, k) == sum(i as int, f));
                lemma_bit64_xor(r0, term, k);
                lemma_bit64_shl(y, i, k);
                lemma_bit64_zero(k);
                assert(sum(i + 1, f) == sum(i as int, f).plus(f(i as int)));
            }
        }
        i = i + 1;
    }
    r
}

/// Carry-less multiplication: both halves of the polynomial product.
pub fn clmul64(x: u64, y: u64) -> (r: (u64, u64))
    ensures
        forall|k: int| 0 <= k < 64 ==> #[trigger] bit64(r.0, k) == coeff64(x, y, k),
        forall|k: int| 0 <= k < 64 ==> #[trigger] bit64(r.1, k) == coeff64(x, y, 64 + k),
{
    let lo = bmul64(x, y);
    let xr = rev64(x);
    let yr = rev64(y);
    let hr = bmul64(xr, yr);
    let hi = high_half(hr);
    proof {
        assert forall|k: int| 0 <= k < 64 implies #[trigger] bit64(hi, k) == coeff64(
            x,
            y,
            64 + k,
        ) by {
            lemma_coeff64_reverse(x, y, xr, yr, 62 - k);
            if k == 63 {
                lemma_coeff64_range(x, y, 127);
            } else {
                assert(bit64(hr, 62 - k) == coeff64(xr, yr, 62 - k));
            }
        }
    }
    (lo, hi)
}

/// The upper coefficients of a product, from the lower coefficients of the reversed product.
pub fn high_half(r: u64) -> (h: u64)
    ensures
        forall|k: int| 0 <= k ==> #[trigger] bit64(h, k) == bit64(r, 62 - k),
{
    let v = rev64(r);
    proof {
        assert forall|k: int| 0 <= k implies #[trigger] bit64(v >> 1, k) == bit64(r, 62 - k) by {
            lemma_bit64_shr(v, 1, k);
            assert(bit64(v, k + 1) == bit64(r, 63 - (k + 1)));
        }
    }
    v >> 1
}

/// The square of a 32-bit polynomial: its bits moved to the even positions.
pub fn bsqr64(x: u64) -> (r: u64)
    ensures
        r == spread_bits(x),
        forall|k: int| 0 <= k < 32 ==> #[trigger] bit64(x, k) == bit64(r, 2 * k),
        forall|k: int| 0 <= k < 32 ==> !#[trigger] bit64(r, 2 * k + 1),
{
    let a: u64 = x & 0xFFFFFFFF;
    let b: u64 = (a | (a << 16)) & 0x0000FFFF0000FFFF;
    let c: u64 = (b | (b << 8)) & 0x00FF00FF00FF00FF;
    let d: u64 = (c | (c << 4)) & 0x0F0F0F0F0F0F0F0F;
    let e: u64 = (d | (d << 2)) & 0x3333333333333333;
    let r: u64 = (e | (e << 1)) & 0x5555555555555555;
    proof {
        assert forall|k: int| 0 <= k < 32 implies #[trigger] bit64(x, k) == bit64(r, 2 * k) by {
            lemma_spread(x, k as u64);
        }
        assert forall|k: int| 0 <= k < 32 implies !#[trigger] bit64(r, 2 * k + 1) by {
            lemma_spread(x, k as u64);
        }
    }
    r
}

/// Spreading moves bit `k` to position `2 k` and leaves the odd positions clear.
pub proof fn lemma_spread_bits(x: u64, k: int)
    requires
        0 <= k < 32,
    ensures
        bit64(x, k) == bit64(spread_bits(x), 2 * k),
        !bit64(spread_bits(x), 2 * k + 1),
{
    lemma_spread(x, k as u64);
}

/// Where the bits of a word go when they are spread.
proof fn lemma_spread(x: u64, k: u64)
    by (bit_vector)
    requires
        k < 32,
    ensures
        (spread_bits(x) >> ((2 * k) as u64)) & 1 == (x >> k) & 1,
        (spread_bits(x) >> ((2 * k + 1) as u64)) & 1 == 0,
{
}

} // verus!
