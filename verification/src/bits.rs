//! Bits of machine words.

use vstd::prelude::*;

verus! {

/// Bit `i` of a 64-bit word; positions outside the word read as clear.
pub open spec fn bit64(x: u64, i: int) -> bool {
    0 <= i < 64 && (x >> (i as u64)) & 1 == 1
}

/// Bit `i` of a 128-bit word; positions outside the word read as clear.
pub open spec fn bit128(x: u128, i: int) -> bool {
    0 <= i < 128 && (x >> (i as u128)) & 1 == 1
}

/// Single bits of 64-bit words under the word operations.
proof fn lemma_word64(x: u64, y: u64, s: u64, k: u64)
    by (bit_vector)
    requires
        s < 64,
        k < 64,
    ensures
        (((x ^ y) >> k) & 1 == 1) == (((x >> k) & 1 == 1) != ((y >> k) & 1 == 1)),
        (((x & y) >> k) & 1 == 1) == (((x >> k) & 1 == 1) && ((y >> k) & 1 == 1)),
        (((x << s) >> k) & 1 == 1) == (k >= s && ((x >> ((k - s) as u64)) & 1 == 1)),
        (((x >> s) >> k) & 1 == 1) == (k + s < 64 && ((x >> ((k + s) as u64)) & 1 == 1)),
        (0u64 >> k) & 1 == 0,
        ((((x >> s) & 1) >> k) & 1 == 1) == (k == 0 && (x >> s) & 1 == 1),
        k < 32 ==> (((x & 0x00000000FFFFFFFF) >> k) & 1 == 1) == ((x >> k) & 1 == 1),
        (x >> k) & 1 == 0 || (x >> k) & 1 == 1,
        x ^ x == 0,
        x & 1 == x % 2,
{
}

/// Single bits of 128-bit words under the word operations.
proof fn lemma_word128(x: u128, y: u128, k: u128, lo: u64, hi: u64)
    by (bit_vector)
    requires
        k < 128,
    ensures
        (((x ^ y) >> k) & 1 == 1) == (((x >> k) & 1 == 1) != ((y >> k) & 1 == 1)),
        (0u128 >> k) & 1 == 0,
        ((((lo as u128) | ((hi as u128) << 64)) >> k) & 1 == 1) == (if k < 64 {
            (lo >> (k as u64)) & 1 == 1
        } else {
            (hi >> ((k - 64) as u64)) & 1 == 1
        }),
        ((x as u64) as u128) | ((((x >> 64) as u64) as u128) << 64) == x,
{
}

/// Bits of the 64-bit exclusive-or.
pub proof fn lemma_bit64_xor(x: u64, y: u64, i: int)
    ensures
        bit64(x ^ y, i) == (bit64(x, i) != bit64(y, i)),
{
    if 0 <= i < 64 {
        lemma_word64(x, y, 0, i as u64);
    }
}

/// Bits of a 64-bit left shift.
pub proof fn lemma_bit64_shl(x: u64, s: u64, i: int)
    requires
        s < 64,
    ensures
        bit64(x << s, i) == (0 <= i < 64 && bit64(x, i - s)),
{
    if 0 <= i < 64 {
        lemma_word64(x, 0, s, i as u64);
    }
}

/// Bits of a 64-bit right shift.
pub proof fn lemma_bit64_shr(x: u64, s: u64, i: int)
    requires
        s < 64,
    ensures
        bit64(x >> s, i) == (0 <= i && bit64(x, i + s)),
{
    if 0 <= i < 64 {
        lemma_word64(x, 0, s, i as u64);
    }
}

/// Zero has no bit set.
pub proof fn lemma_bit64_zero(i: int)
    ensures
        !bit64(0, i),
{
    if 0 <= i < 64 {
        lemma_word64(0, 0, 0, i as u64);
    }
}

/// Bits of the 64-bit conjunction.
pub proof fn lemma_bit64_and(x: u64, y: u64, i: int)
    ensures
        bit64(x & y, i) == (bit64(x, i) && bit64(y, i)),
{
    if 0 <= i < 64 {
        lemma_word64(x, y, 0, i as u64);
    }
}

/// The lowest bit of a word is its parity.
pub proof fn lemma_low_bit64(x: u64)
    ensures
        x & 1 == x % 2,
{
    lemma_word64(x, 0, 0, 0);
}

/// A word cancels itself.
pub proof fn lemma_xor64(x: u64)
    ensures
        x ^ x == 0,
        x & 1 == x % 2,
{
    lemma_word64(x, 0, 0, 0);
}

/// A single bit taken to position zero.
pub proof fn lemma_bit64_single(x: u64, i: u64, j: int)
    requires
        i < 64,
    ensures
        bit64((x >> i) & 1, j) == (j == 0 && bit64(x, i as int)),
        (x >> i) & 1 == 0 || (x >> i) & 1 == 1,
{
    lemma_word64(x, 0, i, i);
    if 0 <= j < 64 {
        lemma_word64(x, 0, i, j as u64);
    }
}

/// The low half of a word keeps the low bits.
pub proof fn lemma_bit64_low_half(x: u64, i: int)
    requires
        0 <= i < 32,
    ensures
        bit64(x & 0x00000000FFFFFFFF, i) == bit64(x, i),
{
    lemma_word64(x, 0, 0, i as u64);
}

/// Zero has no bit set.
pub proof fn lemma_bit128_zero(i: int)
    ensures
        !bit128(0, i),
{
    if 0 <= i < 128 {
        lemma_word128(0, 0, i as u128, 0, 0);
    }
}

/// The bits of a 128-bit word assembled from two halves.
pub proof fn lemma_bit128_join(lo: u64, hi: u64, i: int)
    ensures
        bit128((lo as u128) | ((hi as u128) << 64), i) == (bit64(lo, i) || bit64(hi, i - 64)),
{
    if 0 <= i < 128 {
        lemma_word128(0, 0, i as u128, lo, hi);
    }
}

/// The two halves of a 128-bit word, and that joining them gives the word back.
pub proof fn lemma_halves(x: u128)
    ensures
        ((x as u64) as u128) | ((((x >> 64) as u64) as u128) << 64) == x,
{
    lemma_word128(x, 0, 0, 0, 0);
}

} // verus!
