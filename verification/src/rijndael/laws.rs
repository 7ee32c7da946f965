//! The Rijndael product and that it makes a commutative ring.

use vstd::prelude::*;

verus! {

/// `x` times an element: a left shift, with `x^8` folded back as `x^4 + x^3 + x + 1`.
pub open spec fn byte_times_x(a: u8) -> u8 {
    (a << 1) ^ (if a & 0x80 == 0x80 {
        0x1bu8
    } else {
        0u8
    })
}

/// An element, or zero.
pub open spec fn byte_select(bit: bool, a: u8) -> u8 {
    if bit {
        a
    } else {
        0
    }
}

/// The product of two elements: the sum of `x^i * a` over the set bits `i` of `b`.
pub open spec fn byte_product(a: u8, b: u8) -> u8 {
    let a1 = byte_times_x(a);
    let a2 = byte_times_x(a1);
    let a3 = byte_times_x(a2);
    let a4 = byte_times_x(a3);
    let a5 = byte_times_x(a4);
    let a6 = byte_times_x(a5);
    let a7 = byte_times_x(a6);
    byte_select(b & 1 == 1, a) ^ byte_select(b & 2 == 2, a1) ^ byte_select(b & 4 == 4, a2)
        ^ byte_select(b & 8 == 8, a3) ^ byte_select(b & 16 == 16, a4) ^ byte_select(
        b & 32 == 32,
        a5,
    ) ^ byte_select(b & 64 == 64, a6) ^ byte_select(b & 128 == 128, a7)
}

/// The exclusive-or of bytes, and how the shift goes through it.
proof fn lemma_byte_words(a: u8, b: u8, c: u8)
    by (bit_vector)
    ensures
        a ^ b == b ^ a,
        (a ^ b) ^ c == a ^ (b ^ c),
        a ^ 0 == a,
        a ^ a == 0,
        byte_times_x(a ^ b) == byte_times_x(a) ^ byte_times_x(b),
        byte_product(a, 1) == a,
{
}

/// The product is additive in its second factor.
proof fn lemma_byte_additive(a: u8, b: u8, c: u8)
    by (bit_vector)
    ensures
        byte_product(a, b ^ c) == byte_product(a, b) ^ byte_product(a, c),
        byte_product(a, 0) == 0,
{
}

/// A shift moves out of the second factor.
proof fn lemma_byte_shift(a: u8, b: u8)
    by (bit_vector)
    ensures
        byte_product(a, byte_times_x(b)) == byte_times_x(byte_product(a, b)),
{
}

/// The product is commutative.
#[verifier::rlimit(60)]
proof fn lemma_byte_comm(a: u8, b: u8)
    by (bit_vector)
    ensures
        byte_product(a, b) == byte_product(b, a),
{
}

/// Multiplication is commutative.
pub proof fn mul_is_commutative(a: u8, b: u8)
    ensures
        byte_product(a, b) == byte_product(b, a),
{
    lemma_byte_comm(a, b);
}

/// Multiplication distributes over addition.
pub proof fn mul_is_distributive(a: u8, b: u8, c: u8)
    ensures
        byte_product(a, b ^ c) == byte_product(a, b) ^ byte_product(a, c),
{
    lemma_byte_additive(a, b, c);
}

/// One is the identity.
pub proof fn one_is_identity(a: u8)
    ensures
        byte_product(a, 1) == a,
{
    lemma_byte_words(a, 0, 0);
}

/// Bytes form a group of characteristic two under exclusive-or.
pub proof fn lemma_byte_xor(a: u8, b: u8, c: u8)
    ensures
        a ^ b == b ^ a,
        (a ^ b) ^ c == a ^ (b ^ c),
        a ^ 0 == a,
        a ^ a == 0,
{
    lemma_byte_words(a, b, c);
}

/// Multiplication is associative.
pub proof fn mul_is_associative(a: u8, b: u8, c: u8)
    ensures
        byte_product(byte_product(a, b), c) == byte_product(a, byte_product(b, c)),
{
    let b1 = byte_times_x(b);
    let b2 = byte_times_x(b1);
    let b3 = byte_times_x(b2);
    let b4 = byte_times_x(b3);
    let b5 = byte_times_x(b4);
    let b6 = byte_times_x(b5);
    let b7 = byte_times_x(b6);
    let s0 = byte_select(c & 1 == 1, b);
    let s1 = byte_select(c & 2 == 2, b1);
    let s2 = byte_select(c & 4 == 4, b2);
    let s3 = byte_select(c & 8 == 8, b3);
    let s4 = byte_select(c & 16 == 16, b4);
    let s5 = byte_select(c & 32 == 32, b5);
    let s6 = byte_select(c & 64 == 64, b6);
    let s7 = byte_select(c & 128 == 128, b7);
    lemma_byte_shift(a, b);
    lemma_byte_shift(a, b1);
    lemma_byte_shift(a, b2);
    lemma_byte_shift(a, b3);
    lemma_byte_shift(a, b4);
    lemma_byte_shift(a, b5);
    lemma_byte_shift(a, b6);
    lemma_byte_additive(a, s0, s1);
    lemma_byte_additive(a, s0 ^ s1, s2);
    lemma_byte_additive(a, s0 ^ s1 ^ s2, s3);
    lemma_byte_additive(a, s0 ^ s1 ^ s2 ^ s3, s4);
    lemma_byte_additive(a, s0 ^ s1 ^ s2 ^ s3 ^ s4, s5);
    lemma_byte_additive(a, s0 ^ s1 ^ s2 ^ s3 ^ s4 ^ s5, s6);
    lemma_byte_additive(a, s0 ^ s1 ^ s2 ^ s3 ^ s4 ^ s5 ^ s6, s7);
}

} // verus!
