//! Sixteen Rijndael products at once, by carry-less multiplication and Barrett reduction.

use crate::rijndael::laws::byte_product;
use vstd::prelude::*;

verus! {

/// The carry-less product of two bytes.
pub open spec fn byte_clmul(a: u8, b: u8) -> u16 {
    let w = a as u16;
    (if b & 1 == 1 {
        w
    } else {
        0
    }) ^ (if b & 2 == 2 {
        w << 1
    } else {
        0
    }) ^ (if b & 4 == 4 {
        w << 2
    } else {
        0
    }) ^ (if b & 8 == 8 {
        w << 3
    } else {
        0
    }) ^ (if b & 16 == 16 {
        w << 4
    } else {
        0
    }) ^ (if b & 32 == 32 {
        w << 5
    } else {
        0
    }) ^ (if b & 64 == 64 {
        w << 6
    } else {
        0
    }) ^ (if b & 128 == 128 {
        w << 7
    } else {
        0
    })
}

/// The carry-less product of two bytes.
fn clmul8(a: u8, b: u8) -> (r: u16)
    ensures
        r == byte_clmul(a, b),
{
    let w: u16 = a as u16;
    let t0: u16 = if b & 1 == 1 { w } else { 0 };
    let t1: u16 = if b & 2 == 2 { w << 1 } else { 0 };
    let t2: u16 = if b & 4 == 4 { w << 2 } else { 0 };
    let t3: u16 = if b & 8 == 8 { w << 3 } else { 0 };
    let t4: u16 = if b & 16 == 16 { w << 4 } else { 0 };
    let t5: u16 = if b & 32 == 32 { w << 5 } else { 0 };
    let t6: u16 = if b & 64 == 64 { w << 6 } else { 0 };
    let t7: u16 = if b & 128 == 128 { w << 7 } else { 0 };
    t0 ^ t1 ^ t2 ^ t3 ^ t4 ^ t5 ^ t6 ^ t7
}

/// `q+(x) / x` with `q+(x) = x^8 + x^4 + x^3 + x`.
pub const QPLUS_RSH1: u8 = 0x8d;

/// `q*(x) = x^4 + x^3 + x + 1`.
pub const QSTAR: u8 = 0x1b;

/// Reduces a carry-less product modulo the Rijndael polynomial by Barrett reduction.
fn barrett(c: u16) -> (r: u8)
    ensures
        r == byte_barrett(c),
{
    let cl: u8 = (c & 0xff) as u8;
    let ch: u8 = (c >> 8) as u8;
    // The quotient estimate; the shift makes up for the division by x.
    let tmp: u16 = clmul8(ch, QPLUS_RSH1) << 1;
    let tmp_hi: u8 = (tmp >> 8) as u8;
    let tmp_lo: u8 = (clmul8(tmp_hi, QSTAR) & 0xff) as u8;
    cl ^ tmp_lo
}

/// Barrett reduction of a carry-less product.
pub open spec fn byte_barrett(c: u16) -> u8 {
    let tmp = byte_clmul((c >> 8) as u8, QPLUS_RSH1) << 1;
    ((c & 0xff) as u8) ^ ((byte_clmul((tmp >> 8) as u8, QSTAR) & 0xff) as u8)
}

/// Barrett reduction gives the Rijndael product.
proof fn lemma_barrett(a: u8, b: u8)
    by (bit_vector)
    ensures
        byte_barrett(byte_clmul(a, b)) == byte_product(a, b),
{
}

/// The product of two elements.
pub fn mul_byte(a: u8, b: u8) -> (r: u8)
    ensures
        r == byte_product(a, b),
{
    proof {
        lemma_barrett(a, b);
    }
    barrett(clmul8(a, b))
}

/// The products of sixteen pairs of elements, lane by lane.
pub fn mul(a: [u8; 16], b: [u8; 16]) -> (r: [u8; 16])
    ensures
        forall|i: int| 0 <= i < 16 ==> #[trigger] r[i] == byte_product(a[i], b[i]),
{
    let mut r = [0u8; 16];
    let mut i: usize = 0;
    while i < 16
        invariant
            i <= 16,
            forall|j: int| 0 <= j < i ==> #[trigger] r[j] == byte_product(a[j], b[j]),
        decreases 16 - i,
    {
        r[i] = mul_byte(a[i], b[i]);
        i = i + 1;
    }
    r
}

} // verus!
