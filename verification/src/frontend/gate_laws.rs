//! What gates compute, in terms of the machine's own operations.

use crate::algebra::sum::sum;
use crate::bits::bit64;
use crate::constraint_system::ShiftVariant;
use crate::frontend::graph::{Opcode, eval_gate};
use crate::word::Word;
use vstd::prelude::*;

verus! {

/// A word shifted or rotated as a whole, or each of its 32-bit halves on its own.
pub open spec fn machine_shift(variant: ShiftVariant, x: u64, s: u64) -> u64 {
    match variant {
        ShiftVariant::Sll => x << s,
        ShiftVariant::Slr => x >> s,
        ShiftVariant::Sar => arithmetic_64(x, s),
        ShiftVariant::Rotr => rotate_64(x, s),
        ShiftVariant::Sll32 => left_halves(x, s),
        ShiftVariant::Srl32 => right_halves(x, s),
        ShiftVariant::Sra32 => arithmetic_halves(x, s),
        ShiftVariant::Rotr32 => rotate_halves(x, s),
    }
}

/// A right shift that repeats the sign.
pub open spec fn arithmetic_64(x: u64, s: u64) -> u64 {
    (x >> s) | if x >= 0x8000_0000_0000_0000 {
        !(0xffff_ffff_ffff_ffffu64 >> s)
    } else {
        0u64
    }
}

/// A rotation to the right.
pub open spec fn rotate_64(x: u64, s: u64) -> u64 {
    if s == 0 {
        x
    } else {
        (x >> s) | (x << ((64 - s) as u64))
    }
}

/// A word from 32 bits for each half.
pub open spec fn from_halves(lo: u64, hi: u64) -> u64 {
    (lo & 0xffff_ffff) | (hi << 32)
}

/// Each half shifted left.
pub open spec fn left_halves(x: u64, s: u64) -> u64 {
    from_halves(x << (s % 32), (x >> 32) << (s % 32))
}

/// Each half shifted right.
pub open spec fn right_halves(x: u64, s: u64) -> u64 {
    from_halves((x & 0xffff_ffff) >> (s % 32), (x >> 32) >> (s % 32))
}

/// A right shift of 32 bits that repeats the sign.
pub open spec fn arithmetic_32(x: u64, t: u64) -> u64 {
    (x >> t) | if x >= 0x8000_0000 {
        !(0xffff_ffffu64 >> t)
    } else {
        0u64
    }
}

/// Each half shifted right, repeating its sign.
pub open spec fn arithmetic_halves(x: u64, s: u64) -> u64 {
    from_halves(arithmetic_32(x & 0xffff_ffff, s % 32), arithmetic_32(x >> 32, s % 32))
}

/// A rotation of 32 bits to the right.
pub open spec fn rotate_32(x: u64, t: u64) -> u64 {
    (x >> t) | (x << ((32 - t) as u64))
}

/// Each half rotated.
pub open spec fn rotate_halves(x: u64, s: u64) -> u64 {
    from_halves(rotate_32(x & 0xffff_ffff, s % 32), rotate_32(x >> 32, s % 32))
}

/// Whether bit `k` of one word is bit `j` of another.
spec fn same_bit(y: u64, k: u64, x: u64, j: u64) -> bool {
    ((y >> k) & 1 == 1) == ((x >> j) & 1 == 1)
}

/// Where the bits of a shifted word come from.
proof fn lemma_whole_bits(x: u64, s: u64, k: u64)
    by (bit_vector)
    requires
        s < 64,
        k < 64,
    ensures
        k >= s ==> same_bit(x << s, k, x, (k - s) as u64),
        k < s ==> ((x << s) >> k) & 1 == 0,
        k + s < 64 ==> same_bit(x >> s, k, x, (k + s) as u64),
        k + s >= 64 ==> ((x >> s) >> k) & 1 == 0,
        k + s < 64 ==> same_bit(arithmetic_64(x, s), k, x, (k + s) as u64),
        k + s >= 64 ==> same_bit(arithmetic_64(x, s), k, x, 63),
        k + s < 64 ==> same_bit(rotate_64(x, s), k, x, (k + s) as u64),
        k + s >= 64 ==> same_bit(rotate_64(x, s), k, x, (k + s - 64) as u64),
{
}

/// Where the bits of a word come from whose halves are shifted: bit `j` of half `h`.
proof fn lemma_half_bits(x: u64, s: u64, h: u64, j: u64, t: u64, k: u64)
    by (bit_vector)
    requires
        s < 64,
        h < 2,
        j < 32,
        t == s % 32,
        k == 32 * h + j,
    ensures
        j >= t ==> same_bit(left_halves(x, s), k, x, (k - t) as u64),
        j < t ==> (left_halves(x, s) >> k) & 1 == 0,
        j + t < 32 ==> same_bit(right_halves(x, s), k, x, (k + t) as u64),
        j + t >= 32 ==> (right_halves(x, s) >> k) & 1 == 0,
        j + t < 32 ==> same_bit(arithmetic_halves(x, s), k, x, (k + t) as u64),
        j + t >= 32 ==> same_bit(arithmetic_halves(x, s), k, x, (32 * h + 31) as u64),
        j + t < 32 ==> same_bit(rotate_halves(x, s), k, x, (k + t) as u64),
        j + t >= 32 ==> same_bit(rotate_halves(x, s), k, x, (k + t - 32) as u64),
{
}

/// A shift gate computes the machine's shift, bit for bit.
pub proof fn shift_gates_are_machine_shifts(
    inputs: &[Word],
    imms: &[u32],
    r: Vec<Word>,
    variant: ShiftVariant,
    k: int,
)
    requires
        inputs.len() == 1,
        imms.len() == 2,
        imms[1] < 64,
        match variant {
            ShiftVariant::Sll => imms[0] == 0,
            ShiftVariant::Slr => imms[0] == 1,
            ShiftVariant::Sar => imms[0] == 2,
            ShiftVariant::Rotr => imms[0] == 3,
            ShiftVariant::Sll32 => imms[0] == 4,
            ShiftVariant::Srl32 => imms[0] == 5,
            ShiftVariant::Sra32 => imms[0] == 6,
            ShiftVariant::Rotr32 => imms[0] == 7,
        },
        call_ensures(eval_gate, (Opcode::Shift, inputs, imms), r),
        0 <= k < 64,
    ensures
        r.len() == 1,
        bit64(r[0].0, k) == bit64(machine_shift(variant, inputs[0].0, imms[1] as u64), k),
{
    let (x, s) = (inputs[0].0, imms[1] as u64);
    assert(r[0].bit(k) == inputs[0].bit(
        ShiftVariant::at(imms[0] as int).source(k, imms[1] as int),
    ));
    assert(ShiftVariant::at(imms[0] as int) == variant);
    lemma_whole_bits(x, s, k as u64);
    lemma_half_bits(x, s, (k / 32) as u64, (k % 32) as u64, s % 32, k as u64);
}

/// The halves' sums and the carries fit together.
proof fn lemma_full_adder(
    a: u64,
    b: u64,
    al: u64,
    ah: u64,
    bl: u64,
    bh: u64,
    sum: u64,
    c: u64,
    into: u64,
)
    by (bit_vector)
    requires
        al == a & 0xffff_ffff,
        ah == a >> 32,
        bl == b & 0xffff_ffff,
        bh == b >> 32,
        sum == ((al + bl) as u64 & 0xffff_ffff) | (((ah + bh) as u64 & 0xffff_ffff) << 32),
        c == (a & b) | ((a ^ b) & !sum),
        into == (c << 1) & 0xffff_fffe_ffff_fffe,
    ensures
        sum == a ^ b ^ into,
        c == (a & b) | (a & into) | (b & into),
{
}

/// Halves by remainder and by mask.
proof fn lemma_halves_by_mask(a: u64, b: u64)
    by (bit_vector)
    ensures
        a % 0x1_0000_0000 == a & 0xffff_ffff,
        a / 0x1_0000_0000 == a >> 32,
        a & 0xffff_ffff <= 0xffff_ffff,
        a >> 32 <= 0xffff_ffff,
        (a & 0xffff_ffff) + 0x1_0000_0000 * (b & 0xffff_ffff) == (a & 0xffff_ffff) | ((b
            & 0xffff_ffff) << 32),
{
}

/// An addition gate is a full adder on each half: every sum bit is the exclusive-or of its
/// operands' bits and the carry into it, every carry is the majority of the three, and nothing is
/// carried into the lowest bit of either half.
pub proof fn addition_gates_are_full_adders(inputs: &[Word], imms: &[u32], r: Vec<Word>)
    requires
        inputs.len() == 2,
        call_ensures(eval_gate, (Opcode::Iadd32, inputs, imms), r),
    ensures
        r.len() == 2,
        ({
            let (a, b) = (inputs[0].0, inputs[1].0);
            let into = (r[1].0 << 1) & 0xffff_fffe_ffff_fffe;
            &&& r[0].0 == a ^ b ^ into
            &&& r[1].0 == (a & b) | (a & into) | (b & into)
        }),
{
    let (a, b) = (inputs[0].0, inputs[1].0);
    lemma_halves_by_mask(a, b);
    lemma_halves_by_mask(b, a);
    let (al, ah) = (a & 0xffff_ffff, a >> 32);
    let (bl, bh) = (b & 0xffff_ffff, b >> 32);
    let (lo, hi) = ((al + bl) as u64, (ah + bh) as u64);
    lemma_halves_by_mask(lo, hi);
    lemma_halves_by_mask(hi, lo);
    let into = (r[1].0 << 1) & 0xffff_fffe_ffff_fffe;
    lemma_full_adder(a, b, al, ah, bl, bh, r[0].0, r[1].0, into);
}

} // verus!
