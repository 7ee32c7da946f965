//! The packed fields by name.

use vstd::arithmetic::power2::lemma2_to64;
use crate::field::aes::AESTowerField8b;
use crate::field::b1::BinaryField1b;
use crate::field::ghash::BinaryField128bGhash;
use crate::field::ghash_sq::GhashSq256b;
use crate::field::packed::{Packed, Width};
use vstd::prelude::*;

verus! {

/// Marks vectors of 1 lane.
#[derive(Clone, Copy, Debug, PartialEq, Eq)]
pub struct Width1;

impl Width<1> for Width1 {
    const LOG: usize = 0;

    proof fn is_width() {
        lemma2_to64();
    }

    proof fn one_marker(a: Self, b: Self) {
    }

    fn marker() -> (r: Self) {
        Width1
    }
}

/// Marks vectors of 2 lanes.
#[derive(Clone, Copy, Debug, PartialEq, Eq)]
pub struct Width2;

impl Width<2> for Width2 {
    const LOG: usize = 1;

    proof fn is_width() {
        lemma2_to64();
    }

    proof fn one_marker(a: Self, b: Self) {
    }

    fn marker() -> (r: Self) {
        Width2
    }
}

/// Marks vectors of 4 lanes.
#[derive(Clone, Copy, Debug, PartialEq, Eq)]
pub struct Width4;

impl Width<4> for Width4 {
    const LOG: usize = 2;

    proof fn is_width() {
        lemma2_to64();
    }

    proof fn one_marker(a: Self, b: Self) {
    }

    fn marker() -> (r: Self) {
        Width4
    }
}

/// Marks vectors of 8 lanes.
#[derive(Clone, Copy, Debug, PartialEq, Eq)]
pub struct Width8;

impl Width<8> for Width8 {
    const LOG: usize = 3;

    proof fn is_width() {
        lemma2_to64();
    }

    proof fn one_marker(a: Self, b: Self) {
    }

    fn marker() -> (r: Self) {
        Width8
    }
}

/// Marks vectors of 16 lanes.
#[derive(Clone, Copy, Debug, PartialEq, Eq)]
pub struct Width16;

impl Width<16> for Width16 {
    const LOG: usize = 4;

    proof fn is_width() {
        lemma2_to64();
    }

    proof fn one_marker(a: Self, b: Self) {
    }

    fn marker() -> (r: Self) {
        Width16
    }
}

/// Marks vectors of 32 lanes.
#[derive(Clone, Copy, Debug, PartialEq, Eq)]
pub struct Width32;

impl Width<32> for Width32 {
    const LOG: usize = 5;

    proof fn is_width() {
        lemma2_to64();
    }

    proof fn one_marker(a: Self, b: Self) {
    }

    fn marker() -> (r: Self) {
        Width32
    }
}

/// Marks vectors of 64 lanes.
#[derive(Clone, Copy, Debug, PartialEq, Eq)]
pub struct Width64;

impl Width<64> for Width64 {
    const LOG: usize = 6;

    proof fn is_width() {
        lemma2_to64();
    }

    proof fn one_marker(a: Self, b: Self) {
    }

    fn marker() -> (r: Self) {
        Width64
    }
}

/// Marks vectors of 128 lanes.
#[derive(Clone, Copy, Debug, PartialEq, Eq)]
pub struct Width128;

impl Width<128> for Width128 {
    const LOG: usize = 7;

    proof fn is_width() {
        lemma2_to64();
    }

    proof fn one_marker(a: Self, b: Self) {
    }

    fn marker() -> (r: Self) {
        Width128
    }
}

/// Marks vectors of 256 lanes.
#[derive(Clone, Copy, Debug, PartialEq, Eq)]
pub struct Width256;

impl Width<256> for Width256 {
    const LOG: usize = 8;

    proof fn is_width() {
        lemma2_to64();
    }

    proof fn one_marker(a: Self, b: Self) {
    }

    fn marker() -> (r: Self) {
        Width256
    }
}

/// Marks vectors of 512 lanes.
#[derive(Clone, Copy, Debug, PartialEq, Eq)]
pub struct Width512;

impl Width<512> for Width512 {
    const LOG: usize = 9;

    proof fn is_width() {
        lemma2_to64();
    }

    proof fn one_marker(a: Self, b: Self) {
    }

    fn marker() -> (r: Self) {
        Width512
    }
}

/// 1 element of the scalar field.
pub type PackedBinaryField1x1b = Packed<BinaryField1b, Width1, 1>;

/// 2 elements of the scalar field.
pub type PackedBinaryField2x1b = Packed<BinaryField1b, Width2, 2>;

/// 4 elements of the scalar field.
pub type PackedBinaryField4x1b = Packed<BinaryField1b, Width4, 4>;

/// 8 elements of the scalar field.
pub type PackedBinaryField8x1b = Packed<BinaryField1b, Width8, 8>;

/// 16 elements of the scalar field.
pub type PackedBinaryField16x1b = Packed<BinaryField1b, Width16, 16>;

/// 32 elements of the scalar field.
pub type PackedBinaryField32x1b = Packed<BinaryField1b, Width32, 32>;

/// 64 elements of the scalar field.
pub type PackedBinaryField64x1b = Packed<BinaryField1b, Width64, 64>;

/// 128 elements of the scalar field.
pub type PackedBinaryField128x1b = Packed<BinaryField1b, Width128, 128>;

/// 256 elements of the scalar field.
pub type PackedBinaryField256x1b = Packed<BinaryField1b, Width256, 256>;

/// 512 elements of the scalar field.
pub type PackedBinaryField512x1b = Packed<BinaryField1b, Width512, 512>;

/// 1 element of the scalar field.
pub type PackedAESBinaryField1x8b = Packed<AESTowerField8b, Width1, 1>;

/// 16 elements of the scalar field.
pub type PackedAESBinaryField16x8b = Packed<AESTowerField8b, Width16, 16>;

/// 32 elements of the scalar field.
pub type PackedAESBinaryField32x8b = Packed<AESTowerField8b, Width32, 32>;

/// 64 elements of the scalar field.
pub type PackedAESBinaryField64x8b = Packed<AESTowerField8b, Width64, 64>;

/// 1 element of the scalar field.
pub type PackedBinaryGhash1x128b = Packed<BinaryField128bGhash, Width1, 1>;

/// 2 elements of the scalar field.
pub type PackedBinaryGhash2x128b = Packed<BinaryField128bGhash, Width2, 2>;

/// 4 elements of the scalar field.
pub type PackedBinaryGhash4x128b = Packed<BinaryField128bGhash, Width4, 4>;

/// 1 element of the scalar field.
pub type SlicedGhashSq1x256b = Packed<GhashSq256b, Width1, 1>;

/// 2 elements of the scalar field.
pub type SlicedGhashSq2x256b = Packed<GhashSq256b, Width2, 2>;

/// 4 elements of the scalar field.
pub type SlicedGhashSq4x256b = Packed<GhashSq256b, Width4, 4>;

} // verus!
