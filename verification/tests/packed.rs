use std::fmt::Debug;

use binius64::algebra::field::{Field, FieldOps};
use binius64::field::aes::AESTowerField8b;
use binius64::field::b1::BinaryField1b;
use binius64::field::ghash::BinaryField128bGhash;
use binius64::field::ghash_sq::GhashSq256b;
use binius64::field::packed::{
    get_packed_slice, get_packed_slice_unchecked, set_packed_slice_unchecked, Divisible,
    PackedField,
};
use binius64::field::simd::{TowerSimdType, M512};
use binius64::field::types::{
    PackedAESBinaryField16x8b, PackedAESBinaryField1x8b, PackedAESBinaryField32x8b,
    PackedAESBinaryField64x8b, PackedBinaryField128x1b, PackedBinaryField16x1b,
    PackedBinaryField1x1b, PackedBinaryField256x1b, PackedBinaryField2x1b, PackedBinaryField32x1b,
    PackedBinaryField4x1b, PackedBinaryField512x1b, PackedBinaryField64x1b, PackedBinaryField8x1b,
    PackedBinaryGhash1x128b, PackedBinaryGhash2x128b, PackedBinaryGhash4x128b, SlicedGhashSq1x256b,
    SlicedGhashSq2x256b, SlicedGhashSq4x256b,
};
use rand::rngs::StdRng;
use rand::{Rng, SeedableRng};

/// A scalar drawn from random bits.
trait Draw: Copy + PartialEq + Debug {
    fn draw(rng: &mut StdRng) -> Self;
}

impl Draw for BinaryField1b {
    fn draw(rng: &mut StdRng) -> Self {
        BinaryField1b(rng.next_u64() & 1 == 1)
    }
}

impl Draw for AESTowerField8b {
    fn draw(rng: &mut StdRng) -> Self {
        AESTowerField8b(rng.next_u64() as u8)
    }
}

impl Draw for BinaryField128bGhash {
    fn draw(rng: &mut StdRng) -> Self {
        BinaryField128bGhash((rng.next_u64() as u128) << 64 | rng.next_u64() as u128)
    }
}

impl Draw for GhashSq256b {
    fn draw(rng: &mut StdRng) -> Self {
        GhashSq256b {
            lo: BinaryField128bGhash::draw(rng).0,
            hi: BinaryField128bGhash::draw(rng).0,
        }
    }
}

fn random<P: PackedField>(rng: &mut StdRng) -> P
where
    P::Scalar: Draw,
{
    let scalars: Vec<P::Scalar> = (0..P::WIDTH).map(|_| P::Scalar::draw(rng)).collect();
    P::from_scalars(&scalars)
}

fn check_value_iteration<P: PackedField>(rng: &mut StdRng)
where
    P::Scalar: Draw,
{
    let packed = random::<P>(rng);
    let mut iter = PackedField::iter(&packed).into_iter();
    for i in 0..P::WIDTH {
        assert_eq!(packed.get(i), iter.next().unwrap());
    }
    assert!(iter.next().is_none());
}

fn check_ref_iteration<P: PackedField>(rng: &mut StdRng)
where
    P::Scalar: Draw,
{
    let packed = random::<P>(rng);
    let mut iter = IntoIterator::into_iter(PackedField::into_iter(packed));
    for i in 0..P::WIDTH {
        assert_eq!(packed.get(i), iter.next().unwrap());
    }
    assert!(iter.next().is_none());
}

fn run<P: PackedField>()
where
    P::Scalar: Draw,
{
    let mut rng = StdRng::seed_from_u64(0);
    check_value_iteration::<P>(&mut rng);
    check_ref_iteration::<P>(&mut rng);
}

#[test]
fn test_iteration() {
    // B1
    run::<BinaryField1b>();
    run::<PackedBinaryField1x1b>();
    run::<PackedBinaryField2x1b>();
    run::<PackedBinaryField4x1b>();
    run::<PackedBinaryField8x1b>();
    run::<PackedBinaryField16x1b>();
    run::<PackedBinaryField32x1b>();
    run::<PackedBinaryField64x1b>();
    run::<PackedBinaryField128x1b>();
    run::<PackedBinaryField256x1b>();
    run::<PackedBinaryField512x1b>();

    // AES
    run::<AESTowerField8b>();
    run::<PackedAESBinaryField1x8b>();
    run::<PackedAESBinaryField16x8b>();
    run::<PackedAESBinaryField32x8b>();
    run::<PackedAESBinaryField64x8b>();

    // GHASH
    run::<BinaryField128bGhash>();
    run::<PackedBinaryGhash1x128b>();
    run::<PackedBinaryGhash2x128b>();
    run::<PackedBinaryGhash4x128b>();

    // GHASH squared
    run::<SlicedGhashSq1x256b>();
    run::<SlicedGhashSq2x256b>();
    run::<SlicedGhashSq4x256b>();
}

fn bytes(values: [u8; 16]) -> PackedAESBinaryField16x8b {
    let scalars: Vec<AESTowerField8b> = values.iter().map(|&v| AESTowerField8b(v)).collect();
    PackedAESBinaryField16x8b::from_scalars(&scalars)
}

fn lanes(packed: PackedAESBinaryField16x8b) -> Vec<u8> {
    PackedField::iter(&packed).iter().map(|s| s.0).collect()
}

#[test]
fn interleaving_trades_blocks_and_undoes_itself() {
    let a = bytes([0, 1, 2, 3, 4, 5, 6, 7, 8, 9, 10, 11, 12, 13, 14, 15]);
    let b = bytes([
        16, 17, 18, 19, 20, 21, 22, 23, 24, 25, 26, 27, 28, 29, 30, 31,
    ]);
    let (c, d) = a.interleave(b, 0);
    assert_eq!(
        lanes(c),
        vec![0, 16, 2, 18, 4, 20, 6, 22, 8, 24, 10, 26, 12, 28, 14, 30]
    );
    assert_eq!(
        lanes(d),
        vec![1, 17, 3, 19, 5, 21, 7, 23, 9, 25, 11, 27, 13, 29, 15, 31]
    );
    let (e, f) = c.interleave(d, 0);
    assert_eq!(lanes(e), lanes(a));
    assert_eq!(lanes(f), lanes(b));
}

#[test]
fn unzipping_gathers_the_even_and_the_odd_blocks() {
    let a = bytes([0, 1, 2, 3, 4, 5, 6, 7, 8, 9, 10, 11, 12, 13, 14, 15]);
    let b = bytes([
        16, 17, 18, 19, 20, 21, 22, 23, 24, 25, 26, 27, 28, 29, 30, 31,
    ]);
    let (c, d) = a.unzip(b, 1);
    assert_eq!(
        lanes(c),
        vec![0, 1, 4, 5, 8, 9, 12, 13, 16, 17, 20, 21, 24, 25, 28, 29]
    );
    assert_eq!(
        lanes(d),
        vec![2, 3, 6, 7, 10, 11, 14, 15, 18, 19, 22, 23, 26, 27, 30, 31]
    );
}

#[test]
fn spreading_repeats_each_element_of_a_block() {
    let a = bytes([0, 1, 2, 3, 4, 5, 6, 7, 8, 9, 10, 11, 12, 13, 14, 15]);
    let spread = a.spread(2, 1);
    assert_eq!(
        lanes(spread),
        vec![4, 4, 4, 4, 5, 5, 5, 5, 6, 6, 6, 6, 7, 7, 7, 7]
    );
    assert_eq!(lanes(a.spread_unchecked(2, 1)), lanes(spread));
}

#[test]
fn lanes_are_set_and_read_across_a_slice() {
    let mut packed = vec![PackedAESBinaryField16x8b::zero_packed(); 2];
    set_packed_slice_unchecked(&mut packed, 18, AESTowerField8b(0x53));
    assert_eq!(get_packed_slice(&packed, 18), AESTowerField8b(0x53));
    assert_eq!(get_packed_slice_unchecked(&packed, 18).0, 0x53);
    assert_eq!(get_packed_slice(&packed, 2), AESTowerField8b(0));
    assert_eq!(packed[1].get(2), AESTowerField8b(0x53));
}

#[test]
fn arithmetic_goes_lane_by_lane() {
    let a = PackedAESBinaryField16x8b::broadcast(AESTowerField8b(0x53));
    let b = PackedAESBinaryField16x8b::set_single(AESTowerField8b(0xca));
    let product = a.mul_packed(b);
    assert_eq!(product.get(0), AESTowerField8b(1));
    assert_eq!(product.get(1), AESTowerField8b(0));
    let sum = a.add_packed(b);
    assert_eq!(sum.get(0), AESTowerField8b(0x53 ^ 0xca));
    assert_eq!(sum.get(5), AESTowerField8b(0x53));
    assert_eq!(a.square_packed().get(3), AESTowerField8b(0x53).square());
    // The multiplicative group has 255 elements.
    assert_eq!(a.pow(255).get(7), AESTowerField8b(1));
    assert_eq!(a.pow(0).get(7), AESTowerField8b(1));
    assert_eq!(a.pow(254).get(7), AESTowerField8b(0xca));
}

#[test]
fn a_function_of_the_lane_fills_a_vector() {
    let packed = PackedAESBinaryField16x8b::from_fn(|i| AESTowerField8b(3 * i as u8));
    assert_eq!(lanes(packed)[15], 45);
    let all = PackedAESBinaryField16x8b::iter_slice(&[packed, packed]);
    assert_eq!(all.len(), 32);
    assert_eq!(all[17], AESTowerField8b(3));
}

#[test]
fn inverses_multiply_to_one() {
    assert_eq!(
        AESTowerField8b(0x53).invert_or_zero(),
        AESTowerField8b(0xca)
    );
    assert_eq!(AESTowerField8b(0).invert_or_zero(), AESTowerField8b(0));
    let mut rng = StdRng::seed_from_u64(1);
    let a = BinaryField128bGhash::draw(&mut rng);
    assert_eq!(a.mul(a.invert_or_zero()), BinaryField128bGhash::one());
    let b = GhashSq256b::draw(&mut rng);
    assert_eq!(b.mul(b.invert_or_zero()), GhashSq256b::one());
    assert_eq!(BinaryField1b(true).invert_or_zero(), BinaryField1b(true));
}

#[test]
fn a_wide_register_repeats_a_word() {
    assert_eq!(M512::set_epi_64(-1).0, [u64::MAX; 8]);
    assert_eq!(M512::set_epi_64(5).0, [5; 8]);
}
