use std::fmt::Debug;

use binius64::field::ghash::BinaryField128bGhash;
use binius64::field::packed::{Divisible, PackedField};
use binius64::field::types::{
    PackedBinaryGhash1x128b, PackedBinaryGhash2x128b, PackedBinaryGhash4x128b,
};
use binius64::math::bit_reverse::{
    bit_reverse_groups, bit_reverse_indices, bit_reverse_packed, reverse_bits,
};
use binius64::math::field_buffer::FieldBuffer;
use binius64::math::transpose::{square_transpose, transpose_tile};
use rand::rngs::StdRng;
use rand::{Rng, SeedableRng};

type P1 = PackedBinaryGhash1x128b;
type P2 = PackedBinaryGhash2x128b;
type P4 = PackedBinaryGhash4x128b;

fn random_scalars(rng: &mut StdRng, n: usize) -> Vec<BinaryField128bGhash> {
    (0..n)
        .map(|_| BinaryField128bGhash((rng.next_u64() as u128) << 64 | rng.next_u64() as u128))
        .collect()
}

fn transpose_reference<F: Copy>(log_n: usize, scalars: &[F]) -> Vec<F> {
    // Output row `r` is input column `r`, taking one element from each input row.
    let n = 1 << log_n;
    (0..n)
        .flat_map(|r| (0..n).map(move |c| (r, c)))
        .map(|(r, c)| scalars[(c << log_n) | r])
        .collect()
}

fn check_transpose_tile<P, const LOG_TILE_PACKED: usize>()
where
    P: PackedField<Scalar = BinaryField128bGhash>,
{
    // A tile is a square of this many scalars per side.
    let log_n = P::LOG_WIDTH + LOG_TILE_PACKED;
    let mut rng = StdRng::seed_from_u64(log_n as u64);
    let scalars = random_scalars(&mut rng, 1 << (2 * log_n));

    // Pack the square, transpose it in place, then read it back out as scalars.
    let mut tile = FieldBuffer::<P>::from_values(&scalars);
    let mut block = vec![P::zero_packed(); P::WIDTH];
    transpose_tile::<P, LOG_TILE_PACKED>(&mut tile.values, &mut block);

    // Exchanging sub-blocks and then lanes equals transposing scalar by scalar.
    let expected = transpose_reference(log_n, &scalars);
    assert_eq!(tile.iter_scalars(), expected, "mismatch at log_n={log_n}");
}

#[test]
fn test_transpose_tile_matches_scalar_transpose() {
    check_transpose_tile::<P1, 0>();
    check_transpose_tile::<P1, 1>();
    check_transpose_tile::<P1, 2>();
    check_transpose_tile::<P1, 3>();
    check_transpose_tile::<P2, 0>();
    check_transpose_tile::<P2, 1>();
    check_transpose_tile::<P2, 2>();
    check_transpose_tile::<P2, 3>();
    check_transpose_tile::<P4, 0>();
    check_transpose_tile::<P4, 1>();
    check_transpose_tile::<P4, 2>();
    check_transpose_tile::<P4, 3>();
}

fn bit_reverse_groups_reference<T: Copy, const LOG_GROUP: usize>(buffer: &[T]) -> Vec<T> {
    // Output group `i` is the input group whose index is `i` with its bits reversed.
    let n_groups = buffer.len() >> LOG_GROUP;
    let bits = n_groups.trailing_zeros();
    (0..n_groups)
        .flat_map(|i| {
            let src = reverse_bits(i, bits) << LOG_GROUP;
            buffer[src..src + (1 << LOG_GROUP)].to_vec()
        })
        .collect()
}

fn check_bit_reverse_groups<const LOG_GROUP: usize>() {
    let mut rng = StdRng::seed_from_u64(LOG_GROUP as u64);

    // Group counts from one up to 32, so both the no-op and the split cases run.
    for log_len in LOG_GROUP..LOG_GROUP + 6 {
        let orig = (0..1usize << log_len)
            .map(|_| rng.next_u64())
            .collect::<Vec<_>>();

        let mut permuted = orig.clone();
        bit_reverse_groups::<u64, LOG_GROUP>(&mut permuted);

        assert_eq!(
            permuted,
            bit_reverse_groups_reference::<u64, LOG_GROUP>(&orig)
        );
    }
}

#[test]
fn test_bit_reverse_groups_matches_reference() {
    check_bit_reverse_groups::<0>();
    check_bit_reverse_groups::<1>();
    check_bit_reverse_groups::<2>();
    check_bit_reverse_groups::<3>();
}

#[test]
fn test_bit_reverse_indices_is_the_single_element_group_case() {
    let mut rng = StdRng::seed_from_u64(0);
    let orig = (0..1usize << 10)
        .map(|_| rng.next_u64())
        .collect::<Vec<_>>();

    let mut by_indices = orig.clone();
    bit_reverse_indices(&mut by_indices);

    assert_eq!(by_indices, bit_reverse_groups_reference::<u64, 0>(&orig));
}

fn check_packed<P>(log_d: usize)
where
    P: PackedField<Scalar = BinaryField128bGhash> + Debug + PartialEq,
{
    let mut rng = StdRng::seed_from_u64(log_d as u64);
    let scalars = random_scalars(&mut rng, 1 << log_d);
    let mut buffer = FieldBuffer::<P>::from_values(&scalars);
    bit_reverse_packed(&mut buffer);
    let mut expected = scalars.clone();
    bit_reverse_indices(&mut expected);
    assert_eq!(buffer.iter_scalars(), expected, "log_d={log_d}");

    // Reversing twice gives the buffer back.
    bit_reverse_packed(&mut buffer);
    assert_eq!(buffer.iter_scalars(), scalars);
}

#[test]
fn packed_reversal_permutes_scalars_and_undoes_itself() {
    for log_d in 0..12 {
        check_packed::<P1>(log_d);
        check_packed::<P2>(log_d);
        check_packed::<P4>(log_d);
    }
}

#[test]
fn bits_reverse_within_their_width() {
    assert_eq!(reverse_bits(0b001, 3), 0b100);
    assert_eq!(reverse_bits(0b110, 3), 0b011);
    assert_eq!(reverse_bits(5, 8), 0b1010_0000);
    assert_eq!(reverse_bits(0, 0), 0);
    for i in 0..256 {
        assert_eq!(reverse_bits(reverse_bits(i, 8), 8), i);
    }
}

#[test]
fn a_square_of_lanes_transposes() {
    let scalars: Vec<BinaryField128bGhash> = (0..16).map(|i| BinaryField128bGhash(i)).collect();
    let mut buffer = FieldBuffer::<P4>::from_values(&scalars);
    square_transpose(&mut buffer.values);
    assert_eq!(buffer.iter_scalars(), transpose_reference(2, &scalars));
}
