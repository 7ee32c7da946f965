use std::array;

use binius64::algebra::field::FieldOps;
use binius64::field::b1::BinaryField1b;
use binius64::field::ghash::BinaryField128bGhash;
use binius64::field::packed::{Divisible, PackedField};
use binius64::field::types::{
    PackedBinaryField128x1b, PackedBinaryField64x1b, PackedBinaryGhash4x128b,
};
use binius64::math::eq::eq_ind_partial_eval_scalars;
use binius64::math::field_buffer::FieldBuffer;
use binius64::math::subset::expand_subset_sums_array;
use binius64::prover::bit_transpose::square_transpose_const_size;
use binius64::prover::fold_word::{
    fold_across_words, fold_words, fold_words_both_axes, row_fold_tables, word_to_packed,
    BitAxisFolder, WordBytewiseLookupTransformationFactory, WordFolder, CHUNK_SIZE, LOG_CHUNK_SIZE,
};
use binius64::word::Word;
use rand::rngs::StdRng;
use rand::{Rng, SeedableRng};

type B128 = BinaryField128bGhash;
type P = PackedBinaryGhash4x128b;

const WORD_BITS: usize = 64;

fn random_scalars(rng: &mut StdRng, n: usize) -> Vec<B128> {
    (0..n)
        .map(|_| BinaryField128bGhash((rng.next_u64() as u128) << 64 | rng.next_u64() as u128))
        .collect()
}

fn random_words(rng: &mut StdRng, n: usize) -> Vec<Word> {
    (0..n).map(|_| Word::from_u64(rng.next_u64())).collect()
}

fn naive_word_fold(word: Word, vec: &[B128]) -> B128 {
    let mut sum = B128::zero();
    for (bit_idx, &weight) in vec.iter().enumerate() {
        if (word.as_u64() >> bit_idx) & 1 == 1 {
            sum = sum.add(weight);
        }
    }
    sum
}

#[test]
fn test_fold_words_equivalence() {
    let mut rng = StdRng::seed_from_u64(0);

    let log_n = 6;
    let words = random_words(&mut rng, 1 << log_n);
    let vec = random_scalars(&mut rng, WORD_BITS);

    let result_optimized = fold_words::<B128, B128>(&words, &vec);
    let result_naive: Vec<B128> = words.iter().map(|&w| naive_word_fold(w, &vec)).collect();

    assert_eq!(result_optimized.iter_scalars(), result_naive);
    assert_eq!(result_optimized.log_len, log_n);
}

#[test]
fn test_fold_bitand_operands_matches_separate_folds() {
    let mut rng = StdRng::seed_from_u64(0);

    // Word counts crossing every regime: empty, tail only, one aligned chunk, aligned chunk plus
    // tail, several chunks, several chunks plus tail, and a count that needs padding.
    let width = P::WIDTH;
    for n_words in [0, 1, width, width + 1, 4 * width, 4 * width + 3, 40] {
        let a_words = random_words(&mut rng, n_words);
        let b_words = random_words(&mut rng, n_words);
        let c_words: Vec<Word> = a_words
            .iter()
            .zip(&b_words)
            .map(|(&a, &b)| Word(a.0 & b.0))
            .collect();

        let vec = random_scalars(&mut rng, WORD_BITS);
        let folder = BitAxisFolder::new(&vec);

        let [a_fused, b_fused, c_fused] = folder.fold_bitand_operands::<P>(&a_words, &b_words);
        assert_eq!(
            a_fused.values,
            folder.fold::<P>(&a_words).values,
            "a mismatch at n_words = {n_words}"
        );
        assert_eq!(
            b_fused.values,
            folder.fold::<P>(&b_words).values,
            "b mismatch at n_words = {n_words}"
        );
        assert_eq!(
            c_fused.values,
            folder.fold::<P>(&c_words).values,
            "c mismatch at n_words = {n_words}"
        );
    }
}

#[test]
fn test_fold_words_both_axes_equivalence() {
    let mut rng = StdRng::seed_from_u64(0);

    for (log_rows, n_words) in [
        (0, 1),
        (LOG_CHUNK_SIZE, 1 << LOG_CHUNK_SIZE),
        (LOG_CHUNK_SIZE, 1 << 3),
        (LOG_CHUNK_SIZE, 40),
        (LOG_CHUNK_SIZE + 2, (1 << (LOG_CHUNK_SIZE + 2)) - 3),
        (3, 0),
    ] {
        let words = random_words(&mut rng, n_words);
        let index_scalars = random_scalars(&mut rng, WORD_BITS);
        let rows = random_scalars(&mut rng, 1 << log_rows);
        let row_scalars = FieldBuffer::<P>::from_values(&rows);

        let result_optimized = fold_words_both_axes::<B128, P>(&words, &index_scalars, &row_scalars);
        let mut result_naive = B128::zero();
        for (i, &word) in words.iter().enumerate() {
            result_naive =
                result_naive.add(naive_word_fold(word, &index_scalars).mul(row_scalars.get(i)));
        }

        assert_eq!(
            result_optimized, result_naive,
            "mismatch at log_rows = {log_rows}, n_words = {n_words}"
        );
    }
}

fn naive_fold_across_words(words: &[Word], point: &[B128]) -> [B128; WORD_BITS] {
    assert_eq!(words.len(), 1 << point.len());

    let eq = eq_ind_partial_eval_scalars(point);
    let mut out = [B128::zero(); WORD_BITS];
    for (word, &weight) in words.iter().zip(&eq) {
        for (bit_idx, out_i) in out.iter_mut().enumerate() {
            if (word.as_u64() >> bit_idx) & 1 == 1 {
                *out_i = out_i.add(weight);
            }
        }
    }
    out
}

// Byte `i` of element `j` of a transposed group carries the rows' bits at column `8i + j`.
fn check_group_transpose<PB: PackedField<Scalar = BinaryField1b>>(seed: u64) {
    let mut rng = StdRng::seed_from_u64(seed);

    for _ in 0..100 {
        let input: [PB; 8] = array::from_fn(|_| {
            let bits: Vec<BinaryField1b> = (0..PB::WIDTH)
                .map(|_| BinaryField1b(rng.next_u64() & 1 == 1))
                .collect();
            PB::from_scalars(&bits)
        });
        let mut output = input;
        square_transpose_const_size::<PB, 3, 8>(&mut output);

        for i in 0..PB::WIDTH / 8 {
            for j in 0..8 {
                for t in 0..8 {
                    let got = output[j].get(i * 8 + t);
                    let want = input[t].get(i * 8 + j);
                    assert_eq!(got, want, "i={i}, j={j}, t={t}");
                }
            }
        }
    }
}

#[test]
fn transpose_exchanges_row_axis_with_low_column_bits() {
    check_group_transpose::<PackedBinaryField64x1b>(0);
    check_group_transpose::<PackedBinaryField128x1b>(1);
}

#[test]
fn test_fold_across_words_equivalence() {
    let mut rng = StdRng::seed_from_u64(0);

    for log_n in [
        0,
        1,
        3,
        LOG_CHUNK_SIZE,
        LOG_CHUNK_SIZE + 1,
        LOG_CHUNK_SIZE + 4,
    ] {
        let words = random_words(&mut rng, 1 << log_n);
        let point = random_scalars(&mut rng, log_n);

        let result_optimized = fold_across_words(&words, &point);
        let result_naive = naive_fold_across_words(&words, &point);

        assert_eq!(
            result_optimized, result_naive,
            "mismatch at log_n = {log_n}"
        );
    }
}

#[test]
fn word_folder_folds_a_short_list_as_if_zero_padded() {
    let mut rng = StdRng::seed_from_u64(0);

    for (log_rows, n_words) in [
        (LOG_CHUNK_SIZE, 1),
        (LOG_CHUNK_SIZE, 40),
        (LOG_CHUNK_SIZE + 2, 2 * CHUNK_SIZE),
        (LOG_CHUNK_SIZE + 2, 2 * CHUNK_SIZE + 5),
        (LOG_CHUNK_SIZE, 0),
    ] {
        let words = random_words(&mut rng, n_words);
        let point = random_scalars(&mut rng, log_rows);

        let mut padded = words.clone();
        padded.resize(1 << log_rows, Word::zero());

        let expected = naive_fold_across_words(&padded, &point);

        let folder = WordFolder::new(&point);
        assert_eq!(
            folder.fold(&words),
            expected,
            "short WordFolder::fold differs at log_rows = {log_rows}, n_words = {n_words}"
        );
        assert_eq!(
            fold_across_words(&words, &point),
            expected,
            "short fold_across_words differs at log_rows = {log_rows}, n_words = {n_words}"
        );
    }
}

#[test]
fn test_word_folder_fold_matches_naive() {
    let mut rng = StdRng::seed_from_u64(0);

    for log_n in [
        0,
        1,
        3,
        LOG_CHUNK_SIZE,
        LOG_CHUNK_SIZE + 1,
        LOG_CHUNK_SIZE + 4,
    ] {
        let words = random_words(&mut rng, 1 << log_n);
        let point = random_scalars(&mut rng, log_n);

        let result_folder = WordFolder::new(&point).fold(&words);
        let result_naive = naive_fold_across_words(&words, &point);

        assert_eq!(result_folder, result_naive, "mismatch at log_n = {log_n}");
    }
}

#[test]
fn folding_either_axis_first_gives_one_value() {
    let mut rng = StdRng::seed_from_u64(9);
    let words = random_words(&mut rng, 8);
    let index_scalars = random_scalars(&mut rng, WORD_BITS);
    let point = random_scalars(&mut rng, 3);
    let rows = FieldBuffer::<P>::from_values(&eq_ind_partial_eval_scalars(&point));

    let both = fold_words_both_axes::<B128, P>(&words, &index_scalars, &rows);
    let across = fold_across_words(&words, &point);
    let mut joined = B128::zero();
    for (a, b) in across.iter().zip(&index_scalars) {
        joined = joined.add(a.mul(*b));
    }
    assert_eq!(both, joined);
}

#[test]
fn subset_sums_are_indexed_by_their_subset() {
    let terms: [B128; 8] = array::from_fn(|i| BinaryField128bGhash(1 << (10 * i)));
    let sums = expand_subset_sums_array(terms);
    assert_eq!(sums[0], B128::zero());
    assert_eq!(sums[0b1000_0001].0, 1 | 1 << 70);
    assert_eq!(sums[255].0, (0..8).map(|i| 1u128 << (10 * i)).sum::<u128>());

    // Weights past the end of a short list count as zero.
    let tables: [[B128; 256]; 2] = row_fold_tables(&terms[..3]);
    assert_eq!(tables[0][0b111].0, 1 | 1 << 10 | 1 << 20);
    assert_eq!(tables[0][0b1000], B128::zero());
    assert_eq!(tables[1][255], B128::zero());
}

#[test]
fn a_word_becomes_its_bits() {
    let packed = word_to_packed(0x8000_0000_0000_0005);
    assert_eq!(packed.get(0), BinaryField1b(true));
    assert_eq!(packed.get(1), BinaryField1b(false));
    assert_eq!(packed.get(2), BinaryField1b(true));
    assert_eq!(packed.get(62), BinaryField1b(false));
    assert_eq!(packed.get(63), BinaryField1b(true));
}

#[test]
fn a_lookup_folds_a_word_by_its_bytes() {
    let cols: Vec<B128> = (0..64).map(|i| BinaryField128bGhash(1 << i)).collect();
    let transformation = WordBytewiseLookupTransformationFactory.create(&cols);
    assert_eq!(
        transformation.transform(0x1234_5678_9abc_def0).0,
        0x1234_5678_9abc_def0
    );
}
