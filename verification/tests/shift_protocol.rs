use binius64::algebra::field::FieldOps;
use binius64::constraint_system::{
    ConstraintSystem, InoutSegment, Shift, ShiftVariant, ShiftedValueIndex, ValueIndex,
    BINMUL_ARITY, BITAND_ARITY, INTMUL_ARITY, LOG_SHIFT_COUNT, SHIFT_COUNT, ZERO_ARITY,
};
use binius64::field::ghash::BinaryField128bGhash;
use binius64::field::packed::PackedField;
use binius64::field::types::PackedBinaryGhash2x128b;
use binius64::math::eq::eq_ind_partial_eval_scalars;
use binius64::math::field_buffer::FieldBuffer;
use binius64::math::univariate::{lagrange_evals, BinarySubspace};
use binius64::shift::builder::build_key_collection;
use binius64::shift::claims::{OperatorClaims, OperatorData};
use binius64::shift::evaluation::{encode_operation_input, OperationEvalFn, ShiftScalars};
use binius64::shift::keys::{DenseShiftEncoding, KeyCollection, KeySegment, Operation, ShiftSeq};
use binius64::shift::monster::build_monster_segments;
use binius64::shift::operator::{
    shift_operator_row, shift_operator_table, SHIFT_OPERATOR_LOG_LEN,
};
use binius64::shift::phase_1::{Phase1SumcheckProver, ShiftChallenge};
use binius64::shift::prove::prove;
use binius64::shift::shift_ind::{ShiftChallengePoint, ShiftIndSumcheck};
use binius64::shift::sparse::SparseShiftRows;
use binius64::sumcheck::channel::{
    messages_in, Challenger, DerivingChannel, IPProverChannel, ProverEvent, RecordingChannel,
};
use binius64::sumcheck::prover::{bivariate_product_prover, prove_single};
use binius64::utils::serialization::{
    ByteReader, DeserializeBytes, SerializationError, SerializeBytes,
};
use binius64::word::Word;
use rand::rngs::StdRng;
use rand::{Rng, SeedableRng};
use sha2::{Digest, Sha256};

type F = BinaryField128bGhash;

const WORD_BITS: usize = 64;

fn random_scalars(rng: &mut StdRng, n: usize) -> Vec<F> {
    (0..n)
        .map(|_| BinaryField128bGhash((rng.next_u64() as u128) << 64 | rng.next_u64() as u128))
        .collect()
}

fn zero_claims() -> OperatorClaims<F> {
    OperatorClaims {
        zero: OperatorData::zero_claim(F::zero()),
        bitand: OperatorData::zero_claim(F::zero()),
        intmul: OperatorData::zero_claim(F::zero()),
        binmul: OperatorData::zero_claim(F::zero()),
    }
}

#[test]
fn prepare_carries_each_operations_arity_into_the_erased_form() {
    let mut channel = RecordingChannel::new(vec![F::one(); 4]);
    let prepared = zero_claims().prepare(&mut channel);

    assert_eq!(
        prepared.index(Operation::Zero).lambda_powers.len(),
        ZERO_ARITY
    );
    assert_eq!(
        prepared.index(Operation::BitwiseAnd).lambda_powers.len(),
        BITAND_ARITY
    );
    assert_eq!(
        prepared.index(Operation::IntegerMul).lambda_powers.len(),
        INTMUL_ARITY
    );
    assert_eq!(
        prepared.index(Operation::BinMul).lambda_powers.len(),
        BINMUL_ARITY
    );
}

#[test]
fn prepare_draws_one_coefficient_per_operation_in_transcript_order() {
    // The stand-in transcript hands out 1, 2, 3, 4, so a coefficient names its draw position.
    let challenges = (1..=8u128).map(BinaryField128bGhash).collect();
    let mut channel = RecordingChannel::new(challenges);
    let prepared = zero_claims().prepare(&mut channel);

    assert_eq!(channel.position, 4, "one draw per operation");

    let leading = |op: Operation| prepared.index(op).lambda_powers[0];
    assert_eq!(leading(Operation::Zero), BinaryField128bGhash(1));
    assert_eq!(leading(Operation::BitwiseAnd), BinaryField128bGhash(2));
    assert_eq!(leading(Operation::IntegerMul), BinaryField128bGhash(3));
    assert_eq!(leading(Operation::BinMul), BinaryField128bGhash(4));
}

/// A shift sequence carrying one shift, which the canonical form places in the inner slot.
fn single(shift: Shift) -> ShiftSeq {
    ShiftSeq {
        inner: shift,
        outer: Shift::identity(),
    }
}

fn system(and_constraints: Vec<Vec<Vec<ShiftedValueIndex>>>) -> ConstraintSystem {
    ConstraintSystem {
        constants: vec![Word::zero(); 4],
        n_inout: 0,
        n_private: 4,
        zero_constraints: Vec::new(),
        and_constraints,
        imul_constraints: Vec::new(),
        bmul_constraints: Vec::new(),
    }
}

/// A constraint system with a handful of distinct shifts, differing between the two segments.
fn shifted_constraint_system() -> ConstraintSystem {
    let public = ValueIndex::constant(1);
    let hidden = ValueIndex::private(1);
    system(vec![vec![
        vec![
            ShiftedValueIndex::plain(public),
            ShiftedValueIndex::single(public, Shift::srl(3)),
        ],
        vec![ShiftedValueIndex::single(hidden, Shift::sar(7))],
        vec![
            ShiftedValueIndex::single(hidden, Shift::rotr(1)),
            ShiftedValueIndex::plain(hidden),
        ],
    ]])
}

#[test]
fn dense_shift_encoding_covers_the_sequences_its_segment_uses() {
    let key_collection = build_key_collection(&shifted_constraint_system(), InoutSegment::Public);

    assert_eq!(
        key_collection.public.dense_shift_enc.iter(),
        [single(Shift::identity()), single(Shift::srl(3))]
    );
    assert_eq!(
        key_collection.hidden.dense_shift_enc.iter(),
        [
            single(Shift::identity()),
            single(Shift::sar(7)),
            single(Shift::rotr(1)),
        ]
    );

    assert!(key_collection.hidden.dense_shift_enc.len() < SHIFT_COUNT * SHIFT_COUNT);
}

#[test]
fn dense_shift_encoding_distinguishes_sequences_sharing_an_inner_shift() {
    let hidden = ValueIndex::private(1);
    let cs = system(vec![vec![
        vec![
            ShiftedValueIndex::new(hidden, Shift::srl(3), Shift::sll(3)),
            ShiftedValueIndex::new(hidden, Shift::srl(3), Shift::sll(5)),
            ShiftedValueIndex::single(hidden, Shift::srl(3)),
        ],
        Vec::new(),
        Vec::new(),
    ]]);

    let key_collection = build_key_collection(&cs, InoutSegment::Public);
    assert_eq!(
        key_collection.hidden.dense_shift_enc.iter(),
        [
            single(Shift::srl(3)),
            ShiftSeq {
                inner: Shift::srl(3),
                outer: Shift::sll(3)
            },
            ShiftSeq {
                inner: Shift::srl(3),
                outer: Shift::sll(5)
            },
        ]
    );

    // The word's three keys therefore hold three distinct dense indices.
    let mut indices: Vec<u32> = key_collection
        .hidden
        .word_keys(1)
        .iter()
        .map(|key| key.dense_shift_idx)
        .collect();
    indices.sort_unstable();
    assert_eq!(indices, [0, 1, 2]);
}

#[test]
fn keys_index_their_segments_dense_encoding() {
    let key_collection = build_key_collection(&shifted_constraint_system(), InoutSegment::Public);

    let word_sequences = |segment: &KeySegment, word: usize| {
        let mut sequences: Vec<ShiftSeq> = segment
            .word_keys(word)
            .iter()
            .map(|key| segment.dense_shift_enc.iter()[key.dense_shift_idx as usize])
            .collect();
        sequences.sort_by_key(|s| s.index());
        sequences
    };

    assert_eq!(
        word_sequences(&key_collection.public, 1),
        [single(Shift::identity()), single(Shift::srl(3))]
    );
    assert_eq!(
        word_sequences(&key_collection.hidden, 1),
        [
            single(Shift::identity()),
            single(Shift::sar(7)),
            single(Shift::rotr(1)),
        ]
    );
}

#[test]
fn dense_shift_encoding_survives_serialization() {
    let key_collection = build_key_collection(&shifted_constraint_system(), InoutSegment::Public);

    let mut buf = Vec::new();
    key_collection.serialize(&mut buf).unwrap();
    let deserialized = KeyCollection::deserialize(&mut ByteReader::new(&buf)).unwrap();

    for (segment, deserialized) in [
        (&key_collection.public, &deserialized.public),
        (&key_collection.hidden, &deserialized.hidden),
    ] {
        assert_eq!(
            segment.dense_shift_enc.iter(),
            deserialized.dense_shift_enc.iter()
        );
        assert_eq!(segment.keys, deserialized.keys);
        assert_eq!(segment.key_ranges, deserialized.key_ranges);
        assert_eq!(segment.constraint_indices, deserialized.constraint_indices);
    }
}

#[test]
fn a_malformed_key_collection_is_turned_down() {
    let key_collection = build_key_collection(&shifted_constraint_system(), InoutSegment::Public);
    let mut buf = Vec::new();
    key_collection.serialize(&mut buf).unwrap();

    // A truncated buffer runs out.
    let short = &buf[..buf.len() - 1];
    assert!(matches!(
        KeyCollection::deserialize(&mut ByteReader::new(short)),
        Err(SerializationError::NotEnoughBytes)
    ));

    // Another version is not read.
    let mut other = buf.clone();
    other[0] = 2;
    assert!(matches!(
        KeyCollection::deserialize(&mut ByteReader::new(&other)),
        Err(SerializationError::InvalidConstruction {
            name: "KeyCollection::version"
        })
    ));
}

#[test]
fn malformed_bytes_say_what_is_wrong_with_them() {
    // The tag is read before the amount.
    let shift = |bytes: &[u8]| <Shift as DeserializeBytes>::deserialize(&mut ByteReader::new(bytes));
    assert!(matches!(shift(&[]), Err(SerializationError::NotEnoughBytes)));
    assert!(matches!(
        shift(&[8]),
        Err(SerializationError::UnknownEnumVariant {
            name: "ShiftVariant",
            index: 8
        })
    ));
    assert!(matches!(shift(&[7]), Err(SerializationError::NotEnoughBytes)));
    assert!(shift(&[7, 3]).is_ok());

    // The first bad part decides: here the second item of a list, though the list is short too.
    let mut bytes = vec![3, 0, 0, 0, 0, 9];
    let list = Vec::<Operation>::deserialize(&mut ByteReader::new(&bytes));
    assert!(matches!(
        list,
        Err(SerializationError::UnknownEnumVariant {
            name: "Operation",
            index: 9
        })
    ));
    bytes[5] = 1;
    assert!(matches!(
        Vec::<Operation>::deserialize(&mut ByteReader::new(&bytes)),
        Err(SerializationError::NotEnoughBytes)
    ));
    assert!(matches!(
        Vec::<Operation>::deserialize(&mut ByteReader::new(&bytes[..3])),
        Err(SerializationError::NotEnoughBytes)
    ));
}

#[test]
fn h_op_consistency() {
    type P = PackedBinaryGhash2x128b;

    let mut rng = StdRng::seed_from_u64(0);

    for test_case in 0..10 {
        let r_zhat_prime = random_scalars(&mut rng, 1)[0];
        let r_j = random_scalars(&mut rng, 6);
        let r_s = random_scalars(&mut rng, 6);
        let r_v = random_scalars(&mut rng, 3);
        let shift = ShiftChallenge::new(r_s.clone(), r_v.clone());

        // The claim the bit rounds start from, with the carried constant set to one.
        let subspace = BinarySubspace {
            basis: random_scalars(&mut rng, 6),
        };
        let l_tilde = lagrange_evals(&subspace, r_zhat_prime);
        let claimed = ShiftIndSumcheck::new(
            &l_tilde,
            &ShiftChallengePoint::new(&r_j, &shift),
            F::one(),
        )
        .beta();

        // The built multilinear evaluated at the whole point.
        let h = shift_operator_table::<F, P>(&l_tilde);
        let evaluation_point = [r_j, r_s, r_v].concat();
        let tensor = eq_ind_partial_eval_scalars(&evaluation_point);
        let direct = dot(&h.iter_scalars(), &tensor);

        assert_eq!(
            claimed, direct,
            "H-op evaluation mismatch (test_case={test_case}): claimed != direct"
        );
    }
}

fn dot(a: &[F], b: &[F]) -> F {
    a.iter()
        .zip(b)
        .fold(F::zero(), |acc, (x, y)| acc.add(x.mul(*y)))
}

fn reads_input_bit(variant: ShiftVariant, k: usize, j: usize, amount: usize) -> bool {
    let shifted = variant.apply(Word(1u64 << j), amount);
    (shifted.as_u64() >> k) & 1 == 1
}

#[test]
fn the_operator_table_matches_the_indicator_definition() {
    let mut rng = StdRng::seed_from_u64(3);
    let psi = random_scalars(&mut rng, WORD_BITS);
    let table = shift_operator_table::<F, F>(&psi).iter_scalars();
    for variant_idx in 0..8 {
        let variant = ShiftVariant::from_index(variant_idx);
        for amount in [0usize, 1, 31, 32, 33, 63] {
            for j in 0..WORD_BITS {
                let mut entry = F::zero();
                for (k, &weight) in psi.iter().enumerate() {
                    if reads_input_bit(variant, k, j, amount) {
                        entry = entry.add(weight);
                    }
                }
                assert_eq!(
                    table[(variant_idx * WORD_BITS + amount) * WORD_BITS + j],
                    entry
                );
            }
        }
    }
}

#[test]
fn shift_operator_row_matches_its_slice_of_the_table() {
    let mut rng = StdRng::seed_from_u64(0);
    let psi = random_scalars(&mut rng, WORD_BITS);

    let table = shift_operator_table::<F, F>(&psi);
    let mut row = vec![F::one(); WORD_BITS];
    for variant_idx in 0..8 {
        let variant = ShiftVariant::from_index(variant_idx);
        for amount in 0..WORD_BITS {
            shift_operator_row(variant, amount, &mut row, &psi);
            let offset = (variant_idx * WORD_BITS + amount) * WORD_BITS;
            assert_eq!(
                row.as_slice(),
                &table.values[offset..offset + WORD_BITS],
                "{variant:?} at amount {amount}"
            );
        }
    }
}

#[test]
fn the_zero_amount_slice_returns_the_weights_unchanged() {
    let mut rng = StdRng::seed_from_u64(0);
    let psi = random_scalars(&mut rng, WORD_BITS);

    let table = shift_operator_table::<F, F>(&psi);
    for variant_idx in 0..8 {
        let variant = ShiftVariant::from_index(variant_idx);
        let row = &table.values[variant_idx * WORD_BITS * WORD_BITS..][..WORD_BITS];
        assert_eq!(
            row,
            psi.as_slice(),
            "{variant:?} at amount zero is not the identity"
        );
    }
}

#[test]
fn from_segments_concatenates_the_two_encodings() {
    let key_collection = build_key_collection(&shifted_constraint_system(), InoutSegment::Public);

    // A distinct constant per row, so a row's value says which segment it came from.
    let segment_rows = |enc: &DenseShiftEncoding, base: u128| {
        (0..enc.len() * WORD_BITS)
            .map(|i| BinaryField128bGhash(base + (i / WORD_BITS) as u128))
            .collect::<Vec<F>>()
    };
    let public = segment_rows(&key_collection.public.dense_shift_enc, 0x100);
    let hidden = segment_rows(&key_collection.hidden.dense_shift_enc, 0x200);

    let g = SparseShiftRows::from_segments(
        &public,
        &key_collection.public.dense_shift_enc,
        &hidden,
        &key_collection.hidden.dense_shift_enc,
    );

    let row_index = |shift: Shift| shift.index() as u32;
    assert_eq!(
        g.indices,
        [
            row_index(Shift::identity()),
            row_index(Shift::srl(3)),
            row_index(Shift::identity()),
            row_index(Shift::sar(7)),
            row_index(Shift::rotr(1)),
        ]
    );

    let row = |position: usize| &g.values[position * WORD_BITS..][..WORD_BITS];
    for (position, expected) in [0x100, 0x101, 0x200, 0x201, 0x202].into_iter().enumerate() {
        assert!(row(position)
            .iter()
            .all(|&value| value == BinaryField128bGhash(expected)));
    }

    // Where the rows are read, the two at the identity add up.
    let at = |shift: Shift| {
        g.indices
            .iter()
            .enumerate()
            .filter(|(_, &index)| index == row_index(shift))
            .fold(F::zero(), |acc, (t, _)| acc.add(g.get(t, 0)))
    };
    assert_eq!(
        at(Shift::identity()),
        BinaryField128bGhash(0x100).add(BinaryField128bGhash(0x200))
    );
    assert_eq!(at(Shift::srl(3)), BinaryField128bGhash(0x101));
    assert_eq!(at(Shift::sar(7)), BinaryField128bGhash(0x201));
    assert_eq!(at(Shift::rotr(1)), BinaryField128bGhash(0x202));
}

#[test]
fn a_sequence_is_keyed_outer_major() {
    let hidden = ValueIndex::private(1);
    let (inner, outer) = (Shift::srl(3), Shift::sll(5));
    let cs = system(vec![vec![
        vec![ShiftedValueIndex::new(hidden, inner, outer)],
        Vec::new(),
        Vec::new(),
    ]]);

    let key_collection = build_key_collection(&cs, InoutSegment::Public);
    assert_eq!(
        key_collection.hidden.dense_shift_enc.shift_indices(),
        [outer.index() << LOG_SHIFT_COUNT | inner.index()]
    );
}

#[test]
fn scatter_places_rows_at_their_shift_index() {
    let indices = [Shift::identity(), Shift::sar(7), Shift::rotr(1)]
        .map(|shift| shift.index() as u32)
        .to_vec();
    let values = (0..indices.len() * WORD_BITS)
        .map(|i| BinaryField128bGhash(1 + (i / WORD_BITS) as u128))
        .collect::<Vec<F>>();
    let rows = SparseShiftRows::<F>::new(indices.clone(), values, LOG_SHIFT_COUNT);

    let g = rows.scatter();
    assert_eq!(g.log_len, SHIFT_OPERATOR_LOG_LEN);

    for (row, &shift_index) in indices.iter().enumerate() {
        let offset = shift_index as usize * WORD_BITS;
        for bit in 0..WORD_BITS {
            assert_eq!(g.get(offset + bit), BinaryField128bGhash(1 + row as u128));
        }
    }
    for row in (0..1usize << LOG_SHIFT_COUNT).filter(|row| !indices.contains(&(*row as u32))) {
        assert!((0..WORD_BITS).all(|bit| g.get(row * WORD_BITS + bit) == F::zero()));
    }
}

#[test]
fn a_row_space_can_be_as_wide_as_its_indices() {
    let row = |c: u128| vec![BinaryField128bGhash(c); WORD_BITS];
    let indices = vec![u32::MAX, 0, 1 << 31];
    let values = [row(3), row(5), row(7)].concat();
    let mut rows = SparseShiftRows::<F>::new(indices, values, 32);
    assert_eq!(rows.half(), 1 << 31);

    // The challenge zero keeps the lower half as it is and clears the upper one.
    rows.fold(F::zero());
    assert_eq!(rows.log_rows(), 31);
    assert_eq!(rows.indices, vec![(1 << 31) - 1, 0, 0]);
    assert_eq!(rows.get(0, 9), F::zero());
    assert_eq!(rows.get(1, 9), BinaryField128bGhash(5));
    assert_eq!(rows.get(2, 9), F::zero());
}

/// The rows and the operator the row and bit rounds run over, from pseudo-random weights.
fn phase_1_multilinears<P: PackedField<Scalar = F>>(
    cs: &ConstraintSystem,
    seed: u64,
) -> (SparseShiftRows<P>, FieldBuffer<P>) {
    let mut rng = StdRng::seed_from_u64(seed);
    let key_collection = build_key_collection(cs, InoutSegment::Public);

    let mut indices = Vec::new();
    let mut values = Vec::new();
    for segment in [&key_collection.public, &key_collection.hidden] {
        for seq in segment.dense_shift_enc.iter() {
            indices.push(seq.inner.index() as u32);
            let row = random_scalars(&mut rng, WORD_BITS);
            values.extend(row.chunks(P::WIDTH).map(|lanes| P::from_scalars(lanes)));
        }
    }
    let g = SparseShiftRows::new(indices, values, LOG_SHIFT_COUNT);
    let h = shift_operator_table::<F, P>(&random_scalars(&mut rng, WORD_BITS));
    (g, h)
}

fn copy_rows<P: PackedField>(g: &SparseShiftRows<P>) -> SparseShiftRows<P> {
    SparseShiftRows::new(g.indices.clone(), g.values.clone(), g.log_rows)
}

/// Challenges that are hashes of everything sent and drawn before them.
struct HashChallenger;

impl Challenger<F> for HashChallenger {
    fn next_challenge(&mut self, events: &Vec<ProverEvent<F>>) -> F {
        let mut transcript = Vec::new();
        for event in events {
            let (tag, scalar) = match event {
                ProverEvent::Sent(x) => (0u8, x),
                ProverEvent::Drawn(x) => (1u8, x),
            };
            transcript.push(tag);
            transcript.extend(scalar.0.to_le_bytes());
        }
        let digest = Sha256::digest(&transcript);
        let mut bytes = [0u8; 16];
        bytes.copy_from_slice(&digest[..16]);
        BinaryField128bGhash(u128::from_le_bytes(bytes))
    }
}

/// The sparse rounds send exactly what the dense prover sends.
fn assert_sparse_matches_dense<P: PackedField<Scalar = F>>(cs: &ConstraintSystem, seed: u64) {
    let (g, h) = phase_1_multilinears::<P>(cs, seed);
    let sum = dot(&g.scatter().iter_scalars(), &h.iter_scalars());

    // A message that differs gives other challenges from its round on.
    let mut sparse_channel = DerivingChannel::new(HashChallenger);
    let h_copy = FieldBuffer {
        log_len: h.log_len,
        values: h.values.clone(),
    };
    let sparse = prove_single(
        Phase1SumcheckProver::new(copy_rows(&g), h_copy, sum),
        &mut sparse_channel,
    );

    let mut dense_channel = DerivingChannel::new(HashChallenger);
    let dense = prove_single(
        bivariate_product_prover(g.scatter(), h, sum),
        &mut dense_channel,
    );

    assert_eq!(sparse.challenges, dense.challenges);
    assert_eq!(sparse.multilinear_evals.len(), 2);
    assert_eq!(
        sparse.multilinear_evals[0].mul(sparse.multilinear_evals[1]),
        dense.multilinear_evals[0].mul(dense.multilinear_evals[1])
    );
    assert_eq!(messages_in(&sparse_channel.events).len(), 2 * 15);
    assert_eq!(sparse_channel.events, dense_channel.events);
}

#[test]
fn challenges_follow_from_what_was_sent() {
    let mut one = DerivingChannel::new(HashChallenger);
    let mut other = DerivingChannel::new(HashChallenger);
    one.send_many(&[F::one()]);
    other.send_many(&[F::zero()]);
    assert_ne!(one.sample(), other.sample());
}

#[test]
fn each_round_sends_its_message_before_its_challenge_is_drawn() {
    let (g, h) = phase_1_multilinears::<F>(&shifted_constraint_system(), 3);
    let sum = dot(&g.scatter().iter_scalars(), &h.iter_scalars());
    let challenges = random_scalars(&mut StdRng::seed_from_u64(103), 15);
    let mut channel = RecordingChannel::new(challenges.clone());
    let output = prove_single(Phase1SumcheckProver::new(g, h, sum), &mut channel);
    assert_eq!(output.challenges.len(), 15);

    let messages = channel.messages();
    let mut expected = Vec::new();
    for (message, challenge) in messages.chunks(2).zip(&challenges) {
        expected.extend(message.iter().map(|&m| ProverEvent::Sent(m)));
        expected.push(ProverEvent::Drawn(*challenge));
    }
    assert_eq!(channel.events, expected);
}

#[test]
fn sparse_rounds_match_the_dense_prover() {
    assert_sparse_matches_dense::<F>(&shifted_constraint_system(), 0);
    assert_sparse_matches_dense::<PackedBinaryGhash2x128b>(&shifted_constraint_system(), 1);
}

#[test]
fn sparse_rounds_match_the_dense_prover_with_an_empty_g() {
    let cs = system(Vec::new());

    let key_collection = build_key_collection(&cs, InoutSegment::Public);
    assert_eq!(key_collection.public.dense_shift_enc.len(), 0);
    assert_eq!(key_collection.hidden.dense_shift_enc.len(), 0);

    assert_sparse_matches_dense::<PackedBinaryGhash2x128b>(&cs, 2);
}

#[test]
fn inout_words_stand_in_the_segment_they_are_asked_for() {
    let cs = ConstraintSystem {
        constants: vec![Word(1), Word(2)],
        n_inout: 3,
        n_private: 4,
        zero_constraints: vec![vec![vec![ShiftedValueIndex::plain(ValueIndex::inout(2))]]],
        and_constraints: Vec::new(),
        imul_constraints: Vec::new(),
        bmul_constraints: Vec::new(),
    };
    assert_eq!(cs.value_vec_len(), 9);
    assert_eq!(cs.word_offset(ValueIndex::inout(2)), 4);
    assert_eq!(cs.word_offset(ValueIndex::private(0)), 5);

    let public = build_key_collection(&cs, InoutSegment::Public);
    assert_eq!(public.public.n_words(), 5);
    assert_eq!(public.public.word_keys(4).len(), 1);
    assert_eq!(public.log_witness_words(), 2);

    let hidden = build_key_collection(&cs, InoutSegment::Hidden);
    assert_eq!(hidden.public.n_words(), 2);
    assert_eq!(hidden.hidden.word_keys(2).len(), 1);
    assert_eq!(hidden.log_witness_words(), 3);
}

/// The value of a shifted reference.
fn read(words: &[Word], cs: &ConstraintSystem, term: &ShiftedValueIndex) -> Word {
    let word = words[cs.word_offset(term.value_index)];
    let inner = term.inner.variant.apply(word, term.inner.amount as usize);
    term.outer.variant.apply(inner, term.outer.amount as usize)
}

/// The claims of the reduction hold end to end: starting from true evaluations of the operands, the
/// last claim is the product of the two values the run ends with.
#[test]
fn a_true_claim_reduces_to_the_witness_and_the_wiring() {
    let mut rng = StdRng::seed_from_u64(11);
    let cs = shifted_constraint_system();
    let key_collection = build_key_collection(&cs, InoutSegment::Public);
    let words: Vec<Word> = (0..8).map(|_| Word(rng.next_u64())).collect();

    let subspace = BinarySubspace {
        basis: random_scalars(&mut rng, 6),
    };
    let r_zhat_prime = random_scalars(&mut rng, 1)[0];
    let weights = lagrange_evals(&subspace, r_zhat_prime);

    // One constraint, so the constraint point has no coordinates.
    let mut evals = [F::zero(); BITAND_ARITY];
    for (eval, operand) in evals.iter_mut().zip(&cs.and_constraints[0]) {
        for term in operand {
            let word = read(&words, &cs, term);
            for (k, &weight) in weights.iter().enumerate() {
                if (word.0 >> k) & 1 == 1 {
                    *eval = eval.add(weight);
                }
            }
        }
    }
    let claims = OperatorClaims {
        zero: OperatorData::zero_claim(r_zhat_prime),
        bitand: OperatorData {
            evals,
            r_zhat_prime,
            r_x_prime: Vec::new(),
        },
        intmul: OperatorData::zero_claim(r_zhat_prime),
        binmul: OperatorData::zero_claim(r_zhat_prime),
    };

    let challenges = random_scalars(&mut rng, 43);
    let mut channel = RecordingChannel::new(challenges.clone());
    let output = prove::<F, PackedBinaryGhash2x128b, _>(
        &key_collection,
        &words[..4],
        &words[4..],
        claims,
        &subspace,
        &mut channel,
    );

    // Replays the rounds: each quadratic is sent without its leading coefficient, which follows
    // from the claim.
    let lambda = challenges[1];
    let mut power = F::one();
    let mut claim = F::zero();
    for &eval in &evals {
        power = power.mul(lambda);
        claim = claim.add(power.mul(eval));
    }
    // Four coefficients come in first; then every round sends before it draws.
    let messages = channel.messages();
    assert_eq!(messages.len(), 2 * 39);
    let mut order: Vec<ProverEvent<F>> =
        challenges[..4].iter().map(|&c| ProverEvent::Drawn(c)).collect();
    for (message, &x) in messages.chunks(2).zip(&challenges[4..]) {
        order.extend(message.iter().map(|&m| ProverEvent::Sent(m)));
        order.push(ProverEvent::Drawn(x));
    }
    assert_eq!(channel.events, order);
    for (message, &x) in messages.chunks(2).zip(&challenges[4..]) {
        // p(0) + p(1) = c1 + c2 is the claim.
        let c2 = claim.add(message[1]);
        claim = message[0].add(x.mul(message[1].add(x.mul(c2))));
    }
    assert_eq!(claim, output.witness_eval.mul(output.monster_eval));
    assert_eq!(output.r_j.len(), 6);
    assert_eq!(output.r_y.len(), 3);

    // The witness's value is what its words fold to.
    let eq_j = eq_ind_partial_eval_scalars(&output.r_j);
    let eq_y = eq_ind_partial_eval_scalars(&output.r_y);
    let mut witness = F::zero();
    for (word, &row) in words.iter().zip(&eq_y) {
        for (k, &weight) in eq_j.iter().enumerate() {
            if (word.0 >> k) & 1 == 1 {
                witness = witness.add(weight.mul(row));
            }
        }
    }
    assert_eq!(output.witness_eval, witness);
}

#[test]
fn both_sides_evaluate_the_same_wiring() {
    let mut rng = StdRng::seed_from_u64(12);
    let hidden = ValueIndex::private(2);
    let mut cs = shifted_constraint_system();
    cs.and_constraints.push(vec![
        vec![ShiftedValueIndex::new(
            hidden,
            Shift::srl(3),
            Shift::sll(5),
        )],
        Vec::new(),
        vec![ShiftedValueIndex::plain(ValueIndex::constant(0))],
    ]);
    cs.zero_constraints
        .push(vec![vec![ShiftedValueIndex::plain(hidden)]]);
    let key_collection = build_key_collection(&cs, InoutSegment::Public);
    let n_public = key_collection.public.n_words();
    let n_hidden = key_collection.hidden.n_words();
    let n_constants = cs.constants.len();

    let r_x = random_scalars(&mut rng, 1);
    let coefficients = random_scalars(&mut rng, 4);
    let mut claims = zero_claims();
    claims.bitand.r_x_prime = r_x.clone();
    let mut channel = RecordingChannel::new(coefficients.clone());
    let prepared = claims.prepare(&mut channel);

    let h_eval = random_scalars(&mut rng, 1)[0];
    let (inner_amount, inner_variant) =
        (random_scalars(&mut rng, 6), random_scalars(&mut rng, 3));
    let (outer_amount, outer_variant) =
        (random_scalars(&mut rng, 6), random_scalars(&mut rng, 3));
    let inner = ShiftChallenge::new(inner_amount.clone(), inner_variant.clone());
    let outer = ShiftChallenge::new(outer_amount.clone(), outer_variant.clone());
    let (public_wiring, hidden_wiring) = build_monster_segments::<F, PackedBinaryGhash2x128b>(
        &key_collection,
        &prepared,
        h_eval,
        &inner,
        &outer,
    );
    let half = hidden_wiring.iter_scalars().len();
    let r_y = random_scalars(&mut rng, half.trailing_zeros() as usize + 1);
    let eq_y = eq_ind_partial_eval_scalars(&r_y);
    let built = dot(
        &public_wiring.iter_scalars(),
        &eq_y[..public_wiring.iter_scalars().len()],
    )
    .add(dot(&hidden_wiring.iter_scalars(), &eq_y[half..]));

    // One table per slot, the factor carried by the inner one.
    let table = |amount: &[F], variant: &[F], scale: F| -> Vec<F> {
        let (a, v) = (
            eq_ind_partial_eval_scalars(amount),
            eq_ind_partial_eval_scalars(variant),
        );
        (0..SHIFT_COUNT)
            .map(|c| scale.mul(v[c / 64]).mul(a[c % 64]))
            .collect()
    };
    let inner_table = table(&inner_amount, &inner_variant, h_eval);
    let outer_table = table(&outer_amount, &outer_variant, F::one());
    let scalars = ShiftScalars {
        inner: &inner_table,
        outer: &outer_table,
    };
    let hidden_weights = &eq_y[half..half + n_hidden];
    let and_eval = OperationEvalFn::<BITAND_ARITY>::new(
        &cs.and_constraints,
        n_constants,
        n_public - n_constants,
        n_hidden,
    )
    .call_native(&encode_operation_input(
        &r_x,
        coefficients[1],
        scalars,
        &eq_y[..n_constants],
        &eq_y[n_constants..n_public],
        hidden_weights,
    ));
    let zero_eval = OperationEvalFn::<ZERO_ARITY>::new(
        &cs.zero_constraints,
        n_constants,
        n_public - n_constants,
        n_hidden,
    )
    .call_native(&encode_operation_input(
        &[],
        coefficients[0],
        scalars,
        &eq_y[..n_constants],
        &eq_y[n_constants..n_public],
        hidden_weights,
    ));
    assert_ne!(built, F::zero());
    assert_eq!(built, zero_eval.add(and_eval));
}
