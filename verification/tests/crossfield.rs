use binius64::algebra::field::FieldOps;
use binius64::crossfield::codec::{
    challenge_element, decode_f162, encode_f162, sample_f162, F162, PACKING,
};
use binius64::crossfield::partial::partial_evals;
use binius64::crossfield::receiving::{challenge_f162, CrossFieldVerifier, Error};
use binius64::crossfield::sending::CrossFieldProver;
use binius64::field::ghash::BinaryField128bGhash;
use binius64::field::types::PackedBinaryGhash2x128b;
use binius64::math::eq::eq_ind_partial_eval_scalars;
use binius64::math::field_buffer::FieldBuffer;
use binius64::sumcheck::channel::{
    ChannelError, ProverEvent, RecordingChannel, ReplayChannel, VerifierEvent,
};
use rand::rngs::StdRng;
use rand::{Rng, SeedableRng};

type B128 = BinaryField128bGhash;

fn random_scalars(rng: &mut StdRng, n: usize) -> Vec<B128> {
    (0..n)
        .map(|_| BinaryField128bGhash((rng.next_u64() as u128) << 64 | rng.next_u64() as u128))
        .collect()
}

#[test]
fn two_challenges_make_one_element() {
    let a = BinaryField128bGhash(0x1111_1111_1111_1111_2222_2222_2222_2222);
    let b = BinaryField128bGhash(u128::MAX);
    let element = challenge_element(a, b);
    assert_eq!(
        element.0,
        [
            0x2222_2222_2222_2222,
            0x1111_1111_1111_1111,
            (1 << 34) - 1
        ]
    );
}

#[test]
fn decoding_undoes_encoding() {
    let elements = [F162([1, 2, 3]), F162([u64::MAX, 5, 1 << 33])];
    let scalars = encode_f162(&elements);
    assert_eq!(scalars.len(), 4);
    assert_eq!(scalars[0].0, 1 | 2 << 64);
    assert_eq!(scalars[1].0, 3);
    assert_eq!(decode_f162(&scalars), elements);
    // A scalar left over is dropped.
    assert_eq!(decode_f162(&scalars[..3]).len(), 1);
}

#[test]
fn both_sides_draw_the_same_elements() {
    let challenges = random_scalars(&mut StdRng::seed_from_u64(1), 6);
    let mut sender = RecordingChannel::new(challenges.clone());
    let mut receiver = ReplayChannel::new(vec![], challenges);
    assert_eq!(
        sample_f162(&mut sender, 3),
        challenge_f162(&mut receiver, 3)
    );
}

#[test]
fn partial_evaluations_recombine_to_the_evaluation() {
    let mut rng = StdRng::seed_from_u64(2);
    let witness = random_scalars(&mut rng, 8);
    let point = random_scalars(&mut rng, 10);
    let partials = partial_evals(&witness, &point[7..]);
    assert_eq!(partials.len(), PACKING);

    let low = eq_ind_partial_eval_scalars(&point[..7]);
    let recombined = partials
        .iter()
        .zip(&low)
        .fold(B128::zero(), |acc, (v, e)| acc.add(v.mul(*e)));

    let whole = eq_ind_partial_eval_scalars(&point);
    let mut direct = B128::zero();
    for (j, &weight) in whole.iter().enumerate() {
        if (witness[j / 128].0 >> (j % 128)) & 1 == 1 {
            direct = direct.add(weight);
        }
    }
    assert_eq!(recombined, direct);
}

#[test]
fn what_one_side_sends_the_other_receives() {
    let mut rng = StdRng::seed_from_u64(3);
    let witness = random_scalars(&mut rng, 4);
    let point = random_scalars(&mut rng, 9);
    let challenges = random_scalars(&mut rng, 18);
    let buffer = FieldBuffer::<PackedBinaryGhash2x128b>::from_values(&witness);

    let mut sender = RecordingChannel::new(challenges.clone());
    let mut proving = CrossFieldProver::start(&buffer, &point, &mut sender);
    let messages = [
        [F162([1, 2, 3]), F162([4, 5, 6])],
        [F162([7, 8, 9]), F162([10, 11, 12])],
    ];
    let drawn: Vec<F162> = messages
        .iter()
        .map(|m| proving.round(*m, &mut sender))
        .collect();
    assert_eq!(proving.r_hi, vec![point[8], point[7]]);
    let r_prime = proving.r_prime.clone();
    let output = proving.finish(F162([13, 14, 15]), &mut sender);
    assert_eq!(output.opened, F162([13, 14, 15]));
    assert_eq!(output.r_pp, drawn);
    assert_eq!(output.bytes_switch, 2048 + 2 * 2 * 21);
    let messages_sent = sender.messages();
    assert_eq!(messages_sent.len(), 128 + 8 + 4);

    // The partial evaluations go out before the batching point comes in, every round's message
    // before its challenge, and the witness at the end.
    let mut order = String::new();
    for event in &sender.events {
        order.push(match event {
            ProverEvent::Sent(_) => 's',
            ProverEvent::Drawn(_) => 'd',
        });
    }
    let expected = "s".repeat(128) + &"d".repeat(14) + &"ssssdd".repeat(2) + &"s".repeat(4);
    assert_eq!(order, expected);

    let claim = BinaryField128bGhash(99);
    let mut receiver = ReplayChannel::new(messages_sent, challenges);
    let mut checking = CrossFieldVerifier::start(claim, &point, &mut receiver).unwrap();
    assert_eq!(checking.claim, claim);
    assert_eq!(checking.v, partial_evals(&witness, &point[7..]));
    assert_eq!(checking.r_prime, r_prime);
    assert_eq!(checking.r_lo.len(), 7);
    assert_eq!(checking.r_lo[0], point[6]);
    assert_eq!(checking.started(Ok(())), Ok(()));
    for (message, r) in messages.iter().zip(&drawn) {
        let (received, challenge) = checking.round(&mut receiver).unwrap();
        assert_eq!(received, *message);
        assert_eq!(challenge, *r);
    }
    assert_eq!(checking.r_pp, drawn);
    assert_eq!(checking.trace(&mut receiver).unwrap(), witness);
    assert_eq!(checking.conclude(true), Ok(()));

    // The receiving side goes through the same steps.
    let mut replayed = String::new();
    for event in &receiver.events {
        replayed.push(match event {
            VerifierEvent::Received(_) => 's',
            VerifierEvent::Challenged(_) => 'd',
        });
    }
    assert_eq!(replayed, expected);
    assert_eq!(receiver.n_read, receiver.messages.len());
    assert_eq!(receiver.n_drawn, receiver.challenges.len());
}

#[test]
fn a_true_claim_is_what_the_received_partial_evaluations_recombine_to() {
    let mut rng = StdRng::seed_from_u64(6);
    let witness = random_scalars(&mut rng, 4);
    let point = random_scalars(&mut rng, 9);
    let challenges = random_scalars(&mut rng, 18);

    // The witness's bits at the whole point.
    let mut claim = B128::zero();
    for (j, &weight) in eq_ind_partial_eval_scalars(&point).iter().enumerate() {
        if (witness[j / 128].0 >> (j % 128)) & 1 == 1 {
            claim = claim.add(weight);
        }
    }

    let mut sender = RecordingChannel::new(challenges.clone());
    let buffer = FieldBuffer::<PackedBinaryGhash2x128b>::from_values(&witness);
    let mut proving = CrossFieldProver::start(&buffer, &point, &mut sender);
    for _ in 0..2 {
        proving.round([F162([1, 0, 0]), F162([0, 1, 0])], &mut sender);
    }
    proving.finish(F162([0, 0, 0]), &mut sender);

    let mut receiver = ReplayChannel::new(sender.messages(), challenges);
    let checking = CrossFieldVerifier::start(claim, &point, &mut receiver).unwrap();
    let mut low = checking.r_lo.clone();
    low.reverse();
    let recombined = checking
        .v
        .iter()
        .zip(eq_ind_partial_eval_scalars(&low))
        .fold(B128::zero(), |acc, (v, e)| acc.add(v.mul(e)));
    assert_eq!(recombined, claim);
}

#[test]
fn a_run_is_turned_down_for_its_reason() {
    let mut rng = StdRng::seed_from_u64(4);
    let point = random_scalars(&mut rng, 8);
    let challenges = random_scalars(&mut rng, 20);
    let claim = B128::one();

    // Too few partial evaluations.
    let mut short = ReplayChannel::new(random_scalars(&mut rng, 127), challenges.clone());
    let failed = CrossFieldVerifier::start(claim, &point, &mut short)
        .err()
        .unwrap();
    assert_eq!(failed, Error::Channel(ChannelError::ProofEmpty));
    assert!(short.events.is_empty(), "nothing is drawn for a message that never came");

    // A round's message is missing, then the witness.
    let mut channel = ReplayChannel::new(random_scalars(&mut rng, 130), challenges);
    let mut checking = CrossFieldVerifier::start(claim, &point, &mut channel).unwrap();
    assert_eq!(
        checking.started(Err("claim mismatch")),
        Err(Error::Switch("claim mismatch"))
    );
    assert_eq!(
        checking.round(&mut channel),
        Err(Error::Channel(ChannelError::ProofEmpty))
    );
    assert_eq!(channel.events.len(), 128 + 14);

    // The round goes through, and the witness is cut short.
    let challenges = random_scalars(&mut rng, 16);
    let mut channel = ReplayChannel::new(random_scalars(&mut rng, 128 + 4 + 1), challenges);
    let mut checking = CrossFieldVerifier::start(claim, &point, &mut channel).unwrap();
    checking.round(&mut channel).unwrap();
    assert_eq!(
        checking.trace(&mut channel),
        Err(ChannelError::ProofEmpty)
    );
    assert_eq!(channel.events.len(), 128 + 14 + 4 + 2);

    // The last check fails.
    let failed = checking.conclude(false).unwrap_err();
    assert_eq!(failed, Error::Switch("sumcheck final check failed"));
    assert_eq!(
        failed.message(),
        ("cross-field switch: ", "sumcheck final check failed")
    );
    assert_eq!(
        Error::Channel(ChannelError::ProofEmpty).message().0,
        "channel: "
    );
}
