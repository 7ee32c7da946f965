use std::fmt::Debug;

use binius64::algebra::field::FieldOps;
use binius64::field::ghash::BinaryField128bGhash;
use binius64::field::packed::PackedField;
use binius64::field::types::{PackedBinaryGhash1x128b, PackedBinaryGhash4x128b};
use binius64::math::bit_reverse::{bit_reverse_packed, reverse_bits};
use binius64::math::field_buffer::FieldBuffer;
use binius64::math::ntt::{
    DomainContext, GaoMateerPreExpanded, NeighborsLastReference, TraceOneElement,
};
use binius64::math::reed_solomon::{repeated_message_buffer, ReedSolomonCode};
use rand::rngs::StdRng;
use rand::{Rng, SeedableRng};

type F = BinaryField128bGhash;

fn random_scalars(rng: &mut StdRng, n: usize) -> Vec<F> {
    (0..n)
        .map(|_| BinaryField128bGhash((rng.next_u64() as u128) << 64 | rng.next_u64() as u128))
        .collect()
}

fn random_field_buffer<P: PackedField<Scalar = F>>(
    rng: &mut StdRng,
    log_len: usize,
) -> FieldBuffer<P> {
    FieldBuffer::from_values(&random_scalars(rng, 1 << log_len))
}

fn test_encode_batch_helper<P>(log_dim: usize, log_inv_rate: usize, log_batch_size: usize)
where
    P: PackedField<Scalar = F> + PartialEq + Debug,
{
    let mut rng = StdRng::seed_from_u64(0);

    let rs_code = ReedSolomonCode::new(log_dim, log_inv_rate);
    let ntt = NeighborsLastReference {
        domain_context: GaoMateerPreExpanded::<F>::generate(rs_code.log_len()),
    };

    let message = random_field_buffer::<P>(&mut rng, log_dim + log_batch_size);
    let encoded_buffer = rs_code.encode_batch(&ntt, &message, log_batch_size);

    // Apply the transform with zero-padded coefficients to the bit-reversed message.
    let mut reference_buffer = FieldBuffer::<P>::zeros(rs_code.log_len() + log_batch_size);
    for (i, val) in message.iter_scalars().into_iter().enumerate() {
        let bits = (rs_code.log_dim() + log_batch_size) as u32;
        reference_buffer.set(reverse_bits(i, bits), val);
    }
    ntt.forward_transform(&mut reference_buffer, 0, log_batch_size);

    assert_eq!(
        encoded_buffer.values, reference_buffer.values,
        "encode_batch_inplace result differs from reference NTT implementation"
    );
}

#[test]
fn test_encode_batch_above_packing_width() {
    test_encode_batch_helper::<PackedBinaryGhash1x128b>(4, 2, 0);
    test_encode_batch_helper::<PackedBinaryGhash1x128b>(6, 2, 1);
    test_encode_batch_helper::<PackedBinaryGhash1x128b>(8, 3, 2);

    test_encode_batch_helper::<PackedBinaryGhash4x128b>(4, 2, 0);
    test_encode_batch_helper::<PackedBinaryGhash4x128b>(6, 2, 1);
    test_encode_batch_helper::<PackedBinaryGhash4x128b>(8, 3, 2);
}

#[test]
fn test_encode_batch_below_packing_width() {
    test_encode_batch_helper::<PackedBinaryGhash4x128b>(1, 2, 0);
}

fn test_lift_duplicate_identity_helper<P: PackedField<Scalar = F>>(
    log_dim_small: usize,
    log_dim_large: usize,
    log_inv_rate: usize,
) {
    assert!(log_dim_small <= log_dim_large);
    let eta = log_dim_large - log_dim_small;

    let mut rng = StdRng::seed_from_u64(0);

    // One shared transform covers the larger code.
    let ntt = NeighborsLastReference {
        domain_context: GaoMateerPreExpanded::<F>::generate(log_dim_large + log_inv_rate),
    };

    let rs_small = ReedSolomonCode::new(log_dim_small, log_inv_rate);
    let rs_large = ReedSolomonCode::new(log_dim_large, log_inv_rate);

    let msg_small = random_field_buffer::<P>(&mut rng, log_dim_small);

    // The small message occupies the low values, the high coordinates are zero.
    let mut msg_large = FieldBuffer::<P>::zeros(log_dim_large);
    for (i, val) in msg_small.iter_scalars().into_iter().enumerate() {
        msg_large.set(i, val);
    }

    let enc_small = rs_small.encode_batch(&ntt, &msg_small, 0);
    let enc_large = rs_large.encode_batch(&ntt, &msg_large, 0);

    let small_scalars = enc_small.iter_scalars();
    let large_scalars = enc_large.iter_scalars();
    assert_eq!(small_scalars.len(), 1 << (log_dim_small + log_inv_rate));
    assert_eq!(large_scalars.len(), 1 << (log_dim_large + log_inv_rate));

    for (j, &large) in large_scalars.iter().enumerate() {
        assert_eq!(
            large,
            small_scalars[j >> eta],
            "lift identity failed at index {j} (eta = {eta})"
        );
    }
}

#[test]
fn test_lift_duplicate_identity() {
    test_lift_duplicate_identity_helper::<PackedBinaryGhash1x128b>(6, 6, 2);
    test_lift_duplicate_identity_helper::<PackedBinaryGhash1x128b>(4, 6, 2);
    test_lift_duplicate_identity_helper::<PackedBinaryGhash1x128b>(2, 8, 1);
    test_lift_duplicate_identity_helper::<PackedBinaryGhash1x128b>(0, 4, 3);
    test_lift_duplicate_identity_helper::<PackedBinaryGhash4x128b>(4, 8, 2);
}

// One copy of the message, one permutation, then a chain of doublings.
fn repeated_message_buffer_reference<P: PackedField<Scalar = F>>(
    msg: &FieldBuffer<P>,
    total: usize,
) -> Vec<P> {
    let mut buffer = FieldBuffer {
        log_len: msg.log_len,
        values: msg.values.clone(),
    };
    bit_reverse_packed(&mut buffer);
    let mut output = buffer.values;
    while output.len() < total {
        output.extend_from_within(..);
    }
    output
}

#[test]
fn test_repeated_message_buffer_matches_the_doubling_chain() {
    let mut rng = StdRng::seed_from_u64(0);

    // Messages of 1 to 16 words, each repeated 1 to 8 times over.
    for log_msg in 0..5 {
        for log_copies in 0..4 {
            let msg = random_field_buffer::<PackedBinaryGhash1x128b>(&mut rng, log_msg);
            let total = (1 << log_msg) << log_copies;
            let expected = repeated_message_buffer_reference(&msg, total);

            // Every run width a caller can pass, from one word up to the whole message.
            for log_run in 0..=log_msg {
                let built = repeated_message_buffer(&msg, total, 1 << log_run);
                assert_eq!(built, expected, "log_msg={log_msg} log_run={log_run}");
            }
        }
    }
}

#[test]
fn a_code_has_the_sizes_it_was_made_with() {
    let code = ReedSolomonCode::new(5, 2);
    assert_eq!(code.log_dim(), 5);
    assert_eq!(code.dim(), 32);
    assert_eq!(code.log_inv_rate(), 2);
    assert_eq!(code.inv_rate(), 4);
    assert_eq!(code.log_len(), 7);
    assert_eq!(code.len(), 128);
    assert_eq!(code.subspace::<F>().len(), 7);
}

#[test]
fn a_constant_message_encodes_to_a_constant_codeword() {
    let code = ReedSolomonCode::new(0, 3);
    let ntt = NeighborsLastReference {
        domain_context: GaoMateerPreExpanded::<F>::generate(3),
    };
    let message = FieldBuffer::<PackedBinaryGhash1x128b>::from_values(&[F::one()]);
    let word = code.encode_batch(&ntt, &message, 0);
    assert_eq!(word.iter_scalars(), vec![F::one(); 8]);
}

#[test]
fn the_domain_basis_follows_its_recurrence() {
    // Each basis element is the square plus itself of the next one, up to one.
    let domain = GaoMateerPreExpanded::<F>::generate(6);
    let basis = domain.subspace(6);
    assert_eq!(basis[0], F::one());
    for i in 1..6 {
        assert_eq!(basis[i].square().add(basis[i]), basis[i - 1]);
    }
    // A smaller domain is a prefix of a larger one.
    let smaller = GaoMateerPreExpanded::<F>::generate(4);
    assert_eq!(smaller.subspace(4)[..], basis[..4]);
    assert_eq!(domain.log_domain_size(), 6);
    // The absolute trace of the element the basis starts from is one.
    let mut trace = F::zero();
    let mut power = F::trace_one_element();
    for _ in 0..128 {
        trace = trace.add(power);
        power = power.square();
    }
    assert_eq!(trace, F::one());
}
