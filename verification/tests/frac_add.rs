use binius64::algebra::field::FieldOps;
use binius64::field::ghash::BinaryField128bGhash;
use binius64::field::packed::PackedField;
use binius64::field::types::PackedBinaryGhash4x128b;
use binius64::math::eq::eq_ind_partial_eval_scalars;
use binius64::math::field_buffer::FieldBuffer;
use binius64::sumcheck::frac_add_mle::{evaluators, new_split_half, FracAddFusedEvaluator};
use binius64::sumcheck::mle_check::{MleStore, SharedMleCheckProver};
use binius64::sumcheck::round::{RoundCoeffs, RoundEvals};
use binius64::sumcheck::round_state::RoundState;
use rand::rngs::StdRng;
use rand::{Rng, SeedableRng};

type F = BinaryField128bGhash;
type P = PackedBinaryGhash4x128b;

fn random_scalars(rng: &mut StdRng, n: usize) -> Vec<F> {
    (0..n)
        .map(|_| BinaryField128bGhash((rng.next_u64() as u128) << 64 | rng.next_u64() as u128))
        .collect()
}

fn random_field_buffer(rng: &mut StdRng, log_len: usize) -> FieldBuffer<P> {
    FieldBuffer::from_values(&random_scalars(rng, 1 << log_len))
}

fn copy(buffer: &FieldBuffer<P>) -> FieldBuffer<P> {
    FieldBuffer {
        log_len: buffer.log_len,
        values: buffer.values.clone(),
    }
}

fn evaluate(values: &[F], point: &[F]) -> F {
    let eq = eq_ind_partial_eval_scalars(point);
    values
        .iter()
        .zip(&eq)
        .fold(F::zero(), |acc, (&v, &e)| acc.add(v.mul(e)))
}

// One layer's two honest claims: the numerator and denominator compositions.
fn layer_claims(num: &FieldBuffer<P>, den: &FieldBuffer<P>, eval_point: &[F]) -> (F, F) {
    let half = 1 << eval_point.len();
    let num = num.iter_scalars();
    let den = den.iter_scalars();
    let numerator: Vec<F> = (0..half)
        .map(|i| num[i].mul(den[half + i]).add(num[half + i].mul(den[i])))
        .collect();
    let denominator: Vec<F> = (0..half).map(|i| den[i].mul(den[half + i])).collect();
    (
        evaluate(&numerator, eval_point),
        evaluate(&denominator, eval_point),
    )
}

#[test]
fn fused_evaluator_matches_batched_split_evaluators() {
    let mut rng = StdRng::seed_from_u64(0);

    for n_vars in [1usize, 3, 8, 14] {
        // The parents carry the variable that splits them into the four layer columns.
        let num_parent = random_field_buffer(&mut rng, n_vars + 1);
        let den_parent = random_field_buffer(&mut rng, n_vars + 1);
        let eval_point = random_scalars(&mut rng, n_vars);
        let batch_coeff = random_scalars(&mut rng, 1)[0];
        let (num_claim, den_claim) = layer_claims(&num_parent, &den_parent, &eval_point);

        // One evaluator per claim, the two round polynomials batched below.
        let mut split_prover = new_split_half(
            copy(&num_parent),
            copy(&den_parent),
            eval_point.clone(),
            [num_claim, den_claim],
        );

        // One evaluator, one claim, already batched.
        let mut fused_store = MleStore::<P>::new(n_vars);
        let [num_a, num_b] = fused_store.push_split_half(copy(&num_parent));
        let [den_a, den_b] = fused_store.push_split_half(copy(&den_parent));
        let fused = FracAddFusedEvaluator::new([num_a, num_b, den_a, den_b], batch_coeff);
        let mut fused_prover = SharedMleCheckProver::new(
            fused_store,
            vec![num_claim.add(batch_coeff.mul(den_claim))],
            vec![fused],
            eval_point.clone(),
        );

        for round in 0..n_vars {
            let split = split_prover.execute();
            let batched_reference: Vec<F> = split[0]
                .0
                .iter()
                .zip(&split[1].0)
                .map(|(&n, &d)| n.add(batch_coeff.mul(d)))
                .collect();

            let fused_round = fused_prover.execute();
            assert_eq!(
                fused_round.len(),
                1,
                "the fused evaluator emits one polynomial"
            );
            assert_eq!(
                fused_round[0].0, batched_reference,
                "round {round} polynomial differs at n_vars={n_vars}"
            );

            let challenge = random_scalars(&mut rng, 1)[0];
            split_prover.fold(challenge);
            fused_prover.fold(challenge);
        }

        assert_eq!(
            split_prover.finish(),
            fused_prover.finish(),
            "column evaluations differ at n_vars={n_vars}"
        );
    }
}

#[test]
fn test_frac_add_sumcheck() {
    let n_vars = 8;
    let mut rng = StdRng::seed_from_u64(0);

    let num_a = random_field_buffer(&mut rng, n_vars);
    let num_b = random_field_buffer(&mut rng, n_vars);
    let den_a = random_field_buffer(&mut rng, n_vars);
    let den_b = random_field_buffer(&mut rng, n_vars);
    let columns: Vec<Vec<F>> = [&num_a, &num_b, &den_a, &den_b]
        .iter()
        .map(|c| c.iter_scalars())
        .collect();

    let numerator: Vec<F> = (0..1 << n_vars)
        .map(|i| {
            columns[0][i]
                .mul(columns[3][i])
                .add(columns[1][i].mul(columns[2][i]))
        })
        .collect();
    let denominator: Vec<F> = (0..1 << n_vars)
        .map(|i| columns[2][i].mul(columns[3][i]))
        .collect();

    let eval_point = random_scalars(&mut rng, n_vars);
    let mut claims = [
        evaluate(&numerator, &eval_point),
        evaluate(&denominator, &eval_point),
    ];

    let mut store = MleStore::<P>::new(n_vars);
    let cols = [num_a, num_b, den_a, den_b].map(|col| store.push_owned(col));
    let (num_evaluator, den_evaluator) = evaluators(cols);
    let mut prover = SharedMleCheckProver::new(
        store,
        claims.to_vec(),
        vec![num_evaluator, den_evaluator],
        eval_point.clone(),
    );
    assert_eq!(prover.n_vars(), n_vars);

    // Variables are bound from high to low; each round's polynomial continues its claim.
    let mut point = vec![F::zero(); n_vars];
    for round in 0..n_vars {
        let alpha = eval_point[n_vars - 1 - round];
        let polys = prover.execute();
        assert_eq!(polys.len(), 2);
        let challenge = random_scalars(&mut rng, 1)[0];
        for (claim, poly) in claims.iter_mut().zip(&polys) {
            let at_zero = poly.evaluate(F::zero());
            let at_one = poly.evaluate(F::one());
            let joined = F::one().add(alpha).mul(at_zero).add(alpha.mul(at_one));
            assert_eq!(joined, *claim, "round {round}");
            *claim = poly.evaluate(challenge);
        }
        point[n_vars - 1 - round] = challenge;
        prover.fold(challenge);
    }

    let evals = prover.finish();
    assert_eq!(evals.len(), 4);
    for (eval, column) in evals.iter().zip(&columns) {
        assert_eq!(*eval, evaluate(column, &point));
    }
    assert_eq!(
        evals[0].mul(evals[3]).add(evals[1].mul(evals[2])),
        claims[0],
        "Batched evaluation should equal the reduced evaluation"
    );
    assert_eq!(evals[2].mul(evals[3]), claims[1]);
}

#[test]
fn a_round_state_hands_out_what_it_holds() {
    let waiting: RoundState<u8, u16> = RoundState::Claim(7);
    assert_eq!(*waiting.claim(), 7);
    let done: RoundState<u8, u16> = RoundState::Coeffs(9);
    assert_eq!(*done.coeffs(), 9);
}

#[test]
fn round_polynomials_evaluate_by_their_coefficients() {
    let two = BinaryField128bGhash(2);
    let poly = RoundCoeffs(vec![F::one(), two, F::one()]);
    // 1 + 2 * 2 + 2^2, with X for two.
    assert_eq!(poly.evaluate(two), F::one());
    assert_eq!(poly.truncate(), vec![F::one(), two]);

    // A quadratic is determined by its value at one, its leading coefficient and the sum of its
    // values at zero and one.
    let evals = RoundEvals {
        y_1: poly.evaluate(F::one()),
        y_inf: F::one(),
    };
    let claim = poly.evaluate(F::zero()).add(poly.evaluate(F::one()));
    assert_eq!(evals.interpolate(claim).0, poly.0);
}

#[test]
fn packed_lanes_do_not_change_the_evaluations() {
    let scalars: Vec<F> = (0..8u128).map(|i| BinaryField128bGhash(i * i + 1)).collect();
    let wide = FieldBuffer::<P>::from_values(&scalars);
    let narrow = FieldBuffer::<F>::from_values(&scalars);
    assert_eq!(wide.iter_scalars(), narrow.iter_scalars());
    assert_eq!(wide.values.len(), 2);
    assert_eq!(P::iter_slice(&wide.values), scalars);
}
