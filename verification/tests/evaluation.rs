use binius64::algebra::field::FieldOps;
use binius64::constraint_system::{
    Shift, ShiftVariant, ShiftedValueIndex, ValueIndex, SHIFT_COUNT, SHIFT_VARIANT_COUNT,
};
use binius64::field::ghash::BinaryField128bGhash;
use binius64::math::eq::eq_ind_partial_eval_scalars;
use binius64::math::index::log2_ceil_usize;
use binius64::shift::evaluation::{
    encode_operation_input, operand_shift_scalar_table, OperationEvalFn, ShiftScalars,
};
use rand::rngs::StdRng;
use rand::{Rng, SeedableRng};

type F = BinaryField128bGhash;
type Constraint = Vec<Vec<ShiftedValueIndex>>;

fn random_scalars(rng: &mut StdRng, n: usize) -> Vec<F> {
    (0..n)
        .map(|_| BinaryField128bGhash((rng.next_u64() as u128) << 64 | rng.next_u64() as u128))
        .collect()
}

fn below(rng: &mut StdRng, n: usize) -> usize {
    (rng.next_u64() % n as u64) as usize
}

/// Random constraints of three operands over private words: unshifted, singly shifted and doubly
/// shifted terms.
fn random_and_constraints(
    rng: &mut StdRng,
    n_constraints: usize,
    n_words: usize,
) -> Vec<Constraint> {
    let random_shift = |rng: &mut StdRng| Shift {
        variant: ShiftVariant::from_index(below(rng, SHIFT_VARIANT_COUNT)),
        amount: below(rng, 64) as u8,
    };
    (0..n_constraints)
        .map(|_| {
            (0..3)
                .map(|_| {
                    (0..below(rng, 4))
                        .map(|_| {
                            let value_index = ValueIndex::private(below(rng, n_words) as u32);
                            let inner = random_shift(rng);
                            if below(rng, 3) == 0 {
                                ShiftedValueIndex::new(value_index, inner, random_shift(rng))
                            } else {
                                ShiftedValueIndex::single(value_index, inner)
                            }
                        })
                        .collect()
                })
                .collect()
        })
        .collect()
}

#[test]
fn evaluate_monster_scales_by_the_outer_slot_weight() {
    let mut rng = StdRng::seed_from_u64(7);

    let n_words = 40usize;
    let constraints = random_and_constraints(&mut rng, 32, n_words);
    let r_x_prime = random_scalars(&mut rng, 5);
    let lambda = random_scalars(&mut rng, 1)[0];
    let inner = random_scalars(&mut rng, SHIFT_COUNT);
    let hidden_tensor = random_scalars(&mut rng, n_words);

    let eval_fn = OperationEvalFn::<3>::new(&constraints, 0, 0, n_words);
    let eval_with_outer = |outer: &[F]| {
        let shift_scalars = ShiftScalars {
            inner: &inner,
            outer,
        };
        let input =
            encode_operation_input(&r_x_prime, lambda, shift_scalars, &[], &[], &hidden_tensor);
        eval_fn.call_native(&input)
    };

    let outer = random_scalars(&mut rng, SHIFT_COUNT);
    let baseline = eval_with_outer(&outer);
    // A non-degenerate fixture, or the scaling below proves nothing.
    assert_ne!(baseline, F::zero());

    // Scaling every entry scales the evaluation by the same factor.
    let scale = random_scalars(&mut rng, 1)[0];
    let scaled: Vec<F> = outer.iter().map(|weight| weight.mul(scale)).collect();
    assert_eq!(eval_with_outer(&scaled), baseline.mul(scale));

    // Zeroing the table kills the evaluation, so no term slipped past the outer factor.
    assert_eq!(eval_with_outer(&[F::zero(); SHIFT_COUNT]), F::zero());

    // The identity-selecting table keeps the terms without an outer shift.
    let mut identity_selecting = vec![F::zero(); SHIFT_COUNT];
    identity_selecting[0] = F::one();
    let singly_shifted_only: Vec<Constraint> = constraints
        .iter()
        .map(|constraint| {
            constraint
                .iter()
                .map(|operand| {
                    operand
                        .iter()
                        .filter(|svi| !svi.is_doubly_shifted())
                        .copied()
                        .collect()
                })
                .collect()
        })
        .collect();
    let shift_scalars = ShiftScalars {
        inner: &inner,
        outer: &identity_selecting,
    };
    let input = encode_operation_input(&r_x_prime, lambda, shift_scalars, &[], &[], &hidden_tensor);
    assert_eq!(
        eval_with_outer(&identity_selecting),
        OperationEvalFn::<3>::new(&singly_shifted_only, 0, 0, n_words).call_native(&input)
    );
}

#[test]
fn evaluate_monster_native_matches_generic() {
    let mut rng = StdRng::seed_from_u64(3);

    let n_words = 40usize;
    for n_constraints in [64usize, 37] {
        let constraints = random_and_constraints(&mut rng, n_constraints, n_words);

        let r_x_prime = random_scalars(&mut rng, log2_ceil_usize(n_constraints));
        let lambda = random_scalars(&mut rng, 1)[0];
        let inner = random_scalars(&mut rng, SHIFT_COUNT);
        let outer = random_scalars(&mut rng, SHIFT_COUNT);
        let shift_scalars = ShiftScalars {
            inner: &inner,
            outer: &outer,
        };
        let hidden_tensor = random_scalars(&mut rng, n_words);

        let eval_fn = OperationEvalFn::<3>::new(&constraints, 0, 0, n_words);
        let input =
            encode_operation_input(&r_x_prime, lambda, shift_scalars, &[], &[], &hidden_tensor);
        let generic = eval_fn.call::<F>(&input);
        let native = eval_fn.call_native(&input);
        assert_eq!(generic, native, "n_constraints = {n_constraints}");
    }
}

#[test]
fn evaluate_monster_ignores_zero_padding_constraints() {
    let mut rng = StdRng::seed_from_u64(5);

    let n_words = 40usize;
    let n_constraints = 21usize;
    let constraints = random_and_constraints(&mut rng, n_constraints, n_words);
    let mut padded = constraints.clone();
    padded.resize(
        n_constraints.next_power_of_two(),
        vec![Vec::new(), Vec::new(), Vec::new()],
    );

    let r_x_prime = random_scalars(&mut rng, log2_ceil_usize(n_constraints));
    let lambda = random_scalars(&mut rng, 1)[0];
    let inner = random_scalars(&mut rng, SHIFT_COUNT);
    let outer = random_scalars(&mut rng, SHIFT_COUNT);
    let shift_scalars = ShiftScalars {
        inner: &inner,
        outer: &outer,
    };
    let hidden_tensor = random_scalars(&mut rng, n_words);

    let input = encode_operation_input(&r_x_prime, lambda, shift_scalars, &[], &[], &hidden_tensor);
    assert_eq!(
        OperationEvalFn::<3>::new(&constraints, 0, 0, n_words).call::<F>(&input),
        OperationEvalFn::<3>::new(&padded, 0, 0, n_words).call::<F>(&input)
    );
    assert_eq!(
        OperationEvalFn::<3>::new(&constraints, 0, 0, n_words).call_native(&input),
        OperationEvalFn::<3>::new(&padded, 0, 0, n_words).call_native(&input)
    );
}

#[test]
fn an_evaluation_is_the_sum_over_its_terms() {
    let mut rng = StdRng::seed_from_u64(8);
    let constraints: Vec<Constraint> = vec![
        vec![
            vec![ShiftedValueIndex::plain(ValueIndex::constant(1))],
            vec![],
            vec![ShiftedValueIndex::single(
                ValueIndex::inout(0),
                Shift::sar(7),
            )],
        ],
        vec![
            vec![],
            vec![ShiftedValueIndex::new(
                ValueIndex::private(2),
                Shift::srl(3),
                Shift::sll(5),
            )],
            vec![],
        ],
    ];
    let r_x = random_scalars(&mut rng, 1);
    let lambda = random_scalars(&mut rng, 1)[0];
    let inner = random_scalars(&mut rng, SHIFT_COUNT);
    let outer = random_scalars(&mut rng, SHIFT_COUNT);
    let constants = random_scalars(&mut rng, 2);
    let inout = random_scalars(&mut rng, 1);
    let hidden = random_scalars(&mut rng, 3);
    let input = encode_operation_input(
        &r_x,
        lambda,
        ShiftScalars {
            inner: &inner,
            outer: &outer,
        },
        &constants,
        &inout,
        &hidden,
    );
    let eval_fn = OperationEvalFn::<3>::new(&constraints, 2, 1, 3);

    let eq = eq_ind_partial_eval_scalars(&r_x);
    let square = lambda.mul(lambda);
    let cube = square.mul(lambda);
    let first = lambda
        .mul(inner[0])
        .mul(outer[0])
        .mul(constants[1])
        .add(
            cube.mul(inner[Shift::sar(7).index()])
                .mul(outer[0])
                .mul(inout[0]),
        );
    let second = square
        .mul(inner[Shift::srl(3).index()])
        .mul(outer[Shift::sll(5).index()])
        .mul(hidden[2]);
    let expected = eq[0].mul(first).add(eq[1].mul(second));
    assert_eq!(eval_fn.call::<F>(&input), expected);

    // Splitting gives back what was encoded.
    let parts = eval_fn.split_input(&input);
    assert_eq!(parts.shift_scalars.inner, inner.as_slice());
    assert_eq!(parts.shift_scalars.outer, outer.as_slice());
}

#[test]
fn the_operand_table_weights_each_shift_by_the_operands_powers() {
    let lambda = BinaryField128bGhash(2);
    let scalars = vec![F::one(), BinaryField128bGhash(3)];
    let table = operand_shift_scalar_table(&scalars, lambda, 3);
    let values: Vec<u128> = table.iter().map(|v| v.0).collect();
    assert_eq!(values, vec![2, 4, 8, 6, 12, 24]);
}
