//! The operand evaluation claims the shift reduction receives, one per operation.

use vstd::arithmetic::power2::pow2;
use crate::algebra::field::{Field, FieldOps, lemma_sum_scale, lemma_times_nil, lemma_unit_times};
use crate::algebra::group::AdditiveGroup;
use crate::algebra::sum::{lemma_sum_ext, lemma_sum_first, sum};
use crate::constraint_system::{BINMUL_ARITY, BITAND_ARITY, INTMUL_ARITY, ZERO_ARITY};
use crate::field::packed::power;
use crate::math::eq::{eq_ind, eq_ind_partial_eval_scalars};
use crate::shift::keys::Operation;
use crate::sumcheck::channel::{IPProverChannel, draws};
use crate::sumcheck::round::poly_eval;
use vstd::prelude::*;

verus! {

/// One operation's operand evaluation claims, with the point they are claimed at.
///
/// The number of operands is part of the type, so no two operations' claims can trade places.
#[derive(Debug)]
pub struct OperatorData<F, const ARITY: usize> {
    /// The claimed evaluation of each operand, in operand order.
    pub evals: [F; ARITY],
    /// The univariate challenge folding the bit axis.
    pub r_zhat_prime: F,
    /// The multilinear challenge over the constraint index.
    pub r_x_prime: Vec<F>,
}

impl<F: Field, const ARITY: usize> OperatorData<F, ARITY> {
    /// The claim of an operation the constraint system does not use.
    pub fn zero_claim(r_zhat_prime: F) -> (r: Self)
        ensures
            forall|i: int| 0 <= i < ARITY ==> #[trigger] r.evals[i] == F::nil(),
            r.r_zhat_prime == r_zhat_prime,
            r.r_x_prime.len() == 0,
    {
        OperatorData { evals: [F::zero(); ARITY], r_zhat_prime, r_x_prime: Vec::new() }
    }
}

/// One operation's claims with the expansions both proving phases need.
#[derive(Debug)]
pub struct PreparedOperatorData<F> {
    /// The operand claims collapsed into one value by the batching coefficient.
    pub batched_eval: F,
    /// The univariate challenge folding the bit axis.
    pub r_zhat_prime: F,
    /// The equality indicator of the constraint point, one weight per constraint.
    pub r_x_prime_tensor: Vec<F>,
    /// The batching coefficient's powers, one per operand, starting at the first power.
    pub lambda_powers: Vec<F>,
}

/// Powers of a coefficient, starting at the first.
pub open spec fn powers_from_first<F: FieldOps>(lambda: F, n: nat) -> Seq<F> {
    Seq::new(n, |i: int| power(lambda, (i + 1) as nat))
}

/// What expanding operand claims against a batching coefficient gives.
pub open spec fn prepared_from<F: FieldOps, const ARITY: usize>(
    r: PreparedOperatorData<F>,
    data: OperatorData<F, ARITY>,
    lambda: F,
) -> bool {
    &&& r.batched_eval == sum(
        ARITY as int,
        |i: int| data.evals@[i].times(power(lambda, (i + 1) as nat)),
    )
    &&& r.r_zhat_prime == data.r_zhat_prime
    &&& r.r_x_prime_tensor@ == Seq::new(
        pow2(data.r_x_prime.len() as nat),
        |i: int| eq_ind(data.r_x_prime@, i),
    )
    &&& r.lambda_powers@ == powers_from_first(lambda, ARITY as nat)
}

impl<F: Field> PreparedOperatorData<F> {
    /// Expands one operation's claims against the batching coefficient drawn for it.
    pub fn new<const ARITY: usize>(operator_data: OperatorData<F, ARITY>, lambda: F) -> (r: Self)
        requires
            pow2(operator_data.r_x_prime.len() as nat) <= usize::MAX,
        ensures
            prepared_from(r, operator_data, lambda),
    {
        let r_x_prime_tensor = eq_ind_partial_eval_scalars(operator_data.r_x_prime.as_slice());
        let mut lambda_powers: Vec<F> = Vec::new();
        let mut batched_eval = F::zero();
        let mut current = F::one();
        let mut i: usize = 0;
        let ghost f = |i: int| operator_data.evals@[i].times(power(lambda, (i + 1) as nat));
        while i < ARITY
            invariant
                i <= ARITY,
                current == power(lambda, i as nat),
                lambda_powers.len() == i,
                forall|k: int|
                    0 <= k < i ==> #[trigger] lambda_powers[k] == power(lambda, (k + 1) as nat),
                f == (|i: int| operator_data.evals@[i].times(power(lambda, (i + 1) as nat))),
                batched_eval == sum(i as int, f),
            decreases ARITY - i,
        {
            current = current.mul(lambda);
            lambda_powers.push(current);
            batched_eval = batched_eval.add(operator_data.evals[i].mul(current));
            i = i + 1;
        }
        assert(lambda_powers@ =~= powers_from_first(lambda, ARITY as nat));
        let r = PreparedOperatorData {
            batched_eval,
            r_zhat_prime: operator_data.r_zhat_prime,
            r_x_prime_tensor,
            lambda_powers,
        };
        assert(r.r_x_prime_tensor@ =~= Seq::new(
            pow2(operator_data.r_x_prime.len() as nat),
            |i: int| eq_ind(operator_data.r_x_prime@, i),
        ));
        r
    }
}

/// The operand evaluation claim of every operation.
#[derive(Debug)]
pub struct OperatorClaims<F> {
    /// The claim for the ZERO constraints.
    pub zero: OperatorData<F, ZERO_ARITY>,
    /// The claim for the AND constraints.
    pub bitand: OperatorData<F, BITAND_ARITY>,
    /// The claim for the IMUL constraints.
    pub intmul: OperatorData<F, INTMUL_ARITY>,
    /// The claim for the BMUL constraints.
    pub binmul: OperatorData<F, BINMUL_ARITY>,
}

/// The claims with their batching coefficients folded in.
#[derive(Debug)]
pub struct PreparedOperatorClaims<F> {
    /// The prepared claim for the ZERO constraints.
    pub zero: PreparedOperatorData<F>,
    /// The prepared claim for the AND constraints.
    pub bitand: PreparedOperatorData<F>,
    /// The prepared claim for the IMUL constraints.
    pub intmul: PreparedOperatorData<F>,
    /// The prepared claim for the BMUL constraints.
    pub binmul: PreparedOperatorData<F>,
}

/// What preparing all four claims against four coefficients gives.
pub open spec fn claims_prepared<F: FieldOps>(
    r: PreparedOperatorClaims<F>,
    claims: OperatorClaims<F>,
    coefficients: Seq<F>,
) -> bool {
    &&& prepared_from(r.zero, claims.zero, coefficients[0])
    &&& prepared_from(r.bitand, claims.bitand, coefficients[1])
    &&& prepared_from(r.intmul, claims.intmul, coefficients[2])
    &&& prepared_from(r.binmul, claims.binmul, coefficients[3])
}

impl<F: Field> OperatorClaims<F> {
    /// Every constraint point's indicator fits in memory.
    pub open spec fn wf(&self) -> bool {
        &&& pow2(self.zero.r_x_prime.len() as nat) <= usize::MAX
        &&& pow2(self.bitand.r_x_prime.len() as nat) <= usize::MAX
        &&& pow2(self.intmul.r_x_prime.len() as nat) <= usize::MAX
        &&& pow2(self.binmul.r_x_prime.len() as nat) <= usize::MAX
    }

    /// Draws one batching coefficient per operation and folds it into that operation's claim.
    ///
    /// The coefficients are drawn for ZERO, AND, IMUL and BMUL, in that order.
    pub fn prepare<C: IPProverChannel<F>>(self, channel: &mut C) -> (r: PreparedOperatorClaims<F>)
        requires
            self.wf(),
            old(channel).can_draw(4),
        ensures
            final(channel).sent() == old(channel).sent(),
            exists|c: Seq<F>| #[trigger]
                claims_prepared(r, self, c) && c.len() == 4 && final(channel).drawn() == old(channel).drawn() + c && final(channel).transcript() == old(channel).transcript() + draws(
                    c,
                ),
            forall|m: nat|
                m >= 4 && #[trigger] old(channel).can_draw(m) ==> final(channel).can_draw(
                    (m - 4) as nat,
                ),
    {
        let ghost s0 = *channel;
        proof {
            channel.can_draw_fewer(1, 4);
        }
        let c0 = channel.sample();
        let ghost s1 = *channel;
        proof {
            assert(s1.can_draw((4 - 1) as nat));
            channel.can_draw_fewer(1, 3);
        }
        let c1 = channel.sample();
        let ghost s2 = *channel;
        proof {
            assert(s2.can_draw((3 - 1) as nat));
            channel.can_draw_fewer(1, 2);
        }
        let c2 = channel.sample();
        let ghost s3 = *channel;
        proof {
            assert(s3.can_draw((2 - 1) as nat));
        }
        let c3 = channel.sample();
        let r = PreparedOperatorClaims {
            zero: PreparedOperatorData::new(self.zero, c0),
            bitand: PreparedOperatorData::new(self.bitand, c1),
            intmul: PreparedOperatorData::new(self.intmul, c2),
            binmul: PreparedOperatorData::new(self.binmul, c3),
        };
        proof {
            let c = seq![c0, c1, c2, c3];
            assert(channel.drawn() =~= s0.drawn() + c);
            assert(channel.transcript() =~= s0.transcript() + draws(c));
            assert(claims_prepared(r, self, c));
            assert forall|m: nat| m >= 4 && #[trigger] old(channel).can_draw(m) implies
                channel.can_draw((m - 4) as nat) by {
                assert(s1.can_draw((m - 1) as nat));
                assert(s2.can_draw(((m - 1) as nat - 1) as nat));
                assert(s3.can_draw(((m - 2) as nat - 1) as nat));
                assert(((m - 3) as nat - 1) as nat == (m - 4) as nat);
            }
        }
        r
    }
}

impl<F: Field> PreparedOperatorClaims<F> {
    /// One operation's claim.
    pub open spec fn of(&self, operation: Operation) -> PreparedOperatorData<F> {
        match operation {
            Operation::Zero => self.zero,
            Operation::BitwiseAnd => self.bitand,
            Operation::IntegerMul => self.intmul,
            Operation::BinMul => self.binmul,
        }
    }

    /// One power per operand.
    pub open spec fn wf(&self) -> bool {
        forall|operation: Operation| #[trigger]
            self.of(operation).lambda_powers.len() == operation.arity()
    }

    /// The four operations' claims collapsed into the single value the reduction proves.
    pub fn batched_eval(&self) -> (r: F)
        ensures
            r == self.zero.batched_eval.plus(self.bitand.batched_eval).plus(
                self.intmul.batched_eval,
            ).plus(self.binmul.batched_eval),
    {
        self.zero.batched_eval.add(self.bitand.batched_eval).add(self.intmul.batched_eval).add(
            self.binmul.batched_eval,
        )
    }

    /// One operation's claim.
    pub fn index(&self, operation: Operation) -> (r: &PreparedOperatorData<F>)
        ensures
            *r == self.of(operation),
    {
        match operation {
            Operation::Zero => &self.zero,
            Operation::BitwiseAnd => &self.bitand,
            Operation::IntegerMul => &self.intmul,
            Operation::BinMul => &self.binmul,
        }
    }
}

/// Prepared claims hold one power per operand.
pub proof fn lemma_prepared_arity<F: Field>(
    r: PreparedOperatorClaims<F>,
    claims: OperatorClaims<F>,
    coefficients: Seq<F>,
)
    requires
        claims_prepared(r, claims, coefficients),
    ensures
        r.wf(),
{
    assert forall|operation: Operation| #[trigger]
        r.of(operation).lambda_powers.len() == operation.arity() by {}
}

/// A sum of powers, nested.
proof fn lemma_powers_nest<F: FieldOps>(e: Seq<F>, x: F)
    ensures
        sum(e.len() as int, |i: int| e[i].times(power(x, (i + 1) as nat))) == x.times(
            poly_eval(e, x),
        ),
    decreases e.len(),
{
    let n = e.len() as int;
    let f = |i: int| e[i].times(power(x, (i + 1) as nat));
    if n == 0 {
        lemma_times_nil(x);
    } else {
        let tail = e.skip(1);
        let g = |i: int| tail[i].times(power(x, (i + 1) as nat));
        let rest = |i: int| f(1 + i);
        let scaled = |i: int| g(i).times(x);
        lemma_powers_nest(tail, x);
        lemma_sum_first(n, f);
        assert forall|i: int| 0 <= i < n - 1 implies #[trigger] rest(i) == scaled(i) by {
            assert(power(x, (i + 2) as nat) == power(x, (i + 1) as nat).times(x));
            F::times_assoc(tail[i], power(x, (i + 1) as nat), x);
        }
        lemma_sum_ext(n - 1, rest, scaled);
        lemma_sum_scale(n - 1, x, g);
        let p = poly_eval(tail, x);
        assert(power(x, 1) == power(x, 0).times(x));
        lemma_unit_times(x);
        F::times_comm(e[0], x);
        F::times_comm(x.times(p), x);
        F::times_plus(x, e[0], x.times(p));
    }
}

/// The claims of an operation's operands are batched as the coefficients of a polynomial without a
/// constant term, at the batching coefficient.
pub proof fn claims_are_batched_as_a_polynomial<F: Field, const ARITY: usize>(
    data: OperatorData<F, ARITY>,
    lambda: F,
    r: PreparedOperatorData<F>,
)
    requires
        pow2(data.r_x_prime.len() as nat) <= usize::MAX,
        call_ensures(PreparedOperatorData::<F>::new::<ARITY>, (data, lambda), r),
    ensures
        r.batched_eval == lambda.times(poly_eval(data.evals@, lambda)),
        r.lambda_powers.len() == ARITY,
        ARITY > 0 ==> r.lambda_powers[0] == lambda,
        forall|i: int|
            0 <= i < ARITY - 1 ==> r.lambda_powers[i + 1] == (#[trigger] r.lambda_powers[i]).times(
                lambda,
            ),
{
    lemma_powers_nest(data.evals@, lambda);
    let f = |i: int| data.evals@[i].times(power(lambda, (i + 1) as nat));
    assert(r.batched_eval == sum(ARITY as int, f));
    assert(power(lambda, 1) == power(lambda, 0).times(lambda));
    lemma_unit_times(lambda);
    assert forall|i: int| 0 <= i < ARITY - 1 implies r.lambda_powers[i + 1] == (
    #[trigger] r.lambda_powers[i]).times(lambda) by {
        assert(power(lambda, (i + 2) as nat) == power(lambda, (i + 1) as nat).times(lambda));
    }
}

} // verus!
