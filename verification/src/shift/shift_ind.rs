//! The rounds that bind a bit index where a shift indicator meets a weight vector.

use vstd::arithmetic::power2::{lemma2_to64, pow2};
use crate::algebra::field::{Field, FieldOps, lemma_sum_scale, lemma_times_nil, select};
use crate::algebra::group::AdditiveGroup;
use crate::algebra::sum::{
    lemma_sum_blocks, lemma_sum_ext, lemma_sum_nil, lemma_sum_single, lemma_sum_swap, sum,
};
use crate::constraint_system::ShiftVariant;
use crate::field::packed::PackedField;
use crate::math::eq::{
    eq_ind, eq_ind_partial_eval_scalars, eq_splits, lemma_eq_low, lemma_eq_prefix,
};
use crate::math::field_buffer::FieldBuffer;
use crate::math::index::lemma_exact_log2;
use crate::shift::operator::operator_table;
use crate::shift::phase_1::{ShiftChallenge, reversed_list};
use crate::sumcheck::channel::{IPProverChannel, round_events};
use crate::sumcheck::evaluate::{folding_evaluates, multilinear_eval};
use crate::sumcheck::product::{dot, product_messages};
use crate::sumcheck::prover::{bivariate_product_prover, copy_of, prove_single};
use vstd::prelude::*;

verus! {

/// The challenge point a shift indicator is evaluated at: an input bit and a shift.
#[derive(Debug)]
pub struct ShiftChallengePoint<F> {
    pub bit: Vec<F>,
    pub amount: Vec<F>,
    pub variant: Vec<F>,
}

impl<F: Field> ShiftChallengePoint<F> {
    /// One coordinate per variable.
    pub open spec fn wf(&self) -> bool {
        &&& self.bit.len() == 6
        &&& self.amount.len() == 6
        &&& self.variant.len() == 3
    }

    /// All coordinates, the bit position lowest and the variant highest.
    pub open spec fn coordinates(&self) -> Seq<F> {
        self.bit@ + self.amount@ + self.variant@
    }

    /// The point over the bit and the shift axes.
    pub fn new(bit: &Vec<F>, shift: &ShiftChallenge<F>) -> (r: Self)
        ensures
            r.bit@ == bit@,
            r.amount@ == shift.amount@,
            r.variant@ == shift.variant@,
    {
        ShiftChallengePoint {
            bit: copy_of(bit),
            amount: copy_of(&shift.amount),
            variant: copy_of(&shift.variant),
        }
    }
}

/// The shift's share in the indicator at output bit `k`: shift `c` weighted by its equality
/// factors and by the factor of the input bit it makes the output bit read.
pub open spec fn indicator_term<F: FieldOps>(
    bit: Seq<F>,
    amount: Seq<F>,
    variant: Seq<F>,
    k: int,
    c: int,
) -> F {
    let source = ShiftVariant::at(c / 64).source(k, c % 64);
    eq_ind(variant, c / 64).times(eq_ind(amount, c % 64)).times(
        select(source >= 0, eq_ind(bit, source)),
    )
}

/// The shift indicator over the output bits, its other arguments bound to a point.
pub open spec fn indicator<F: FieldOps>(
    bit: Seq<F>,
    amount: Seq<F>,
    variant: Seq<F>,
) -> Seq<F> {
    Seq::new(64, |k: int| sum(512, |c: int| indicator_term(bit, amount, variant, k, c)))
}

/// Where an output bit reads from lies within the word.
pub proof fn lemma_source_bound(variant: ShiftVariant, k: int, amount: int)
    requires
        0 <= k < 64,
        0 <= amount < 64,
    ensures
        -1 <= variant.source(k, amount) < 64,
{
    if variant.width() == 64 {
        assert(k / 64 == 0 && k % 64 == k && amount % 64 == amount);
    } else {
        assert(k / 32 == 0 || k / 32 == 1);
    }
}

/// Contracting the indicator with weights evaluates the shift operator's table.
///
/// The rounds over the output bit therefore start from the value the rounds over the shift and
/// the input bit ended at.
pub proof fn indicator_contracts_to_table<F: FieldOps>(
    weights: Seq<F>,
    bit: Seq<F>,
    amount: Seq<F>,
    variant: Seq<F>,
)
    requires
        weights.len() == 64,
        bit.len() == 6,
        amount.len() == 6,
        variant.len() == 3,
    ensures
        dot(weights, indicator(bit, amount, variant)) == multilinear_eval(
            operator_table(weights),
            bit + amount + variant,
        ),
{
    let point = bit + amount + variant;
    let table = operator_table(weights);
    let ind = indicator(bit, amount, variant);
    lemma2_to64();
    // Row by row: x = 64 c + j.
    let f = |x: int| table[x].times(eq_ind(point, x));
    lemma_sum_blocks(512, 64, f);
    let rows = |c: int| sum(64, |j: int| f(c * 64 + j));
    let term = |k: int, c: int| weights[k].times(indicator_term(bit, amount, variant, k, c));
    let by_shift = |c: int| sum(64, |k: int| term(k, c));
    assert forall|c: int| 0 <= c < 512 implies #[trigger] rows(c) == by_shift(c) by {
        lemma_indicator_row(weights, bit, amount, variant, c);
        lemma_sum_ext(
            64,
            |j: int| f(c * 64 + j),
            |j: int| table[64 * c + j].times(eq_ind(point, 64 * c + j)),
        );
        lemma_sum_ext(
            64,
            |k: int| term(k, c),
            |k: int| weights[k].times(indicator_term(bit, amount, variant, k, c)),
        );
    }
    lemma_sum_ext(512, rows, by_shift);
    lemma_sum_swap(64, 512, term);
    let by_bit = |k: int| sum(512, |c: int| term(k, c));
    let out = |k: int| weights[k].times(ind[k]);
    assert forall|k: int| 0 <= k < 64 implies #[trigger] by_bit(k) == out(k) by {
        let g = |c: int| indicator_term(bit, amount, variant, k, c);
        lemma_sum_scale(512, weights[k], g);
        lemma_sum_ext(512, |c: int| term(k, c), |c: int| weights[k].times(g(c)));
    }
    lemma_sum_ext(64, by_bit, out);
}

/// One row of the table against its equality factors.
proof fn lemma_indicator_row<F: FieldOps>(
    weights: Seq<F>,
    bit: Seq<F>,
    amount: Seq<F>,
    variant: Seq<F>,
    c: int,
)
    requires
        weights.len() == 64,
        bit.len() == 6,
        amount.len() == 6,
        variant.len() == 3,
        0 <= c < 512,
    ensures
        sum(
            64,
            |j: int|
                operator_table(weights)[64 * c + j].times(
                    eq_ind(bit + amount + variant, 64 * c + j),
                ),
        ) == sum(64, |k: int| weights[k].times(indicator_term(bit, amount, variant, k, c))),
{
    let point = bit + amount + variant;
    let table = operator_table(weights);
    let (v, s) = (ShiftVariant::at(c / 64), c % 64);
    let e = eq_ind(variant, c / 64).times(eq_ind(amount, s));
    lemma2_to64();
    // The term of output bit k and input bit j.
    let t = |j: int, k: int|
        select(v.source(k, s) == j, weights[k]).times(e.times(eq_ind(bit, j)));
    let f = |j: int| table[64 * c + j].times(eq_ind(point, 64 * c + j));
    let rows = |j: int| sum(64, |k: int| t(j, k));
    assert forall|j: int| 0 <= j < 64 implies #[trigger] f(j) == rows(j) by {
        let x = 64 * c + j;
        assert(x / 4096 == c / 64 && (x / 64) % 64 == s && x % 64 == j);
        eq_splits(point, 6, 9, x);
        eq_splits(point.skip(6), 6, 3, x / 64);
        assert(point.skip(6).skip(6) =~= variant);
        lemma_eq_prefix(point, bit, 6, x);
        lemma_eq_prefix(point.skip(6), amount, 6, x / 64);
        lemma_eq_low(bit, 6, 6, c, j);
        lemma_eq_low(amount, 6, 6, c / 64, s);
        let (ej, es, ev) = (eq_ind(bit, j), eq_ind(amount, s), eq_ind(variant, c / 64));
        assert(eq_ind(point, x) == ej.times(es.times(ev)));
        F::times_comm(es, ev);
        F::times_comm(ej, e);
        let g = |k: int| select(v.source(k, s) == j, weights[k]);
        lemma_sum_scale(64, e.times(ej), g);
        lemma_sum_ext(64, |k: int| g(k).times(e.times(ej)), |k: int| t(j, k));
    }
    lemma_sum_ext(64, f, rows);
    lemma_sum_swap(64, 64, t);
    let cols = |k: int| sum(64, |j: int| t(j, k));
    let out = |k: int| weights[k].times(indicator_term(bit, amount, variant, k, c));
    assert forall|k: int| 0 <= k < 64 implies #[trigger] cols(k) == out(k) by {
        let source = v.source(k, s);
        lemma_source_bound(v, k, s);
        let g = |j: int| t(j, k);
        assert forall|j: int| 0 <= j < 64 && j != source implies #[trigger] g(j) == F::nil() by {
            lemma_times_nil(e.times(eq_ind(bit, j)));
        }
        lemma_times_nil(e);
        lemma_times_nil(weights[k]);
        if source >= 0 {
            lemma_sum_single(64, g, source);
        } else {
            lemma_sum_nil(64, g);
        }
    }
    lemma_sum_ext(64, cols, out);
}

/// The sum of products of two lists.
pub fn inner_product<F: FieldOps>(a: &[F], b: &[F]) -> (r: F)
    requires
        a.len() == b.len(),
    ensures
        r == dot(a@, b@),
{
    let ghost f = |v: int| a@[v].times(b@[v]);
    let mut wide = F::wide_zero();
    let mut i: usize = 0;
    while i < a.len()
        invariant
            i <= a.len(),
            a.len() == b.len(),
            f == (|v: int| a@[v].times(b@[v])),
            F::wide_value(wide) == sum(i as int, f),
        decreases a.len() - i,
    {
        wide = F::wide_add(wide, F::wide_mul(a[i], b[i]));
        i = i + 1;
    }
    F::reduce(wide)
}

/// A list with every entry scaled.
pub open spec fn scaled_by<F: FieldOps>(a: Seq<F>, c: F) -> Seq<F> {
    Seq::new(a.len(), |i: int| a[i].times(c))
}

/// The rounds over one bit index: a weight vector against a shift indicator, times a constant.
pub struct ShiftIndSumcheck<F> {
    /// The weights, one per bit position.
    pub weights: Vec<F>,
    /// The indicator, one value per bit position.
    pub ind: Vec<F>,
    /// The constant carried through the rounds.
    pub scale: F,
}

/// What the rounds over one bit index leave behind.
#[derive(Debug)]
pub struct ShiftIndOutput<F> {
    /// The bound point.
    pub point: Vec<F>,
    /// The weights' value at the point.
    pub weights_eval: F,
    /// The indicator's value at the point.
    pub ind_eval: F,
    /// The product of both with the constant.
    pub eval: F,
}

/// What the rounds leave, given the challenges in the order drawn.
pub open spec fn shift_ind_result<F: FieldOps>(
    r: ShiftIndOutput<F>,
    weights: Seq<F>,
    ind: Seq<F>,
    scale: F,
    challenges: Seq<F>,
) -> bool {
    &&& r.point@ == challenges.reverse()
    &&& r.weights_eval == multilinear_eval(weights, r.point@)
    &&& r.ind_eval == multilinear_eval(ind, r.point@)
    &&& r.eval == r.weights_eval.times(r.ind_eval).times(scale)
}

impl<F: Field> ShiftIndSumcheck<F> {
    /// One weight and one indicator value per bit position.
    pub open spec fn wf(&self) -> bool {
        &&& self.weights.len() == 64
        &&& self.ind.len() == 64
    }

    /// The rounds over a weight vector and the indicator at a point.
    pub fn new(weights: &Vec<F>, point: &ShiftChallengePoint<F>, scale: F) -> (r: Self)
        requires
            weights.len() == 64,
            point.wf(),
        ensures
            r.wf(),
            r.weights@ == weights@,
            r.ind@ == indicator(point.bit@, point.amount@, point.variant@),
            r.scale == scale,
    {
        proof {
            lemma2_to64();
        }
        let bits = eq_ind_partial_eval_scalars(point.bit.as_slice());
        let amounts = eq_ind_partial_eval_scalars(point.amount.as_slice());
        let variants = eq_ind_partial_eval_scalars(point.variant.as_slice());
        let ghost (pb, pa, pv) = (point.bit@, point.amount@, point.variant@);
        let mut ind: Vec<F> = Vec::new();
        let mut k: usize = 0;
        while k < 64
            invariant
                k <= 64,
                ind.len() == k,
                bits.len() == 64,
                amounts.len() == 64,
                variants.len() == 8,
                forall|i: int| 0 <= i < 64 ==> #[trigger] bits[i] == eq_ind(pb, i),
                forall|i: int| 0 <= i < 64 ==> #[trigger] amounts[i] == eq_ind(pa, i),
                forall|i: int| 0 <= i < 8 ==> #[trigger] variants[i] == eq_ind(pv, i),
                forall|x: int| 0 <= x < k ==> #[trigger] ind[x] == indicator(pb, pa, pv)[x],
            decreases 64 - k,
        {
            let ghost f = |c: int| indicator_term(pb, pa, pv, k as int, c);
            let mut total = F::zero();
            let mut c: usize = 0;
            while c < 512
                invariant
                    k < 64,
                    c <= 512,
                    bits.len() == 64,
                    amounts.len() == 64,
                    variants.len() == 8,
                    forall|i: int| 0 <= i < 64 ==> #[trigger] bits[i] == eq_ind(pb, i),
                    forall|i: int| 0 <= i < 64 ==> #[trigger] amounts[i] == eq_ind(pa, i),
                    forall|i: int| 0 <= i < 8 ==> #[trigger] variants[i] == eq_ind(pv, i),
                    f == (|c: int| indicator_term(pb, pa, pv, k as int, c)),
                    total == sum(c as int, f),
                decreases 512 - c,
            {
                let variant = ShiftVariant::from_index(c / 64);
                proof {
                    lemma_source_bound(variant, k as int, c as int % 64);
                }
                let factor = variants[c / 64].mul(amounts[c % 64]);
                let read = match variant.source_of(k, c % 64) {
                    Some(j) => bits[j],
                    None => F::zero(),
                };
                total = total.add(factor.mul(read));
                c = c + 1;
            }
            ind.push(total);
            k = k + 1;
        }
        assert(ind@ =~= indicator(pb, pa, pv));
        ShiftIndSumcheck { weights: copy_of(weights), ind, scale }
    }

    /// The claim the rounds start from.
    pub fn beta(&self) -> (r: F)
        requires
            self.wf(),
        ensures
            r == dot(self.weights@, self.ind@).times(self.scale),
    {
        inner_product(self.weights.as_slice(), self.ind.as_slice()).mul(self.scale)
    }

    /// Runs the rounds.
    pub fn prove<P: PackedField<Scalar = F>, C: IPProverChannel<F>>(self, channel: &mut C) -> (r:
        ShiftIndOutput<F>)
        requires
            self.wf(),
            old(channel).can_draw(6),
        ensures
            final(channel).drawn().len() == old(channel).drawn().len() + 6,
            final(channel).drawn().take(old(channel).drawn().len() as int) == old(channel).drawn(),
            ({
                let c = final(channel).drawn().skip(old(channel).drawn().len() as int);
                &&& final(channel).transcript() == old(channel).transcript() + round_events(
                    product_messages(
                        self.weights@,
                        scaled_by(self.ind@, self.scale),
                        dot(self.weights@, self.ind@).times(self.scale),
                        c,
                        6,
                    ),
                    c,
                    6,
                )
                &&& final(channel).sent() == old(channel).sent() + product_messages(
                    self.weights@,
                    scaled_by(self.ind@, self.scale),
                    dot(self.weights@, self.ind@).times(self.scale),
                    c,
                    6,
                )
                &&& shift_ind_result(r, self.weights@, self.ind@, self.scale, c)
            }),
            r.point.len() == 6,
            forall|m: nat|
                m >= 6 && #[trigger] old(channel).can_draw(m) ==> final(channel).can_draw(
                    (m - 6) as nat,
                ),
    {
        let ghost (sent, drawn) = (channel.sent(), channel.drawn());
        let sum_claim = self.beta();
        let mut scaled_ind: Vec<F> = Vec::new();
        let mut i: usize = 0;
        while i < self.ind.len()
            invariant
                i <= self.ind.len(),
                scaled_ind.len() == i,
                forall|k: int|
                    0 <= k < i ==> #[trigger] scaled_ind[k] == self.ind[k].times(self.scale),
            decreases self.ind.len() - i,
        {
            scaled_ind.push(self.ind[i].mul(self.scale));
            i = i + 1;
        }
        proof {
            lemma2_to64();
            assert(scaled_ind@ =~= scaled_by(self.ind@, self.scale));
        }
        let first = FieldBuffer::<P>::from_values(self.weights.as_slice());
        let second = FieldBuffer::<P>::from_values(scaled_ind.as_slice());
        proof {
            assert(pow2(first.log_len as nat) == pow2(6));
            assert(pow2(second.log_len as nat) == pow2(6));
            lemma_exact_log2(6);
            lemma_exact_log2(first.log_len as nat);
            lemma_exact_log2(second.log_len as nat);
        }
        let prover = bivariate_product_prover(first, second, sum_claim);
        let output = prove_single(prover, channel);
        let ghost c = output.challenges@;
        let point = reversed_list(output.challenges.as_slice());
        let tensor = eq_ind_partial_eval_scalars(point.as_slice());
        let ind_eval = inner_product(self.ind.as_slice(), tensor.as_slice());
        let weights_eval = output.multilinear_evals[0];
        proof {
            assert(channel.drawn().take(drawn.len() as int) =~= drawn);
            assert(channel.drawn().skip(drawn.len() as int) =~= c);
            folding_evaluates(self.weights@, c);
            lemma_sum_ext(
                64,
                |v: int| self.ind@[v].times(tensor@[v]),
                |x: int| self.ind@[x].times(eq_ind(point@, x)),
            );
        }
        let eval = weights_eval.mul(ind_eval).mul(self.scale);
        ShiftIndOutput { point, weights_eval, ind_eval, eval }
    }
}

} // verus!
