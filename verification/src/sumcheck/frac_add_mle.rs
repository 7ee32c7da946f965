//! Fractional-addition layers: the numerator and denominator claims of a sum of fractions.

use vstd::arithmetic::power2::{lemma_pow2_unfold, pow2};
use crate::algebra::field::{Field, FieldOps, lemma_plus_times, lemma_sum_scale};
use crate::algebra::group::{AdditiveGroup, lemma_plus_cancel, lemma_plus_exchange};
use crate::algebra::sum::{lemma_sum_ext, lemma_sum_plus, lemma_sum_split, sum};
use crate::field::packed::PackedField;
use crate::math::eq::{eq_ind, lemma_eq_low, lemma_eq_prefix};
use crate::math::field_buffer::FieldBuffer;
use crate::math::subset::{lemma_index_bit_high, lemma_index_bit_top};
use crate::sumcheck::mle_check::{
    ColId, MleCheckRoundEvaluator, MleStore, SharedMleCheckProver, fold_cols, quadratic_eq,
    round_polynomial, round_samples,
};
use crate::sumcheck::product::lemma_entry;
use crate::sumcheck::round::{RoundCoeffs, RoundEvals, lemma_quadratic_eval, poly_eval};
use vstd::prelude::*;

verus! {

/// The numerator of a sum of two fractions.
pub open spec fn numerator_of<F: FieldOps>(num_a: F, num_b: F, den_a: F, den_b: F) -> F {
    num_a.times(den_b).plus(num_b.times(den_a))
}

/// A column's value with the round's variable fixed to zero.
pub open spec fn low_value<F>(cols: Seq<Seq<F>>, c: ColId, i: int) -> F {
    cols[c.0 as int][i]
}

/// A column's value with the round's variable fixed to one.
pub open spec fn high_value<F>(cols: Seq<Seq<F>>, c: ColId, half: int, i: int) -> F {
    cols[c.0 as int][half + i]
}

/// A column's leading coefficient in the round's variable.
pub open spec fn lead_value<F: FieldOps>(cols: Seq<Seq<F>>, c: ColId, half: int, i: int) -> F {
    low_value(cols, c, i).plus(high_value(cols, c, half, i))
}

/// One claim of a layer.
#[derive(Clone, Copy, Debug)]
pub enum QuadraticMleEvaluator {
    /// The numerator over the columns `[num_a, num_b, den_a, den_b]`.
    Numerator([ColId; 4]),
    /// The denominator over the columns `[den_a, den_b]`.
    Denominator([ColId; 2]),
}

impl QuadraticMleEvaluator {
    /// The claim's composition of values picked from the columns.
    pub open spec fn composed<F: FieldOps>(&self, value: spec_fn(ColId) -> F) -> F {
        match self {
            QuadraticMleEvaluator::Numerator(c) => numerator_of(
                value(c@[0]),
                value(c@[1]),
                value(c@[2]),
                value(c@[3]),
            ),
            QuadraticMleEvaluator::Denominator(c) => value(c@[0]).times(value(c@[1])),
        }
    }

    /// The columns the claim reads are there.
    pub open spec fn reads_within(&self, n_cols: nat) -> bool {
        match self {
            QuadraticMleEvaluator::Numerator(c) => forall|k: int|
                0 <= k < 4 ==> (#[trigger] c@[k]).0 < n_cols,
            QuadraticMleEvaluator::Denominator(c) => forall|k: int|
                0 <= k < 2 ==> (#[trigger] c@[k]).0 < n_cols,
        }
    }

    /// The composition at row `i`, from the upper halves or the leading coefficients.
    fn row<F: Field, P: PackedField<Scalar = F>>(
        &self,
        store: &MleStore<P>,
        half: usize,
        i: usize,
        leading: bool,
    ) -> (r: F)
        requires
            store.wf(),
            self.reads_within(store.cols().len()),
            2 * half == pow2(store.n_vars as nat),
            i < half,
        ensures
            r == if leading {
                self.composed(|c: ColId| lead_value(store.cols(), c, half as int, i as int))
            } else {
                self.composed(|c: ColId| high_value(store.cols(), c, half as int, i as int))
            },
    {
        match self {
            QuadraticMleEvaluator::Numerator(c) => {
                assert(c@[0].0 < store.cols().len() && c@[1].0 < store.cols().len() && c@[2].0
                    < store.cols().len() && c@[3].0 < store.cols().len());
                let na = sample(store, c[0], half, i, leading);
                let nb = sample(store, c[1], half, i, leading);
                let da = sample(store, c[2], half, i, leading);
                let db = sample(store, c[3], half, i, leading);
                na.mul(db).add(nb.mul(da))
            },
            QuadraticMleEvaluator::Denominator(c) => {
                assert(c@[0].0 < store.cols().len() && c@[1].0 < store.cols().len());
                let da = sample(store, c[0], half, i, leading);
                let db = sample(store, c[1], half, i, leading);
                da.mul(db)
            },
        }
    }
}

/// A column's upper value or leading coefficient at row `i`.
fn sample<F: Field, P: PackedField<Scalar = F>>(
    store: &MleStore<P>,
    c: ColId,
    half: usize,
    i: usize,
    leading: bool,
) -> (r: F)
    requires
        store.wf(),
        c.0 < store.cols().len(),
        2 * half == pow2(store.n_vars as nat),
        i < half,
    ensures
        r == if leading {
            lead_value(store.cols(), c, half as int, i as int)
        } else {
            high_value(store.cols(), c, half as int, i as int)
        },
{
    let column = &store.columns[c.0];
    let hi = column.get(half + i);
    if leading {
        column.get(i).add(hi)
    } else {
        hi
    }
}

impl<F: Field> MleCheckRoundEvaluator<F> for QuadraticMleEvaluator {
    open spec fn n_slots(&self) -> nat {
        2
    }

    open spec fn fits(&self, n_cols: nat) -> bool {
        self.reads_within(n_cols)
    }

    open spec fn slot(&self, cols: Seq<Seq<F>>, half: int, k: int, i: int) -> F {
        if k == 0 {
            self.composed(|c: ColId| high_value(cols, c, half, i))
        } else {
            self.composed(|c: ColId| lead_value(cols, c, half, i))
        }
    }

    open spec fn polynomial(&self, ys: Seq<F>, claim: F, alpha: F) -> Seq<F> {
        quadratic_eq(claim, alpha, ys[0], ys[1])
    }

    fn degree(&self) -> (r: usize) {
        2
    }

    fn accumulate<P: PackedField<Scalar = F>>(
        &self,
        store: &MleStore<P>,
        eq_ind: &[F],
        accum: &mut Vec<F::Wide>,
    ) {
        let half = eq_ind.len();
        let ghost cols = store.cols();
        let ghost f0 = |i: int| self.slot(cols, half as int, 0, i).times(eq_ind@[i]);
        let ghost f1 = |i: int| self.slot(cols, half as int, 1, i).times(eq_ind@[i]);
        let ghost (s0, s1) = (F::wide_value(accum[0]), F::wide_value(accum[1]));
        let mut y_1 = F::wide_zero();
        let mut y_inf = F::wide_zero();
        let mut i: usize = 0;
        while i < half
            invariant
                i <= half,
                half == eq_ind.len(),
                store.wf(),
                cols == store.cols(),
                self.reads_within(store.cols().len()),
                2 * half == pow2(store.n_vars as nat),
                f0 == (|i: int| self.slot(cols, half as int, 0, i).times(eq_ind@[i])),
                f1 == (|i: int| self.slot(cols, half as int, 1, i).times(eq_ind@[i])),
                F::wide_value(y_1) == sum(i as int, f0),
                F::wide_value(y_inf) == sum(i as int, f1),
            decreases half - i,
        {
            let one = self.row(store, half, i, false);
            let inf = self.row(store, half, i, true);
            y_1 = F::wide_add(y_1, F::wide_mul(one, eq_ind[i]));
            y_inf = F::wide_add(y_inf, F::wide_mul(inf, eq_ind[i]));
            i = i + 1;
        }
        let a0 = F::wide_add(accum[0], y_1);
        let a1 = F::wide_add(accum[1], y_inf);
        accum.set(0, a0);
        accum.set(1, a1);
    }

    fn interpolate(&self, ys: &Vec<F>, claim: F, alpha: F) -> (r: RoundCoeffs<F>) {
        RoundEvals { y_1: ys[0], y_inf: ys[1] }.interpolate_eq(claim, alpha)
    }
}

/// The evaluators of a layer's two claims, numerator first.
pub fn evaluators(cols: [ColId; 4]) -> (r: (QuadraticMleEvaluator, QuadraticMleEvaluator))
    ensures
        r.0 is Numerator,
        r.0->Numerator_0@ == cols@,
        r.1 is Denominator,
        r.1->Denominator_0@ == seq![cols@[2], cols@[3]],
{
    let den: [ColId; 2] = [cols[2], cols[3]];
    assert(den@ =~= seq![cols@[2], cols@[3]]);
    (QuadraticMleEvaluator::Numerator(cols), QuadraticMleEvaluator::Denominator(den))
}

/// The prover of one layer's two claims.
pub type LayerProver<F, P> = SharedMleCheckProver<F, P, QuadraticMleEvaluator>;

/// The prover reducing one layer, given whole numerators and denominators.
///
/// The low half of each buffer holds the first fractions, the high half the second.
pub fn new_split_half<F: Field, P: PackedField<Scalar = F>>(
    num: FieldBuffer<P>,
    den: FieldBuffer<P>,
    eval_point: Vec<F>,
    claims: [F; 2],
) -> (r: LayerProver<F, P>)
    requires
        num.wf(),
        den.wf(),
        num.log_len == den.log_len,
        num.log_len == eval_point.len() + 1,
    ensures
        r.wf(),
        r.state is Claim,
        r.state->Claim_0@ == claims@,
        r.eval_point@ == eval_point@,
        r.store.n_vars == eval_point.len(),
        ({
            let half = pow2(eval_point.len() as nat) as int;
            r.store.cols() == seq![
                num.scalars().take(half),
                num.scalars().skip(half),
                den.scalars().take(half),
                den.scalars().skip(half),
            ]
        }),
        r.evaluators.len() == 2,
        r.evaluators[0] is Numerator,
        r.evaluators[0]->Numerator_0@ == seq![ColId(0), ColId(1), ColId(2), ColId(3)],
        r.evaluators[1] is Denominator,
        r.evaluators[1]->Denominator_0@ == seq![ColId(2), ColId(3)],
{
    proof {
        lemma_pow2_unfold(num.log_len as nat);
    }
    let ghost half = pow2(eval_point.len() as nat) as int;
    let mut store = MleStore::<P>::new(num.log_len - 1);
    let n = store.push_split_half(num);
    let d = store.push_split_half(den);
    proof {
        assert(store.cols() =~= seq![
            num.scalars().take(half),
            num.scalars().skip(half),
            den.scalars().take(half),
            den.scalars().skip(half),
        ]);
    }
    let cols: [ColId; 4] = [n[0], n[1], d[0], d[1]];
    assert(cols@ =~= seq![ColId(0), ColId(1), ColId(2), ColId(3)]);
    let (num_evaluator, den_evaluator) = evaluators(cols);
    let mut list: Vec<QuadraticMleEvaluator> = Vec::new();
    list.push(num_evaluator);
    list.push(den_evaluator);
    let mut claim_list: Vec<F> = Vec::new();
    claim_list.push(claims[0]);
    claim_list.push(claims[1]);
    assert(claim_list@ =~= claims@);
    proof {
        assert forall|e: int| 0 <= e < list.len() implies <QuadraticMleEvaluator as MleCheckRoundEvaluator<
            F,
        >>::fits(&(#[trigger] list[e]), store.cols().len()) by {}
    }
    SharedMleCheckProver::new(store, claim_list, list, eval_point)
}

/// Reduces both claims of a layer in one pass, already batched.
///
/// The claim must be the numerator's plus the batching coefficient times the denominator's.
#[derive(Clone, Copy, Debug)]
pub struct FracAddFusedEvaluator<F> {
    /// The columns `[num_a, num_b, den_a, den_b]`.
    pub cols: [ColId; 4],
    /// The coefficient that batches the denominator claim onto the numerator claim.
    pub batch_coeff: F,
}

impl<F: Field> FracAddFusedEvaluator<F> {
    /// The fused evaluator over four layer columns.
    pub fn new(cols: [ColId; 4], batch_coeff: F) -> (r: Self)
        ensures
            r.cols == cols,
            r.batch_coeff == batch_coeff,
    {
        FracAddFusedEvaluator { cols, batch_coeff }
    }

    /// The evaluator of the numerator claim alone.
    pub open spec fn numerator(&self) -> QuadraticMleEvaluator {
        QuadraticMleEvaluator::Numerator(self.cols)
    }
}

impl<F: Field> MleCheckRoundEvaluator<F> for FracAddFusedEvaluator<F> {
    open spec fn n_slots(&self) -> nat {
        4
    }

    open spec fn fits(&self, n_cols: nat) -> bool {
        forall|k: int| 0 <= k < 4 ==> (#[trigger] self.cols@[k]).0 < n_cols
    }

    open spec fn slot(&self, cols: Seq<Seq<F>>, half: int, k: int, i: int) -> F {
        let c = self.cols@;
        if k == 0 {
            numerator_of(
                high_value(cols, c[0], half, i),
                high_value(cols, c[1], half, i),
                high_value(cols, c[2], half, i),
                high_value(cols, c[3], half, i),
            )
        } else if k == 1 {
            numerator_of(
                lead_value(cols, c[0], half, i),
                lead_value(cols, c[1], half, i),
                lead_value(cols, c[2], half, i),
                lead_value(cols, c[3], half, i),
            )
        } else if k == 2 {
            high_value(cols, c[2], half, i).times(high_value(cols, c[3], half, i))
        } else {
            lead_value(cols, c[2], half, i).times(lead_value(cols, c[3], half, i))
        }
    }

    open spec fn polynomial(&self, ys: Seq<F>, claim: F, alpha: F) -> Seq<F> {
        quadratic_eq(
            claim,
            alpha,
            ys[0].plus(ys[2].times(self.batch_coeff)),
            ys[1].plus(ys[3].times(self.batch_coeff)),
        )
    }

    fn degree(&self) -> (r: usize) {
        4
    }

    fn accumulate<P: PackedField<Scalar = F>>(
        &self,
        store: &MleStore<P>,
        eq_ind: &[F],
        accum: &mut Vec<F::Wide>,
    ) {
        let half = eq_ind.len();
        let ghost cols = store.cols();
        let ghost f0 = |i: int| self.slot(cols, half as int, 0, i).times(eq_ind@[i]);
        let ghost f1 = |i: int| self.slot(cols, half as int, 1, i).times(eq_ind@[i]);
        let ghost f2 = |i: int| self.slot(cols, half as int, 2, i).times(eq_ind@[i]);
        let ghost f3 = |i: int| self.slot(cols, half as int, 3, i).times(eq_ind@[i]);
        proof {
            assert(self.cols@[0].0 < cols.len() && self.cols@[1].0 < cols.len() && self.cols@[2].0
                < cols.len() && self.cols@[3].0 < cols.len());
        }
        let num_a = &store.columns[self.cols[0].0];
        let num_b = &store.columns[self.cols[1].0];
        let den_a = &store.columns[self.cols[2].0];
        let den_b = &store.columns[self.cols[3].0];
        let mut num_y_1 = F::wide_zero();
        let mut num_y_inf = F::wide_zero();
        let mut den_y_1 = F::wide_zero();
        let mut den_y_inf = F::wide_zero();
        let mut i: usize = 0;
        while i < half
            invariant
                i <= half,
                half == eq_ind.len(),
                store.wf(),
                cols == store.cols(),
                self.cols@[0].0 < cols.len(),
                self.cols@[1].0 < cols.len(),
                self.cols@[2].0 < cols.len(),
                self.cols@[3].0 < cols.len(),
                *num_a == store.columns[self.cols@[0].0 as int],
                *num_b == store.columns[self.cols@[1].0 as int],
                *den_a == store.columns[self.cols@[2].0 as int],
                *den_b == store.columns[self.cols@[3].0 as int],
                2 * half == pow2(store.n_vars as nat),
                f0 == (|i: int| self.slot(cols, half as int, 0, i).times(eq_ind@[i])),
                f1 == (|i: int| self.slot(cols, half as int, 1, i).times(eq_ind@[i])),
                f2 == (|i: int| self.slot(cols, half as int, 2, i).times(eq_ind@[i])),
                f3 == (|i: int| self.slot(cols, half as int, 3, i).times(eq_ind@[i])),
                F::wide_value(num_y_1) == sum(i as int, f0),
                F::wide_value(num_y_inf) == sum(i as int, f1),
                F::wide_value(den_y_1) == sum(i as int, f2),
                F::wide_value(den_y_inf) == sum(i as int, f3),
            decreases half - i,
        {
            // One load per column half, shared by both claims.
            let (na_lo, na_hi) = (num_a.get(i), num_a.get(half + i));
            let (nb_lo, nb_hi) = (num_b.get(i), num_b.get(half + i));
            let (da_lo, da_hi) = (den_a.get(i), den_a.get(half + i));
            let (db_lo, db_hi) = (den_b.get(i), den_b.get(half + i));
            let eq_i = eq_ind[i];
            num_y_1 = F::wide_add(
                num_y_1,
                F::wide_mul(na_hi.mul(db_hi).add(nb_hi.mul(da_hi)), eq_i),
            );
            den_y_1 = F::wide_add(den_y_1, F::wide_mul(da_hi.mul(db_hi), eq_i));
            // The two denominator sums serve both claims.
            let na = na_lo.add(na_hi);
            let nb = nb_lo.add(nb_hi);
            let da = da_lo.add(da_hi);
            let db = db_lo.add(db_hi);
            num_y_inf = F::wide_add(num_y_inf, F::wide_mul(na.mul(db).add(nb.mul(da)), eq_i));
            den_y_inf = F::wide_add(den_y_inf, F::wide_mul(da.mul(db), eq_i));
            i = i + 1;
        }
        let a0 = F::wide_add(accum[0], num_y_1);
        let a1 = F::wide_add(accum[1], num_y_inf);
        let a2 = F::wide_add(accum[2], den_y_1);
        let a3 = F::wide_add(accum[3], den_y_inf);
        accum.set(0, a0);
        accum.set(1, a1);
        accum.set(2, a2);
        accum.set(3, a3);
    }

    fn interpolate(&self, ys: &Vec<F>, claim: F, alpha: F) -> (r: RoundCoeffs<F>) {
        let z = self.batch_coeff;
        RoundEvals { y_1: ys[0].add(ys[2].mul(z)), y_inf: ys[1].add(ys[3].mul(z)) }.interpolate_eq(
            claim,
            alpha,
        )
    }
}

/// Interpolation is affine in its claim and its samples.
pub proof fn interpolation_is_affine<F: Field>(
    c1: F,
    c2: F,
    z: F,
    alpha: F,
    y1: F,
    w1: F,
    yi: F,
    wi: F,
)
    ensures
        ({
            let a = quadratic_eq(c1, alpha, y1, yi);
            let b = quadratic_eq(c2, alpha, w1, wi);
            quadratic_eq(
                c1.plus(c2.times(z)),
                alpha,
                y1.plus(w1.times(z)),
                yi.plus(wi.times(z)),
            ) == Seq::new(3, |i: int| a[i].plus(b[i].times(z)))
        }),
{
    let a = quadratic_eq(c1, alpha, y1, yi);
    let b = quadratic_eq(c2, alpha, w1, wi);
    let inv = F::unit().plus(alpha).inverse();
    let (y, yy) = (y1.plus(w1.times(z)), yi.plus(wi.times(z)));
    let got = quadratic_eq(c1.plus(c2.times(z)), alpha, y, yy);
    // alpha (y1 + w1 z) = alpha y1 + (alpha w1) z
    F::times_plus(alpha, y1, w1.times(z));
    F::times_assoc(alpha, w1, z);
    let (p, q) = (alpha.times(y1), alpha.times(w1));
    lemma_plus_exchange(c1, c2.times(z), p, q.times(z));
    lemma_plus_times(c2, q, z);
    let (s, t) = (c1.plus(p), c2.plus(q));
    lemma_plus_times(s, t.times(z), inv);
    F::times_assoc(t, z, inv);
    F::times_comm(z, inv);
    F::times_assoc(t, inv, z);
    assert(got[0] == a[0].plus(b[0].times(z)));
    // y + c0 + yy
    lemma_plus_exchange(y1, w1.times(z), a[0], b[0].times(z));
    lemma_plus_times(w1, b[0], z);
    lemma_plus_exchange(y1.plus(a[0]), w1.plus(b[0]).times(z), yi, wi.times(z));
    lemma_plus_times(w1.plus(b[0]), wi, z);
    assert(got[1] == a[1].plus(b[1].times(z)));
    assert(got =~= Seq::new(3, |i: int| a[i].plus(b[i].times(z))));
}

/// The fused round polynomial is the two claims' round polynomials, batched.
pub proof fn fused_matches_batched<F: Field>(
    fused: FracAddFusedEvaluator<F>,
    den: [ColId; 2],
    cols: Seq<Seq<F>>,
    point: Seq<F>,
    num_claim: F,
    den_claim: F,
)
    requires
        point.len() > 0,
        den@ == seq![fused.cols@[2], fused.cols@[3]],
    ensures
        ({
            let n = round_polynomial(
                QuadraticMleEvaluator::Numerator(fused.cols),
                cols,
                point,
                num_claim,
            );
            let d = round_polynomial(
                QuadraticMleEvaluator::Denominator(den),
                cols,
                point,
                den_claim,
            );
            round_polynomial(
                fused,
                cols,
                point,
                num_claim.plus(den_claim.times(fused.batch_coeff)),
            ) == Seq::new(3, |i: int| n[i].plus(d[i].times(fused.batch_coeff)))
        }),
{
    let num = QuadraticMleEvaluator::Numerator(fused.cols);
    let dev = QuadraticMleEvaluator::Denominator(den);
    let half = pow2((point.len() - 1) as nat) as int;
    let low_point = point.drop_last();
    let (sf, sn, sd) = (
        round_samples(fused, cols, point),
        round_samples::<F, QuadraticMleEvaluator>(num, cols, point),
        round_samples::<F, QuadraticMleEvaluator>(dev, cols, point),
    );
    assert forall|k: int| 0 <= k < 2 implies #[trigger] sf[k] == sn[k] by {
        let f = |i: int| fused.slot(cols, half, k, i).times(eq_ind(low_point, i));
        let g = |i: int|
            MleCheckRoundEvaluator::<F>::slot(&num, cols, half, k, i).times(eq_ind(low_point, i));
        assert forall|i: int| 0 <= i < half implies #[trigger] f(i) == g(i) by {}
        lemma_sum_ext(half, f, g);
    }
    assert forall|k: int| 0 <= k < 2 implies #[trigger] sd[k] == sf[k + 2] by {
        let f = |i: int| fused.slot(cols, half, k + 2, i).times(eq_ind(low_point, i));
        let g = |i: int|
            MleCheckRoundEvaluator::<F>::slot(&dev, cols, half, k, i).times(eq_ind(low_point, i));
        assert(den@[0] == fused.cols@[2] && den@[1] == fused.cols@[3]);
        assert forall|i: int| 0 <= i < half implies #[trigger] f(i) == g(i) by {}
        lemma_sum_ext(half, f, g);
    }
    assert(sf[0] == sn[0] && sf[1] == sn[1]);
    assert(sd[0] == sf[2] && sd[1] == sf[3]);
    interpolation_is_affine(
        num_claim,
        den_claim,
        fused.batch_coeff,
        point.last(),
        sn[0],
        sd[0],
        sn[1],
        sd[1],
    );
}

/// A claim is honest: the composition's values, weighted by the point's equality indicator, sum to
/// it.
pub open spec fn honest_claim<F: Field>(
    evaluator: QuadraticMleEvaluator,
    cols: Seq<Seq<F>>,
    point: Seq<F>,
    claim: F,
) -> bool {
    claim == sum(
        pow2(point.len()) as int,
        |x: int| evaluator.composed(|c: ColId| low_value(cols, c, x)).times(eq_ind(point, x)),
    )
}

/// The composition's values at zero, one and infinity give its value at any challenge.
proof fn lemma_composed_at<F: Field>(
    evaluator: QuadraticMleEvaluator,
    cols: Seq<Seq<F>>,
    half: int,
    i: int,
    r: F,
)
    requires
        0 <= i < half,
        forall|c: int| 0 <= c < cols.len() ==> (#[trigger] cols[c]).len() == 2 * half,
        evaluator.reads_within(cols.len()),
    ensures
        ({
            let e0 = evaluator.composed(|c: ColId| low_value(cols, c, i));
            let e1 = evaluator.composed(|c: ColId| high_value(cols, c, half, i));
            let ei = evaluator.composed(|c: ColId| lead_value(cols, c, half, i));
            evaluator.composed(|c: ColId| low_value(fold_cols(cols, r), c, i)) == e0.plus(
                r.times(e1.plus(e0).plus(ei)),
            ).plus(r.times(r.times(ei)))
        }),
{
    let folded = fold_cols(cols, r);
    match evaluator {
        QuadraticMleEvaluator::Numerator(c) => {
            assert forall|k: int| 0 <= k < 4 implies low_value(folded, #[trigger] c@[k], i) == low_value(
                cols,
                c@[k],
                i,
            ).times(F::unit().plus(r)).plus(high_value(cols, c@[k], half, i).times(r)) by {
                assert(cols[c@[k].0 as int].len() == 2 * half);
            }
            let (a0, a1) = (low_value(cols, c@[0], i), high_value(cols, c@[0], half, i));
            let (b0, b1) = (low_value(cols, c@[1], i), high_value(cols, c@[1], half, i));
            let (x0, x1) = (low_value(cols, c@[2], i), high_value(cols, c@[2], half, i));
            let (y0, y1) = (low_value(cols, c@[3], i), high_value(cols, c@[3], half, i));
            assert(low_value(folded, c@[0], i) == a0.times(F::unit().plus(r)).plus(a1.times(r)));
            assert(low_value(folded, c@[1], i) == b0.times(F::unit().plus(r)).plus(b1.times(r)));
            assert(low_value(folded, c@[2], i) == x0.times(F::unit().plus(r)).plus(x1.times(r)));
            assert(low_value(folded, c@[3], i) == y0.times(F::unit().plus(r)).plus(y1.times(r)));
            lemma_entry(a0, a1, y0, y1, r);
            lemma_entry(b0, b1, x0, x1, r);
            lemma_quadratics_add(
                a0.times(y0),
                a1.times(y1),
                a0.plus(a1).times(y0.plus(y1)),
                b0.times(x0),
                b1.times(x1),
                b0.plus(b1).times(x0.plus(x1)),
                r,
            );
        },
        QuadraticMleEvaluator::Denominator(c) => {
            assert forall|k: int| 0 <= k < 2 implies low_value(folded, #[trigger] c@[k], i) == low_value(
                cols,
                c@[k],
                i,
            ).times(F::unit().plus(r)).plus(high_value(cols, c@[k], half, i).times(r)) by {
                assert(cols[c@[k].0 as int].len() == 2 * half);
            }
            let (x0, x1) = (low_value(cols, c@[0], i), high_value(cols, c@[0], half, i));
            let (y0, y1) = (low_value(cols, c@[1], i), high_value(cols, c@[1], half, i));
            assert(low_value(folded, c@[0], i) == x0.times(F::unit().plus(r)).plus(x1.times(r)));
            assert(low_value(folded, c@[1], i) == y0.times(F::unit().plus(r)).plus(y1.times(r)));
            lemma_entry(x0, x1, y0, y1, r);
        },
    }
}

/// The sum of two quadratics given by their samples.
proof fn lemma_quadratics_add<F: FieldOps>(e0: F, e1: F, ei: F, f0: F, f1: F, fi: F, r: F)
    ensures
        ({
            let (s0, s1, si) = (e0.plus(f0), e1.plus(f1), ei.plus(fi));
            e0.plus(r.times(e1.plus(e0).plus(ei))).plus(r.times(r.times(ei))).plus(
                f0.plus(r.times(f1.plus(f0).plus(fi))).plus(r.times(r.times(fi))),
            ) == s0.plus(r.times(s1.plus(s0).plus(si))).plus(r.times(r.times(si)))
        }),
{
    let (m, n) = (e1.plus(e0).plus(ei), f1.plus(f0).plus(fi));
    let (u, v) = (r.times(r.times(ei)), r.times(r.times(fi)));
    lemma_plus_exchange(e0.plus(r.times(m)), u, f0.plus(r.times(n)), v);
    lemma_plus_exchange(e0, r.times(m), f0, r.times(n));
    F::times_plus(r, m, n);
    lemma_plus_exchange(e1.plus(e0), ei, f1.plus(f0), fi);
    lemma_plus_exchange(e1, e0, f1, f0);
    F::times_plus(r, ei, fi);
    F::times_plus(r, r.times(ei), r.times(fi));
}

/// An honest claim stays honest through a round.
///
/// The coordinate's complement must be invertible, since the round polynomial's value at zero is
/// recovered by dividing by it.
pub proof fn honest_claim_is_kept<F: Field>(
    evaluator: QuadraticMleEvaluator,
    cols: Seq<Seq<F>>,
    point: Seq<F>,
    claim: F,
    r: F,
)
    requires
        point.len() > 0,
        evaluator.reads_within(cols.len()),
        forall|c: int| 0 <= c < cols.len() ==> (#[trigger] cols[c]).len() == pow2(point.len()),
        F::unit().plus(point.last()).times(F::unit().plus(point.last()).inverse()) == F::unit(),
        honest_claim(evaluator, cols, point, claim),
    ensures
        honest_claim(
            evaluator,
            fold_cols(cols, r),
            point.drop_last(),
            poly_eval(round_polynomial(evaluator, cols, point, claim), r),
        ),
{
    let n = point.len() as int;
    let alpha = point.last();
    let low_point = point.drop_last();
    lemma_pow2_unfold(point.len());
    let half = pow2((n - 1) as nat) as int;
    let e0 = |i: int| evaluator.composed(|c: ColId| low_value(cols, c, i));
    let e1 = |i: int| evaluator.composed(|c: ColId| high_value(cols, c, half, i));
    let ei = |i: int| evaluator.composed(|c: ColId| lead_value(cols, c, half, i));
    let w = |i: int| eq_ind(low_point, i);
    let s0 = |i: int| e0(i).times(w(i));
    let s1 = |i: int| e1(i).times(w(i));
    let si = |i: int| ei(i).times(w(i));
    let (y0, y1, yi) = (sum(half, s0), sum(half, s1), sum(half, si));
    let ys = round_samples::<F, QuadraticMleEvaluator>(evaluator, cols, point);
    lemma_sum_ext(
        half,
        s1,
        |i: int|
            MleCheckRoundEvaluator::<F>::slot(&evaluator, cols, half, 0, i).times(
                eq_ind(low_point, i),
            ),
    );
    lemma_sum_ext(
        half,
        si,
        |i: int|
            MleCheckRoundEvaluator::<F>::slot(&evaluator, cols, half, 1, i).times(
                eq_ind(low_point, i),
            ),
    );
    assert(ys[0] == y1 && ys[1] == yi);
    // The claim is (1 + alpha) y0 + alpha y1.
    let all = |x: int| evaluator.composed(|c: ColId| low_value(cols, c, x)).times(eq_ind(point, x));
    lemma_sum_split(half, half, all);
    let q = F::unit().plus(alpha);
    let lo_terms = |i: int| s0(i).times(q);
    let hi_terms = |i: int| s1(i).times(alpha);
    assert forall|i: int| 0 <= i < half implies #[trigger] all(i) == lo_terms(i) by {
        lemma_eq_low(point, n - 1, n - 1, 0, i);
        lemma_eq_prefix(point, low_point, n - 1, i);
        lemma_index_bit_high(i, n - 1, n - 1);
        assert(0 * pow2((n - 1) as nat) + i == i);
        F::times_assoc(e0(i), w(i), q);
    }
    lemma_sum_ext(half, all, lo_terms);
    let up = |i: int| all(half + i);
    assert forall|i: int| 0 <= i < half implies #[trigger] up(i) == hi_terms(i) by {
        lemma_eq_low(point, n - 1, n - 1, 1, i);
        lemma_eq_prefix(point, low_point, n - 1, i);
        lemma_index_bit_top(i, n - 1);
        assert(1 * pow2((n - 1) as nat) + i == half + i);
        lemma_composed_high(evaluator, cols, half, i);
        F::times_assoc(e1(i), w(i), alpha);
    }
    lemma_sum_ext(half, up, hi_terms);
    lemma_sum_scale(half, q, s0);
    lemma_sum_scale(half, alpha, s1);
    assert(claim == y0.times(q).plus(y1.times(alpha)));
    // So the recovered value at zero is y0.
    F::times_comm(alpha, y1);
    lemma_plus_cancel(y0.times(q), y1.times(alpha));
    F::times_assoc(y0, q, q.inverse());
    F::times_unit(y0);
    let poly = round_polynomial(evaluator, cols, point, claim);
    assert(poly[0] == y0);
    lemma_quadratic_eval(poly, r);
    // Row by row.
    let folded = fold_cols(cols, r);
    let out = |i: int| evaluator.composed(|c: ColId| low_value(folded, c, i)).times(w(i));
    let mid = |i: int| s1(i).plus(s0(i)).plus(si(i));
    let row = |i: int| s0(i).plus(r.times(mid(i))).plus(r.times(r.times(si(i))));
    assert forall|i: int| 0 <= i < half implies #[trigger] out(i) == row(i) by {
        lemma_composed_at(evaluator, cols, half, i, r);
        lemma_weighted_quadratic(e0(i), e1(i), ei(i), w(i), r);
    }
    lemma_sum_ext(half, out, row);
    let rmid = |i: int| r.times(mid(i));
    let rsi = |i: int| r.times(si(i));
    let rrsi = |i: int| r.times(rsi(i));
    let first = |i: int| s0(i).plus(rmid(i));
    lemma_sum_plus(half, first, rrsi);
    lemma_sum_ext(half, row, |i: int| first(i).plus(rrsi(i)));
    lemma_sum_plus(half, s0, rmid);
    lemma_sum_scale(half, r, mid);
    lemma_sum_ext(half, rmid, |i: int| r.times(mid(i)));
    let s10 = |i: int| s1(i).plus(s0(i));
    lemma_sum_plus(half, s1, s0);
    lemma_sum_plus(half, s10, si);
    lemma_sum_ext(half, mid, |i: int| s10(i).plus(si(i)));
    lemma_sum_scale(half, r, si);
    lemma_sum_ext(half, rsi, |i: int| r.times(si(i)));
    lemma_sum_scale(half, r, rsi);
    lemma_sum_ext(half, rrsi, |i: int| r.times(rsi(i)));
    assert(sum(half, out) == poly_eval(poly, r));
    lemma_sum_ext(
        half,
        out,
        |x: int|
            evaluator.composed(|c: ColId| low_value(folded, c, x)).times(eq_ind(low_point, x)),
    );
}

/// A composition over the upper rows.
proof fn lemma_composed_high<F: Field>(
    evaluator: QuadraticMleEvaluator,
    cols: Seq<Seq<F>>,
    half: int,
    i: int,
)
    ensures
        evaluator.composed(|c: ColId| low_value(cols, c, half + i)) == evaluator.composed(
            |c: ColId| high_value(cols, c, half, i),
        ),
{
}

/// A weight moves into a quadratic given by its samples.
proof fn lemma_weighted_quadratic<F: FieldOps>(e0: F, e1: F, ei: F, w: F, r: F)
    ensures
        e0.plus(r.times(e1.plus(e0).plus(ei))).plus(r.times(r.times(ei))).times(w) == e0.times(
            w,
        ).plus(r.times(e1.times(w).plus(e0.times(w)).plus(ei.times(w)))).plus(
            r.times(r.times(ei.times(w))),
        ),
{
    let m = e1.plus(e0).plus(ei);
    lemma_plus_times(e0.plus(r.times(m)), r.times(r.times(ei)), w);
    lemma_plus_times(e0, r.times(m), w);
    F::times_assoc(r, m, w);
    lemma_plus_times(e1.plus(e0), ei, w);
    lemma_plus_times(e1, e0, w);
    F::times_assoc(r, r.times(ei), w);
    F::times_assoc(r, ei, w);
}

} // verus!
