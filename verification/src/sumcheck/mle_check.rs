//! Claims that a composition of multilinears takes a value at a point, reduced round by round.

use vstd::arithmetic::power2::{lemma2_to64, lemma_pow2_unfold, pow2};
use crate::algebra::field::{Field, FieldOps};
use crate::algebra::group::{AdditiveGroup, lemma_nil_plus};
use crate::algebra::sum::{lemma_sum_ext, sum};
use crate::field::packed::PackedField;
use crate::math::eq::{eq_ind, eq_ind_partial_eval_scalars};
use crate::math::field_buffer::FieldBuffer;
use crate::math::index::pow2_usize;
use crate::sumcheck::frac_add_mle::evaluators;
use crate::sumcheck::product::fold_high;
use crate::sumcheck::prover::{copy_of, fold_highest_var_inplace};
use crate::sumcheck::round::{RoundCoeffs, RoundEvals, poly_eval};
use crate::sumcheck::round_state::RoundState;
use vstd::prelude::*;

verus! {

/// A column of a store.
#[derive(Clone, Copy, Debug, PartialEq, Eq, Structural)]
pub struct ColId(pub usize);

/// Multilinears over the same variables.
pub struct MleStore<P: PackedField> {
    /// The number of variables still to bind.
    pub n_vars: usize,
    /// The columns.
    pub columns: Vec<FieldBuffer<P>>,
}

impl<F: Field, P: PackedField<Scalar = F>> MleStore<P> {
    /// Every column spans the store's variables.
    pub open spec fn wf(&self) -> bool {
        &&& pow2(self.n_vars as nat) <= usize::MAX
        &&& forall|c: int|
            0 <= c < self.columns.len() ==> (#[trigger] self.columns[c]).wf()
                && self.columns[c].log_len == self.n_vars
    }

    /// The columns' values.
    pub open spec fn cols(&self) -> Seq<Seq<F>> {
        Seq::new(self.columns.len() as nat, |c: int| self.columns[c].scalars())
    }

    /// A store without columns.
    pub fn new(n_vars: usize) -> (r: Self)
        requires
            pow2(n_vars as nat) <= usize::MAX,
        ensures
            r.wf(),
            r.n_vars == n_vars,
            r.cols() == Seq::<Seq<F>>::empty(),
    {
        let r = MleStore { n_vars, columns: Vec::new() };
        assert(r.cols() =~= Seq::<Seq<F>>::empty());
        r
    }

    /// Adds a column.
    pub fn push_owned(&mut self, col: FieldBuffer<P>) -> (r: ColId)
        requires
            old(self).wf(),
            col.wf(),
            col.log_len == old(self).n_vars,
        ensures
            final(self).wf(),
            final(self).n_vars == old(self).n_vars,
            r.0 == old(self).cols().len(),
            final(self).cols() == old(self).cols().push(col.scalars()),
    {
        let r = ColId(self.columns.len());
        self.columns.push(col);
        assert(self.cols() =~= old(self).cols().push(col.scalars()));
        r
    }

    /// Adds the two halves of a buffer, split on its highest variable.
    pub fn push_split_half(&mut self, buffer: FieldBuffer<P>) -> (r: [ColId; 2])
        requires
            old(self).wf(),
            buffer.wf(),
            buffer.log_len == old(self).n_vars + 1,
        ensures
            final(self).wf(),
            final(self).n_vars == old(self).n_vars,
            r@[0].0 == old(self).cols().len(),
            r@[1].0 == old(self).cols().len() + 1,
            ({
                let half = pow2(old(self).n_vars as nat) as int;
                final(self).cols() == old(self).cols().push(buffer.scalars().take(half)).push(
                    buffer.scalars().skip(half),
                )
            }),
    {
        proof {
            lemma_pow2_unfold(buffer.log_len as nat);
        }
        let half = pow2_usize(self.n_vars);
        let low = take_part(&buffer, 0, self.n_vars);
        let high = take_part(&buffer, half, self.n_vars);
        proof {
            assert(low.scalars() =~= buffer.scalars().take(half as int));
            assert(high.scalars() =~= buffer.scalars().skip(half as int));
        }
        let a = self.push_owned(low);
        let b = self.push_owned(high);
        [a, b]
    }

    /// Binds the highest variable of every column.
    pub fn fold(&mut self, challenge: F)
        requires
            old(self).wf(),
            old(self).n_vars > 0,
        ensures
            final(self).wf(),
            final(self).n_vars == old(self).n_vars - 1,
            final(self).cols() == fold_cols(old(self).cols(), challenge),
    {
        let ghost before = self.cols();
        let ghost n = self.columns.len();
        let n_vars = self.n_vars;
        let mut columns: Vec<FieldBuffer<P>> = Vec::new();
        core::mem::swap(&mut columns, &mut self.columns);
        let mut folded: Vec<FieldBuffer<P>> = Vec::new();
        proof {
            lemma_pow2_unfold(n_vars as nat);
        }
        let mut c: usize = 0;
        while c < columns.len()
            invariant
                c <= columns.len(),
                columns.len() == before.len(),
                n_vars > 0,
                forall|k: int|
                    0 <= k < columns.len() ==> (#[trigger] columns[k]).wf() && columns[k].log_len
                        == n_vars && columns[k].scalars() == before[k],
                folded.len() == c,
                forall|k: int|
                    0 <= k < c ==> (#[trigger] folded[k]).wf() && folded[k].log_len == n_vars - 1
                        && folded[k].scalars() == fold_high(before[k], challenge),
            decreases columns.len() - c,
        {
            let half = fold_column(&columns[c], challenge);
            folded.push(half);
            c = c + 1;
        }
        self.columns = folded;
        self.n_vars = n_vars - 1;
        assert(self.cols() =~= fold_cols(before, challenge));
    }
}

/// Every column with its highest variable bound.
pub open spec fn fold_cols<F: FieldOps>(cols: Seq<Seq<F>>, r: F) -> Seq<Seq<F>> {
    Seq::new(cols.len(), |c: int| fold_high(cols[c], r))
}

/// A column with its highest variable bound.
fn fold_column<P: PackedField>(column: &FieldBuffer<P>, challenge: P::Scalar) -> (r: FieldBuffer<P>)
    requires
        column.wf(),
        column.log_len > 0,
    ensures
        r.wf(),
        r.log_len == column.log_len - 1,
        r.scalars() == fold_high(column.scalars(), challenge),
{
    proof {
        lemma_pow2_unfold(column.log_len as nat);
    }
    let mut r = take_part(column, 0, column.log_len);
    assert(r.scalars() =~= column.scalars());
    fold_highest_var_inplace(&mut r, challenge);
    r
}

/// The `2^log_len` scalars from a position on.
fn take_part<P: PackedField>(buffer: &FieldBuffer<P>, start: usize, log_len: usize) -> (r:
    FieldBuffer<P>)
    requires
        buffer.wf(),
        start + pow2(log_len as nat) <= buffer.scalars().len(),
    ensures
        r.wf(),
        r.log_len == log_len,
        forall|i: int|
            0 <= i < pow2(log_len as nat) ==> #[trigger] r.scalars()[i] == buffer.scalars()[start
                + i],
{
    let n = pow2_usize(log_len);
    let mut r = FieldBuffer::<P>::zeros(log_len);
    let mut i: usize = 0;
    while i < n
        invariant
            i <= n,
            n == pow2(log_len as nat),
            buffer.wf(),
            start + n <= buffer.scalars().len(),
            r.wf(),
            r.log_len == log_len,
            forall|k: int|
                0 <= k < i ==> #[trigger] r.scalars()[k] == buffer.scalars()[start + k],
        decreases n - i,
    {
        let ghost before = r.scalars();
        r.set(i, buffer.get(start + i));
        proof {
            assert forall|k: int| 0 <= k < i + 1 implies #[trigger] r.scalars()[k]
                == buffer.scalars()[start + k] by {
                if k < i {
                    assert(r.scalars()[k] == before[k]);
                }
            }
        }
        i = i + 1;
    }
    r
}

/// The quadratic with the given value at one and leading coefficient whose values at zero and one,
/// weighted by the factors of one coordinate, sum to the claim.
pub open spec fn quadratic_eq<F: Field>(claim: F, alpha: F, y_1: F, y_inf: F) -> Seq<F> {
    let c0 = claim.plus(alpha.times(y_1)).times(F::unit().plus(alpha).inverse());
    seq![c0, y_1.plus(c0).plus(y_inf), y_inf]
}

impl<F: Field> RoundEvals<F> {
    /// Recovers the polynomial from a claim weighted by one coordinate's factors.
    pub fn interpolate_eq(&self, claim: F, alpha: F) -> (r: RoundCoeffs<F>)
        ensures
            r.0@ == quadratic_eq(claim, alpha, self.y_1, self.y_inf),
    {
        let scale = F::one().add(alpha).invert_or_zero();
        let c0 = claim.add(alpha.mul(self.y_1)).mul(scale);
        let c1 = self.y_1.add(c0).add(self.y_inf);
        let mut coeffs: Vec<F> = Vec::new();
        coeffs.push(c0);
        coeffs.push(c1);
        coeffs.push(self.y_inf);
        assert(coeffs@ =~= quadratic_eq(claim, alpha, self.y_1, self.y_inf));
        RoundCoeffs(coeffs)
    }
}

/// Computes one claim's round polynomial from a store's columns.
pub trait MleCheckRoundEvaluator<F: Field>: Sized {
    /// The number of sampled values.
    spec fn n_slots(&self) -> nat;

    /// Whether a store has the columns the evaluator reads.
    spec fn fits(&self, n_cols: nat) -> bool;

    /// What row `i` adds to sampled value `k`, before its equality weight.
    ///
    /// The lower half of a column fixes the round's variable to zero, the upper half to one.
    spec fn slot(&self, cols: Seq<Seq<F>>, half: int, k: int, i: int) -> F;

    /// The round polynomial the sampled values give.
    spec fn polynomial(&self, ys: Seq<F>, claim: F, alpha: F) -> Seq<F>;

    /// The number of sampled values.
    fn degree(&self) -> (r: usize)
        ensures
            r == self.n_slots(),
    ;

    /// Adds every row to the sampled values.
    fn accumulate<P: PackedField<Scalar = F>>(
        &self,
        store: &MleStore<P>,
        eq_ind: &[F],
        accum: &mut Vec<F::Wide>,
    )
        requires
            store.wf(),
            store.n_vars > 0,
            self.fits(store.cols().len()),
            2 * eq_ind.len() == pow2(store.n_vars as nat),
            old(accum).len() == self.n_slots(),
        ensures
            final(accum).len() == old(accum).len(),
            forall|k: int|
                0 <= k < old(accum).len() ==> F::wide_value(#[trigger] final(accum)[k])
                    == F::wide_value(old(accum)[k]).plus(
                    sum(
                        eq_ind.len() as int,
                        |i: int|
                            self.slot(store.cols(), eq_ind.len() as int, k, i).times(eq_ind[i]),
                    ),
                ),
    ;

    /// Recovers the round polynomial.
    fn interpolate(&self, ys: &Vec<F>, claim: F, alpha: F) -> (r: RoundCoeffs<F>)
        requires
            ys.len() == self.n_slots(),
        ensures
            r.0@ == self.polynomial(ys@, claim, alpha),
    ;
}

/// The sampled values of one round.
pub open spec fn round_samples<F: Field, E: MleCheckRoundEvaluator<F>>(
    evaluator: E,
    cols: Seq<Seq<F>>,
    point: Seq<F>,
) -> Seq<F> {
    let half = pow2((point.len() - 1) as nat) as int;
    Seq::new(
        evaluator.n_slots(),
        |k: int|
            sum(
                half,
                |i: int| evaluator.slot(cols, half, k, i).times(eq_ind(point.drop_last(), i)),
            ),
    )
}

/// One claim's round polynomial.
pub open spec fn round_polynomial<F: Field, E: MleCheckRoundEvaluator<F>>(
    evaluator: E,
    cols: Seq<Seq<F>>,
    point: Seq<F>,
    claim: F,
) -> Seq<F> {
    evaluator.polynomial(round_samples(evaluator, cols, point), claim, point.last())
}

/// A prover of several claims over one store, at one point.
#[verifier::reject_recursive_types(F)]
#[verifier::reject_recursive_types(P)]
pub struct SharedMleCheckProver<F: Field, P: PackedField<Scalar = F>, E: MleCheckRoundEvaluator<F>> {
    /// The columns.
    pub store: MleStore<P>,
    /// One evaluator per claim.
    pub evaluators: Vec<E>,
    /// The claims, or the round polynomials within a round.
    pub state: RoundState<Vec<RoundCoeffs<F>>, Vec<F>>,
    /// The coordinates still to bind.
    pub eval_point: Vec<F>,
}

impl<
    F: Field,
    P: PackedField<Scalar = F>,
    E: MleCheckRoundEvaluator<F>,
> SharedMleCheckProver<F, P, E> {
    /// The store, the evaluators and the point belong together.
    pub open spec fn wf(&self) -> bool {
        &&& self.store.wf()
        &&& self.eval_point.len() == self.store.n_vars
        &&& forall|e: int|
            0 <= e < self.evaluators.len() ==> (#[trigger] self.evaluators[e]).fits(
                self.store.cols().len(),
            )
        &&& match self.state {
            RoundState::Claim(claims) => claims.len() == self.evaluators.len(),
            RoundState::Coeffs(coeffs) => coeffs.len() == self.evaluators.len(),
        }
    }

    /// A prover of one claim per evaluator.
    pub fn new(
        store: MleStore<P>,
        claims: Vec<F>,
        evaluators: Vec<E>,
        eval_point: Vec<F>,
    ) -> (r: Self)
        requires
            store.wf(),
            eval_point.len() == store.n_vars,
            claims.len() == evaluators.len(),
            forall|e: int|
                0 <= e < evaluators.len() ==> (#[trigger] evaluators[e]).fits(store.cols().len()),
        ensures
            r.wf(),
            r.store == store,
            r.evaluators@ == evaluators@,
            r.eval_point@ == eval_point@,
            r.state is Claim,
            r.state->Claim_0@ == claims@,
    {
        SharedMleCheckProver { store, evaluators, state: RoundState::Claim(claims), eval_point }
    }

    /// The number of variables still to bind.
    pub fn n_vars(&self) -> (r: usize)
        ensures
            r == self.store.n_vars,
    {
        self.store.n_vars
    }

    /// Computes every claim's round polynomial.
    pub fn execute(&mut self) -> (r: Vec<RoundCoeffs<F>>)
        requires
            old(self).wf(),
            old(self).store.n_vars > 0,
            old(self).state is Claim,
        ensures
            final(self).wf(),
            final(self).store == old(self).store,
            final(self).evaluators == old(self).evaluators,
            final(self).eval_point == old(self).eval_point,
            final(self).state is Coeffs,
            r.len() == old(self).evaluators.len(),
            forall|e: int|
                0 <= e < r.len() ==> (#[trigger] r[e]).0@ == round_polynomial(
                    old(self).evaluators[e],
                    old(self).store.cols(),
                    old(self).eval_point@,
                    old(self).state->Claim_0[e],
                ),
            forall|e: int|
                0 <= e < r.len() ==> (#[trigger] final(self).state->Coeffs_0[e]).0@ == r[e].0@,
    {
        let n: usize = self.store.n_vars - 1;
        let ghost cols = self.store.cols();
        let ghost point = self.eval_point@;
        proof {
            lemma_pow2_unfold((n + 1) as nat);
        }
        let alpha = self.eval_point[n];
        let mut low = copy_of(&self.eval_point);
        low.truncate(n);
        assert(low@ =~= point.drop_last());
        let eq = eq_ind_partial_eval_scalars(low.as_slice());
        let mut r: Vec<RoundCoeffs<F>> = Vec::new();
        let mut kept: Vec<RoundCoeffs<F>> = Vec::new();
        let claims = self.state.claim();
        let mut e: usize = 0;
        while e < self.evaluators.len()
            invariant
                e <= self.evaluators.len(),
                self.wf(),
                self.state is Claim,
                *claims == self.state->Claim_0,
                self.store.n_vars == n + 1,
                cols == self.store.cols(),
                point == self.eval_point@,
                alpha == point.last(),
                pow2((n + 1) as nat) == 2 * eq.len(),
                eq.len() == pow2(n as nat),
                forall|i: int|
                    0 <= i < eq.len() ==> #[trigger] eq[i] == eq_ind(point.drop_last(), i),
                r.len() == e,
                kept.len() == e,
                forall|k: int|
                    0 <= k < e ==> (#[trigger] r[k]).0@ == round_polynomial(
                        self.evaluators[k],
                        cols,
                        point,
                        claims[k],
                    ),
                forall|k: int| 0 <= k < e ==> (#[trigger] kept[k]).0@ == r[k].0@,
            decreases self.evaluators.len() - e,
        {
            let evaluator = &self.evaluators[e];
            let degree = evaluator.degree();
            let mut accum: Vec<F::Wide> = Vec::new();
            while accum.len() < degree
                invariant
                    accum.len() <= degree,
                    forall|k: int|
                        0 <= k < accum.len() ==> F::wide_value(#[trigger] accum[k]) == F::nil(),
                decreases degree - accum.len(),
            {
                accum.push(F::wide_zero());
            }
            evaluator.accumulate(&self.store, eq.as_slice(), &mut accum);
            let ghost want = round_samples(*evaluator, cols, point);
            let mut ys: Vec<F> = Vec::new();
            proof {
                assert forall|k: int| 0 <= k < degree implies F::wide_value(
                    #[trigger] accum[k],
                ) == want[k] by {
                    let f = |i: int|
                        evaluator.slot(cols, eq.len() as int, k, i).times(eq@[i]);
                    let g = |i: int|
                        evaluator.slot(cols, eq.len() as int, k, i).times(
                            eq_ind(point.drop_last(), i),
                        );
                    lemma_nil_plus(sum(eq.len() as int, f));
                    assert forall|i: int| 0 <= i < eq.len() implies #[trigger] f(i) == g(i) by {
                        assert(eq[i] == eq_ind(point.drop_last(), i));
                    }
                    lemma_sum_ext(eq.len() as int, f, g);
                }
            }
            while ys.len() < degree
                invariant
                    ys.len() <= degree,
                    accum.len() == degree,
                    forall|k: int|
                        0 <= k < degree ==> F::wide_value(#[trigger] accum[k]) == want[k],
                    forall|k: int| 0 <= k < ys.len() ==> #[trigger] ys[k] == want[k],
                decreases degree - ys.len(),
            {
                let at = ys.len();
                ys.push(F::reduce(accum[at]));
            }
            assert(ys@ =~= want);
            let coeffs = evaluator.interpolate(&ys, claims[e], alpha);
            kept.push(RoundCoeffs(copy_of(&coeffs.0)));
            r.push(coeffs);
            e = e + 1;
        }
        self.state = RoundState::Coeffs(kept);
        r
    }

    /// Binds the highest variable and reduces every round polynomial to the next claim.
    pub fn fold(&mut self, challenge: F)
        requires
            old(self).wf(),
            old(self).store.n_vars > 0,
            old(self).state is Coeffs,
        ensures
            final(self).wf(),
            final(self).store.n_vars == old(self).store.n_vars - 1,
            final(self).store.cols() == fold_cols(old(self).store.cols(), challenge),
            final(self).evaluators == old(self).evaluators,
            final(self).eval_point@ == old(self).eval_point@.drop_last(),
            final(self).state is Claim,
            forall|e: int|
                0 <= e < old(self).evaluators.len() ==> #[trigger] final(self).state->Claim_0[e]
                    == poly_eval(old(self).state->Coeffs_0[e].0@, challenge),
    {
        let mut claims: Vec<F> = Vec::new();
        let coeffs = self.state.coeffs();
        let mut e: usize = 0;
        while e < coeffs.len()
            invariant
                e <= coeffs.len(),
                claims.len() == e,
                forall|k: int|
                    0 <= k < e ==> #[trigger] claims[k] == poly_eval(coeffs[k].0@, challenge),
            decreases coeffs.len() - e,
        {
            claims.push(coeffs[e].evaluate(challenge));
            e = e + 1;
        }
        self.state = RoundState::Claim(claims);
        self.store.fold(challenge);
        let _ = self.eval_point.pop();
    }

    /// Every column's value once all variables are bound.
    pub fn finish(self) -> (r: Vec<F>)
        requires
            self.wf(),
            self.store.n_vars == 0,
        ensures
            r.len() == self.store.cols().len(),
            forall|c: int| 0 <= c < r.len() ==> #[trigger] r[c] == self.store.cols()[c][0],
    {
        proof {
            lemma2_to64();
        }
        let mut r: Vec<F> = Vec::new();
        let mut c: usize = 0;
        while c < self.store.columns.len()
            invariant
                c <= self.store.columns.len(),
                self.wf(),
                self.store.n_vars == 0,
                pow2(0) == 1,
                r.len() == c,
                forall|k: int| 0 <= k < c ==> #[trigger] r[k] == self.store.cols()[k][0],
            decreases self.store.columns.len() - c,
        {
            r.push(self.store.columns[c].get(0));
            c = c + 1;
        }
        r
    }
}

} // verus!
