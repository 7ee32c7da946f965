//! Provers that run the sumcheck of a product one round at a time.

use vstd::arithmetic::power2::{lemma2_to64, lemma_pow2_unfold, pow2};
use crate::algebra::field::{Field, FieldOps};
use crate::algebra::group::AdditiveGroup;
use crate::algebra::sum::sum;
use crate::field::packed::PackedField;
use crate::math::field_buffer::FieldBuffer;
use crate::math::index::pow2_usize;
use crate::sumcheck::channel::{
    IPProverChannel, ProverEvent, draws, lemma_rounds_push, round_events, sends,
};
use crate::sumcheck::product::{
    fold_high, folded_high, lemma_interpolate, lemma_product_prefix, product_claim,
    product_messages, product_round,
};
use crate::sumcheck::replay::lemma_messages_len;
use crate::sumcheck::round::{RoundCoeffs, RoundEvals, poly_eval};
use vstd::prelude::*;

verus! {

/// A prover of one sumcheck over the product of two multilinears.
pub trait SumcheckProver<F: FieldOps>: Sized {
    /// The prover is in a proper state.
    spec fn ready(&self) -> bool;

    /// The number of variables still to bind.
    spec fn vars(&self) -> nat;

    /// The first multilinear over the variables still to bind.
    spec fn left(&self) -> Seq<F>;

    /// The second multilinear over the variables still to bind.
    spec fn right(&self) -> Seq<F>;

    /// The sum claimed of the product.
    spec fn claim(&self) -> F;

    /// Whether this round's polynomial awaits its challenge.
    spec fn executed(&self) -> bool;

    /// Both multilinears span the variables still to bind.
    proof fn lens(&self)
        requires
            self.ready(),
        ensures
            self.left().len() == pow2(self.vars()),
            self.right().len() == pow2(self.vars()),
    ;

    /// The number of variables still to bind.
    fn n_vars(&self) -> (r: usize)
        requires
            self.ready(),
        ensures
            r == self.vars(),
    ;

    /// Computes this round's polynomial.
    fn execute(&mut self) -> (r: Vec<RoundCoeffs<F>>)
        requires
            old(self).ready(),
            old(self).vars() > 0,
        ensures
            r.len() == 1,
            r[0].0@ == product_round(old(self).left(), old(self).right(), old(self).claim()),
            final(self).ready(),
            final(self).executed(),
            final(self).vars() == old(self).vars(),
            final(self).left() == old(self).left(),
            final(self).right() == old(self).right(),
            final(self).claim() == old(self).claim(),
    ;

    /// Binds the highest variable to a challenge.
    fn fold(&mut self, challenge: F)
        requires
            old(self).ready(),
            old(self).executed(),
            old(self).vars() > 0,
        ensures
            final(self).ready(),
            final(self).vars() == old(self).vars() - 1,
            final(self).left() == fold_high(old(self).left(), challenge),
            final(self).right() == fold_high(old(self).right(), challenge),
            final(self).claim() == poly_eval(
                product_round(old(self).left(), old(self).right(), old(self).claim()),
                challenge,
            ),
    ;

    /// The two multilinears' values once every variable is bound.
    fn finish(self) -> (r: Vec<F>)
        requires
            self.ready(),
            self.vars() == 0,
        ensures
            r@ == seq![self.left()[0], self.right()[0]],
    ;
}

/// Binds the highest variable of a multilinear to a challenge.
pub fn fold_highest_var_inplace<P: PackedField>(buffer: &mut FieldBuffer<P>, challenge: P::Scalar)
    requires
        old(buffer).wf(),
        old(buffer).log_len > 0,
    ensures
        final(buffer).wf(),
        final(buffer).log_len == old(buffer).log_len - 1,
        final(buffer).scalars() == fold_high(old(buffer).scalars(), challenge),
{
    let log_len: usize = buffer.log_len - 1;
    proof {
        lemma_pow2_unfold((log_len + 1) as nat);
    }
    let half = pow2_usize(log_len);
    let mut r = FieldBuffer::<P>::zeros(log_len);
    let ghost want = fold_high(buffer.scalars(), challenge);
    let mut v: usize = 0;
    while v < half
        invariant
            v <= half,
            half == pow2(log_len as nat),
            buffer.wf(),
            buffer.log_len == log_len + 1,
            pow2((log_len + 1) as nat) == 2 * half,
            want == fold_high(buffer.scalars(), challenge),
            r.wf(),
            r.log_len == log_len,
            forall|x: int| 0 <= x < v ==> #[trigger] r.scalars()[x] == want[x],
        decreases half - v,
    {
        let lo = buffer.get(v);
        let hi = buffer.get(half + v);
        let ghost before = r.scalars();
        r.set(v, lo.add(challenge.mul(lo.add(hi))));
        proof {
            lemma_interpolate(lo, hi, challenge);
            assert forall|x: int| 0 <= x < v + 1 implies #[trigger] r.scalars()[x] == want[x] by {
                if x < v {
                    assert(r.scalars()[x] == before[x]);
                }
            }
        }
        v = v + 1;
    }
    assert(r.scalars() =~= want);
    *buffer = r;
}

/// The round polynomial of a product of two dense multilinears.
pub fn product_round_coeffs<P: PackedField>(
    a: &FieldBuffer<P>,
    b: &FieldBuffer<P>,
    claim: P::Scalar,
) -> (r: RoundCoeffs<P::Scalar>)
    requires
        a.wf(),
        b.wf(),
        a.log_len == b.log_len,
        a.log_len > 0,
    ensures
        r.0@ == product_round(a.scalars(), b.scalars(), claim),
{
    proof {
        lemma_pow2_unfold(a.log_len as nat);
    }
    let half = pow2_usize(a.log_len - 1);
    let ghost (sa, sb) = (a.scalars(), b.scalars());
    let ghost one = |v: int| sa[half + v].times(sb[half + v]);
    let ghost inf = |v: int| sa[v].plus(sa[half + v]).times(sb[v].plus(sb[half + v]));
    let mut y_1 = P::Scalar::wide_zero();
    let mut y_inf = P::Scalar::wide_zero();
    let mut v: usize = 0;
    while v < half
        invariant
            v <= half,
            half == pow2((a.log_len - 1) as nat),
            pow2(a.log_len as nat) == 2 * half,
            a.wf(),
            b.wf(),
            a.log_len == b.log_len,
            sa == a.scalars(),
            sb == b.scalars(),
            one == (|v: int| sa[half + v].times(sb[half + v])),
            inf == (|v: int| sa[v].plus(sa[half + v]).times(sb[v].plus(sb[half + v]))),
            P::Scalar::wide_value(y_1) == sum(v as int, one),
            P::Scalar::wide_value(y_inf) == sum(v as int, inf),
        decreases half - v,
    {
        let (a0, a1) = (a.get(v), a.get(half + v));
        let (b0, b1) = (b.get(v), b.get(half + v));
        y_1 = P::Scalar::wide_add(y_1, P::Scalar::wide_mul(a1, b1));
        y_inf = P::Scalar::wide_add(y_inf, P::Scalar::wide_mul(a0.add(a1), b0.add(b1)));
        v = v + 1;
    }
    RoundEvals { y_1: P::Scalar::reduce(y_1), y_inf: P::Scalar::reduce(y_inf) }.interpolate(claim)
}

/// The prover of a product of two dense multilinears.
pub struct BivariateProductProver<P: PackedField> {
    /// The first multilinear.
    pub first: FieldBuffer<P>,
    /// The second multilinear.
    pub second: FieldBuffer<P>,
    /// This round's sum claim.
    pub sum: P::Scalar,
    /// The round polynomial while it awaits its challenge.
    pub coeffs: Option<RoundCoeffs<P::Scalar>>,
}

/// A prover for the claim that two multilinears' products sum to `sum`.
pub fn bivariate_product_prover<P: PackedField>(
    first: FieldBuffer<P>,
    second: FieldBuffer<P>,
    sum: P::Scalar,
) -> (r: BivariateProductProver<P>)
    requires
        first.wf(),
        second.wf(),
        first.log_len == second.log_len,
    ensures
        r.ready(),
        !r.executed(),
        r.vars() == first.log_len,
        r.left() == first.scalars(),
        r.right() == second.scalars(),
        r.claim() == sum,
{
    BivariateProductProver { first, second, sum, coeffs: None }
}

impl<F: Field, P: PackedField<Scalar = F>> SumcheckProver<F> for BivariateProductProver<P> {
    open spec fn ready(&self) -> bool {
        &&& self.first.wf()
        &&& self.second.wf()
        &&& self.first.log_len == self.second.log_len
        &&& match self.coeffs {
            Some(c) => c.0@ == product_round(self.first.scalars(), self.second.scalars(), self.sum),
            None => true,
        }
    }

    open spec fn vars(&self) -> nat {
        self.first.log_len as nat
    }

    open spec fn left(&self) -> Seq<F> {
        self.first.scalars()
    }

    open spec fn right(&self) -> Seq<F> {
        self.second.scalars()
    }

    open spec fn claim(&self) -> F {
        self.sum
    }

    open spec fn executed(&self) -> bool {
        self.coeffs is Some
    }

    proof fn lens(&self) {
    }

    fn n_vars(&self) -> (r: usize) {
        self.first.log_len
    }

    fn execute(&mut self) -> (r: Vec<RoundCoeffs<F>>) {
        let coeffs = product_round_coeffs(&self.first, &self.second, self.sum);
        let copy = RoundCoeffs(copy_of(&coeffs.0));
        self.coeffs = Some(copy);
        let mut r: Vec<RoundCoeffs<F>> = Vec::new();
        r.push(coeffs);
        r
    }

    fn fold(&mut self, challenge: F) {
        if let Some(coeffs) = self.coeffs.take() {
            self.sum = coeffs.evaluate(challenge);
        }
        fold_highest_var_inplace(&mut self.first, challenge);
        fold_highest_var_inplace(&mut self.second, challenge);
    }

    fn finish(self) -> (r: Vec<F>) {
        proof {
            lemma2_to64();
        }
        let mut r: Vec<F> = Vec::new();
        r.push(self.first.get(0));
        r.push(self.second.get(0));
        assert(r@ =~= seq![self.left()[0], self.right()[0]]);
        r
    }
}

/// A copy of a list.
pub fn copy_of<T: Copy>(list: &Vec<T>) -> (r: Vec<T>)
    ensures
        r@ == list@,
{
    let mut r: Vec<T> = Vec::new();
    let mut i: usize = 0;
    while i < list.len()
        invariant
            i <= list.len(),
            r@ == list@.take(i as int),
        decreases list.len() - i,
    {
        r.push(list[i]);
        assert(list@.take(i + 1) =~= list@.take(i as int).push(list[i as int]));
        i = i + 1;
    }
    assert(list@.take(i as int) =~= list@);
    r
}

/// What one sumcheck leaves behind.
#[derive(Debug)]
pub struct ProveSingleOutput<F> {
    /// The multilinears' values at the bound point.
    pub multilinear_evals: Vec<F>,
    /// The challenges in the order drawn.
    pub challenges: Vec<F>,
}

/// Runs a prover against a channel until every variable is bound.
pub fn prove_single<F: FieldOps, S: SumcheckProver<F>, C: IPProverChannel<F>>(
    prover: S,
    channel: &mut C,
) -> (r: ProveSingleOutput<F>)
    requires
        prover.ready(),
        old(channel).can_draw(prover.vars()),
    ensures
        ({
            let (a, b, c) = (prover.left(), prover.right(), r.challenges@);
            let n = prover.vars() as int;
            &&& c.len() == n
            &&& final(channel).transcript() == old(channel).transcript() + round_events(
                product_messages(a, b, prover.claim(), c, n),
                c,
                n,
            )
            &&& final(channel).drawn() == old(channel).drawn() + c
            &&& final(channel).sent() == old(channel).sent() + product_messages(
                a,
                b,
                prover.claim(),
                c,
                n,
            )
            &&& r.multilinear_evals@ == seq![folded_high(a, c, n)[0], folded_high(b, c, n)[0]]
        }),
        forall|m: nat|
            m >= prover.vars() && #[trigger] old(channel).can_draw(m) ==> final(channel).can_draw(
                (m - prover.vars()) as nat,
            ),
{
    let mut prover = prover;
    let n = prover.n_vars();
    let ghost (a, b, claim) = (prover.left(), prover.right(), prover.claim());
    let ghost (sent, drawn) = (channel.sent(), channel.drawn());
    let ghost log = channel.transcript();
    let mut challenges: Vec<F> = Vec::new();
    let mut k: usize = 0;
    proof {
        assert(log + Seq::<ProverEvent<F>>::empty() =~= log);
        assert(sent + Seq::<F>::empty() =~= sent);
        assert(drawn + challenges@ =~= drawn);
    }
    while k < n
        invariant
            k <= n,
            challenges.len() == k,
            prover.ready(),
            prover.vars() == n - k,
            prover.left() == folded_high(a, challenges@, k as int),
            prover.right() == folded_high(b, challenges@, k as int),
            prover.claim() == product_claim(a, b, claim, challenges@, k as int),
            channel.drawn() == drawn + challenges@,
            channel.sent() == sent + product_messages(a, b, claim, challenges@, k as int),
            channel.transcript() == log + round_events(
                product_messages(a, b, claim, challenges@, k as int),
                challenges@,
                k as int,
            ),
            old(channel).can_draw(n as nat),
            forall|m: nat|
                m >= k && #[trigger] old(channel).can_draw(m) ==> channel.can_draw((m - k) as nat),
        decreases n - k,
    {
        let coeffs = prover.execute();
        let message = coeffs[0].truncate();
        let ghost before = challenges@;
        let ghost round = coeffs[0].0@;
        let ghost (l, r) = (prover.left(), prover.right());
        let ghost mid = *channel;
        channel.send_many(message.as_slice());
        proof {
            assert(mid.can_draw((n - k) as nat));
            channel.can_draw_fewer(1, (n - k) as nat);
        }
        let ghost mid2 = *channel;
        let challenge = channel.sample();
        prover.fold(challenge);
        challenges.push(challenge);
        proof {
            lemma_product_prefix(a, b, claim, before, challenges@, k as int);
            assert(folded_high(a, challenges@, k + 1) == fold_high(l, challenge));
            assert(folded_high(b, challenges@, k + 1) == fold_high(r, challenge));
            assert(product_claim(a, b, claim, challenges@, k + 1) == poly_eval(round, challenge));
            assert(channel.drawn() =~= drawn + challenges@);
            let messages = product_messages(a, b, claim, challenges@, k as int);
            assert(message@ == round.drop_last());
            assert((sent + messages) + message@ =~= sent + (messages + message@));
            lemma_messages_len(a, b, claim, challenges@, k as int);
            lemma_rounds_push(messages, message@, before, challenge);
            let events = round_events(messages, before, k as int);
            assert(log + events + sends(message@) + draws(seq![challenge]) =~= log + (events
                + sends(message@) + draws(seq![challenge])));
            assert forall|m: nat| m >= k + 1 && #[trigger] old(channel).can_draw(m) implies
                channel.can_draw((m - (k + 1)) as nat) by {
                assert(mid.can_draw((m - k) as nat));
                assert(mid2.can_draw((m - k) as nat));
                assert((m - k - 1) as nat == (m - (k + 1)) as nat);
            }
        }
        k = k + 1;
    }
    let multilinear_evals = prover.finish();
    ProveSingleOutput { multilinear_evals, challenges }
}

} // verus!
