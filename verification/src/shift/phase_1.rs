//! The first phase of the shift reduction: the rounds over both shift slots and the bit position.

use vstd::arithmetic::power2::{lemma2_to64, pow2};
use crate::algebra::field::{Field, FieldOps};
use crate::algebra::group::AdditiveGroup;
use crate::algebra::sum::sum;
use crate::constraint_system::LOG_SHIFT_COUNT;
use crate::field::packed::PackedField;
use crate::math::field_buffer::FieldBuffer;
use crate::math::index::lemma_pow2_split;
use crate::shift::operator::{SHIFT_OPERATOR_LOG_LEN, operator_table, shift_operator_table};
use crate::shift::outer::{OuterShiftStage, dense_h, lemma_pushed_fold, lemma_pushed_last, pushed};
use crate::shift::sparse::{SparseShiftRows, shift_round_coeffs};
use crate::sumcheck::channel::{
    IPProverChannel, ProverEvent, draws, lemma_rounds_join, lemma_rounds_push, round_events, sends,
};
use crate::sumcheck::product::{
    folded_high, lemma_folded_len, lemma_folded_prefix, lemma_product_prefix, lemma_product_split,
    product_claim, product_messages, product_round,
};
use crate::sumcheck::prover::{
    BivariateProductProver, SumcheckProver, bivariate_product_prover, copy_of,
    fold_highest_var_inplace, prove_single,
};
use crate::sumcheck::replay::lemma_messages_len;
use crate::sumcheck::round::RoundCoeffs;
use vstd::prelude::*;

verus! {

/// The number of row-index variables: two shift slots.
pub const LOG_SHIFT_ROWS: usize = 18;

/// The number of variables the rounds over the shifts and the bit position span.
pub const PHASE_1_LOG_LEN: usize = 24;

/// The challenge point of one shift slot.
#[derive(Debug)]
pub struct ShiftChallenge<F> {
    /// The point over the six amount variables.
    pub amount: Vec<F>,
    /// The point over the three variant variables.
    pub variant: Vec<F>,
}

impl<F> ShiftChallenge<F> {
    /// One coordinate per variable.
    pub open spec fn wf(&self) -> bool {
        &&& self.amount.len() == 6
        &&& self.variant.len() == 3
    }

    /// The two axes' points together.
    pub fn new(amount: Vec<F>, variant: Vec<F>) -> (r: Self)
        ensures
            r.amount@ == amount@,
            r.variant@ == variant@,
    {
        ShiftChallenge { amount, variant }
    }
}

/// What the first phase leaves the phases after it.
#[derive(Debug)]
pub struct Phase1Output<F> {
    /// The bit position within a word.
    pub r_j: Vec<F>,
    /// The inner shift's amount and variant.
    pub inner: ShiftChallenge<F>,
    /// The outer shift's amount and variant.
    pub outer: ShiftChallenge<F>,
    /// The bit weights carried through the outer shift.
    pub psi: Vec<F>,
    /// The product of the two multilinears' values at the bound point.
    pub gamma: F,
    /// The first multilinear's value at the bound point.
    pub g_eval: F,
}

/// Which half of the protocol a prover is in.
pub enum Stage<P: PackedField> {
    /// Binding the row index, over the stored rows.
    Rows {
        g: SparseShiftRows<P>,
        h: FieldBuffer<P>,
        /// This round's sum claim.
        claim: P::Scalar,
        /// The round polynomial while it awaits its challenge.
        coeffs: Option<RoundCoeffs<P::Scalar>>,
    },
    /// Binding the bit position, both multilinears one dense row.
    Bits(BivariateProductProver<P>),
}

/// The prover of the rounds after the outer slot is bound.
///
/// The row-index rounds read the stored rows alone; the bit rounds run on two dense rows.
pub struct Phase1SumcheckProver<P: PackedField> {
    /// The stage the protocol is in, always there between calls.
    pub stage: Option<Stage<P>>,
}

impl<F: Field, P: PackedField<Scalar = F>> Phase1SumcheckProver<P> {
    /// A prover for the claim that the product of `g` and `h` sums to `sum`.
    pub fn new(g: SparseShiftRows<P>, h: FieldBuffer<P>, sum: F) -> (r: Self)
        requires
            g.wf(),
            h.wf(),
            h.log_len == SHIFT_OPERATOR_LOG_LEN,
            g.log_rows == LOG_SHIFT_COUNT,
        ensures
            r.ready(),
            !r.executed(),
            r.vars() == 15,
            r.left() == g.dense(),
            r.right() == h.scalars(),
            r.claim() == sum,
    {
        Phase1SumcheckProver { stage: Some(Stage::Rows { g, h, claim: sum, coeffs: None }) }
    }
}

impl<F: Field, P: PackedField<Scalar = F>> SumcheckProver<F> for Phase1SumcheckProver<P> {
    open spec fn ready(&self) -> bool {
        match self.stage {
            Some(Stage::Rows { g, h, claim, coeffs }) => {
                &&& g.wf()
                &&& h.wf()
                &&& 0 < g.log_rows <= 9
                &&& h.log_len == g.log_rows + 6
                &&& match coeffs {
                    Some(c) => c.0@ == product_round(g.dense(), h.scalars(), claim),
                    None => true,
                }
            },
            Some(Stage::Bits(prover)) => prover.ready(),
            None => false,
        }
    }

    open spec fn vars(&self) -> nat {
        match self.stage {
            Some(Stage::Rows { g, h, claim, coeffs }) => h.log_len as nat,
            Some(Stage::Bits(prover)) => prover.vars(),
            None => 0,
        }
    }

    open spec fn left(&self) -> Seq<F> {
        match self.stage {
            Some(Stage::Rows { g, h, claim, coeffs }) => g.dense(),
            Some(Stage::Bits(prover)) => prover.left(),
            None => Seq::empty(),
        }
    }

    open spec fn right(&self) -> Seq<F> {
        match self.stage {
            Some(Stage::Rows { g, h, claim, coeffs }) => h.scalars(),
            Some(Stage::Bits(prover)) => prover.right(),
            None => Seq::empty(),
        }
    }

    open spec fn claim(&self) -> F {
        match self.stage {
            Some(Stage::Rows { g, h, claim, coeffs }) => claim,
            Some(Stage::Bits(prover)) => prover.claim(),
            None => F::nil(),
        }
    }

    open spec fn executed(&self) -> bool {
        match self.stage {
            Some(Stage::Rows { g, h, claim, coeffs }) => coeffs is Some,
            Some(Stage::Bits(prover)) => prover.executed(),
            None => false,
        }
    }

    proof fn lens(&self) {
        match self.stage {
            Some(Stage::Rows { g, h, claim, coeffs }) => {
                lemma2_to64();
                lemma_pow2_split(6, h.log_len as nat);
            },
            Some(Stage::Bits(prover)) => {
                prover.lens();
            },
            None => {},
        }
    }

    fn n_vars(&self) -> (r: usize) {
        match &self.stage {
            Some(Stage::Rows { h, .. }) => h.log_len,
            Some(Stage::Bits(prover)) => prover.n_vars(),
            None => 0,
        }
    }

    fn execute(&mut self) -> (r: Vec<RoundCoeffs<F>>) {
        let mut r: Vec<RoundCoeffs<F>> = Vec::new();
        match self.stage.take() {
            Some(Stage::Rows { g, h, claim, coeffs }) => {
                let round = shift_round_coeffs(&g, &h, claim);
                let kept = RoundCoeffs(copy_of(&round.0));
                self.stage = Some(Stage::Rows { g, h, claim, coeffs: Some(kept) });
                r.push(round);
            },
            Some(Stage::Bits(prover)) => {
                let mut prover = prover;
                r = prover.execute();
                self.stage = Some(Stage::Bits(prover));
            },
            None => {},
        }
        r
    }

    fn fold(&mut self, challenge: F) {
        match self.stage.take() {
            Some(Stage::Rows { g, h, claim, coeffs }) => {
                let mut g = g;
                let mut h = h;
                let next = match coeffs {
                    Some(c) => c.evaluate(challenge),
                    None => claim,
                };
                g.fold(challenge);
                fold_highest_var_inplace(&mut h, challenge);
                if g.log_rows() > 0 {
                    self.stage = Some(Stage::Rows { g, h, claim: next, coeffs: None });
                } else {
                    // What is left of each multilinear is one dense row over the bit position.
                    let bits = g.into_bit_multilinear();
                    self.stage = Some(Stage::Bits(bivariate_product_prover(bits, h, next)));
                }
            },
            Some(Stage::Bits(prover)) => {
                let mut prover = prover;
                prover.fold(challenge);
                self.stage = Some(Stage::Bits(prover));
            },
            None => {},
        }
    }

    fn finish(self) -> (r: Vec<F>) {
        match self.stage {
            Some(Stage::Bits(prover)) => prover.finish(),
            _ => Vec::new(),
        }
    }
}

/// The list in the opposite order.
pub fn reversed_list<T: Copy>(list: &[T]) -> (r: Vec<T>)
    ensures
        r@ == list@.reverse(),
{
    let mut r: Vec<T> = Vec::new();
    let mut i: usize = list.len();
    while i > 0
        invariant
            i <= list.len(),
            r.len() == list.len() - i,
            forall|k: int| 0 <= k < r.len() ==> #[trigger] r[k] == list[list.len() - 1 - k],
        decreases i,
    {
        i = i - 1;
        r.push(list[i]);
    }
    assert(r@ =~= list@.reverse());
    r
}

/// What the first phase's rounds leave behind, given the challenges in the order drawn.
///
/// The reversed challenges are the bound point, lowest variable first.
pub open spec fn phase_1_result<F: FieldOps>(
    r: Phase1Output<F>,
    g: Seq<F>,
    weights: Seq<F>,
    challenges: Seq<F>,
) -> bool {
    let point = challenges.reverse();
    let h = dense_h(weights);
    &&& r.r_j@ == point.subrange(0, 6)
    &&& r.inner.amount@ == point.subrange(6, 12)
    &&& r.inner.variant@ == point.subrange(12, 15)
    &&& r.outer.amount@ == point.subrange(15, 21)
    &&& r.outer.variant@ == point.subrange(21, 24)
    &&& r.psi@ == folded_high(operator_table(weights), challenges, 9)
    &&& r.g_eval == folded_high(g, challenges, 24)[0]
    &&& r.gamma == r.g_eval.times(folded_high(h, challenges, 24)[0])
}

/// Folding the table over one slot folds the table over both.
pub proof fn lemma_pushed_folded<F: FieldOps>(table: Seq<F>, c: Seq<F>, k: int)
    requires
        table.len() == 0x8000,
        0 <= k <= 9,
    ensures
        folded_high(pushed(table), c, k) == pushed(folded_high(table, c, k)),
        folded_high(table, c, k).len() == pow2((15 - k) as nat),
    decreases k,
{
    lemma2_to64();
    lemma_folded_len(table, c, k, 15);
    if k > 0 {
        lemma_pushed_folded(table, c, k - 1);
        let n = (16 - k) as nat;
        lemma_pow2_split(7, n);
        lemma_pushed_fold(folded_high(table, c, k - 1), pow2((n - 7) as nat) as int, c[k - 1]);
    }
}

/// Runs the first phase's rounds: the outer slot, the inner slot, then the bit position.
///
/// The messages are those of a prover over the dense `g` and the dense weights table, which is
/// never formed.
pub fn run_phase_1_sumcheck<F: Field, P: PackedField<Scalar = F>, C: IPProverChannel<F>>(
    g: SparseShiftRows<P>,
    oblong_weights: &[F],
    sum: F,
    channel: &mut C,
) -> (r: Phase1Output<F>)
    requires
        g.wf(),
        g.log_rows == LOG_SHIFT_ROWS,
        oblong_weights.len() == 64,
        old(channel).can_draw(24),
    ensures
        final(channel).drawn().len() == old(channel).drawn().len() + 24,
        final(channel).drawn().take(old(channel).drawn().len() as int) == old(channel).drawn(),
        ({
            let c = final(channel).drawn().skip(old(channel).drawn().len() as int);
            &&& final(channel).transcript() == old(channel).transcript() + round_events(
                product_messages(g.dense(), dense_h(oblong_weights@), sum, c, 24),
                c,
                24,
            )
            &&& final(channel).sent() == old(channel).sent() + product_messages(
                g.dense(),
                dense_h(oblong_weights@),
                sum,
                c,
                24,
            )
            &&& phase_1_result(r, g.dense(), oblong_weights@, c)
        }),
        r.psi.len() == 64,
        r.r_j.len() == 6,
        r.inner.wf(),
        r.outer.wf(),
        forall|m: nat|
            m >= 24 && #[trigger] old(channel).can_draw(m) ==> final(channel).can_draw(
                (m - 24) as nat,
            ),
{
    let ghost (sent, drawn) = (channel.sent(), channel.drawn());
    let ghost log = channel.transcript();
    let ghost a = g.dense();
    let ghost table = operator_table(oblong_weights@);
    let ghost b = pushed(table);
    let mut g = g;
    let mut outer = OuterShiftStage::<P>::new(oblong_weights);
    let mut claim = sum;
    let mut outer_point: Vec<F> = Vec::new();
    let mut k: usize = 0;
    proof {
        assert(sent + Seq::<F>::empty() =~= sent);
        assert(drawn + outer_point@ =~= drawn);
        assert(log + Seq::<ProverEvent<F>>::empty() =~= log);
    }
    while k < 9
        invariant
            k <= 9,
            outer_point.len() == k,
            g.wf(),
            g.log_rows == 18 - k,
            outer.wf(),
            outer.table.log_len == 15 - k,
            table.len() == 0x8000,
            b == pushed(table),
            g.dense() == folded_high(a, outer_point@, k as int),
            outer.table.scalars() == folded_high(table, outer_point@, k as int),
            claim == product_claim(a, b, sum, outer_point@, k as int),
            channel.drawn() == drawn + outer_point@,
            channel.sent() == sent + product_messages(a, b, sum, outer_point@, k as int),
            channel.transcript() == log + round_events(
                product_messages(a, b, sum, outer_point@, k as int),
                outer_point@,
                k as int,
            ),
            old(channel).can_draw(24),
            forall|m: nat|
                m >= k && #[trigger] old(channel).can_draw(m) ==> channel.can_draw((m - k) as nat),
        decreases 9 - k,
    {
        let ghost before = outer_point@;
        proof {
            lemma_pushed_folded(table, before, k as int);
        }
        let round_coeffs = outer.round_coeffs(&g, claim);
        let message = round_coeffs.truncate();
        let ghost mid = *channel;
        channel.send_many(message.as_slice());
        proof {
            assert(mid.can_draw((24 - k) as nat));
            channel.can_draw_fewer(1, (24 - k) as nat);
        }
        let ghost mid2 = *channel;
        let challenge = channel.sample();
        claim = round_coeffs.evaluate(challenge);
        outer.fold(challenge);
        g.fold(challenge);
        outer_point.push(challenge);
        proof {
            lemma_product_prefix(a, b, sum, before, outer_point@, k as int);
            lemma_folded_prefix(table, before, outer_point@, k as int);
            assert(channel.drawn() =~= drawn + outer_point@);
            let messages = product_messages(a, b, sum, outer_point@, k as int);
            assert((sent + messages) + message@ =~= sent + (messages + message@));
            lemma_messages_len(a, b, sum, outer_point@, k as int);
            lemma_rounds_push(messages, message@, before, challenge);
            let events = round_events(messages, before, k as int);
            assert(log + events + sends(message@) + draws(seq![challenge]) =~= log + (events
                + sends(message@) + draws(seq![challenge])));
            assert forall|m: nat| m >= k + 1 && #[trigger] old(channel).can_draw(m) implies
                channel.can_draw((m - (k + 1)) as nat) by {
                assert(mid.can_draw((m - k) as nat));
                assert(mid2.can_draw((m - k) as nat));
                assert((m - k - 1) as nat == (m - (k + 1)) as nat);
            }
        }
        k = k + 1;
    }
    let psi = outer.psi();
    let h = shift_operator_table::<F, P>(psi.as_slice());
    let ghost first = outer_point@;
    let ghost (x, y, z) = (g.dense(), h.scalars(), claim);
    proof {
        lemma_pushed_folded(table, first, 9);
        lemma_pushed_last(psi@);
        assert(channel.can_draw(15));
    }
    let ghost middle = *channel;
    let output = prove_single(Phase1SumcheckProver::<P>::new(g, h, claim), channel);
    let ghost rest = output.challenges@;
    let ghost c = first + rest;
    let mut r_j = reversed_list(output.challenges.as_slice());
    let r_v_inner = r_j.split_off(12);
    let r_s_inner = r_j.split_off(6);
    let mut r_s_outer = reversed_list(outer_point.as_slice());
    let r_v_outer = r_s_outer.split_off(6);
    let g_eval = output.multilinear_evals[0];
    let h_eval = output.multilinear_evals[1];
    let r = Phase1Output {
        r_j,
        inner: ShiftChallenge::new(r_s_inner, r_v_inner),
        outer: ShiftChallenge::new(r_s_outer, r_v_outer),
        psi,
        gamma: g_eval.mul(h_eval),
        g_eval,
    };
    proof {
        assert(channel.drawn() =~= drawn + c);
        assert(channel.drawn().take(drawn.len() as int) =~= drawn);
        assert(channel.drawn().skip(drawn.len() as int) =~= c);
        lemma_product_prefix(a, b, sum, first, c, 9);
        lemma_folded_prefix(table, first, c, 9);
        lemma_product_split(a, b, sum, c, 9, 15);
        assert(c.skip(9) =~= rest);
        let m1 = product_messages(a, b, sum, c, 9);
        let m2 = product_messages(x, y, z, rest, 15);
        assert((sent + m1) + m2 =~= sent + (m1 + m2));
        lemma_messages_len(a, b, sum, c, 9);
        lemma_messages_len(x, y, z, rest, 15);
        lemma_rounds_join(m1, m2, first, rest, 15);
        assert(log + round_events(m1, first, 9) + round_events(m2, rest, 15) =~= log + (
        round_events(m1, first, 9) + round_events(m2, rest, 15)));
        let point = c.reverse();
        assert(r.r_j@ =~= point.subrange(0, 6));
        assert(r.inner.amount@ =~= point.subrange(6, 12));
        assert(r.inner.variant@ =~= point.subrange(12, 15));
        assert(r.outer.amount@ =~= point.subrange(15, 21));
        assert(r.outer.variant@ =~= point.subrange(21, 24));
        assert forall|m: nat| m >= 24 && #[trigger] old(channel).can_draw(m) implies
            channel.can_draw((m - 24) as nat) by {
            assert(middle.can_draw((m - 9) as nat));
            assert(((m - 9) as nat - 15) as nat == (m - 24) as nat);
        }
    }
    r
}

} // verus!
