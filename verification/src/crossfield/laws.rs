//! What one side of the cross-field switch sends, the other side gets.

use vstd::arithmetic::power2::pow2;
use crate::algebra::field::FieldOps;
use crate::algebra::sum::{lemma_sum_ext, sum};
use crate::crossfield::codec::{
    F162, LOG_PACKING, PACKING, challenges_determine_elements, challenges_read,
    decode_inverts_encode, limb_scalars, scalar_limbs,
};
use crate::crossfield::partial::{bits_eval, partial_at, partials_recombine};
use crate::crossfield::receiving::{CrossFieldVerifier, Error};
use crate::crossfield::sending::{CrossFieldProver, partials};
use crate::field::ghash::BinaryField128bGhash;
use crate::math::eq::eq_ind;
use crate::sumcheck::channel::{ChannelError, IPProverChannel, IPVerifierChannel, as_foreseen};
use vstd::prelude::*;

verus! {

/// A run of the sending side, step by step: the channel before and after each step, the state after
/// each step that leaves one, and the rounds' messages.
pub struct SendingRun<C> {
    pub channels: Seq<C>,
    pub provers: Seq<CrossFieldProver>,
    pub messages: Seq<[F162; 2]>,
}

/// A run of the receiving side, step by step: the channel before and after each step, the state
/// after each step that leaves one, and what the steps returned.
pub struct ReceivingRun<D> {
    pub channels: Seq<D>,
    pub verifiers: Seq<CrossFieldVerifier>,
    pub started: Result<CrossFieldVerifier, Error>,
    pub outcomes: Seq<Result<([F162; 2], F162), Error>>,
    pub trace: Result<Vec<BinaryField128bGhash>, ChannelError>,
}

impl<C: IPProverChannel<BinaryField128bGhash>> SendingRun<C> {
    /// A step leads from one round's state to the next.
    pub open spec fn leads(&self, k: int) -> bool {
        self.provers[k].passes(
            &self.provers[k + 1],
            &self.channels[k + 1],
            &self.channels[k + 2],
            self.messages[k],
            self.provers[k + 1].r_pp[k],
        )
    }

    /// The run starts on a witness and a point, goes through every round and finishes.
    pub open spec fn runs(
        &self,
        witness: Seq<BinaryField128bGhash>,
        eval_point: Seq<BinaryField128bGhash>,
        rounds: int,
    ) -> bool {
        &&& self.channels.len() == rounds + 3
        &&& self.provers.len() == rounds + 1
        &&& self.messages.len() == rounds
        &&& self.provers[0].starts(&self.channels[0], &self.channels[1], witness, eval_point)
        &&& forall|k: int| 0 <= k < rounds ==> #[trigger] self.leads(k)
        &&& self.provers[rounds].finishes(&self.channels[rounds + 1], &self.channels[rounds + 2])
    }

    /// Everything the run sent.
    pub open spec fn sent(&self) -> Seq<BinaryField128bGhash> {
        self.channels.last().sent().skip(self.channels[0].sent().len() as int)
    }

    /// Everything the run drew.
    pub open spec fn drawn(&self) -> Seq<BinaryField128bGhash> {
        self.channels.last().drawn().skip(self.channels[0].drawn().len() as int)
    }
}

impl<D: IPVerifierChannel<BinaryField128bGhash>> ReceivingRun<D> {
    /// A step leads from one round's state to the next.
    pub open spec fn leads(&self, k: int) -> bool {
        self.verifiers[k].passes(
            &self.verifiers[k + 1],
            &self.channels[k + 1],
            &self.channels[k + 2],
            self.outcomes[k],
        )
    }

    /// What a caller is told: the first step that failed, then what the arithmetic of the larger
    /// field found, of the partial evaluations before the rounds and of the witness after them.
    pub open spec fn answer(
        &self,
        recombined: Result<(), &'static str>,
        matches: bool,
    ) -> Result<(), Error> {
        match self.started {
            Err(e) => Err(e),
            Ok(_) => match recombined {
                Err(why) => Err(Error::Switch(why)),
                Ok(()) => match first_failure(self.outcomes) {
                    Some(e) => Err(e),
                    None => if matches {
                        Ok(())
                    } else {
                        Err(Error::Switch("sumcheck final check failed"))
                    },
                },
            },
        }
    }

    /// The run starts on a claim and a point, goes through every round and takes the witness.
    pub open spec fn runs(
        &self,
        claim: BinaryField128bGhash,
        eval_point: Seq<BinaryField128bGhash>,
        rounds: int,
    ) -> bool {
        &&& self.channels.len() == rounds + 3
        &&& self.verifiers.len() == rounds + 1
        &&& self.outcomes.len() == rounds
        &&& CrossFieldVerifier::starts(
            &self.channels[0],
            &self.channels[1],
            claim,
            eval_point,
            self.started,
        )
        &&& self.started matches Ok(first) ==> self.verifiers[0] == first
        &&& forall|k: int| 0 <= k < rounds ==> #[trigger] self.leads(k)
        &&& self.verifiers[rounds].finishes(
            &self.channels[rounds + 1],
            &self.channels[rounds + 2],
            self.trace,
        )
    }
}

/// Why the first round that failed did.
pub open spec fn first_failure(outcomes: Seq<Result<([F162; 2], F162), Error>>) -> Option<Error>
    decreases outcomes.len(),
{
    if outcomes.len() == 0 {
        None
    } else {
        match first_failure(outcomes.drop_last()) {
            Some(e) => Some(e),
            None => match outcomes.last() {
                Ok(_) => None,
                Err(e) => Some(e),
            },
        }
    }
}

proof fn lemma_no_failure(outcomes: Seq<Result<([F162; 2], F162), Error>>)
    requires
        forall|i: int| 0 <= i < outcomes.len() ==> (#[trigger] outcomes[i]) is Ok,
    ensures
        first_failure(outcomes) is None,
    decreases outcomes.len(),
{
    if outcomes.len() > 0 {
        let init = outcomes.drop_last();
        assert forall|i: int| 0 <= i < init.len() implies (#[trigger] init[i]) is Ok by {
            assert(outcomes[i] is Ok);
        }
        lemma_no_failure(init);
        assert(outcomes[outcomes.len() - 1] is Ok);
    }
}

/// What was sent and drawn by a step is the start of what the whole run sent and drew.
proof fn lemma_steps_are_prefixes<C: IPProverChannel<BinaryField128bGhash>>(
    run: &SendingRun<C>,
    witness: Seq<BinaryField128bGhash>,
    eval_point: Seq<BinaryField128bGhash>,
    rounds: int,
    j: int,
)
    requires
        0 <= rounds,
        run.runs(witness, eval_point, rounds),
        0 <= j <= rounds + 2,
    ensures
        run.channels[j].sent().len() <= run.channels[rounds + 2].sent().len(),
        run.channels[rounds + 2].sent().take(run.channels[j].sent().len() as int)
            == run.channels[j].sent(),
        run.channels[j].drawn().len() <= run.channels[rounds + 2].drawn().len(),
        run.channels[rounds + 2].drawn().take(run.channels[j].drawn().len() as int)
            == run.channels[j].drawn(),
    decreases rounds + 2 - j,
{
    let last = run.channels[rounds + 2];
    let here = run.channels[j];
    if j < rounds + 2 {
        lemma_steps_are_prefixes(run, witness, eval_point, rounds, j + 1);
        let next = run.channels[j + 1];
        if 1 <= j <= rounds {
            assert(run.leads(j - 1));
        }
        assert(next.sent().take(here.sent().len() as int) =~= here.sent());
        assert(next.drawn().take(here.drawn().len() as int) =~= here.drawn());
        assert(last.sent().take(here.sent().len() as int) =~= next.sent().take(
            here.sent().len() as int,
        ));
        assert(last.drawn().take(here.drawn().len() as int) =~= next.drawn().take(
            here.drawn().len() as int,
        ));
    } else {
        assert(last.sent().take(last.sent().len() as int) =~= last.sent());
        assert(last.drawn().take(last.drawn().len() as int) =~= last.drawn());
    }
}

/// Both sides stand at the same place between two rounds.
pub open spec fn in_step<
    C: IPProverChannel<BinaryField128bGhash>,
    D: IPVerifierChannel<BinaryField128bGhash>,
>(sending: &SendingRun<C>, receiving: &ReceivingRun<D>, k: int) -> bool {
    let (first, here) = (sending.channels[0], sending.channels[k + 1]);
    let there = receiving.channels[k + 1];
    let (p, v) = (sending.provers[k], receiving.verifiers[k]);
    &&& there.incoming() == sending.sent().skip(here.sent().len() - first.sent().len())
    &&& there.challenged() == here.drawn().skip(first.drawn().len() as int)
    &&& there.foreseen() == sending.drawn()
    &&& v.r_hi@ == p.r_hi@
    &&& v.r_prime@ == p.r_prime@
    &&& v.r_pp@ == p.r_pp@
    &&& p.r_pp.len() == k
}

/// Elements with the same limbs are the same.
proof fn lemma_same_limbs(a: F162, b: F162)
    requires
        a.0@ == b.0@,
    ensures
        a == b,
{
    assert(a.0 =~= b.0);
}

/// Both sides read the same elements off the same challenges.
proof fn lemma_same_elements(raw: Seq<BinaryField128bGhash>, a: Seq<F162>, b: Seq<F162>)
    requires
        challenges_read(raw, a),
        challenges_read(raw, b),
    ensures
        a == b,
{
    challenges_determine_elements(raw, a, b);
    assert forall|i: int| 0 <= i < a.len() implies a[i] == b[i] by {
        lemma_same_limbs(a[i], b[i]);
    }
    assert(a =~= b);
}

/// Challenges that come as foreseen are the ones that were drawn.
proof fn lemma_same_challenges<D: IPVerifierChannel<BinaryField128bGhash>>(
    before: &D,
    after: &D,
    drawn: Seq<BinaryField128bGhash>,
    n: int,
)
    requires
        0 <= n,
        as_foreseen(before, after),
        before.foreseen() == drawn,
        before.challenged().len() + n <= drawn.len(),
        before.challenged() == drawn.take(before.challenged().len() as int),
        after.challenged().len() == before.challenged().len() + n,
        after.challenged().take(before.challenged().len() as int) == before.challenged(),
    ensures
        after.challenged() == drawn.take(after.challenged().len() as int),
{
    let m = before.challenged().len() as int;
    assert forall|k: int| 0 <= k < after.challenged().len() implies after.challenged()[k]
        == drawn[k] by {
        if k < m {
            assert(after.challenged().take(m)[k] == before.challenged()[k]);
            assert(drawn.take(m)[k] == drawn[k]);
        }
    }
    assert(after.challenged() =~= drawn.take(after.challenged().len() as int));
}

/// The start brings both sides into step.
proof fn lemma_starts_in_step<
    C: IPProverChannel<BinaryField128bGhash>,
    D: IPVerifierChannel<BinaryField128bGhash>,
>(
    sending: &SendingRun<C>,
    receiving: &ReceivingRun<D>,
    witness: Seq<BinaryField128bGhash>,
    claim: BinaryField128bGhash,
    eval_point: Seq<BinaryField128bGhash>,
    rounds: int,
)
    requires
        0 <= rounds,
        sending.runs(witness, eval_point, rounds),
        receiving.runs(claim, eval_point, rounds),
        receiving.channels[0].incoming() == sending.sent(),
        receiving.channels[0].challenged().len() == 0,
        receiving.channels[0].foreseen() == sending.drawn(),
    ensures
        receiving.started is Ok,
        receiving.verifiers[0].v@ == partials(witness, eval_point),
        in_step(sending, receiving, 0),
{
    let (c0, c1, last) = (
        sending.channels[0],
        sending.channels[1],
        sending.channels[rounds + 2],
    );
    let (d0, d1) = (receiving.channels[0], receiving.channels[1]);
    let (s0, r0) = (c0.sent().len() as int, c0.drawn().len() as int);
    assert(sending.channels.last() == last);
    lemma_steps_are_prefixes(sending, witness, eval_point, rounds, 0);
    lemma_steps_are_prefixes(sending, witness, eval_point, rounds, 1);
    let first = partials(witness, eval_point);
    assert(last.sent().take(c1.sent().len() as int) == c1.sent());
    assert forall|i: int| 0 <= i < PACKING implies sending.sent()[i] == first[i] by {
        assert(last.sent().take(c1.sent().len() as int)[s0 + i] == c1.sent()[s0 + i]);
    }
    assert(sending.sent().take(PACKING as int) =~= first);
    assert(d0.challenged() =~= sending.drawn().take(0));
    lemma_same_challenges(&d0, &d1, sending.drawn(), 14);
    assert(d1.challenged() =~= c1.drawn().skip(r0)) by {
        assert forall|k: int| 0 <= k < 14 implies sending.drawn()[k] == c1.drawn()[r0 + k] by {
            assert(last.drawn().take(c1.drawn().len() as int)[r0 + k] == c1.drawn()[r0 + k]);
        }
    }
    assert(d1.challenged().skip(0) =~= d1.challenged());
    lemma_same_elements(
        c1.drawn().skip(r0),
        sending.provers[0].r_prime@,
        receiving.verifiers[0].r_prime@,
    );
    assert(receiving.verifiers[0].r_pp@ =~= sending.provers[0].r_pp@);
}

/// A round keeps both sides in step, and its message and challenge arrive.
proof fn lemma_round_stays_in_step<
    C: IPProverChannel<BinaryField128bGhash>,
    D: IPVerifierChannel<BinaryField128bGhash>,
>(
    sending: &SendingRun<C>,
    receiving: &ReceivingRun<D>,
    witness: Seq<BinaryField128bGhash>,
    claim: BinaryField128bGhash,
    eval_point: Seq<BinaryField128bGhash>,
    rounds: int,
    k: int,
)
    requires
        0 <= k < rounds,
        sending.runs(witness, eval_point, rounds),
        receiving.runs(claim, eval_point, rounds),
        in_step(sending, receiving, k),
    ensures
        in_step(sending, receiving, k + 1),
        receiving.outcomes[k] == Ok::<([F162; 2], F162), Error>(
            (sending.messages[k], sending.provers[k + 1].r_pp[k]),
        ),
{
    let (c0, here, next, last) = (
        sending.channels[0],
        sending.channels[k + 1],
        sending.channels[k + 2],
        sending.channels[rounds + 2],
    );
    let (there, after) = (receiving.channels[k + 1], receiving.channels[k + 2]);
    let (s0, r0) = (c0.sent().len() as int, c0.drawn().len() as int);
    let (s, d) = (here.sent().len() as int, here.drawn().len() as int);
    let message = sending.messages[k];
    let r = sending.provers[k + 1].r_pp[k];
    assert(sending.channels.last() == last);
    assert(sending.leads(k));
    assert(receiving.leads(k));
    lemma_steps_are_prefixes(sending, witness, eval_point, rounds, 0);
    lemma_steps_are_prefixes(sending, witness, eval_point, rounds, k + 1);
    lemma_steps_are_prefixes(sending, witness, eval_point, rounds, k + 2);
    lemma_step_grows(sending, witness, eval_point, rounds, k + 1);
    let scalars = limb_scalars(message[0]) + limb_scalars(message[1]);
    assert forall|i: int| 0 <= i < 4 implies there.incoming()[i] == scalars[i] by {
        assert(last.sent().take(next.sent().len() as int)[s + i] == next.sent()[s + i]);
    }
    let raw = there.incoming();
    assert(raw.len() >= 4);
    let m = receiving.outcomes[k]->Ok_0;
    assert(raw[0] == scalars[0] && raw[1] == scalars[1]);
    assert(raw[2] == scalars[2] && raw[3] == scalars[3]);
    assert(scalars[0] == limb_scalars(message[0])[0]);
    assert(scalars[1] == limb_scalars(message[0])[1]);
    assert(scalars[2] == limb_scalars(message[1])[0]);
    assert(scalars[3] == limb_scalars(message[1])[1]);
    assert(m.0[0].0@ == scalar_limbs(raw[0].0, raw[1].0));
    assert(m.0[1].0@ == scalar_limbs(raw[2].0, raw[3].0));
    decode_inverts_encode(message[0]);
    decode_inverts_encode(message[1]);
    lemma_same_limbs(m.0[0], message[0]);
    lemma_same_limbs(m.0[1], message[1]);
    assert(m.0 =~= message);
    assert(after.incoming() =~= sending.sent().skip(next.sent().len() - s0));
    assert(there.challenged() =~= sending.drawn().take(d - r0)) by {
        assert forall|i: int| 0 <= i < d - r0 implies here.drawn()[r0 + i] == sending.drawn()[i] by {
            assert(last.drawn().take(d)[r0 + i] == here.drawn()[r0 + i]);
        }
    }
    lemma_same_challenges(&there, &after, sending.drawn(), 2);
    assert(after.challenged() =~= next.drawn().skip(r0)) by {
        assert forall|i: int| 0 <= i < d + 2 - r0 implies next.drawn()[r0 + i]
            == sending.drawn()[i] by {
            assert(last.drawn().take(d + 2)[r0 + i] == next.drawn()[r0 + i]);
        }
    }
    assert(after.challenged().skip(there.challenged().len() as int) =~= next.drawn().skip(d));
    lemma_same_elements(next.drawn().skip(d), seq![r], seq![m.1]);
    assert(seq![r][0] == seq![m.1][0]);
}

/// A run has sent and drawn no less after a step than before the first.
proof fn lemma_step_grows<C: IPProverChannel<BinaryField128bGhash>>(
    run: &SendingRun<C>,
    witness: Seq<BinaryField128bGhash>,
    eval_point: Seq<BinaryField128bGhash>,
    rounds: int,
    j: int,
)
    requires
        0 <= rounds,
        run.runs(witness, eval_point, rounds),
        0 <= j <= rounds + 2,
    ensures
        run.channels[0].sent().len() <= run.channels[j].sent().len(),
        run.channels[0].drawn().len() <= run.channels[j].drawn().len(),
    decreases j,
{
    if j > 0 {
        lemma_step_grows(run, witness, eval_point, rounds, j - 1);
        if 2 <= j <= rounds + 1 {
            assert(run.leads(j - 2));
        }
    }
}

/// The witness and the coordinates stay as they were through the rounds.
proof fn lemma_rounds_keep<
    C: IPProverChannel<BinaryField128bGhash>,
    D: IPVerifierChannel<BinaryField128bGhash>,
>(
    sending: &SendingRun<C>,
    receiving: &ReceivingRun<D>,
    witness: Seq<BinaryField128bGhash>,
    claim: BinaryField128bGhash,
    eval_point: Seq<BinaryField128bGhash>,
    rounds: int,
    k: int,
)
    requires
        0 <= k <= rounds,
        sending.runs(witness, eval_point, rounds),
        receiving.runs(claim, eval_point, rounds),
        in_step(sending, receiving, 0),
    ensures
        in_step(sending, receiving, k),
        sending.provers[k].trace@ == witness,
        receiving.verifiers[k].claim == receiving.verifiers[0].claim,
        receiving.verifiers[k].v == receiving.verifiers[0].v,
        receiving.verifiers[k].r_lo == receiving.verifiers[0].r_lo,
        receiving.verifiers[k].r_hi == receiving.verifiers[0].r_hi,
        receiving.verifiers[k].r_prime == receiving.verifiers[0].r_prime,
        forall|i: int|
            0 <= i < k ==> #[trigger] receiving.outcomes[i] == Ok::<([F162; 2], F162), Error>(
                (sending.messages[i], sending.provers[k].r_pp[i]),
            ),
    decreases k,
{
    if k > 0 {
        lemma_rounds_keep(sending, receiving, witness, claim, eval_point, rounds, k - 1);
        lemma_round_stays_in_step(
            sending,
            receiving,
            witness,
            claim,
            eval_point,
            rounds,
            k - 1,
        );
        assert(sending.leads(k - 1));
        assert(receiving.leads(k - 1));
        let (before, now) = (sending.provers[k - 1].r_pp@, sending.provers[k].r_pp@);
        assert forall|i: int| 0 <= i < k implies #[trigger] receiving.outcomes[i] == Ok::<
            ([F162; 2], F162),
            Error,
        >((sending.messages[i], sending.provers[k].r_pp[i])) by {
            if i < k - 1 {
                assert(now[i] == before[i]);
            }
        }
    }
}

/// The two sides of the switch fit together.
///
/// On a channel that hands over what a sending run sent, and whose challenges are the ones that the
/// sending run drew, such as a `ReplayChannel` made of both, every step of the receiving side
/// succeeds. It gets the partial evaluations, the batching point, every round's message and
/// challenge and the witness of the sending side, and nothing is left over. Where the claim is the
/// evaluation of the witness's bits at the point, the partial evaluations received recombine to it.
/// So the arithmetic of the larger field alone decides: the run is accepted if it finds nothing
/// wrong with the values that the sending side had.
pub proof fn receiving_gets_what_was_sent<
    C: IPProverChannel<BinaryField128bGhash>,
    D: IPVerifierChannel<BinaryField128bGhash>,
>(
    sending: &SendingRun<C>,
    receiving: &ReceivingRun<D>,
    witness: Seq<BinaryField128bGhash>,
    claim: BinaryField128bGhash,
    eval_point: Seq<BinaryField128bGhash>,
    rounds: int,
)
    requires
        0 <= rounds,
        eval_point.len() == LOG_PACKING + rounds,
        witness.len() == pow2(rounds as nat),
        sending.runs(witness, eval_point, rounds),
        receiving.runs(claim, eval_point, rounds),
        receiving.channels[0].incoming() == sending.sent(),
        receiving.channels[0].challenged().len() == 0,
        receiving.channels[0].foreseen() == sending.drawn(),
    ensures
        receiving.started == Ok::<CrossFieldVerifier, Error>(receiving.verifiers[0]),
        receiving.verifiers[0].claim == claim,
        receiving.verifiers[0].v@ == partials(witness, eval_point),
        receiving.verifiers[0].r_prime@ == sending.provers[0].r_prime@,
        claim == bits_eval(witness, eval_point) ==> sum(
            PACKING as int,
            |i: int|
                eq_ind(receiving.verifiers[0].r_lo@.reverse(), i).times(
                    receiving.verifiers[0].v@[i],
                ),
        ) == claim,
        forall|i: int|
            0 <= i < rounds ==> #[trigger] receiving.outcomes[i] == Ok::<([F162; 2], F162), Error>(
                (sending.messages[i], sending.provers[rounds].r_pp[i]),
            ),
        receiving.verifiers[rounds].r_pp@ == sending.provers[rounds].r_pp@,
        receiving.verifiers[rounds].r_pp.len() == receiving.verifiers[rounds].rounds(),
        receiving.trace matches Ok(t) && t@ == witness,
        receiving.channels.last().incoming().len() == 0,
        receiving.channels.last().challenged() == sending.drawn(),
        receiving.answer(Ok(()), true) == Ok::<(), Error>(()),
        receiving.answer(Ok(()), false) == Err::<(), Error>(
            Error::Switch("sumcheck final check failed"),
        ),
        forall|why: &'static str| #[trigger]
            receiving.answer(Err(why), true) == Err::<(), Error>(Error::Switch(why)),
{
    lemma_starts_in_step(sending, receiving, witness, claim, eval_point, rounds);
    lemma_rounds_keep(sending, receiving, witness, claim, eval_point, rounds, rounds);
    let (c0, here, last) = (
        sending.channels[0],
        sending.channels[rounds + 1],
        sending.channels[rounds + 2],
    );
    let there = receiving.channels[rounds + 1];
    let end = receiving.channels[rounds + 2];
    assert(sending.channels.last() == last);
    assert(receiving.channels.last() == end);
    lemma_steps_are_prefixes(sending, witness, eval_point, rounds, 0);
    lemma_step_grows(sending, witness, eval_point, rounds, rounds + 1);
    assert(there.incoming() =~= witness);
    assert(receiving.verifiers[0].rounds() == rounds);
    assert(there.incoming().take(witness.len() as int) =~= witness);
    assert(end.incoming() =~= Seq::<BinaryField128bGhash>::empty());
    assert(end.challenged() =~= sending.drawn());
    assert forall|i: int| 0 <= i < rounds implies (#[trigger] receiving.outcomes[i]) is Ok by {
        assert(receiving.outcomes[i] == Ok::<([F162; 2], F162), Error>(
            (sending.messages[i], sending.provers[rounds].r_pp[i]),
        ));
    }
    lemma_no_failure(receiving.outcomes);
    let v = receiving.verifiers[0].v@;
    let lo = eval_point.take(LOG_PACKING as int);
    assert(receiving.verifiers[0].r_lo@.reverse() =~= lo);
    partials_recombine(witness, eval_point);
    lemma_sum_ext(
        PACKING as int,
        |i: int| eq_ind(lo, i).times(partial_at(witness, eval_point.skip(LOG_PACKING as int), i)),
        |i: int| eq_ind(receiving.verifiers[0].r_lo@.reverse(), i).times(v[i]),
    );
}

} // verus!
