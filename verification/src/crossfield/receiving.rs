//! The receiving side of the cross-field switch.
//!
//! The arithmetic of the larger field happens between the steps: it is handed what a step yields
//! and answers with what it found.

use vstd::arithmetic::power2::pow2;
use crate::crossfield::codec::{
    F162, LOG_PACKING, PACKING, challenge_element, challenge_limbs, challenges_read, decode_f162,
    scalar_limbs,
};
use crate::field::ghash::BinaryField128bGhash;
use crate::math::index::pow2_usize;
use crate::shift::phase_1::reversed_list;
use crate::sumcheck::channel::{
    ChannelError, IPVerifierChannel, as_foreseen, challenges_out, receives,
};
use vstd::prelude::*;

verus! {

/// Why a run was turned down.
#[derive(Clone, Copy, Debug, PartialEq, Eq)]
pub enum Error {
    /// The channel failed.
    Channel(ChannelError),
    /// The switch failed: what it was handed does not match what was claimed.
    Switch(&'static str),
}

/// A run of the receiving side.
pub struct CrossFieldVerifier {
    /// The claimed evaluation.
    pub claim: BinaryField128bGhash,
    /// The partial evaluations received.
    pub v: Vec<BinaryField128bGhash>,
    /// The low coordinates, the last one first.
    pub r_lo: Vec<BinaryField128bGhash>,
    /// The high coordinates, the last one first.
    pub r_hi: Vec<BinaryField128bGhash>,
    /// The point that batches the bit positions.
    pub r_prime: Vec<F162>,
    /// The challenges of the rounds so far.
    pub r_pp: Vec<F162>,
}

/// Nothing came in and nothing went out.
pub open spec fn unchanged<C: IPVerifierChannel<BinaryField128bGhash>>(
    before: &C,
    after: &C,
) -> bool {
    &&& after.transcript() == before.transcript()
    &&& after.incoming() == before.incoming()
    &&& after.challenged() == before.challenged()
    &&& after.foreseen() == before.foreseen()
}

/// Draws elements on the receiving side.
pub fn challenge_f162<C: IPVerifierChannel<BinaryField128bGhash>>(
    channel: &mut C,
    n: usize,
) -> (r: Vec<F162>)
    requires
        2 * n <= usize::MAX,
        old(channel).can_challenge((2 * n) as nat),
    ensures
        r.len() == n,
        final(channel).incoming() == old(channel).incoming(),
        final(channel).challenged().len() == old(channel).challenged().len() + 2 * n,
        final(channel).challenged().take(old(channel).challenged().len() as int) == old(channel).challenged(),
        final(channel).transcript() == old(channel).transcript() + challenges_out(
            final(channel).challenged().skip(old(channel).challenged().len() as int),
        ),
        challenges_read(
            final(channel).challenged().skip(old(channel).challenged().len() as int),
            r@,
        ),
        as_foreseen(old(channel), final(channel)),
        forall|m: nat|
            m >= 2 * n && #[trigger] old(channel).can_challenge(m) ==> final(channel).can_challenge(
                (m - 2 * n) as nat,
            ),
{
    let ghost start = channel.challenged();
    let ghost first = *channel;
    let mut r: Vec<F162> = Vec::new();
    let mut i: usize = 0;
    proof {
        assert(start.take(start.len() as int) =~= start);
        assert(first.transcript() + challenges_out(start.skip(start.len() as int))
            =~= first.transcript());
    }
    while i < n
        invariant
            i <= n,
            2 * n <= usize::MAX,
            r.len() == i,
            start == first.challenged(),
            channel.incoming() == first.incoming(),
            channel.challenged().len() == start.len() + 2 * i,
            channel.challenged().take(start.len() as int) == start,
            channel.transcript() == first.transcript() + challenges_out(
                channel.challenged().skip(start.len() as int),
            ),
            challenges_read(channel.challenged().skip(start.len() as int), r@),
            as_foreseen(&first, channel),
            channel.can_challenge((2 * n - 2 * i) as nat),
            forall|m: nat|
                m >= 2 * i && #[trigger] first.can_challenge(m) ==> channel.can_challenge(
                    (m - 2 * i) as nat,
                ),
        decreases n - i,
    {
        let ghost before = *channel;
        proof {
            channel.can_challenge_fewer(1, (2 * n - 2 * i) as nat);
        }
        let a = channel.challenge();
        let ghost between = *channel;
        proof {
            assert(before.can_challenge((2 * n - 2 * i) as nat));
            channel.can_challenge_fewer(1, (2 * n - 2 * i - 1) as nat);
        }
        let b = channel.challenge();
        let ghost held = r@;
        r.push(challenge_element(a, b));
        proof {
            let after = channel.challenged();
            let raw = after.skip(start.len() as int);
            let old_raw = before.challenged().skip(start.len() as int);
            assert(after =~= before.challenged().push(a).push(b));
            assert(raw =~= old_raw.push(a).push(b));
            assert forall|k: int|
                start.len() <= k < after.len() && k < first.foreseen().len() implies #[trigger] after[k]
                == first.foreseen()[k] by {
                if k < before.challenged().len() {
                    assert(after[k] == before.challenged()[k]);
                }
            }
            assert(first.transcript() + challenges_out(old_raw) + challenges_out(seq![a])
                + challenges_out(seq![b]) =~= first.transcript() + challenges_out(raw));
            assert(after.take(start.len() as int) =~= start) by {
                assert(before.challenged().take(start.len() as int) == start);
            }
            assert forall|k: int| 0 <= k < r@.len() implies (#[trigger] r@[k]).0@
                == challenge_limbs(raw[2 * k].0, raw[2 * k + 1].0) by {
                if k < held.len() {
                    assert(held[k].0@ == challenge_limbs(old_raw[2 * k].0, old_raw[2 * k + 1].0));
                    assert(raw[2 * k] == old_raw[2 * k]);
                    assert(raw[2 * k + 1] == old_raw[2 * k + 1]);
                }
            }
            assert forall|m: nat|
                m >= 2 * (i + 1) && #[trigger] first.can_challenge(
                    m,
                ) implies channel.can_challenge((m - 2 * (i + 1)) as nat) by {
                assert(before.can_challenge((m - 2 * i) as nat));
                assert(between.can_challenge((m - 2 * i - 1) as nat));
            }
            assert(between.can_challenge((2 * n - 2 * i - 1) as nat));
        }
        i = i + 1;
    }
    r
}

impl CrossFieldVerifier {
    /// The number of rounds.
    pub open spec fn rounds(&self) -> nat {
        self.r_hi.len() as nat
    }

    /// What starting a run takes and draws, and what comes of it.
    pub open spec fn starts<C: IPVerifierChannel<BinaryField128bGhash>>(
        before: &C,
        after: &C,
        claim: BinaryField128bGhash,
        eval_point: Seq<BinaryField128bGhash>,
        outcome: Result<Self, Error>,
    ) -> bool {
        &&& before.incoming().len() < PACKING ==> outcome == Err::<Self, _>(
            Error::Channel(ChannelError::ProofEmpty),
        ) && unchanged(before, after)
        &&& before.incoming().len() >= PACKING ==> (outcome matches Ok(s) && {
            &&& s.claim == claim
            &&& s.v@ == before.incoming().take(PACKING as int)
            &&& s.r_lo@ == eval_point.take(LOG_PACKING as int).reverse()
            &&& s.r_hi@ == eval_point.skip(LOG_PACKING as int).reverse()
            &&& s.r_prime.len() == LOG_PACKING
            &&& s.r_pp.len() == 0
            &&& after.incoming() == before.incoming().skip(PACKING as int)
            &&& after.transcript() == before.transcript() + receives(s.v@) + challenges_out(
                after.challenged().skip(before.challenged().len() as int),
            )
            &&& after.challenged().len() == before.challenged().len() + 14
            &&& after.challenged().take(before.challenged().len() as int) == before.challenged()
            &&& challenges_read(
                after.challenged().skip(before.challenged().len() as int),
                s.r_prime@,
            )
            &&& as_foreseen(before, after)
        })
    }

    /// What a round takes and draws, and what comes of it.
    pub open spec fn passes<C: IPVerifierChannel<BinaryField128bGhash>>(
        &self,
        next: &Self,
        before: &C,
        after: &C,
        outcome: Result<([F162; 2], F162), Error>,
    ) -> bool {
        &&& next.claim == self.claim
        &&& next.v == self.v
        &&& next.r_lo == self.r_lo
        &&& next.r_hi == self.r_hi
        &&& next.r_prime == self.r_prime
        &&& before.incoming().len() < 4 ==> outcome == Err::<([F162; 2], F162), _>(
            Error::Channel(ChannelError::ProofEmpty),
        ) && next.r_pp == self.r_pp && unchanged(before, after)
        &&& before.incoming().len() >= 4 ==> (outcome matches Ok(m) && {
            let raw = before.incoming();
            &&& m.0[0].0@ == scalar_limbs(raw[0].0, raw[1].0)
            &&& m.0[1].0@ == scalar_limbs(raw[2].0, raw[3].0)
            &&& next.r_pp@ == self.r_pp@.push(m.1)
            &&& after.incoming() == raw.skip(4)
            &&& after.transcript() == before.transcript() + receives(raw.take(4))
                + challenges_out(after.challenged().skip(before.challenged().len() as int))
            &&& after.challenged().len() == before.challenged().len() + 2
            &&& after.challenged().take(before.challenged().len() as int) == before.challenged()
            &&& challenges_read(
                after.challenged().skip(before.challenged().len() as int),
                seq![m.1],
            )
            &&& as_foreseen(before, after)
        })
    }

    /// What taking the witness takes, and what comes of it.
    pub open spec fn finishes<C: IPVerifierChannel<BinaryField128bGhash>>(
        &self,
        before: &C,
        after: &C,
        outcome: Result<Vec<BinaryField128bGhash>, ChannelError>,
    ) -> bool {
        let n = pow2(self.rounds());
        &&& before.incoming().len() < n ==> outcome == Err::<Vec<BinaryField128bGhash>, _>(
            ChannelError::ProofEmpty,
        ) && unchanged(before, after)
        &&& before.incoming().len() >= n ==> (outcome matches Ok(t) && {
            &&& t@ == before.incoming().take(n as int)
            &&& after.transcript() == before.transcript() + receives(t@)
            &&& after.incoming() == before.incoming().skip(n as int)
            &&& after.challenged() == before.challenged()
            &&& after.foreseen() == before.foreseen()
        })
    }

    /// Receives the partial evaluations and draws the batching point.
    pub fn start<C: IPVerifierChannel<BinaryField128bGhash>>(
        claim: BinaryField128bGhash,
        eval_point: &[BinaryField128bGhash],
        channel: &mut C,
    ) -> (r: Result<Self, Error>)
        requires
            eval_point.len() >= LOG_PACKING,
            old(channel).can_challenge(14),
        ensures
            Self::starts(old(channel), final(channel), claim, eval_point@, r),
            r is Ok ==> forall|m: nat|
                m >= 14 && #[trigger] old(channel).can_challenge(m) ==> final(channel).can_challenge((m - 14) as nat),
    {
        let lo = vstd::slice::slice_subrange(eval_point, 0, LOG_PACKING);
        let hi = vstd::slice::slice_subrange(eval_point, LOG_PACKING, eval_point.len());
        proof {
            assert(lo@ =~= eval_point@.take(LOG_PACKING as int));
            assert(hi@ =~= eval_point@.skip(LOG_PACKING as int));
        }
        let v = match channel.recv_many(PACKING) {
            Ok(v) => v,
            Err(e) => {
                return Err(Error::Channel(e));
            },
        };
        let r_prime = challenge_f162(channel, LOG_PACKING);
        Ok(
            CrossFieldVerifier {
                claim,
                v,
                r_lo: reversed_list(lo),
                r_hi: reversed_list(hi),
                r_prime,
                r_pp: Vec::new(),
            },
        )
    }

    /// Takes the outcome of checking that the partial evaluations recombine to the claim.
    pub fn started(&self, outcome: Result<(), &'static str>) -> (r: Result<(), Error>)
        ensures
            r == match outcome {
                Ok(()) => Ok::<(), Error>(()),
                Err(why) => Err::<(), Error>(Error::Switch(why)),
            },
    {
        match outcome {
            Ok(()) => Ok(()),
            Err(why) => Err(Error::Switch(why)),
        }
    }

    /// Receives one round's message and draws its challenge.
    pub fn round<C: IPVerifierChannel<BinaryField128bGhash>>(&mut self, channel: &mut C) -> (r:
        Result<([F162; 2], F162), Error>)
        requires
            old(self).r_pp.len() < old(self).rounds(),
            old(channel).can_challenge(2),
        ensures
            old(self).passes(final(self), old(channel), final(channel), r),
            r is Ok ==> forall|m: nat|
                m >= 2 && #[trigger] old(channel).can_challenge(m) ==> final(channel).can_challenge(
                    (m - 2) as nat,
                ),
    {
        let raw = match channel.recv_many(4) {
            Ok(v) => v,
            Err(e) => {
                return Err(Error::Channel(e));
            },
        };
        let m = decode_f162(raw.as_slice());
        let drawn = challenge_f162(channel, 1);
        let r = drawn[0];
        proof {
            assert(drawn@ =~= seq![r]);
            assert(m@[0].0@ == scalar_limbs(raw@[0].0, raw@[1].0));
            assert(m@[1].0@ == scalar_limbs(raw@[2].0, raw@[3].0));
        }
        self.r_pp.push(r);
        Ok(([m[0], m[1]], r))
    }

    /// Receives the witness in the clear.
    pub fn trace<C: IPVerifierChannel<BinaryField128bGhash>>(&self, channel: &mut C) -> (r: Result<
        Vec<BinaryField128bGhash>,
        ChannelError,
    >)
        requires
            pow2(self.rounds()) <= usize::MAX,
            self.r_pp.len() == self.rounds(),
        ensures
            self.finishes(old(channel), final(channel), r),
    {
        let n: usize = pow2_usize(self.r_hi.len());
        channel.recv_many(n)
    }

    /// Takes the outcome of the last check: the rounds' claim against the opened witness.
    pub fn conclude(&self, matches: bool) -> (r: Result<(), Error>)
        requires
            self.r_pp.len() == self.rounds(),
        ensures
            matches <==> r is Ok,
            !matches ==> r == Err::<(), Error>(Error::Switch("sumcheck final check failed")),
    {
        if matches {
            Ok(())
        } else {
            Err(Error::Switch("sumcheck final check failed"))
        }
    }
}

impl Error {
    /// What went wrong, in words; what the channel or the switch said follows the prefix.
    pub fn message(&self) -> (r: (&'static str, &'static str))
        ensures
            r == match *self {
                Error::Channel(ChannelError::ProofEmpty) => ("channel: ", "proof is empty"),
                Error::Channel(ChannelError::InvalidAssert) => (
                    "channel: ",
                    "invalid assertion: value is not zero",
                ),
                Error::Switch(why) => ("cross-field switch: ", why),
            },
    {
        match *self {
            Error::Channel(ChannelError::ProofEmpty) => ("channel: ", "proof is empty"),
            Error::Channel(ChannelError::InvalidAssert) => (
                "channel: ",
                "invalid assertion: value is not zero",
            ),
            Error::Switch(why) => ("cross-field switch: ", why),
        }
    }
}

} // verus!
