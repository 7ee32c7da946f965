//! The sending side of the cross-field switch.
//!
//! The arithmetic of the larger field happens between the steps: it is handed what a step yields
//! and answers with the next message.

use crate::crossfield::codec::{
    F162, LOG_PACKING, PACKING, challenges_read, encode_f162, limb_scalars, sample_f162,
};
use crate::crossfield::partial::{partial_at, partial_evals};
use crate::field::ghash::BinaryField128bGhash;
use crate::field::packed::PackedField;
use crate::math::field_buffer::FieldBuffer;
use crate::shift::phase_1::reversed_list;
use crate::sumcheck::channel::{IPProverChannel, draws, sends};
use vstd::prelude::*;

verus! {

/// What a run leaves behind.
#[derive(Debug)]
pub struct CrossFieldOutput {
    /// The witness evaluated at the point below.
    pub opened: F162,
    /// The point the rounds ended at.
    pub r_pp: Vec<F162>,
    /// The bytes the switch sent, the partial evaluations in full and each round tightly packed.
    pub bytes_switch: usize,
}

/// The partial evaluations of a witness at the high coordinates of a point.
pub open spec fn partials(
    witness: Seq<BinaryField128bGhash>,
    eval_point: Seq<BinaryField128bGhash>,
) -> Seq<BinaryField128bGhash> {
    Seq::new(
        PACKING as nat,
        |i: int| partial_at(witness, eval_point.skip(LOG_PACKING as int), i),
    )
}

/// A run of the sending side.
pub struct CrossFieldProver {
    /// The packed witness.
    pub trace: Vec<BinaryField128bGhash>,
    /// The high coordinates, the last one first.
    pub r_hi: Vec<BinaryField128bGhash>,
    /// The point that batches the bit positions.
    pub r_prime: Vec<F162>,
    /// The challenges of the rounds so far.
    pub r_pp: Vec<F162>,
}

impl CrossFieldProver {
    /// The number of rounds.
    pub open spec fn rounds(&self) -> nat {
        self.r_hi.len() as nat
    }

    /// What starting a run sends and draws, and the run it leaves.
    pub open spec fn starts<C: IPProverChannel<BinaryField128bGhash>>(
        &self,
        before: &C,
        after: &C,
        witness: Seq<BinaryField128bGhash>,
        eval_point: Seq<BinaryField128bGhash>,
    ) -> bool {
        &&& self.trace@ == witness
        &&& self.r_hi@ == eval_point.skip(LOG_PACKING as int).reverse()
        &&& self.r_pp.len() == 0
        &&& self.r_prime.len() == LOG_PACKING
        &&& after.sent() == before.sent() + partials(witness, eval_point)
        &&& after.transcript() == before.transcript() + sends(partials(witness, eval_point))
            + draws(after.drawn().skip(before.drawn().len() as int))
        &&& after.drawn().len() == before.drawn().len() + 14
        &&& after.drawn().take(before.drawn().len() as int) == before.drawn()
        &&& challenges_read(after.drawn().skip(before.drawn().len() as int), self.r_prime@)
    }

    /// What a round sends and draws, and the run it leaves.
    pub open spec fn passes<C: IPProverChannel<BinaryField128bGhash>>(
        &self,
        next: &Self,
        before: &C,
        after: &C,
        message: [F162; 2],
        r: F162,
    ) -> bool {
        let scalars = limb_scalars(message[0]) + limb_scalars(message[1]);
        &&& next.trace == self.trace
        &&& next.r_hi == self.r_hi
        &&& next.r_prime == self.r_prime
        &&& next.r_pp@ == self.r_pp@.push(r)
        &&& after.sent() == before.sent() + scalars
        &&& after.transcript() == before.transcript() + sends(scalars) + draws(
            after.drawn().skip(before.drawn().len() as int),
        )
        &&& after.drawn().len() == before.drawn().len() + 2
        &&& after.drawn().take(before.drawn().len() as int) == before.drawn()
        &&& challenges_read(after.drawn().skip(before.drawn().len() as int), seq![r])
    }

    /// What finishing a run sends.
    pub open spec fn finishes<C: IPProverChannel<BinaryField128bGhash>>(
        &self,
        before: &C,
        after: &C,
    ) -> bool {
        &&& after.transcript() == before.transcript() + sends(self.trace@)
        &&& after.sent() == before.sent() + self.trace@
        &&& after.drawn() == before.drawn()
    }

    /// Sends the partial evaluations and draws the batching point.
    pub fn start<P: PackedField<Scalar = BinaryField128bGhash>, C: IPProverChannel<BinaryField128bGhash>>(
        packed_witness: &FieldBuffer<P>,
        eval_point: &[BinaryField128bGhash],
        channel: &mut C,
    ) -> (r: Self)
        requires
            packed_witness.wf(),
            LOG_PACKING <= eval_point.len(),
            packed_witness.log_len == eval_point.len() - LOG_PACKING,
            old(channel).can_draw(14),
        ensures
            r.starts(old(channel), final(channel), packed_witness.scalars(), eval_point@),
            forall|m: nat|
                m >= 14 && #[trigger] old(channel).can_draw(m) ==> final(channel).can_draw(
                    (m - 14) as nat,
                ),
    {
        let hi = vstd::slice::slice_subrange(eval_point, LOG_PACKING, eval_point.len());
        proof {
            assert(hi@ =~= eval_point@.skip(LOG_PACKING as int));
        }
        let trace = packed_witness.iter_scalars();
        let v = partial_evals(trace.as_slice(), hi);
        proof {
            assert(v@ =~= partials(packed_witness.scalars(), eval_point@));
        }
        channel.send_many(v.as_slice());
        let r_prime = sample_f162(channel, LOG_PACKING);
        CrossFieldProver { trace, r_hi: reversed_list(hi), r_prime, r_pp: Vec::new() }
    }

    /// Sends one round's message and draws its challenge.
    pub fn round<C: IPProverChannel<BinaryField128bGhash>>(
        &mut self,
        message: [F162; 2],
        channel: &mut C,
    ) -> (r: F162)
        requires
            old(self).r_pp.len() < old(self).rounds(),
            old(channel).can_draw(2),
        ensures
            old(self).passes(final(self), old(channel), final(channel), message, r),
            forall|m: nat|
                m >= 2 && #[trigger] old(channel).can_draw(m) ==> final(channel).can_draw(
                    (m - 2) as nat,
                ),
    {
        let scalars = encode_f162(&message);
        proof {
            assert(scalars@.subrange(0, 2) == limb_scalars(message[0]));
            assert(scalars@.subrange(2, 4) == limb_scalars(message[1]));
            assert(scalars@ =~= scalars@.subrange(0, 2) + scalars@.subrange(2, 4));
        }
        channel.send_many(scalars.as_slice());
        let drawn = sample_f162(channel, 1);
        let r = drawn[0];
        proof {
            assert(drawn@ =~= seq![r]);
        }
        self.r_pp.push(r);
        r
    }

    /// Sends the witness and reports the run.
    pub fn finish<C: IPProverChannel<BinaryField128bGhash>>(
        self,
        opened: F162,
        channel: &mut C,
    ) -> (r: CrossFieldOutput)
        requires
            128 * 16 + self.rounds() * 2 * 21 <= usize::MAX,
            self.r_pp.len() == self.rounds(),
        ensures
            r.opened == opened,
            r.r_pp@ == self.r_pp@,
            r.bytes_switch == 128 * 16 + self.rounds() * 2 * 21,
            self.finishes(old(channel), final(channel)),
    {
        let bytes_switch: usize = PACKING * 16 + self.r_hi.len() * 2 * 21;
        channel.send_many(self.trace.as_slice());
        CrossFieldOutput { opened, r_pp: self.r_pp, bytes_switch }
    }
}

} // verus!
