//! Elements of the 162-bit field on the wire.

use crate::field::ghash::BinaryField128bGhash;
use crate::sumcheck::channel::{IPProverChannel, draws};
use vstd::prelude::*;

verus! {

/// Base-2 logarithm of the number of witness bits in one packed element.
pub const LOG_PACKING: usize = 7;

/// Number of witness bits in one packed element.
pub const PACKING: usize = 128;

/// An element of the 162-bit field: three limbs, the least significant first.
#[derive(Clone, Copy, Debug, PartialEq, Eq)]
pub struct F162(pub [u64; 3]);

/// Two challenges read as one element: 128 bits of the first and 34 of the second.
pub open spec fn challenge_limbs(a: u128, b: u128) -> Seq<u64> {
    seq![a as u64, (a >> 64) as u64, (b as u64) & 0x3_ffff_ffff]
}

/// Two scalars read as one element, limb by limb.
pub open spec fn scalar_limbs(a: u128, b: u128) -> Seq<u64> {
    seq![a as u64, (a >> 64) as u64, b as u64]
}

/// The scalars an element is sent as.
pub open spec fn limb_scalars(x: F162) -> Seq<BinaryField128bGhash> {
    seq![
        BinaryField128bGhash((x.0[0] as u128) | ((x.0[1] as u128) << 64)),
        BinaryField128bGhash(x.0[2] as u128),
    ]
}

/// Challenges read as elements, two challenges an element.
pub open spec fn challenges_read(
    raw: Seq<BinaryField128bGhash>,
    elems: Seq<F162>,
) -> bool {
    &&& raw.len() == 2 * elems.len()
    &&& forall|i: int|
        0 <= i < elems.len() ==> (#[trigger] elems[i]).0@ == challenge_limbs(
            raw[2 * i].0,
            raw[2 * i + 1].0,
        )
}

/// Scalars read as elements, two scalars an element.
pub open spec fn scalars_read(raw: Seq<BinaryField128bGhash>, elems: Seq<F162>) -> bool {
    &&& elems.len() == raw.len() / 2
    &&& forall|i: int|
        0 <= i < elems.len() ==> (#[trigger] elems[i]).0@ == scalar_limbs(
            raw[2 * i].0,
            raw[2 * i + 1].0,
        )
}

/// The element two challenges are read as.
pub fn challenge_element(a: BinaryField128bGhash, b: BinaryField128bGhash) -> (r: F162)
    ensures
        r.0@ == challenge_limbs(a.0, b.0),
{
    let limbs: [u64; 3] = [
        a.0 as u64,
        (a.0 >> 64) as u64,
        (b.0 as u64) & 0x3_ffff_ffff,
    ];
    assert(limbs@ =~= challenge_limbs(a.0, b.0));
    F162(limbs)
}

/// Samples elements on the sending side.
pub fn sample_f162<C: IPProverChannel<BinaryField128bGhash>>(channel: &mut C, n: usize) -> (r: Vec<
    F162,
>)
    requires
        2 * n <= usize::MAX,
        old(channel).can_draw((2 * n) as nat),
    ensures
        r.len() == n,
        final(channel).sent() == old(channel).sent(),
        final(channel).drawn().len() == old(channel).drawn().len() + 2 * n,
        final(channel).drawn().take(old(channel).drawn().len() as int) == old(channel).drawn(),
        final(channel).transcript() == old(channel).transcript() + draws(
            final(channel).drawn().skip(old(channel).drawn().len() as int),
        ),
        challenges_read(final(channel).drawn().skip(old(channel).drawn().len() as int), r@),
        forall|m: nat|
            m >= 2 * n && #[trigger] old(channel).can_draw(m) ==> final(channel).can_draw(
                (m - 2 * n) as nat,
            ),
{
    let ghost start = channel.drawn();
    let ghost first = *channel;
    let mut r: Vec<F162> = Vec::new();
    let mut i: usize = 0;
    proof {
        assert(start.take(start.len() as int) =~= start);
        assert(first.transcript() + draws(start.skip(start.len() as int)) =~= first.transcript());
    }
    while i < n
        invariant
            i <= n,
            2 * n <= usize::MAX,
            r.len() == i,
            start == first.drawn(),
            channel.sent() == first.sent(),
            channel.drawn().len() == start.len() + 2 * i,
            channel.drawn().take(start.len() as int) == start,
            channel.transcript() == first.transcript() + draws(
                channel.drawn().skip(start.len() as int),
            ),
            challenges_read(channel.drawn().skip(start.len() as int), r@),
            channel.can_draw((2 * n - 2 * i) as nat),
            forall|m: nat|
                m >= 2 * i && #[trigger] first.can_draw(m) ==> channel.can_draw(
                    (m - 2 * i) as nat,
                ),
        decreases n - i,
    {
        let ghost before = *channel;
        proof {
            channel.can_draw_fewer(1, (2 * n - 2 * i) as nat);
        }
        let a = channel.sample();
        let ghost between = *channel;
        proof {
            assert(before.can_draw((2 * n - 2 * i) as nat));
            channel.can_draw_fewer(1, (2 * n - 2 * i - 1) as nat);
        }
        let b = channel.sample();
        let ghost held = r@;
        r.push(challenge_element(a, b));
        proof {
            let after = channel.drawn();
            let raw = after.skip(start.len() as int);
            let old_raw = before.drawn().skip(start.len() as int);
            assert(after =~= before.drawn().push(a).push(b));
            assert(raw =~= old_raw.push(a).push(b));
            assert(first.transcript() + draws(old_raw) + draws(seq![a]) + draws(seq![b])
                =~= first.transcript() + draws(raw));
            assert(after.take(start.len() as int) =~= start) by {
                assert(before.drawn().take(start.len() as int) == start);
            }
            assert forall|k: int| 0 <= k < r@.len() implies (#[trigger] r@[k]).0@
                == challenge_limbs(raw[2 * k].0, raw[2 * k + 1].0) by {
                if k < held.len() {
                    assert(held[k].0@ == challenge_limbs(old_raw[2 * k].0, old_raw[2 * k + 1].0));
                    assert(raw[2 * k] == old_raw[2 * k]);
                    assert(raw[2 * k + 1] == old_raw[2 * k + 1]);
                }
            }
            assert forall|m: nat| m >= 2 * (i + 1) && #[trigger] first.can_draw(m) implies channel.can_draw(
                (m - 2 * (i + 1)) as nat,
            ) by {
                assert(before.can_draw((m - 2 * i) as nat));
                assert(between.can_draw((m - 2 * i - 1) as nat));
            }
            assert(between.can_draw((2 * n - 2 * i - 1) as nat));
        }
        i = i + 1;
    }
    r
}

/// The scalars elements are sent as, two an element.
pub fn encode_f162(xs: &[F162]) -> (r: Vec<BinaryField128bGhash>)
    requires
        2 * xs.len() <= usize::MAX,
    ensures
        r.len() == 2 * xs.len(),
        forall|i: int|
            #![trigger xs[i]]
            0 <= i < xs.len() ==> r@.subrange(2 * i, 2 * i + 2) == limb_scalars(xs[i]),
{
    let mut r: Vec<BinaryField128bGhash> = Vec::new();
    let mut i: usize = 0;
    while i < xs.len()
        invariant
            i <= xs.len(),
            2 * xs.len() <= usize::MAX,
            r.len() == 2 * i,
            forall|k: int|
                #![trigger xs[k]]
                0 <= k < i ==> r@.subrange(2 * k, 2 * k + 2) == limb_scalars(xs[k]),
        decreases xs.len() - i,
    {
        let ghost before = r@;
        let x = xs[i];
        r.push(BinaryField128bGhash((x.0[0] as u128) | ((x.0[1] as u128) << 64)));
        r.push(BinaryField128bGhash(x.0[2] as u128));
        proof {
            assert forall|k: int| #![trigger xs[k]] 0 <= k < i + 1 implies r@.subrange(
                2 * k,
                2 * k + 2,
            ) == limb_scalars(xs[k]) by {
                if k < i {
                    assert(r@.subrange(2 * k, 2 * k + 2) =~= before.subrange(2 * k, 2 * k + 2));
                } else {
                    assert(r@.subrange(2 * k, 2 * k + 2) =~= limb_scalars(xs[k]));
                }
            }
        }
        i = i + 1;
    }
    r
}

/// The elements scalars stand for, two scalars an element; an odd one at the end is dropped.
pub fn decode_f162(e: &[BinaryField128bGhash]) -> (r: Vec<F162>)
    ensures
        scalars_read(e@, r@),
{
    let n: usize = e.len() / 2;
    let mut r: Vec<F162> = Vec::new();
    let mut i: usize = 0;
    while i < n
        invariant
            i <= n,
            n == e.len() / 2,
            r.len() == i,
            forall|k: int|
                0 <= k < i ==> (#[trigger] r[k]).0@ == scalar_limbs(e[2 * k].0, e[2 * k + 1].0),
        decreases n - i,
    {
        let a = e[2 * i];
        let b = e[2 * i + 1];
        let limbs: [u64; 3] = [a.0 as u64, (a.0 >> 64) as u64, b.0 as u64];
        assert(limbs@ =~= scalar_limbs(a.0, b.0));
        r.push(F162(limbs));
        i = i + 1;
    }
    r
}

/// Limbs joined and taken apart again, and the width of a challenge.
proof fn lemma_limbs(x: u64, y: u64, z: u64, b: u128)
    by (bit_vector)
    ensures
        ((x as u128) | ((y as u128) << 64)) as u64 == x,
        (((x as u128) | ((y as u128) << 64)) >> 64) as u64 == y,
        (z as u128) as u64 == z,
        ((b as u64) & 0x3_ffff_ffff) < 0x4_0000_0000,
{
}

/// Decoding undoes encoding.
pub proof fn decode_inverts_encode(x: F162)
    ensures
        scalar_limbs(limb_scalars(x)[0].0, limb_scalars(x)[1].0) == x.0@,
{
    lemma_limbs(x.0[0], x.0[1], x.0[2], 0);
    assert(scalar_limbs(limb_scalars(x)[0].0, limb_scalars(x)[1].0) =~= x.0@);
}

/// A sampled element has 162 bits: its last limb is below `2^34`.
pub proof fn challenges_are_reduced(a: u128, b: u128)
    ensures
        challenge_limbs(a, b)[2] < 0x4_0000_0000,
{
    lemma_limbs(0, 0, 0, b);
}

/// Both sides read the same elements off the same challenges.
pub proof fn challenges_determine_elements(
    raw: Seq<BinaryField128bGhash>,
    sent: Seq<F162>,
    received: Seq<F162>,
)
    requires
        challenges_read(raw, sent),
        challenges_read(raw, received),
    ensures
        sent.len() == received.len(),
        forall|i: int| 0 <= i < sent.len() ==> (#[trigger] sent[i]).0@ == received[i].0@,
{
    assert forall|i: int| 0 <= i < sent.len() implies (#[trigger] sent[i]).0@
        == received[i].0@ by {
        assert(received[i].0@ == challenge_limbs(raw[2 * i].0, raw[2 * i + 1].0));
    }
}

} // verus!
