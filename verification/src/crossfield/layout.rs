//! What the scalars of a switch stand for.

use vstd::arithmetic::power2::pow2;
use crate::algebra::field::{FieldOps, select};
use crate::algebra::group::AdditiveGroup;
use crate::algebra::sum::{lemma_sum_ext, lemma_sum_single, sum};
use crate::crossfield::codec::{
    F162, LOG_PACKING, challenge_element, challenge_limbs, challenges_read, decode_f162,
    encode_f162, limb_scalars, scalar_limbs,
};
use crate::crossfield::partial::{bits_eval, partial_at, partials_recombine, witness_bit};
use crate::crossfield::sending::{CrossFieldProver, partials};
use crate::field::ghash::BinaryField128bGhash;
use crate::math::eq::{eq_ind, indicator_tells_vertices_apart};
use crate::sumcheck::channel::IPProverChannel;
use vstd::prelude::*;

verus! {

/// Words taken out of 128 bits, and joined to them, by their places.
proof fn lemma_places(a: u128, b: u128, lo: u64, hi: u64)
    by (bit_vector)
    ensures
        a == (a as u64) + 0x1_0000_0000_0000_0000 * ((a >> 64) as u64),
        (b as u64) & 0x3_ffff_ffff == b % 0x4_0000_0000,
        b as u64 == b % 0x1_0000_0000_0000_0000,
        (lo as u128) | ((hi as u128) << 64) == lo + 0x1_0000_0000_0000_0000 * hi,
{
}

/// An element is drawn as two challenges: all bits of the first are its two low limbs, and the
/// lowest 34 bits of the second are its third.
pub proof fn elements_are_drawn_in_pairs(
    raw: Seq<BinaryField128bGhash>,
    elems: Seq<F162>,
    i: int,
)
    requires
        challenges_read(raw, elems),
        0 <= i < elems.len(),
    ensures
        raw.len() == 2 * elems.len(),
        raw[2 * i].0 == elems[i].0[0] + 0x1_0000_0000_0000_0000 * elems[i].0[1],
        elems[i].0[2] == raw[2 * i + 1].0 % 0x4_0000_0000,
{
    lemma_places(raw[2 * i].0, raw[2 * i + 1].0, 0, 0);
    assert(elems[i].0@ == challenge_limbs(raw[2 * i].0, raw[2 * i + 1].0));
}

/// The same of one element read off two challenges.
pub proof fn two_challenges_are_one_element(
    a: BinaryField128bGhash,
    b: BinaryField128bGhash,
    r: F162,
)
    requires
        call_ensures(challenge_element, (a, b), r),
    ensures
        a.0 == r.0[0] + 0x1_0000_0000_0000_0000 * r.0[1],
        r.0[2] == b.0 % 0x4_0000_0000,
{
    lemma_places(a.0, b.0, 0, 0);
    assert(r.0@ == challenge_limbs(a.0, b.0));
}

/// An element is sent as two scalars: the first is its two low limbs, and the second its third.
pub proof fn elements_are_sent_in_pairs(xs: &[F162], r: Vec<BinaryField128bGhash>, i: int)
    requires
        2 * xs.len() <= usize::MAX,
        call_ensures(encode_f162, (xs,), r),
        0 <= i < xs.len(),
    ensures
        r.len() == 2 * xs.len(),
        r[2 * i].0 == xs[i].0[0] + 0x1_0000_0000_0000_0000 * xs[i].0[1],
        r[2 * i + 1].0 == xs[i].0[2],
{
    lemma_places(0, 0, xs[i].0[0], xs[i].0[1]);
    let pair = r@.subrange(2 * i, 2 * i + 2);
    assert(pair == limb_scalars(xs[i]));
    assert(pair[0] == r[2 * i] && pair[1] == r[2 * i + 1]);
}

/// Two scalars are read as an element: all bits of the first are its two low limbs, and the lowest
/// 64 bits of the second are its third.
pub proof fn elements_are_read_in_pairs(e: &[BinaryField128bGhash], r: Vec<F162>, i: int)
    requires
        call_ensures(decode_f162, (e,), r),
        0 <= i < e.len() / 2,
    ensures
        r.len() == e.len() / 2,
        e[2 * i].0 == r[i].0[0] + 0x1_0000_0000_0000_0000 * r[i].0[1],
        r[i].0[2] == e[2 * i + 1].0 % 0x1_0000_0000_0000_0000,
{
    lemma_places(e[2 * i].0, e[2 * i + 1].0, 0, 0);
    assert(r@[i].0@ == scalar_limbs(e[2 * i].0, e[2 * i + 1].0));
}

/// A round's message is sent element by element, the low limbs of each first.
pub proof fn round_messages_are_sent_in_order<C: IPProverChannel<BinaryField128bGhash>>(
    run: &CrossFieldProver,
    next: &CrossFieldProver,
    before: &C,
    after: &C,
    message: [F162; 2],
    r: F162,
    e: int,
)
    requires
        run.passes(next, before, after, message, r),
        0 <= e < 2,
    ensures
        after.sent().len() == before.sent().len() + 4,
        after.sent()[before.sent().len() + 2 * e].0 == message[e].0[0] + 0x1_0000_0000_0000_0000
            * message[e].0[1],
        after.sent()[before.sent().len() + 2 * e + 1].0 == message[e].0[2],
{
    lemma_places(0, 0, message[e].0[0], message[e].0[1]);
}

/// The bits of a witness at the point whose coordinate `j` is bit `j` of `v` are bit `v`, which is
/// bit `v % 128` of element `v / 128`.
pub proof fn witness_bits_are_counted_from_the_lowest(
    witness: Seq<BinaryField128bGhash>,
    point: Seq<BinaryField128bGhash>,
    v: int,
)
    requires
        witness.len() * 128 == pow2(point.len()),
        0 <= v < pow2(point.len()),
        forall|j: int|
            0 <= j < point.len() ==> #[trigger] point[j] == if (v / pow2(j as nat) as int) % 2 == 1 {
                BinaryField128bGhash(1)
            } else {
                BinaryField128bGhash(0)
            },
    ensures
        bits_eval(witness, point) == if (witness[v / 128].0 >> ((v % 128) as u128)) & 1 == 1 {
            BinaryField128bGhash(1)
        } else {
            BinaryField128bGhash(0)
        },
{
    let n = witness.len() as int * 128;
    let f = |j: int| select(witness_bit(witness, j), eq_ind(point, j));
    assert forall|j: int| 0 <= j < n && j != v implies #[trigger] f(j)
        == BinaryField128bGhash::nil() by {
        indicator_tells_vertices_apart(point, v, j);
    }
    lemma_sum_single(n, f, v);
    indicator_tells_vertices_apart(point, v, v);
}

/// What starting a run sends recombines, weighted by the indicator of the low coordinates, to the
/// evaluation of the witness's bits; the high coordinates are bound from the last one.
pub proof fn sent_partials_recombine<C: IPProverChannel<BinaryField128bGhash>>(
    run: &CrossFieldProver,
    before: &C,
    after: &C,
    witness: Seq<BinaryField128bGhash>,
    point: Seq<BinaryField128bGhash>,
)
    requires
        run.starts(before, after, witness, point),
        point.len() >= 7,
        witness.len() == pow2((point.len() - 7) as nat),
    ensures
        after.sent().len() == before.sent().len() + 128,
        sum(
            128,
            |i: int| eq_ind(point.take(7), i).times(after.sent()[before.sent().len() + i]),
        ) == bits_eval(witness, point),
        run.r_hi.len() == point.len() - 7,
        forall|k: int|
            0 <= k < run.r_hi.len() ==> #[trigger] run.r_hi[k] == point[point.len() - 1 - k],
{
    partials_recombine(witness, point);
    let sent = after.sent();
    let first = before.sent().len();
    let f = |i: int| eq_ind(point.take(7), i).times(partial_at(witness, point.skip(7), i));
    let g = |i: int| eq_ind(point.take(7), i).times(sent[first + i]);
    assert forall|i: int| 0 <= i < 128 implies #[trigger] f(i) == g(i) by {
        assert(sent[first + i] == partials(witness, point)[i]);
    }
    lemma_sum_ext(128, f, g);
    let h = |i: int|
        eq_ind(point.take(LOG_PACKING as int), i).times(
            partial_at(witness, point.skip(LOG_PACKING as int), i),
        );
    lemma_sum_ext(128, h, f);
}

} // verus!
