//! The partial evaluations of a packed witness.

use vstd::arithmetic::power2::{lemma2_to64, pow2};
use crate::algebra::field::{FieldOps, lemma_sum_scale, lemma_times_nil, select};
use crate::algebra::group::AdditiveGroup;
use crate::algebra::sum::{lemma_sum_blocks, lemma_sum_ext, lemma_sum_swap, sum};
use crate::bits::bit128;
use crate::crossfield::codec::{LOG_PACKING, PACKING};
use crate::field::ghash::BinaryField128bGhash;
use crate::math::eq::{
    eq_at, eq_ind, eq_ind_partial_eval_scalars, eq_splits, lemma_eq_low, lemma_eq_prefix,
};
use vstd::prelude::*;

verus! {

/// Bit `j` of a packed witness, counted across the elements.
pub open spec fn witness_bit(witness: Seq<BinaryField128bGhash>, j: int) -> bool {
    bit128(witness[j / 128].0, j % 128)
}

/// The witness evaluated at the high coordinates, one value for bit position `i` of an element.
pub open spec fn partial_at(
    witness: Seq<BinaryField128bGhash>,
    r_hi: Seq<BinaryField128bGhash>,
    i: int,
) -> BinaryField128bGhash {
    sum(
        witness.len() as int,
        |y: int| select(bit128(witness[y].0, i), eq_ind(r_hi, y)),
    )
}

/// The bits of a packed witness evaluated at a point, low coordinates within an element.
pub open spec fn bits_eval(
    witness: Seq<BinaryField128bGhash>,
    point: Seq<BinaryField128bGhash>,
) -> BinaryField128bGhash {
    sum(
        witness.len() as int * 128,
        |j: int| select(witness_bit(witness, j), eq_ind(point, j)),
    )
}

/// The partial evaluations at the high coordinates, one a bit position.
pub fn partial_evals(witness: &[BinaryField128bGhash], r_hi: &[BinaryField128bGhash]) -> (r: Vec<
    BinaryField128bGhash,
>)
    requires
        witness.len() == pow2(r_hi.len() as nat),
    ensures
        r.len() == PACKING,
        forall|i: int| 0 <= i < PACKING ==> #[trigger] r[i] == partial_at(witness@, r_hi@, i),
{
    let eq = eq_ind_partial_eval_scalars(r_hi);
    let mut r: Vec<BinaryField128bGhash> = Vec::new();
    let mut i: usize = 0;
    while i < PACKING
        invariant
            i <= PACKING,
            eq.len() == witness.len(),
            forall|y: int| 0 <= y < eq.len() ==> #[trigger] eq[y] == eq_ind(r_hi@, y),
            r.len() == i,
            forall|k: int| 0 <= k < i ==> #[trigger] r[k] == partial_at(witness@, r_hi@, k),
        decreases PACKING - i,
    {
        let ghost f = |y: int| select(bit128(witness@[y].0, i as int), eq_ind(r_hi@, y));
        let mut acc = BinaryField128bGhash::zero();
        let mut y: usize = 0;
        while y < witness.len()
            invariant
                y <= witness.len(),
                i < PACKING,
                eq.len() == witness.len(),
                forall|y: int| 0 <= y < eq.len() ==> #[trigger] eq[y] == eq_ind(r_hi@, y),
                f == (|y: int| select(bit128(witness@[y].0, i as int), eq_ind(r_hi@, y))),
                acc == sum(y as int, f),
            decreases witness.len() - y,
        {
            let bit = (witness[y].0 >> (i as u128)) & 1;
            if bit == 1 {
                acc = acc.add(eq[y]);
            } else {
                proof {
                    BinaryField128bGhash::plus_nil(acc);
                }
            }
            y = y + 1;
        }
        r.push(acc);
        i = i + 1;
    }
    r
}

/// Selecting commutes with scaling.
proof fn lemma_select_scale(bit: bool, a: BinaryField128bGhash, b: BinaryField128bGhash)
    ensures
        a.times(select(bit, b)) == select(bit, a.times(b)),
{
    lemma_times_nil(a);
}

/// The partial evaluations recombine: weighted by the indicator of the low coordinates, they add up
/// to the evaluation of the witness's bits at the whole point.
pub proof fn partials_recombine(
    witness: Seq<BinaryField128bGhash>,
    point: Seq<BinaryField128bGhash>,
)
    requires
        point.len() >= LOG_PACKING,
        witness.len() == pow2((point.len() - LOG_PACKING) as nat),
    ensures
        sum(
            PACKING as int,
            |i: int|
                eq_ind(point.take(LOG_PACKING as int), i).times(
                    partial_at(witness, point.skip(LOG_PACKING as int), i),
                ),
        ) == bits_eval(witness, point),
{
    let n = witness.len() as int;
    let lo = point.take(LOG_PACKING as int);
    let hi = point.skip(LOG_PACKING as int);
    lemma2_to64();
    let term = |i: int, y: int| select(bit128(witness[y].0, i), eq_ind(point, y * 128 + i));
    let weighted = |i: int| eq_ind(lo, i).times(partial_at(witness, hi, i));
    let rows = |i: int| sum(n, |y: int| term(i, y));
    assert forall|i: int| 0 <= i < PACKING implies #[trigger] weighted(i) == rows(i) by {
        let f = |y: int| select(bit128(witness[y].0, i), eq_ind(hi, y));
        let c = eq_ind(lo, i);
        lemma_sum_scale(n, c, f);
        let scaled_f = |y: int| c.times(f(y));
        let row = |y: int| term(i, y);
        assert forall|y: int| 0 <= y < n implies #[trigger] scaled_f(y) == row(y) by {
            lemma_select_scale(bit128(witness[y].0, i), c, eq_ind(hi, y));
            let j = y * 128 + i;
            eq_splits(point, LOG_PACKING as int, hi.len() as int, j);
            assert(j / 128 == y);
            lemma_eq_prefix(point, lo, LOG_PACKING as int, j);
            lemma_eq_low_index(lo, i, y);
        }
        lemma_sum_ext(n, scaled_f, row);
    }
    lemma_sum_ext(PACKING as int, weighted, rows);
    lemma_sum_swap(PACKING as int, n, term);
    let cols = |y: int| sum(PACKING as int, |i: int| term(i, y));
    let f = |j: int| select(witness_bit(witness, j), eq_ind(point, j));
    lemma_sum_blocks(n, 128, f);
    let blocks = |y: int| sum(128, |i: int| f(y * 128 + i));
    assert forall|y: int| 0 <= y < n implies #[trigger] cols(y) == blocks(y) by {
        let a = |i: int| term(i, y);
        let b = |i: int| f(y * 128 + i);
        assert forall|i: int| 0 <= i < 128 implies #[trigger] a(i) == b(i) by {
            assert((y * 128 + i) / 128 == y && (y * 128 + i) % 128 == i);
        }
        lemma_sum_ext(128, a, b);
    }
    lemma_sum_ext(n, cols, blocks);
}

/// The low coordinates read the low bits of an index.
proof fn lemma_eq_low_index(lo: Seq<BinaryField128bGhash>, i: int, y: int)
    requires
        lo.len() == LOG_PACKING,
        0 <= i < 128,
        0 <= y,
    ensures
        eq_at(lo, LOG_PACKING as int, y * 128 + i) == eq_ind(lo, i),
{
    lemma2_to64();
    lemma_eq_low(lo, LOG_PACKING as int, LOG_PACKING as int, y, i);
}

} // verus!
