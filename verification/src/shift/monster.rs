//! The wiring multilinear: every key's weight under its shift sequence, word by word.

use vstd::arithmetic::power2::{lemma2_to64, pow2};
use crate::algebra::field::{Field, FieldOps, lemma_sum_scale};
use crate::algebra::group::AdditiveGroup;
use crate::algebra::sum::{lemma_sum_ext, sum};
use crate::constraint_system::{BINMUL_ARITY, BITAND_ARITY, INTMUL_ARITY, Shift, ZERO_ARITY};
use crate::field::packed::PackedField;
use crate::math::eq::{eq_ind, eq_ind_partial_eval_scalars};
use crate::math::field_buffer::FieldBuffer;
use crate::math::index::{is_log2_ceil, lemma_index_bound, log2_ceil_usize};
use crate::prover::fold_word::lemma_padded_len;
use crate::shift::claims::PreparedOperatorClaims;
use crate::shift::g::{key_weight, segment_fits};
use crate::shift::keys::{
    DenseShiftEncoding, KeyCollection, KeyModel, KeySegment, Operation, ShiftSeq, increasing,
    indices_fit, indices_weight,
};
use crate::shift::phase_1::ShiftChallenge;
use vstd::prelude::*;

verus! {

/// The equality weight one shift takes at a slot's challenge point.
pub open spec fn slot_weight<F: FieldOps>(
    amount: Seq<F>,
    variant: Seq<F>,
    shift: Shift,
) -> F {
    eq_ind(variant, shift.variant.position()).times(eq_ind(amount, shift.amount as int))
}

/// The factor every key under one sequence shares.
pub open spec fn sequence_scalar<F: FieldOps>(
    h_eval: F,
    inner: &ShiftChallenge<F>,
    outer: &ShiftChallenge<F>,
    s: ShiftSeq,
) -> F {
    h_eval.times(eq_ind(inner.variant@, s.inner.variant.position())).times(
        eq_ind(inner.amount@, s.inner.amount as int),
    ).times(slot_weight(outer.amount@, outer.variant@, s.outer))
}

/// The operand weights of one sequence: the batching powers scaled by the sequence's factor.
pub open spec fn scaled_powers<F: FieldOps>(powers: Seq<F>, scalar: F) -> Seq<F> {
    Seq::new(powers.len(), |o: int| powers[o].times(scalar))
}

/// What one key adds to its word.
pub open spec fn monster_key<F: Field>(
    key: KeyModel,
    prepared: &PreparedOperatorClaims<F>,
    h_eval: F,
    inner: &ShiftChallenge<F>,
    outer: &ShiftChallenge<F>,
) -> F {
    let data = prepared.of(key.operation);
    indices_weight(
        key.indices,
        data.r_x_prime_tensor@,
        scaled_powers(
            data.lambda_powers@,
            sequence_scalar(h_eval, inner, outer, key.shift_seq),
        ),
    )
}

/// The wiring multilinear at one word.
pub open spec fn monster_word<F: Field>(
    keys: Seq<KeyModel>,
    prepared: &PreparedOperatorClaims<F>,
    h_eval: F,
    inner: &ShiftChallenge<F>,
    outer: &ShiftChallenge<F>,
) -> F {
    sum(keys.len() as int, |k: int| monster_key(keys[k], prepared, h_eval, inner, outer))
}

/// A key's weight is its own weight times its sequence's factor.
pub proof fn monster_factors<F: Field>(
    key: KeyModel,
    prepared: &PreparedOperatorClaims<F>,
    h_eval: F,
    inner: &ShiftChallenge<F>,
    outer: &ShiftChallenge<F>,
)
    requires
        indices_fit(
            key.indices,
            prepared.of(key.operation).r_x_prime_tensor.len() as nat,
            prepared.of(key.operation).lambda_powers.len() as nat,
        ),
    ensures
        monster_key(key, prepared, h_eval, inner, outer) == key_weight(key, prepared).times(
            sequence_scalar(h_eval, inner, outer, key.shift_seq),
        ),
{
    let data = prepared.of(key.operation);
    let (tensor, powers) = (data.r_x_prime_tensor@, data.lambda_powers@);
    let scalar = sequence_scalar(h_eval, inner, outer, key.shift_seq);
    let scaled = scaled_powers(powers, scalar);
    let n = key.indices.len() as int;
    let f = |i: int|
        tensor[key.indices[i].constraint_index as int].times(
            powers[key.indices[i].operand_index as int],
        );
    let g = |i: int|
        tensor[key.indices[i].constraint_index as int].times(
            scaled[key.indices[i].operand_index as int],
        );
    lemma_sum_scale(n, scalar, f);
    let h = |i: int| f(i).times(scalar);
    assert forall|i: int| 0 <= i < n implies #[trigger] g(i) == h(i) by {
        let index = key.indices[i];
        F::times_assoc(
            tensor[index.constraint_index as int],
            powers[index.operand_index as int],
            scalar,
        );
    }
    lemma_sum_ext(n, g, h);
}

/// The scalar weights of one key segment, one table per operation.
///
/// A table holds the operand weights of each sequence in the order of the encoding.
pub struct ScalarTables<F> {
    pub zero: Vec<F>,
    pub bitand: Vec<F>,
    pub intmul: Vec<F>,
    pub binmul: Vec<F>,
}

/// The equality weights of a shift sequence's outer slot.
pub struct OuterSlotWeights<F> {
    /// One weight per shift variant.
    pub variant: Vec<F>,
    /// One weight per shift amount.
    pub amount: Vec<F>,
}

impl<F: Field> OuterSlotWeights<F> {
    /// The weights belong to a challenge point.
    pub open spec fn of(&self, outer: &ShiftChallenge<F>) -> bool {
        &&& self.variant.len() == 8
        &&& self.amount.len() == 64
        &&& forall|i: int| 0 <= i < 8 ==> #[trigger] self.variant[i] == eq_ind(outer.variant@, i)
        &&& forall|i: int| 0 <= i < 64 ==> #[trigger] self.amount[i] == eq_ind(outer.amount@, i)
    }

    /// The equality indicators of a slot's challenge point.
    pub fn new(outer: &ShiftChallenge<F>) -> (r: Self)
        requires
            outer.wf(),
        ensures
            r.of(outer),
    {
        proof {
            lemma2_to64();
        }
        OuterSlotWeights {
            variant: eq_ind_partial_eval_scalars(outer.variant.as_slice()),
            amount: eq_ind_partial_eval_scalars(outer.amount.as_slice()),
        }
    }

    /// The weight one shift contributes to its sequence's scalar.
    pub fn weight(&self, shift: Shift) -> (r: F)
        requires
            self.variant.len() == 8,
            self.amount.len() == 64,
            shift.wf(),
        ensures
            r == self.variant@[shift.variant.position()].times(self.amount@[shift.amount as int]),
    {
        self.variant[shift.variant.to_index()].mul(self.amount[shift.amount as usize])
    }
}

/// A table holds the scaled powers of every sequence.
pub open spec fn table_of<F: Field>(
    table: Seq<F>,
    powers: Seq<F>,
    sequences: Seq<ShiftSeq>,
    h_eval: F,
    inner: &ShiftChallenge<F>,
    outer: &ShiftChallenge<F>,
) -> bool {
    &&& table.len() == sequences.len() * powers.len()
    &&& forall|d: int, o: int|
        0 <= d < sequences.len() && 0 <= o < powers.len() ==> #[trigger] table_entry(
            table,
            powers.len() as int,
            d,
            o,
        ) == powers[o].times(sequence_scalar(h_eval, inner, outer, sequences[d]))
}

/// The entry of sequence `d` for operand `o` in a table of `arity` operands a sequence.
pub open spec fn table_entry<F>(table: Seq<F>, arity: int, d: int, o: int) -> F {
    table[d * arity + o]
}

/// The scalars of one operation, the operand index innermost.
fn build_scalars<F: Field>(
    lambda_powers: &Vec<F>,
    enc: &DenseShiftEncoding,
    h_eval: F,
    inner: &ShiftChallenge<F>,
    outer: &ShiftChallenge<F>,
) -> (r: Vec<F>)
    requires
        increasing(enc.sequences@),
        inner.wf(),
        outer.wf(),
        lambda_powers.len() <= 6,
        enc.sequences.len() * lambda_powers.len() <= usize::MAX,
    ensures
        table_of(r@, lambda_powers@, enc.sequences@, h_eval, inner, outer),
{
    let ghost arity = lambda_powers.len() as int;
    let inner_weights = OuterSlotWeights::new(inner);
    let outer_weights = OuterSlotWeights::new(outer);
    let mut r: Vec<F> = Vec::new();
    let mut d: usize = 0;
    proof {
        assert(0 * arity == 0) by (nonlinear_arith);
    }
    while d < enc.sequences.len()
        invariant
            d <= enc.sequences.len(),
            increasing(enc.sequences@),
            inner_weights.of(inner),
            outer_weights.of(outer),
            arity == lambda_powers.len(),
            r.len() == d * arity,
            forall|e: int, o: int|
                0 <= e < d && 0 <= o < arity ==> #[trigger] table_entry(r@, arity, e, o)
                    == lambda_powers[o].times(
                    sequence_scalar(h_eval, inner, outer, enc.sequences[e]),
                ),
        decreases enc.sequences.len() - d,
    {
        let s = enc.sequences[d];
        assert(enc.sequences[d as int].wf());
        let shift_scalar = h_eval.mul(inner_weights.variant[s.inner.variant.to_index()]).mul(
            inner_weights.amount[s.inner.amount as usize],
        ).mul(outer_weights.weight(s.outer));
        let ghost before = r@;
        let mut o: usize = 0;
        while o < lambda_powers.len()
            invariant
                o <= lambda_powers.len(),
                arity == lambda_powers.len(),
                d < enc.sequences.len(),
                before.len() == d * arity,
                r.len() == d * arity + o,
                shift_scalar == sequence_scalar(h_eval, inner, outer, enc.sequences[d as int]),
                forall|x: int| 0 <= x < before.len() ==> #[trigger] r[x] == before[x],
                forall|p: int|
                    0 <= p < o ==> #[trigger] table_entry(r@, arity, d as int, p)
                        == lambda_powers[p].times(shift_scalar),
            decreases lambda_powers.len() - o,
        {
            let ghost mid = r@;
            r.push(lambda_powers[o].mul(shift_scalar));
            proof {
                assert forall|p: int| 0 <= p < o + 1 implies #[trigger] table_entry(
                    r@,
                    arity,
                    d as int,
                    p,
                ) == lambda_powers[p].times(shift_scalar) by {
                    if p < o {
                        assert(table_entry(r@, arity, d as int, p) == table_entry(
                            mid,
                            arity,
                            d as int,
                            p,
                        ));
                    }
                }
            }
            o = o + 1;
        }
        proof {
            assert((d + 1) * arity == d * arity + arity) by (nonlinear_arith);
            assert forall|e: int, o: int| 0 <= e < d + 1 && 0 <= o < arity implies #[trigger]
                table_entry(r@, arity, e, o) == lambda_powers[o].times(
                sequence_scalar(h_eval, inner, outer, enc.sequences[e]),
            ) by {
                if e < d {
                    lemma_index_bound(e, o, d as int, arity);
                    assert(table_entry(before, arity, e, o) == table_entry(r@, arity, e, o));
                }
            }
        }
        d = d + 1;
    }
    r
}

impl<F: Field> ScalarTables<F> {
    /// One operation's table.
    pub open spec fn table(&self, operation: Operation) -> Seq<F> {
        match operation {
            Operation::Zero => self.zero@,
            Operation::BitwiseAnd => self.bitand@,
            Operation::IntegerMul => self.intmul@,
            Operation::BinMul => self.binmul@,
        }
    }

    /// Every operation's table holds its scaled powers.
    pub open spec fn of(
        &self,
        prepared: &PreparedOperatorClaims<F>,
        sequences: Seq<ShiftSeq>,
        h_eval: F,
        inner: &ShiftChallenge<F>,
        outer: &ShiftChallenge<F>,
    ) -> bool {
        forall|operation: Operation|
            table_of(
                #[trigger] self.table(operation),
                prepared.of(operation).lambda_powers@,
                sequences,
                h_eval,
                inner,
                outer,
            )
    }

    /// One operation's table with its number of operands a sequence.
    fn get(&self, operation: Operation) -> (r: (&Vec<F>, usize))
        ensures
            r.0@ == self.table(operation),
            r.1 == operation.arity(),
    {
        match operation {
            Operation::Zero => (&self.zero, ZERO_ARITY),
            Operation::BitwiseAnd => (&self.bitand, BITAND_ARITY),
            Operation::IntegerMul => (&self.intmul, INTMUL_ARITY),
            Operation::BinMul => (&self.binmul, BINMUL_ARITY),
        }
    }
}

/// The scalar for one word of a segment: the sum of all its keys' weights.
///
/// The keys' weights are summed unreduced and reduced once at the end.
fn word_scalar<F: Field>(
    segment: &KeySegment,
    tables: &ScalarTables<F>,
    prepared: &PreparedOperatorClaims<F>,
    w: usize,
    Ghost(h_eval): Ghost<F>,
    Ghost(inner): Ghost<&ShiftChallenge<F>>,
    Ghost(outer): Ghost<&ShiftChallenge<F>>,
) -> (r: F)
    requires
        segment.wf(),
        prepared.wf(),
        segment_fits(segment, prepared),
        tables.of(prepared, segment.dense_shift_enc.sequences@, h_eval, inner, outer),
        w < segment.key_ranges.len(),
    ensures
        r == monster_word(segment.model()[w as int], prepared, h_eval, inner, outer),
{
    let range = segment.key_ranges[w];
    let ghost own = segment.model()[w as int];
    let ghost f = |k: int| monster_key(own[k], prepared, h_eval, inner, outer);
    let mut wide = F::wide_zero();
    let mut k: usize = range.start as usize;
    while k < range.end as usize
        invariant
            w < segment.key_ranges.len(),
            range == segment.key_ranges[w as int],
            range.start <= k <= range.end <= segment.keys.len(),
            segment.wf(),
            prepared.wf(),
            segment_fits(segment, prepared),
            tables.of(prepared, segment.dense_shift_enc.sequences@, h_eval, inner, outer),
            own == segment.model()[w as int],
            f == (|k: int| monster_key(own[k], prepared, h_eval, inner, outer)),
            F::wide_value(wide) == sum(k - range.start, f),
        decreases range.end - k,
    {
        let key = segment.keys[k];
        let ghost model = segment.key_model(k as int);
        assert(own[k - range.start] == model);
        let (scalars, arity) = tables.get(key.operation);
        let ghost powers = prepared.of(key.operation).lambda_powers@;
        let ghost sequences = segment.dense_shift_enc.sequences@;
        let ghost d = key.dense_shift_idx as int;
        proof {
            assert(table_of(
                tables.table(key.operation),
                powers,
                sequences,
                h_eval,
                inner,
                outer,
            ));
            assert(prepared.of(key.operation).lambda_powers.len() == key.operation.arity());
            lemma_index_bound(d, arity - 1, sequences.len() as int, arity as int);
            assert(powers.len() == arity);
            assert(scalars.len() == sequences.len() * arity);
        }
        let base: usize = key.dense_shift_idx as usize * arity;
        let chunk = vstd::slice::slice_subrange(scalars.as_slice(), base, base + arity);
        proof {
            let scaled = scaled_powers(
                powers,
                sequence_scalar(h_eval, inner, outer, sequences[d]),
            );
            assert forall|o: int| 0 <= o < arity implies #[trigger] chunk@[o] == scaled[o] by {
                assert(table_entry(tables.table(key.operation), powers.len() as int, d, o)
                    == powers[o].times(sequence_scalar(h_eval, inner, outer, sequences[d])));
            }
            assert(chunk@ =~= scaled);
        }
        let tensor = &prepared.index(key.operation).r_x_prime_tensor;
        let term = key.accumulate_wide(
            segment.constraint_indices.as_slice(),
            tensor.as_slice(),
            chunk,
        );
        wide = F::wide_add(wide, term);
        k = k + 1;
    }
    F::reduce(wide)
}

/// The wiring multilinear over one segment's words, zero past the last of them.
pub open spec fn segment_monster<F: Field>(
    segment: &KeySegment,
    prepared: &PreparedOperatorClaims<F>,
    h_eval: F,
    inner: &ShiftChallenge<F>,
    outer: &ShiftChallenge<F>,
    n: nat,
) -> Seq<F> {
    Seq::new(
        n,
        |w: int|
            if w < segment.key_ranges.len() {
                monster_word(segment.model()[w], prepared, h_eval, inner, outer)
            } else {
                F::nil()
            },
    )
}

/// The wiring multilinear of one segment, its words at the base of the buffer.
fn build_segment<F: Field, P: PackedField<Scalar = F>>(
    segment: &KeySegment,
    prepared: &PreparedOperatorClaims<F>,
    h_eval: F,
    inner: &ShiftChallenge<F>,
    outer: &ShiftChallenge<F>,
) -> (r: FieldBuffer<P>)
    requires
        segment.wf(),
        prepared.wf(),
        segment_fits(segment, prepared),
        inner.wf(),
        outer.wf(),
        segment.key_ranges.len() <= isize::MAX,
        6 * segment.dense_shift_enc.sequences.len() <= usize::MAX,
    ensures
        r.wf(),
        is_log2_ceil(segment.key_ranges.len() as nat, r.log_len as nat),
        r.scalars() == segment_monster(
            segment,
            prepared,
            h_eval,
            inner,
            outer,
            pow2(r.log_len as nat),
        ),
{
    let enc = &segment.dense_shift_enc;
    proof {
        let n = enc.sequences.len() as int;
        assert forall|operation: Operation| #[trigger]
            prepared.of(operation).lambda_powers.len() <= 6 && n * prepared.of(
            operation,
        ).lambda_powers.len() <= usize::MAX by {
            let a = prepared.of(operation).lambda_powers.len() as int;
            assert(n * a <= n * 6) by (nonlinear_arith)
                requires
                    n >= 0,
                    a <= 6,
            ;
        }
        assert(prepared.zero == prepared.of(Operation::Zero));
        assert(prepared.bitand == prepared.of(Operation::BitwiseAnd));
        assert(prepared.intmul == prepared.of(Operation::IntegerMul));
        assert(prepared.binmul == prepared.of(Operation::BinMul));
    }
    let tables = ScalarTables {
        zero: build_scalars(&prepared.zero.lambda_powers, enc, h_eval, inner, outer),
        bitand: build_scalars(&prepared.bitand.lambda_powers, enc, h_eval, inner, outer),
        intmul: build_scalars(&prepared.intmul.lambda_powers, enc, h_eval, inner, outer),
        binmul: build_scalars(&prepared.binmul.lambda_powers, enc, h_eval, inner, outer),
    };
    proof {
        assert forall|operation: Operation|
            table_of(
                #[trigger] tables.table(operation),
                prepared.of(operation).lambda_powers@,
                enc.sequences@,
                h_eval,
                inner,
                outer,
            ) by {}
    }
    let n_words = segment.n_words();
    let log_len = log2_ceil_usize(n_words);
    proof {
        lemma_padded_len(n_words as nat, log_len as nat);
    }
    let mut r = FieldBuffer::<P>::zeros(log_len);
    let ghost want = segment_monster(
        segment,
        prepared,
        h_eval,
        inner,
        outer,
        pow2(log_len as nat),
    );
    let mut w: usize = 0;
    while w < n_words
        invariant
            w <= n_words,
            n_words == segment.key_ranges.len(),
            n_words <= pow2(log_len as nat),
            segment.wf(),
            prepared.wf(),
            segment_fits(segment, prepared),
            tables.of(prepared, segment.dense_shift_enc.sequences@, h_eval, inner, outer),
            want == segment_monster(
                segment,
                prepared,
                h_eval,
                inner,
                outer,
                pow2(log_len as nat),
            ),
            r.wf(),
            r.log_len == log_len,
            forall|x: int|
                0 <= x < pow2(log_len as nat) ==> #[trigger] r.scalars()[x] == if x < w {
                    want[x]
                } else {
                    F::nil()
                },
        decreases n_words - w,
    {
        let ghost before = r.scalars();
        let value = word_scalar(
            segment,
            &tables,
            prepared,
            w,
            Ghost(h_eval),
            Ghost(inner),
            Ghost(outer),
        );
        r.set(w, value);
        proof {
            assert forall|x: int| 0 <= x < pow2(log_len as nat) implies #[trigger] r.scalars()[x]
                == (if x < w + 1 {
                want[x]
            } else {
                F::nil()
            }) by {
                if x != w {
                    assert(r.scalars()[x] == before[x]);
                }
            }
        }
        w = w + 1;
    }
    assert(r.scalars() =~= want);
    r
}

/// Builds the wiring multilinear of each segment.
///
/// A word's value is the sum over its keys of the constraint weights scaled by the batching
/// powers, the shift evaluation and the equality weights of both shift slots.
pub fn build_monster_segments<F: Field, P: PackedField<Scalar = F>>(
    key_collection: &KeyCollection,
    prepared: &PreparedOperatorClaims<F>,
    h_eval: F,
    inner: &ShiftChallenge<F>,
    outer: &ShiftChallenge<F>,
) -> (r: (FieldBuffer<P>, FieldBuffer<P>))
    requires
        key_collection.public.wf(),
        key_collection.hidden.wf(),
        prepared.wf(),
        segment_fits(&key_collection.public, prepared),
        segment_fits(&key_collection.hidden, prepared),
        inner.wf(),
        outer.wf(),
        key_collection.public.key_ranges.len() <= isize::MAX,
        key_collection.hidden.key_ranges.len() <= isize::MAX,
        6 * key_collection.public.dense_shift_enc.sequences.len() <= usize::MAX,
        6 * key_collection.hidden.dense_shift_enc.sequences.len() <= usize::MAX,
    ensures
        r.0.wf(),
        r.1.wf(),
        is_log2_ceil(key_collection.public.key_ranges.len() as nat, r.0.log_len as nat),
        is_log2_ceil(key_collection.hidden.key_ranges.len() as nat, r.1.log_len as nat),
        r.0.scalars() == segment_monster(
            &key_collection.public,
            prepared,
            h_eval,
            inner,
            outer,
            pow2(r.0.log_len as nat),
        ),
        r.1.scalars() == segment_monster(
            &key_collection.hidden,
            prepared,
            h_eval,
            inner,
            outer,
            pow2(r.1.log_len as nat),
        ),
{
    let public_monster = build_segment(&key_collection.public, prepared, h_eval, inner, outer);
    let hidden_monster = build_segment(&key_collection.hidden, prepared, h_eval, inner, outer);
    (public_monster, hidden_monster)
}

} // verus!
