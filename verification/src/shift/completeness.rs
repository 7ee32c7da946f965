//! True operand evaluations are what the first rounds of the shift reduction start from.

use vstd::arithmetic::power2::{lemma2_to64, lemma_pow2_adds, lemma_pow2_unfold, pow2};
use crate::algebra::field::{
    Field, FieldOps, lemma_plus_times, lemma_select_plus, lemma_sum_scale, lemma_times_nil, select,
};
use crate::algebra::group::AdditiveGroup;
use crate::algebra::sum::{
    lemma_sum_blocks, lemma_sum_ext, lemma_sum_map, lemma_sum_nil, lemma_sum_plus, lemma_sum_single,
    lemma_sum_swap, sum,
};
use crate::constraint_system::{
    ConstraintSystem, InoutSegment, Shift, ShiftVariant, ShiftedValueIndex,
};
use crate::field::packed::power;
use crate::math::eq::eq_ind;
use crate::math::index::ceil_log2;
use crate::shift::builder::operation_terms;
use crate::shift::claims::{
    OperatorClaims, OperatorData, PreparedOperatorClaims, claims_prepared, prepared_from,
};
use crate::shift::g::{key_term, key_weight, keyed_words, word_term};
use crate::shift::keys::{KeyCollection, KeyModel, KeySegment, Operation, ShiftSeq};
use crate::shift::laws::{
    inner_rounds_continue_the_claim, outer_rounds_continue_the_claim,
    word_rounds_continue_the_claim,
};
use crate::shift::operator::{operator_row, operator_table, row_is_table_slice};
use crate::shift::outer::{dense_h, pushed, table_row};
use crate::shift::phase_2::{ShiftOutput, combined_monster, folded_witness, shift_inputs_fit};
use crate::shift::prove::{
    ShiftRun, claims_cover, dense_g, lemma_place_of_seq_at, lemma_seq_at, segment_g, seq_at,
    shift_messages, shift_run, total_claim,
};
use crate::shift::references::{
    column_sum, key_value, keys_of, keys_value, lemma_operation_references,
    lemma_segments_add_references, operand_sum, references_value, word_value,
};
use crate::shift::shift_ind::{lemma_source_bound, scaled_by};
use crate::sumcheck::evaluate::{folding_evaluates, multilinear_eval};
use crate::sumcheck::product::{dot, lemma_folded_len, product_messages};
use crate::sumcheck::replay::{
    honest_rounds, lemma_messages_len, lemma_replay_join, replay_follows_the_rounds, replayed_claim,
};
use crate::word::Word;
use vstd::prelude::*;

verus! {

/// Bit `k` of a word under a sequence of two shifts.
pub open spec fn shifted_bit(word: Word, s: ShiftSeq, k: int) -> bool {
    let x = s.outer.variant.source(k, s.outer.amount as int);
    x >= 0 && word.bit(s.inner.variant.source(x, s.inner.amount as int))
}

/// A shifted word's bits against 64 scalars.
pub open spec fn shifted_fold<F: FieldOps>(word: Word, s: ShiftSeq, weights: Seq<F>) -> F {
    sum(64, |k: int| select(shifted_bit(word, s, k), weights[k]))
}

/// Bit `k` of an operand: the exclusive-or of its shifted values.
pub open spec fn operand_bit(
    cs: &ConstraintSystem,
    values: Seq<Word>,
    operand: Seq<ShiftedValueIndex>,
    k: int,
) -> bool {
    sum(
        operand.len() as int,
        |t: int|
            shifted_bit(
                values[cs.place(operand[t].value_index)],
                ShiftSeq { inner: operand[t].inner, outer: operand[t].outer },
                k,
            ),
    )
}

/// An operand's bits against 64 scalars.
pub open spec fn operand_fold<F: FieldOps>(
    cs: &ConstraintSystem,
    values: Seq<Word>,
    operand: Seq<ShiftedValueIndex>,
    weights: Seq<F>,
) -> F {
    sum(64, |k: int| select(operand_bit(cs, values, operand, k), weights[k]))
}

/// One operand over all constraints, evaluated at a constraint point and against bit weights.
pub open spec fn operand_eval<F: FieldOps>(
    cs: &ConstraintSystem,
    values: Seq<Word>,
    constraints: Seq<Vec<Vec<ShiftedValueIndex>>>,
    operand_index: int,
    point: Seq<F>,
    weights: Seq<F>,
) -> F {
    sum(
        constraints.len() as int,
        |i: int|
            operand_fold(cs, values, constraints[i]@[operand_index]@, weights).times(
                eq_ind(point, i),
            ),
    )
}

/// One operation's claim holds: every operand evaluates to what is claimed.
pub open spec fn claim_holds<F: FieldOps, const ARITY: usize>(
    cs: &ConstraintSystem,
    values: Seq<Word>,
    constraints: Seq<Vec<Vec<ShiftedValueIndex>>>,
    claim: OperatorData<F, ARITY>,
    weights: Seq<F>,
) -> bool {
    &&& constraints.len() <= pow2(claim.r_x_prime.len() as nat)
    &&& forall|o: int|
        0 <= o < ARITY ==> #[trigger] claim.evals@[o] == operand_eval(
            cs,
            values,
            constraints,
            o,
            claim.r_x_prime@,
            weights,
        )
}

/// Every operation's claim holds.
pub open spec fn claims_hold<F: FieldOps>(
    cs: &ConstraintSystem,
    values: Seq<Word>,
    claims: OperatorClaims<F>,
    weights: Seq<F>,
) -> bool {
    &&& claim_holds(cs, values, cs.zero_constraints@, claims.zero, weights)
    &&& claim_holds(cs, values, cs.and_constraints@, claims.bitand, weights)
    &&& claim_holds(cs, values, cs.imul_constraints@, claims.intmul, weights)
    &&& claim_holds(cs, values, cs.bmul_constraints@, claims.binmul, weights)
}

/// Input bits against pushed weights are output bits against the weights themselves.
proof fn lemma_row_transposes<F: FieldOps>(
    bits: spec_fn(int) -> bool,
    psi: Seq<F>,
    shift: Shift,
)
    requires
        shift.wf(),
    ensures
        sum(
            64,
            |j: int|
                select(bits(j), operator_row(psi, shift.variant, shift.amount as int, j)),
        ) == sum(
            64,
            |k: int|
                select(
                    shift.variant.source(k, shift.amount as int) >= 0 && bits(
                        shift.variant.source(k, shift.amount as int),
                    ),
                    psi[k],
                ),
        ),
{
    let (v, a) = (shift.variant, shift.amount as int);
    let t = |j: int, k: int| select(bits(j) && v.source(k, a) == j, psi[k]);
    let rows = |j: int| select(bits(j), operator_row(psi, v, a, j));
    let spread = |j: int| sum(64, |k: int| t(j, k));
    assert forall|j: int| 0 <= j < 64 implies #[trigger] rows(j) == spread(j) by {
        let g = |k: int| select(v.source(k, a) == j, psi[k]);
        if bits(j) {
            lemma_sum_ext(64, g, |k: int| t(j, k));
        } else {
            lemma_sum_nil(64, |k: int| t(j, k));
        }
    }
    lemma_sum_ext(64, rows, spread);
    lemma_sum_swap(64, 64, t);
    let cols = |k: int| sum(64, |j: int| t(j, k));
    let out = |k: int| select(v.source(k, a) >= 0 && bits(v.source(k, a)), psi[k]);
    assert forall|k: int| 0 <= k < 64 implies #[trigger] cols(k) == out(k) by {
        lemma_source_bound(v, k, a);
        let x = v.source(k, a);
        let col = |j: int| t(j, k);
        if x >= 0 {
            lemma_sum_single(64, col, x);
        } else {
            lemma_sum_nil(64, col);
        }
    }
    lemma_sum_ext(64, cols, out);
}

/// The parts a place among the pushed weights is made of.
proof fn lemma_entry_parts(o: int, v: int, a: int, j: int)
    requires
        0 <= o < 512,
        0 <= v < 8,
        0 <= a < 64,
        0 <= j < 64,
    ensures
        ({
            let x = 32768 * o + 4096 * v + 64 * a + j;
            &&& 0 <= x < 0x1000000
            &&& x / 32768 == o
            &&& (x / 4096) % 8 == v
            &&& (x / 64) % 64 == a
            &&& x % 64 == j
        }),
{
    let x = 32768 * o + 4096 * v + 64 * a + j;
    assert(x / 4096 == 8 * o + v);
    assert(x / 64 == 512 * o + 64 * v + a);
}

/// The entry of the pushed weights at a sequence and a bit position.
proof fn lemma_pushed_entry<F: FieldOps>(s: ShiftSeq, weights: Seq<F>, j: int)
    requires
        s.wf(),
        weights.len() == 64,
        0 <= j < 64,
    ensures
        dense_h(weights)[64 * s.place() + j] == operator_row(
            table_row(operator_table(weights), s.outer.place()),
            s.inner.variant,
            s.inner.amount as int,
            j,
        ),
        table_row(operator_table(weights), s.outer.place())[j] == operator_row(
            weights,
            s.outer.variant,
            s.outer.amount as int,
            j,
        ),
{
    let (v, a, o) = (s.inner.variant.position(), s.inner.amount as int, s.outer.place());
    let table = operator_table(weights);
    let x = 64 * s.place() + j;
    lemma_entry_parts(o, v, a, j);
    assert(x == 32768 * o + 4096 * v + 64 * a + j);
    assert(ShiftVariant::at(v) == s.inner.variant);
    let h = pushed(table);
    assert(h.len() == 0x1000000);
    assert(h[x] == operator_row(
        table_row(table, x / 32768),
        ShiftVariant::at((x / 4096) % 8),
        (x / 64) % 64,
        x % 64,
    ));
    row_is_table_slice(weights, s.outer.variant, s.outer.amount as int, j);
    assert(table_row(table, o)[j] == table[64 * o + j]);
}

/// A word's bits against the weights pushed through a sequence fold the shifted word.
proof fn lemma_sequence_folds<F: FieldOps>(word: Word, s: ShiftSeq, weights: Seq<F>)
    requires
        s.wf(),
        weights.len() == 64,
    ensures
        sum(64, |j: int| select(word.bit(j), dense_h(weights)[64 * s.place() + j]))
            == shifted_fold(word, s, weights),
{
    let row = table_row(operator_table(weights), s.outer.place());
    let h = dense_h(weights);
    let at = 64 * s.place();
    let (vi, ai) = (s.inner.variant, s.inner.amount as int);
    let (vo, ao) = (s.outer.variant, s.outer.amount as int);
    let bits = |j: int| word.bit(j);
    let read = |j: int| select(word.bit(j), h[at + j]);
    let pushed_row = |j: int| select(bits(j), operator_row(row, vi, ai, j));
    assert forall|j: int| 0 <= j < 64 implies #[trigger] read(j) == pushed_row(j) by {
        lemma_pushed_entry(s, weights, j);
    }
    lemma_sum_ext(64, read, pushed_row);
    lemma_row_transposes(bits, row, s.inner);
    let inner_bits = |x: int| vi.source(x, ai) >= 0 && bits(vi.source(x, ai));
    let middle = |x: int| select(vi.source(x, ai) >= 0 && bits(vi.source(x, ai)), row[x]);
    let outer_rows = |x: int| select(inner_bits(x), operator_row(weights, vo, ao, x));
    assert forall|x: int| 0 <= x < 64 implies #[trigger] middle(x) == outer_rows(x) by {
        lemma_pushed_entry(s, weights, x);
    }
    lemma_sum_ext(64, middle, outer_rows);
    lemma_row_transposes(inner_bits, weights, s.outer);
    let second = |k: int|
        select(vo.source(k, ao) >= 0 && inner_bits(vo.source(k, ao)), weights[k]);
    let out = |k: int| select(shifted_bit(word, s, k), weights[k]);
    assert forall|k: int| 0 <= k < 64 implies #[trigger] second(k) == out(k) by {}
    lemma_sum_ext(64, second, out);
}

/// One key against the pushed weights of every sequence and bit position.
proof fn lemma_key_contracts<F: Field>(
    words: Seq<Word>,
    models: Seq<Seq<KeyModel>>,
    prepared: &PreparedOperatorClaims<F>,
    weights: Seq<F>,
    w: int,
    k: int,
)
    requires
        weights.len() == 64,
        models[w][k].shift_seq.wf(),
    ensures
        sum(
            0x1000000,
            |x: int|
                key_term(words, models, prepared, seq_at(x / 64), x % 64, w, k).times(
                    dense_h(weights)[x],
                ),
        ) == key_value(models, prepared, fold_values(words, weights), w, k),
{
    let h = dense_h(weights);
    let key = models[w][k];
    let s = key.shift_seq;
    let weight = key_weight(key, prepared);
    let f = |x: int|
        key_term(words, models, prepared, seq_at(x / 64), x % 64, w, k).times(h[x]);
    lemma_sum_blocks(0x40000, 64, f);
    let block = |p: int| sum(64, |j: int| f(p * 64 + j));
    lemma_seq_at(s);
    let place = s.place();
    assert forall|p: int| 0 <= p < 0x40000 && p != place implies #[trigger] block(p)
        == F::nil() by {
        lemma_place_of_seq_at(p);
        let g = |j: int| f(p * 64 + j);
        assert forall|j: int| 0 <= j < 64 implies #[trigger] g(j) == F::nil() by {
            assert((p * 64 + j) / 64 == p);
            lemma_times_nil(h[p * 64 + j]);
        }
        lemma_sum_nil(64, g);
    }
    lemma_sum_single(0x40000, block, place);
    let g = |j: int| f(place * 64 + j);
    let bits = |j: int| select(words[w].bit(j), h[64 * place + j]);
    lemma_sum_scale(64, weight, bits);
    let out = |j: int| weight.times(bits(j));
    assert forall|j: int| 0 <= j < 64 implies #[trigger] g(j) == out(j) by {
        let x = place * 64 + j;
        assert(x / 64 == place && x % 64 == j);
        lemma_times_nil(weight);
        lemma_times_nil(h[x]);
    }
    lemma_sum_ext(64, g, out);
    lemma_sequence_folds(words[w], s, weights);
}

/// One word against the pushed weights.
proof fn lemma_word_contracts<F: Field>(
    words: Seq<Word>,
    models: Seq<Seq<KeyModel>>,
    prepared: &PreparedOperatorClaims<F>,
    weights: Seq<F>,
    w: int,
)
    requires
        weights.len() == 64,
        forall|k: int| 0 <= k < models[w].len() ==> (#[trigger] models[w][k]).shift_seq.wf(),
    ensures
        sum(
            0x1000000,
            |x: int|
                word_term(words, models, prepared, seq_at(x / 64), x % 64, w).times(
                    dense_h(weights)[x],
                ),
        ) == word_value(models, prepared, fold_values(words, weights), w),
{
    let h = dense_h(weights);
    let n: int = 0x1000000;
    let m = models[w].len() as int;
    let t = |x: int, k: int|
        key_term(words, models, prepared, seq_at(x / 64), x % 64, w, k).times(h[x]);
    let f = |x: int| word_term(words, models, prepared, seq_at(x / 64), x % 64, w).times(h[x]);
    let spread = |x: int| sum(m, |k: int| t(x, k));
    assert forall|x: int| 0 <= x < n implies #[trigger] f(x) == spread(x) by {
        let g = |k: int| key_term(words, models, prepared, seq_at(x / 64), x % 64, w, k);
        lemma_sum_scale(m, h[x], g);
        lemma_sum_ext(m, |k: int| g(k).times(h[x]), |k: int| t(x, k));
    }
    lemma_sum_ext(n, f, spread);
    lemma_sum_swap(n, m, t);
    let by_key = |k: int| sum(n, |x: int| t(x, k));
    let out = |k: int| key_value(models, prepared, fold_values(words, weights), w, k);
    assert forall|k: int| 0 <= k < m implies #[trigger] by_key(k) == out(k) by {
        lemma_key_contracts(words, models, prepared, weights, w, k);
        lemma_sum_ext(
            n,
            |x: int| t(x, k),
            |x: int|
                key_term(words, models, prepared, seq_at(x / 64), x % 64, w, k).times(
                    dense_h(weights)[x],
                ),
        );
    }
    lemma_sum_ext(m, by_key, out);
}

/// One segment's share of the witness multilinear against the pushed weights.
proof fn lemma_segment_contracts<F: Field>(
    segment: &KeySegment,
    words: Seq<Word>,
    prepared: &PreparedOperatorClaims<F>,
    weights: Seq<F>,
)
    requires
        segment.wf(),
        weights.len() == 64,
    ensures
        sum(
            0x1000000,
            |x: int|
                segment_g(segment, words, prepared, x / 64, x % 64).times(dense_h(weights)[x]),
        ) == keys_value(
            segment.model(),
            prepared,
            fold_values(words, weights),
            keyed_words(words, segment),
        ),
{
    let h = dense_h(weights);
    let models = segment.model();
    let n: int = 0x1000000;
    let m = keyed_words(words, segment);
    let t = |x: int, w: int|
        word_term(words, models, prepared, seq_at(x / 64), x % 64, w).times(h[x]);
    let f = |x: int| segment_g(segment, words, prepared, x / 64, x % 64).times(h[x]);
    let spread = |x: int| sum(m, |w: int| t(x, w));
    assert forall|x: int| 0 <= x < n implies #[trigger] f(x) == spread(x) by {
        let g = |w: int| word_term(words, models, prepared, seq_at(x / 64), x % 64, w);
        lemma_sum_scale(m, h[x], g);
        lemma_sum_ext(m, |w: int| g(w).times(h[x]), |w: int| t(x, w));
    }
    lemma_sum_ext(n, f, spread);
    lemma_sum_swap(n, m, t);
    let by_word = |w: int| sum(n, |x: int| t(x, w));
    let out = |w: int|
        word_value(models, prepared, fold_values(words, weights), w);
    assert forall|w: int| 0 <= w < m implies #[trigger] by_word(w) == out(w) by {
        assert forall|k: int| 0 <= k < models[w].len() implies (
        #[trigger] models[w][k]).shift_seq.wf() by {
            let at = segment.key_ranges[w].start + k;
            assert(models[w][k] == segment.key_model(at));
            assert(segment.keys[at].dense_shift_idx < segment.dense_shift_enc.sequences.len());
            assert(segment.dense_shift_enc.sequences[segment.keys[at].dense_shift_idx as int].wf());
        }
        lemma_word_contracts(words, models, prepared, weights, w);
        lemma_sum_ext(
            n,
            |x: int| t(x, w),
            |x: int|
                word_term(words, models, prepared, seq_at(x / 64), x % 64, w).times(
                    dense_h(weights)[x],
                ),
        );
    }
    lemma_sum_ext(m, by_word, out);
}

/// The witness multilinear against the pushed weights adds up what the keys stand for.
proof fn lemma_product_is_keys_value<F: Field>(
    key_collection: &KeyCollection,
    public: Seq<Word>,
    hidden: Seq<Word>,
    prepared: &PreparedOperatorClaims<F>,
    weights: Seq<F>,
)
    requires
        key_collection.public.wf(),
        key_collection.hidden.wf(),
        weights.len() == 64,
    ensures
        dot(dense_g(key_collection, public, hidden, prepared), dense_h(weights)) == keys_value(
            key_collection.public.model(),
            prepared,
            fold_values(public, weights),
            keyed_words(public, &key_collection.public),
        ).plus(
            keys_value(
                key_collection.hidden.model(),
                prepared,
                fold_values(hidden, weights),
                keyed_words(hidden, &key_collection.hidden),
            ),
        ),
{
    let g = dense_g(key_collection, public, hidden, prepared);
    let h = dense_h(weights);
    lemma2_to64();
    lemma_pow2_adds(9, 9);
    let n: int = 0x1000000;
    assert(g.len() == n);
    let fp = |x: int|
        segment_g(&key_collection.public, public, prepared, x / 64, x % 64).times(h[x]);
    let fh = |x: int|
        segment_g(&key_collection.hidden, hidden, prepared, x / 64, x % 64).times(h[x]);
    let f = |x: int| g[x].times(h[x]);
    let both = |x: int| fp(x).plus(fh(x));
    assert forall|x: int| 0 <= x < n implies #[trigger] f(x) == both(x) by {
        lemma_plus_times(
            segment_g(&key_collection.public, public, prepared, x / 64, x % 64),
            segment_g(&key_collection.hidden, hidden, prepared, x / 64, x % 64),
            h[x],
        );
    }
    lemma_sum_ext(n, f, both);
    lemma_sum_plus(n, fp, fh);
    lemma_segment_contracts(&key_collection.public, public, prepared, weights);
    lemma_segment_contracts(&key_collection.hidden, hidden, prepared, weights);
}

/// Folding an operand adds up its shifted values' folds.
proof fn lemma_operand_folds<F: FieldOps>(
    cs: &ConstraintSystem,
    values: Seq<Word>,
    operand: Seq<ShiftedValueIndex>,
    weights: Seq<F>,
)
    ensures
        operand_fold(cs, values, operand, weights) == sum(
            operand.len() as int,
            |t: int|
                shifted_fold(
                    values[cs.place(operand[t].value_index)],
                    ShiftSeq { inner: operand[t].inner, outer: operand[t].outer },
                    weights,
                ),
        ),
{
    let n = operand.len() as int;
    let bit = |k: int, t: int|
        shifted_bit(
            values[cs.place(operand[t].value_index)],
            ShiftSeq { inner: operand[t].inner, outer: operand[t].outer },
            k,
        );
    let term = |k: int, t: int| select(bit(k, t), weights[k]);
    let whole = |k: int| select(operand_bit(cs, values, operand, k), weights[k]);
    let spread = |k: int| sum(n, |t: int| term(k, t));
    assert forall|k: int| 0 <= k < 64 implies #[trigger] whole(k) == spread(k) by {
        let bits = |t: int| bit(k, t);
        let pick = |b: bool| select(b, weights[k]);
        assert forall|a: bool, b: bool| #[trigger] pick(a.plus(b)) == pick(a).plus(pick(b)) by {
            lemma_select_plus(a, b, weights[k]);
        }
        lemma_sum_map(n, bits, pick);
        lemma_sum_ext(
            n,
            bits,
            |t: int|
                shifted_bit(
                    values[cs.place(operand[t].value_index)],
                    ShiftSeq { inner: operand[t].inner, outer: operand[t].outer },
                    k,
                ),
        );
        lemma_sum_ext(n, |t: int| pick(bits(t)), |t: int| term(k, t));
    }
    lemma_sum_ext(64, whole, spread);
    lemma_sum_swap(64, n, term);
    let by_value = |t: int| sum(64, |k: int| term(k, t));
    let out = |t: int|
        shifted_fold(
            values[cs.place(operand[t].value_index)],
            ShiftSeq { inner: operand[t].inner, outer: operand[t].outer },
            weights,
        );
    assert forall|t: int| 0 <= t < n implies #[trigger] by_value(t) == out(t) by {
        lemma_sum_ext(
            64,
            |k: int| term(k, t),
            |k: int|
                select(
                    shifted_bit(
                        values[cs.place(operand[t].value_index)],
                        ShiftSeq { inner: operand[t].inner, outer: operand[t].outer },
                        k,
                    ),
                    weights[k],
                ),
        );
    }
    lemma_sum_ext(n, by_value, out);
}

/// The value a word takes under a sequence: its shifted bits against the weights.
pub open spec fn fold_values<F: FieldOps>(words: Seq<Word>, weights: Seq<F>) -> spec_fn(
    int,
    ShiftSeq,
) -> F {
    |w: int, s: ShiftSeq| shifted_fold(words[w], s, weights)
}

/// The references of an operation whose claim holds add up to the batched claim.
proof fn lemma_operation_claim<F: Field, const ARITY: usize>(
    cs: &ConstraintSystem,
    operation: Operation,
    constraints: Seq<Vec<Vec<ShiftedValueIndex>>>,
    values: Seq<Word>,
    claim: OperatorData<F, ARITY>,
    lambda: F,
    prepared: &PreparedOperatorClaims<F>,
    weights: Seq<F>,
)
    requires
        ARITY <= u8::MAX,
        constraints.len() <= u32::MAX,
        prepared_from(prepared.of(operation), claim, lambda),
        claim_holds(cs, values, constraints, claim, weights),
    ensures
        references_value(
            operation_terms(cs, operation, constraints, ARITY as int),
            prepared,
            fold_values(values, weights),
        ) == prepared.of(operation).batched_eval,
{
    let data = prepared.of(operation);
    let m = constraints.len() as int;
    let value = fold_values(values, weights);
    lemma_operation_references(cs, operation, constraints, ARITY as int, prepared, value);
    let found = |o: int|
        column_sum(cs, constraints, o, value, data.r_x_prime_tensor@, m).times(
            data.lambda_powers@[o],
        );
    let claimed = |o: int| claim.evals@[o].times(power(lambda, (o + 1) as nat));
    assert forall|o: int| 0 <= o < ARITY implies #[trigger] found(o) == claimed(o) by {
        let a = |i: int|
            operand_sum(cs, constraints[i]@[o]@, value).times(data.r_x_prime_tensor@[i]);
        let b = |i: int|
            operand_fold(cs, values, constraints[i]@[o]@, weights).times(
                eq_ind(claim.r_x_prime@, i),
            );
        assert forall|i: int| 0 <= i < m implies #[trigger] a(i) == b(i) by {
            let operand = constraints[i]@[o]@;
            lemma_operand_folds(cs, values, operand, weights);
            lemma_sum_ext(
                operand.len() as int,
                |t: int|
                    value(
                        cs.place(operand[t].value_index),
                        ShiftSeq { inner: operand[t].inner, outer: operand[t].outer },
                    ),
                |t: int|
                    shifted_fold(
                        values[cs.place(operand[t].value_index)],
                        ShiftSeq { inner: operand[t].inner, outer: operand[t].outer },
                        weights,
                    ),
            );
        }
        lemma_sum_ext(m, a, b);
        assert(claim.evals@[o] == operand_eval(
            cs,
            values,
            constraints,
            o,
            claim.r_x_prime@,
            weights,
        ));
        assert(data.lambda_powers@[o] == power(lambda, (o + 1) as nat));
    }
    lemma_sum_ext(ARITY as int, found, claimed);
}

/// Where every operand claim holds of the values, the batched claim is the sum the first rounds
/// prove: the witness multilinear against the weights pushed through every shift sequence.
pub proof fn true_claims_start_the_rounds<F: Field>(
    cs: &ConstraintSystem,
    inout: InoutSegment,
    key_collection: &KeyCollection,
    values: Seq<Word>,
    claims: OperatorClaims<F>,
    coefficients: Seq<F>,
    prepared: &PreparedOperatorClaims<F>,
    weights: Seq<F>,
)
    requires
        cs.wf(),
        keys_of(cs, inout, key_collection),
        values.len() == cs.n_values(),
        weights.len() == 64,
        claims_prepared(*prepared, claims, coefficients),
        claims_hold(cs, values, claims, weights),
    ensures
        dot(
            dense_g(
                key_collection,
                values.take(cs.public_words(inout)),
                values.skip(cs.public_words(inout)),
                prepared,
            ),
            dense_h(weights),
        ) == total_claim(prepared),
{
    let m = cs.public_words(inout);
    let (public, hidden) = (values.take(m), values.skip(m));
    lemma_product_is_keys_value(key_collection, public, hidden, prepared, weights);
    lemma_segments_add_references(
        cs,
        inout,
        key_collection,
        prepared,
        fold_values(values, weights),
        fold_values(public, weights),
        fold_values(hidden, weights),
    );
    lemma_operation_claim(
        cs,
        Operation::Zero,
        cs.zero_constraints@,
        values,
        claims.zero,
        coefficients[0],
        prepared,
        weights,
    );
    lemma_operation_claim(
        cs,
        Operation::BitwiseAnd,
        cs.and_constraints@,
        values,
        claims.bitand,
        coefficients[1],
        prepared,
        weights,
    );
    lemma_operation_claim(
        cs,
        Operation::IntegerMul,
        cs.imul_constraints@,
        values,
        claims.intmul,
        coefficients[2],
        prepared,
        weights,
    );
    lemma_operation_claim(
        cs,
        Operation::BinMul,
        cs.bmul_constraints@,
        values,
        claims.binmul,
        coefficients[3],
        prepared,
        weights,
    );
}

/// Rounds against a scaled list start from the scaled sum and end at the scaled product.
proof fn lemma_scaled_rounds<F: FieldOps>(a: Seq<F>, b: Seq<F>, scale: F, challenges: Seq<F>)
    requires
        a.len() == pow2(challenges.len()),
        b.len() == a.len(),
    ensures
        ({
            let n = challenges.len() as int;
            let point = challenges.reverse();
            let claim = dot(a, b).times(scale);
            replayed_claim(
                claim,
                product_messages(a, scaled_by(b, scale), claim, challenges, n),
                challenges,
                n,
            ) == multilinear_eval(a, point).times(multilinear_eval(b, point)).times(scale)
        }),
{
    let n = challenges.len() as int;
    let len = a.len() as int;
    let point = challenges.reverse();
    let c = scaled_by(b, scale);
    let claim = dot(a, b).times(scale);
    let f = |v: int| a[v].times(b[v]);
    lemma_sum_scale(len, scale, f);
    let scaled = |v: int| f(v).times(scale);
    let own = |v: int| a[v].times(c[v]);
    assert forall|v: int| 0 <= v < len implies #[trigger] scaled(v) == own(v) by {
        F::times_assoc(a[v], b[v], scale);
    }
    lemma_sum_ext(len, scaled, own);
    assert(dot(a, c) == claim);
    replay_follows_the_rounds(a, c, claim, challenges, n);
    honest_rounds(a, c, challenges, n);
    let g = |x: int| b[x].times(eq_ind(point, x));
    lemma_sum_scale(len, scale, g);
    let scaled_g = |x: int| g(x).times(scale);
    let own_g = |x: int| c[x].times(eq_ind(point, x));
    assert forall|x: int| 0 <= x < len implies #[trigger] scaled_g(x) == own_g(x) by {
        let e = eq_ind(point, x);
        F::times_assoc(b[x], e, scale);
        F::times_comm(e, scale);
        F::times_assoc(b[x], scale, e);
    }
    lemma_sum_ext(len, scaled_g, own_g);
    F::times_assoc(multilinear_eval(a, point), multilinear_eval(b, point), scale);
}

/// A run on claims that hold is accepted.
///
/// Whoever follows the run's messages from the batched claim arrives at the product of the
/// witness's and the wiring multilinear's values, which the run reports.
pub proof fn true_claims_are_accepted<F: Field>(
    cs: &ConstraintSystem,
    inout: InoutSegment,
    key_collection: &KeyCollection,
    values: Seq<Word>,
    claims: OperatorClaims<F>,
    weights: Seq<F>,
    t: ShiftRun<F>,
    r: ShiftOutput<F>,
)
    requires
        cs.wf(),
        keys_of(cs, inout, key_collection),
        values.len() == cs.n_values(),
        weights.len() == 64,
        claims_hold(cs, values, claims, weights),
        shift_inputs_fit(
            key_collection,
            values.take(cs.public_words(inout)),
            values.skip(cs.public_words(inout)),
        ),
        claims_cover(&key_collection.public, &claims),
        claims_cover(&key_collection.hidden, &claims),
        shift_run(
            t,
            key_collection,
            values.take(cs.public_words(inout)),
            values.skip(cs.public_words(inout)),
            claims,
            weights,
            r,
        ),
    ensures
        replayed_claim(
            total_claim(&t.prepared),
            shift_messages(
                t,
                key_collection,
                values.take(cs.public_words(inout)),
                values.skip(cs.public_words(inout)),
                weights,
            ),
            t.challenges().skip(4),
            t.challenges().len() - 4,
        ) == r.witness_eval.times(r.monster_eval),
{
    let (public, hidden) = (
        values.take(cs.public_words(inout)),
        values.skip(cs.public_words(inout)),
    );
    let p = t.phase_1;
    let (c1, c2, c3, c4) = (
        t.shift_challenges,
        t.inner_challenges,
        t.outer_challenges,
        t.word_challenges,
    );
    let n4 = c4.len() as int;
    lemma2_to64();
    lemma_pow2_adds(9, 9);
    lemma_pow2_adds(18, 6);
    lemma_pow2_unfold((ceil_log2(hidden.len()) + 1) as nat);
    // The rounds over the shifts and the bit position.
    let g = dense_g(key_collection, public, hidden, &t.prepared);
    let h = dense_h(weights);
    let claim = total_claim(&t.prepared);
    assert(g.len() == pow2(24));
    assert(h.len() == pow2(24));
    true_claims_start_the_rounds(
        cs,
        inout,
        key_collection,
        values,
        claims,
        t.coefficients,
        &t.prepared,
        weights,
    );
    let m1 = product_messages(g, h, claim, c1, 24);
    replay_follows_the_rounds(g, h, claim, c1, 24);
    honest_rounds(g, h, c1, 24);
    folding_evaluates(g, c1);
    folding_evaluates(h, c1);
    assert(replayed_claim(claim, m1, c1, 24) == p.gamma);
    // The rounds over the intermediate bit.
    let b2 = dot(p.psi@, t.inner_indicator()).times(p.g_eval);
    let m2 = product_messages(p.psi@, scaled_by(t.inner_indicator(), p.g_eval), b2, c2, 6);
    inner_rounds_continue_the_claim(p, g, weights, c1);
    lemma_folded_len(operator_table(weights), c1, 9, 15);
    lemma_scaled_rounds(p.psi@, t.inner_indicator(), p.g_eval, c2);
    assert(replayed_claim(b2, m2, c2, 6) == t.inner.eval);
    // The rounds over the output bit.
    let b3 = dot(weights, t.outer_indicator()).times(t.outer_scale());
    let m3 = product_messages(weights, scaled_by(t.outer_indicator(), t.outer_scale()), b3, c3, 6);
    outer_rounds_continue_the_claim(p, g, weights, c1, t.inner_indicator(), t.inner, c2);
    lemma_scaled_rounds(weights, t.outer_indicator(), t.outer_scale(), c3);
    assert(replayed_claim(b3, m3, c3, 6) == t.outer.eval);
    // The rounds over the words.
    let witness = folded_witness(public, hidden, p.r_j@);
    let monster = combined_monster(
        key_collection,
        &t.prepared,
        t.h_eval(),
        &p.inner,
        &p.outer,
    );
    let m4 = product_messages(witness, monster, t.outer.eval, c4, n4);
    word_rounds_continue_the_claim(t, key_collection, public, hidden, claims, weights, r);
    replay_follows_the_rounds(witness, monster, t.outer.eval, c4, n4);
    assert(witness.len() == pow2(c4.len()));
    assert(monster.len() == witness.len());
    honest_rounds(witness, monster, c4, n4);
    // All of them in turn.
    lemma_messages_len(g, h, claim, c1, 24);
    lemma_messages_len(p.psi@, scaled_by(t.inner_indicator(), p.g_eval), b2, c2, 6);
    lemma_messages_len(weights, scaled_by(t.outer_indicator(), t.outer_scale()), b3, c3, 6);
    lemma_messages_len(witness, monster, t.outer.eval, c4, n4);
    lemma_replay_join(claim, m1, m2, c1, c2, 6);
    lemma_replay_join(claim, m1 + m2, m3, c1 + c2, c3, 6);
    lemma_replay_join(claim, m1 + m2 + m3, m4, c1 + c2 + c3, c4, n4);
    assert(t.challenges().skip(4) =~= c1 + c2 + c3 + c4);
}

} // verus!
