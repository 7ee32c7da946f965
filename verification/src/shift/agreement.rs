//! The wiring multilinear the prover builds from keys is the one the verifier evaluates from
//! constraints.

use vstd::arithmetic::power2::{lemma_pow2_unfold, pow2};
use crate::algebra::field::{Field, FieldOps, lemma_sum_scale, lemma_times_nil};
use crate::algebra::group::AdditiveGroup;
use crate::algebra::sum::{lemma_sum_ext, lemma_sum_prefix, lemma_sum_split, lemma_sum_swap, sum};
use crate::constraint_system::{
    ConstraintSystem, InoutSegment, ShiftVariant, ShiftedValueIndex, ValueIndex,
};
use crate::field::packed::power;
use crate::math::eq::eq_ind;
use crate::math::index::{ceil_log2, lemma_ceil_log2_exists, lemma_pow2_split};
use crate::shift::builder::operation_terms;
use crate::shift::claims::{
    OperatorClaims, OperatorData, PreparedOperatorClaims, claims_prepared, prepared_from,
};
use crate::shift::evaluation::{WordTensor, constraint_value, operation_value, term_value};
use crate::shift::g::{key_weight, segment_fits};
use crate::shift::keys::{KeyCollection, KeySegment, Operation, ShiftSeq};
use crate::shift::monster::{monster_factors, monster_key, segment_monster, sequence_scalar};
use crate::shift::phase_1::ShiftChallenge;
use crate::shift::phase_2::combined_monster;
use crate::shift::references::{
    column_sum, key_value, keys_of, keys_value, lemma_operation_references,
    lemma_segments_add_references, operand_sum, references_value, word_value,
};
use crate::sumcheck::evaluate::multilinear_eval;
use vstd::prelude::*;

verus! {

/// Where a word lies in the combined value vector: public words at the base of the lower half,
/// hidden words at the base of the upper half.
pub open spec fn word_position(w: int, n_public: int, half: int) -> int {
    if w < n_public {
        w
    } else {
        half + (w - n_public)
    }
}

/// Tables of shift weights hold the factors of every shift sequence.
pub open spec fn slot_tables<F: FieldOps>(
    inner_table: Seq<F>,
    outer_table: Seq<F>,
    h_eval: F,
    inner: &ShiftChallenge<F>,
    outer: &ShiftChallenge<F>,
) -> bool {
    &&& forall|v: ShiftVariant, amount: int|
        0 <= amount < 64 ==> #[trigger] inner_table[v.position() * 64 + amount] == h_eval.times(
            eq_ind(inner.variant@, v.position()),
        ).times(eq_ind(inner.amount@, amount))
    &&& forall|v: ShiftVariant, amount: int|
        0 <= amount < 64 ==> #[trigger] outer_table[v.position() * 64 + amount] == eq_ind(
            outer.variant@,
            v.position(),
        ).times(eq_ind(outer.amount@, amount))
}

/// Word weights hold the equality weight of every value's position.
pub open spec fn word_weights<F: FieldOps>(
    cs: &ConstraintSystem,
    inout: InoutSegment,
    words: WordTensor<F>,
    r_y: Seq<F>,
    half: int,
) -> bool {
    forall|v: ValueIndex|
        cs.names(v) ==> #[trigger] words.at(v) == eq_ind(
            r_y,
            word_position(cs.place(v), cs.public_words(inout), half),
        )
}

/// The weight of a word under a sequence: the sequence's factor times the position's.
pub open spec fn wiring_values<F: FieldOps>(
    h_eval: F,
    inner: &ShiftChallenge<F>,
    outer: &ShiftChallenge<F>,
    r_y: Seq<F>,
    offset: int,
    n_public: int,
    half: int,
) -> spec_fn(int, ShiftSeq) -> F {
    let (a, b) = (*inner, *outer);
    |w: int, s: ShiftSeq|
        sequence_scalar(h_eval, &a, &b, s).times(
            eq_ind(r_y, word_position(offset + w, n_public, half)),
        )
}

/// One segment's wiring against the equality weights of its positions.
proof fn lemma_segment_wiring<F: Field>(
    segment: &KeySegment,
    prepared: &PreparedOperatorClaims<F>,
    h_eval: F,
    inner: &ShiftChallenge<F>,
    outer: &ShiftChallenge<F>,
    len: int,
    position: spec_fn(int) -> F,
    value: spec_fn(int, ShiftSeq) -> F,
)
    requires
        segment.wf(),
        segment_fits(segment, prepared),
        segment.key_ranges.len() <= len,
        forall|w: int, s: ShiftSeq|
            0 <= w < segment.key_ranges.len() ==> #[trigger] value(w, s) == sequence_scalar(
                h_eval,
                inner,
                outer,
                s,
            ).times(position(w)),
    ensures
        sum(
            len,
            |w: int|
                segment_monster(segment, prepared, h_eval, inner, outer, len as nat)[w].times(
                    position(w),
                ),
        ) == keys_value(
            segment.model(),
            prepared,
            value,
            segment.key_ranges.len() as int,
        ),
{
    let m = segment.key_ranges.len() as int;
    let models = segment.model();
    let monster = segment_monster(segment, prepared, h_eval, inner, outer, len as nat);
    let f = |w: int| monster[w].times(position(w));
    assert forall|w: int| m <= w < len implies #[trigger] f(w) == F::nil() by {
        lemma_times_nil(position(w));
    }
    lemma_sum_prefix(m, len, f);
    let g = |w: int| word_value(models, prepared, value, w);
    assert forall|w: int| 0 <= w < m implies #[trigger] f(w) == g(w) by {
        let n = models[w].len() as int;
        let own = |k: int| monster_key(models[w][k], prepared, h_eval, inner, outer);
        lemma_sum_scale(n, position(w), own);
        let a = |k: int| own(k).times(position(w));
        let b = |k: int| key_value(models, prepared, value, w, k);
        assert forall|k: int| 0 <= k < n implies #[trigger] a(k) == b(k) by {
            let key = models[w][k];
            assert(key == segment.key_model(segment.key_ranges[w].start + k));
            monster_factors(key, prepared, h_eval, inner, outer);
            let scalar = sequence_scalar(h_eval, inner, outer, key.shift_seq);
            assert(value(w, key.shift_seq) == scalar.times(position(w)));
            F::times_assoc(key_weight(key, prepared), scalar, position(w));
        }
        lemma_sum_ext(n, a, b);
    }
    lemma_sum_ext(m, f, g);
}

/// The references of one operation add up to the verifier's evaluation of it.
proof fn lemma_operation_wiring<F: Field, const ARITY: usize>(
    cs: &ConstraintSystem,
    inout: InoutSegment,
    operation: Operation,
    constraints: Seq<Vec<Vec<ShiftedValueIndex>>>,
    claim: OperatorData<F, ARITY>,
    lambda: F,
    prepared: &PreparedOperatorClaims<F>,
    h_eval: F,
    inner: &ShiftChallenge<F>,
    outer: &ShiftChallenge<F>,
    inner_table: Seq<F>,
    outer_table: Seq<F>,
    words: WordTensor<F>,
    r_y: Seq<F>,
    half: int,
)
    requires
        ARITY <= u8::MAX,
        cs.constraints_wf(constraints, ARITY as int),
        constraints.len() <= pow2(claim.r_x_prime.len() as nat),
        prepared_from(prepared.of(operation), claim, lambda),
        slot_tables(inner_table, outer_table, h_eval, inner, outer),
        word_weights(cs, inout, words, r_y, half),
    ensures
        references_value(
            operation_terms(cs, operation, constraints, ARITY as int),
            prepared,
            wiring_values(h_eval, inner, outer, r_y, 0, cs.public_words(inout), half),
        ) == operation_value(
            constraints,
            ARITY as int,
            claim.r_x_prime@,
            lambda,
            inner_table,
            outer_table,
            words,
        ),
{
    let data = prepared.of(operation);
    let m = constraints.len() as int;
    let n = ARITY as int;
    let value = wiring_values(h_eval, inner, outer, r_y, 0, cs.public_words(inout), half);
    let tensor = data.r_x_prime_tensor@;
    lemma_operation_references(cs, operation, constraints, n, prepared, value);
    // Operand by operand, each column distributed over the constraints.
    let part = |o: int, i: int|
        operand_sum(cs, constraints[i]@[o]@, value).times(tensor[i]).times(
            data.lambda_powers@[o],
        );
    let by_operand = |o: int|
        column_sum(cs, constraints, o, value, tensor, m).times(data.lambda_powers@[o]);
    let spread = |o: int| sum(m, |i: int| part(o, i));
    assert forall|o: int| 0 <= o < n implies #[trigger] by_operand(o) == spread(o) by {
        let column = |i: int| operand_sum(cs, constraints[i]@[o]@, value).times(tensor[i]);
        lemma_sum_scale(m, data.lambda_powers@[o], column);
        lemma_sum_ext(
            m,
            |i: int| column(i).times(data.lambda_powers@[o]),
            |i: int| part(o, i),
        );
    }
    lemma_sum_ext(n, by_operand, spread);
    lemma_sum_swap(n, m, part);
    // Constraint by constraint.
    let by_constraint = |i: int| sum(n, |o: int| part(o, i));
    let out = |i: int|
        constraint_value(constraints[i]@, n, lambda, inner_table, outer_table, words).times(
            eq_ind(claim.r_x_prime@, i),
        );
    assert forall|i: int| 0 <= i < m implies #[trigger] by_constraint(i) == out(i) by {
        let weight = eq_ind(claim.r_x_prime@, i);
        assert(tensor[i] == weight);
        let own = |o: int|
            sum(
                constraints[i]@[o]@.len() as int,
                |t: int|
                    term_value(
                        constraints[i]@[o]@[t],
                        o,
                        lambda,
                        inner_table,
                        outer_table,
                        words,
                    ),
            );
        lemma_sum_scale(n, weight, own);
        let parts = |o: int| part(o, i);
        let scaled = |o: int| own(o).times(weight);
        assert forall|o: int| 0 <= o < n implies #[trigger] parts(o) == scaled(o) by {
            lemma_operand_wiring(
                cs,
                inout,
                constraints[i]@[o]@,
                o,
                lambda,
                h_eval,
                inner,
                outer,
                inner_table,
                outer_table,
                words,
                r_y,
                half,
            );
            let s = operand_sum(cs, constraints[i]@[o]@, value);
            let p = power(lambda, (o + 1) as nat);
            assert(data.lambda_powers@[o] == p);
            F::times_assoc(s, weight, p);
            F::times_comm(weight, p);
            F::times_assoc(s, p, weight);
        }
        lemma_sum_ext(n, parts, scaled);
    }
    lemma_sum_ext(m, by_constraint, out);
}

/// One operand's terms as the verifier weighs them.
proof fn lemma_operand_wiring<F: Field>(
    cs: &ConstraintSystem,
    inout: InoutSegment,
    operand: Seq<ShiftedValueIndex>,
    o: int,
    lambda: F,
    h_eval: F,
    inner: &ShiftChallenge<F>,
    outer: &ShiftChallenge<F>,
    inner_table: Seq<F>,
    outer_table: Seq<F>,
    words: WordTensor<F>,
    r_y: Seq<F>,
    half: int,
)
    requires
        0 <= o,
        forall|t: int|
            0 <= t < operand.len() ==> cs.names((#[trigger] operand[t]).value_index)
                && operand[t].wf(),
        slot_tables(inner_table, outer_table, h_eval, inner, outer),
        word_weights(cs, inout, words, r_y, half),
    ensures
        operand_sum(
            cs,
            operand,
            wiring_values(h_eval, inner, outer, r_y, 0, cs.public_words(inout), half),
        ).times(power(lambda, (o + 1) as nat)) == sum(
            operand.len() as int,
            |t: int| term_value(operand[t], o, lambda, inner_table, outer_table, words),
        ),
{
    let value = wiring_values(h_eval, inner, outer, r_y, 0, cs.public_words(inout), half);
    let p = power(lambda, (o + 1) as nat);
    let n = operand.len() as int;
    let own = |t: int|
        value(
            cs.place(operand[t].value_index),
            ShiftSeq { inner: operand[t].inner, outer: operand[t].outer },
        );
    lemma_sum_scale(n, p, own);
    let scaled = |t: int| own(t).times(p);
    let out = |t: int| term_value(operand[t], o, lambda, inner_table, outer_table, words);
    assert forall|t: int| 0 <= t < n implies #[trigger] scaled(t) == out(t) by {
        let svi = operand[t];
        assert(cs.names(svi.value_index) && svi.wf());
        let a = inner_table[svi.inner.variant.position() * 64 + svi.inner.amount as int];
        let b = outer_table[svi.outer.variant.position() * 64 + svi.outer.amount as int];
        let e = words.at(svi.value_index);
        assert(own(t) == a.times(b).times(e));
        // a b e p == a p b e
        F::times_assoc(a.times(b), e, p);
        F::times_comm(e, p);
        F::times_assoc(a.times(b), p, e);
        F::times_assoc(a, b, p);
        F::times_comm(b, p);
        F::times_assoc(a, p, b);
    }
    lemma_sum_ext(n, scaled, out);
}

/// The prover's wiring multilinear at the word point is the sum of the verifier's evaluations,
/// one per operation.
pub proof fn wiring_evaluations_agree<F: Field>(
    cs: &ConstraintSystem,
    inout: InoutSegment,
    key_collection: &KeyCollection,
    claims: OperatorClaims<F>,
    coefficients: Seq<F>,
    prepared: &PreparedOperatorClaims<F>,
    h_eval: F,
    inner: &ShiftChallenge<F>,
    outer: &ShiftChallenge<F>,
    inner_table: Seq<F>,
    outer_table: Seq<F>,
    words: WordTensor<F>,
    r_y: Seq<F>,
)
    requires
        cs.wf(),
        keys_of(cs, inout, key_collection),
        claims_prepared(*prepared, claims, coefficients),
        segment_fits(&key_collection.public, prepared),
        segment_fits(&key_collection.hidden, prepared),
        cs.zero_constraints.len() <= pow2(claims.zero.r_x_prime.len() as nat),
        cs.and_constraints.len() <= pow2(claims.bitand.r_x_prime.len() as nat),
        cs.imul_constraints.len() <= pow2(claims.intmul.r_x_prime.len() as nat),
        cs.bmul_constraints.len() <= pow2(claims.binmul.r_x_prime.len() as nat),
        ({
            let n_public = key_collection.public.key_ranges.len() as nat;
            let n_hidden = key_collection.hidden.key_ranges.len() as nat;
            &&& ceil_log2(n_public) <= ceil_log2(n_hidden)
            &&& r_y.len() == ceil_log2(n_hidden) + 1
            &&& word_weights(cs, inout, words, r_y, pow2(ceil_log2(n_hidden)) as int)
        }),
        slot_tables(inner_table, outer_table, h_eval, inner, outer),
    ensures
        multilinear_eval(
            combined_monster(key_collection, prepared, h_eval, inner, outer),
            r_y,
        ) == operation_value(
            cs.zero_constraints@,
            1,
            claims.zero.r_x_prime@,
            coefficients[0],
            inner_table,
            outer_table,
            words,
        ).plus(
            operation_value(
                cs.and_constraints@,
                3,
                claims.bitand.r_x_prime@,
                coefficients[1],
                inner_table,
                outer_table,
                words,
            ),
        ).plus(
            operation_value(
                cs.imul_constraints@,
                4,
                claims.intmul.r_x_prime@,
                coefficients[2],
                inner_table,
                outer_table,
                words,
            ),
        ).plus(
            operation_value(
                cs.bmul_constraints@,
                6,
                claims.binmul.r_x_prime@,
                coefficients[3],
                inner_table,
                outer_table,
                words,
            ),
        ),
{
    let (public, hidden) = (&key_collection.public, &key_collection.hidden);
    let m = cs.public_words(inout);
    let (lp, lh) = (
        ceil_log2(public.key_ranges.len() as nat),
        ceil_log2(hidden.key_ranges.len() as nat),
    );
    let (np, nh) = (pow2(lp) as int, pow2(lh) as int);
    lemma_ceil_log2_exists(public.key_ranges.len() as nat);
    lemma_ceil_log2_exists(hidden.key_ranges.len() as nat);
    lemma_pow2_unfold((lh + 1) as nat);
    lemma_pow2_split(lp, lh);
    let value = wiring_values(h_eval, inner, outer, r_y, 0, m, nh);
    let hidden_value = wiring_values(h_eval, inner, outer, r_y, m, m, nh);
    lemma_segments_add_references(
        cs,
        inout,
        key_collection,
        prepared,
        value,
        value,
        hidden_value,
    );
    // The combined buffer, half by half.
    let mp = segment_monster(public, prepared, h_eval, inner, outer, pow2(lp));
    let mh = segment_monster(hidden, prepared, h_eval, inner, outer, pow2(lh));
    let whole = combined_monster(key_collection, prepared, h_eval, inner, outer);
    let f = |x: int| whole[x].times(eq_ind(r_y, x));
    lemma_sum_split(nh, nh, f);
    assert forall|x: int| np <= x < nh implies #[trigger] f(x) == F::nil() by {
        lemma_times_nil(eq_ind(r_y, x));
    }
    lemma_sum_prefix(np, nh, f);
    let low = |w: int| eq_ind(r_y, w);
    let high = |w: int| eq_ind(r_y, nh + w);
    lemma_sum_ext(np, f, |w: int| mp[w].times(low(w)));
    lemma_sum_ext(nh, |x: int| f(nh + x), |w: int| mh[w].times(high(w)));
    lemma_segment_wiring(public, prepared, h_eval, inner, outer, np, low, value);
    lemma_segment_wiring(hidden, prepared, h_eval, inner, outer, nh, high, hidden_value);
    lemma_operation_wiring(
        cs,
        inout,
        Operation::Zero,
        cs.zero_constraints@,
        claims.zero,
        coefficients[0],
        prepared,
        h_eval,
        inner,
        outer,
        inner_table,
        outer_table,
        words,
        r_y,
        nh,
    );
    lemma_operation_wiring(
        cs,
        inout,
        Operation::BitwiseAnd,
        cs.and_constraints@,
        claims.bitand,
        coefficients[1],
        prepared,
        h_eval,
        inner,
        outer,
        inner_table,
        outer_table,
        words,
        r_y,
        nh,
    );
    lemma_operation_wiring(
        cs,
        inout,
        Operation::IntegerMul,
        cs.imul_constraints@,
        claims.intmul,
        coefficients[2],
        prepared,
        h_eval,
        inner,
        outer,
        inner_table,
        outer_table,
        words,
        r_y,
        nh,
    );
    lemma_operation_wiring(
        cs,
        inout,
        Operation::BinMul,
        cs.bmul_constraints@,
        claims.binmul,
        coefficients[3],
        prepared,
        h_eval,
        inner,
        outer,
        inner_table,
        outer_table,
        words,
        r_y,
        nh,
    );
}

} // verus!
