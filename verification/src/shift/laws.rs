//! How the phases of the shift reduction fit together.

use vstd::arithmetic::power2::{lemma2_to64, lemma_pow2_adds, pow2};
use crate::algebra::field::{
    Field, FieldOps, lemma_plus_times, lemma_sum_scale, lemma_times_nil, lemma_unit_times, select,
};
use crate::algebra::group::AdditiveGroup;
use crate::algebra::sum::{
    lemma_sum_blocks, lemma_sum_ext, lemma_sum_nil, lemma_sum_plus, lemma_sum_prefix,
    lemma_sum_single, lemma_sum_split, lemma_sum_swap, sum,
};
use crate::math::eq::{eq_at, eq_ind, eq_splits, lemma_eq_low, lemma_eq_prefix};
use crate::math::index::{ceil_log2, lemma_ceil_log2_exists, lemma_pow2_split};
use crate::prover::fold_word::{folded_words, word_fold};
use crate::shift::claims::{OperatorClaims, PreparedOperatorClaims};
use crate::shift::g::{key_term, key_weight, keyed_words, segment_fits, word_term};
use crate::shift::keys::{KeyCollection, KeyModel, KeySegment, ShiftSeq};
use crate::shift::monster::{
    monster_factors, monster_key, monster_word, segment_monster, sequence_scalar, slot_weight,
};
use crate::shift::operator::operator_table;
use crate::shift::outer::{lemma_pushed_last, pushed};
use crate::shift::phase_1::{Phase1Output, ShiftChallenge, lemma_pushed_folded, phase_1_result};
use crate::shift::phase_2::{
    ShiftOutput, combined, combined_monster, folded_witness, shift_inputs_fit,
};
use crate::shift::prove::{
    ShiftRun, claims_cover, dense_g, lemma_claims_cover, lemma_place_of_seq_at, lemma_seq_at,
    segment_g, seq_at, shift_run,
};
use crate::shift::shift_ind::{
    ShiftIndOutput, indicator, indicator_contracts_to_table, shift_ind_result,
};
use crate::sumcheck::evaluate::{folding_evaluates, lemma_fold_evaluates, multilinear_eval};
use crate::sumcheck::product::{dot, folded_high, lemma_folded_len, lemma_product_split};
use crate::word::Word;
use vstd::prelude::*;

verus! {

/// Binding the highest variables first and evaluating the rest evaluates the whole.
pub proof fn folding_then_evaluating<F: FieldOps>(a: Seq<F>, c: Seq<F>, k: int, p: Seq<F>)
    requires
        0 <= k <= c.len(),
        a.len() == pow2((p.len() + k) as nat),
    ensures
        multilinear_eval(folded_high(a, c, k), p) == multilinear_eval(a, p + c.take(k).reverse()),
    decreases k,
{
    if k == 0 {
        assert(p + c.take(0).reverse() =~= p);
    } else {
        let r = c[k - 1];
        let q = p.push(r);
        let b = folded_high(a, c, k - 1);
        lemma_folded_len(a, c, k - 1, (p.len() + k) as nat);
        lemma_fold_evaluates(b, q);
        assert(q.drop_last() =~= p);
        folding_then_evaluating(a, c, k - 1, q);
        assert(q + c.take(k - 1).reverse() =~= p + c.take(k).reverse());
    }
}

/// The rounds over the intermediate bit start from the claim the first phase ended at.
pub proof fn inner_rounds_continue_the_claim<F: FieldOps>(
    r: Phase1Output<F>,
    g: Seq<F>,
    weights: Seq<F>,
    challenges: Seq<F>,
)
    requires
        weights.len() == 64,
        challenges.len() == 24,
        phase_1_result(r, g, weights, challenges),
    ensures
        dot(r.psi@, indicator(r.r_j@, r.inner.amount@, r.inner.variant@)).times(r.g_eval)
            == r.gamma,
{
    let table = operator_table(weights);
    let h = pushed(table);
    lemma2_to64();
    lemma_pushed_folded(table, challenges, 9);
    lemma_pushed_last(r.psi@);
    let rest = challenges.skip(9);
    lemma_product_split(h, h, F::nil(), challenges, 9, 15);
    folding_evaluates(operator_table(r.psi@), rest);
    let point = challenges.reverse();
    assert(rest.reverse() =~= r.r_j@ + r.inner.amount@ + r.inner.variant@);
    indicator_contracts_to_table(r.psi@, r.r_j@, r.inner.amount@, r.inner.variant@);
    F::times_comm(
        dot(r.psi@, indicator(r.r_j@, r.inner.amount@, r.inner.variant@)),
        r.g_eval,
    );
}

/// The rounds over the output bit start from the claim the rounds before them ended at.
pub proof fn outer_rounds_continue_the_claim<F: Field>(
    r: Phase1Output<F>,
    g: Seq<F>,
    weights: Seq<F>,
    challenges: Seq<F>,
    ind: Seq<F>,
    inner: ShiftIndOutput<F>,
    inner_challenges: Seq<F>,
)
    requires
        weights.len() == 64,
        challenges.len() == 24,
        inner_challenges.len() == 6,
        phase_1_result(r, g, weights, challenges),
        shift_ind_result(inner, r.psi@, ind, r.g_eval, inner_challenges),
    ensures
        dot(weights, indicator(inner.point@, r.outer.amount@, r.outer.variant@)).times(
            inner.ind_eval.times(r.g_eval),
        ) == inner.eval,
{
    let table = operator_table(weights);
    lemma2_to64();
    folding_then_evaluating(table, challenges, 9, inner.point@);
    assert(challenges.take(9).reverse() =~= r.outer.amount@ + r.outer.variant@);
    assert(inner.point@ + (r.outer.amount@ + r.outer.variant@) =~= inner.point@ + r.outer.amount@
        + r.outer.variant@);
    indicator_contracts_to_table(weights, inner.point@, r.outer.amount@, r.outer.variant@);
    F::times_assoc(inner.weights_eval, inner.ind_eval, r.g_eval);
}

/// The equality weight of a whole sequence.
pub open spec fn sequence_weight<F: FieldOps>(
    inner: &ShiftChallenge<F>,
    outer: &ShiftChallenge<F>,
    s: ShiftSeq,
) -> F {
    sequence_scalar(F::unit(), inner, outer, s)
}

/// One segment's words against its wiring.
pub open spec fn segment_total<F: Field>(
    segment: &KeySegment,
    words: Seq<Word>,
    prepared: &PreparedOperatorClaims<F>,
    tensor: Seq<F>,
    h_eval: F,
    inner: &ShiftChallenge<F>,
    outer: &ShiftChallenge<F>,
) -> F {
    sum(
        keyed_words(words, segment),
        |w: int|
            word_fold(words[w], tensor).times(
                monster_word(segment.model()[w], prepared, h_eval, inner, outer),
            ),
    )
}

/// The place's share of the equality indicator over a whole point.
proof fn lemma_point_splits<F: FieldOps>(
    r_j: Seq<F>,
    inner: &ShiftChallenge<F>,
    outer: &ShiftChallenge<F>,
    p: int,
    j: int,
)
    requires
        r_j.len() == 6,
        inner.wf(),
        outer.wf(),
        0 <= p < 0x40000,
        0 <= j < 64,
    ensures
        eq_ind(
            r_j + inner.amount@ + inner.variant@ + outer.amount@ + outer.variant@,
            64 * p + j,
        ) == eq_ind(r_j, j).times(sequence_weight(inner, outer, seq_at(p))),
{
    let point = r_j + inner.amount@ + inner.variant@ + outer.amount@ + outer.variant@;
    lemma2_to64();
    let x = 64 * p + j;
    let s = seq_at(p);
    lemma_place_of_seq_at(p);
    let (q, t) = (p % 512, p / 512);
    assert(s.inner.variant.position() == q / 64 && s.inner.amount == q % 64);
    assert(s.outer.variant.position() == t / 64 && s.outer.amount == t % 64);
    let rest = point.skip(6);
    eq_splits(point, 6, 18, x);
    assert(x / 64 == p);
    lemma_eq_prefix(point, r_j, 6, x);
    lemma_eq_low(r_j, 6, 6, p, j);
    // The inner amount.
    let rest2 = rest.skip(6);
    eq_splits(rest, 6, 12, p);
    lemma_eq_prefix(rest, inner.amount@, 6, p);
    assert(p == (p / 64) * 64 + q % 64 && (p / 64) % 8 == q / 64 && (p / 64) / 8 == t);
    lemma_eq_low(inner.amount@, 6, 6, p / 64, q % 64);
    // The inner variant.
    let rest3 = rest2.skip(3);
    eq_splits(rest2, 3, 9, p / 64);
    lemma_eq_prefix(rest2, inner.variant@, 3, p / 64);
    lemma_eq_low(inner.variant@, 3, 3, t, q / 64);
    // The outer slot.
    eq_splits(rest3, 6, 3, t);
    lemma_eq_prefix(rest3, outer.amount@, 6, t);
    lemma_eq_low(outer.amount@, 6, 6, t / 64, t % 64);
    assert(rest3.skip(6) =~= outer.variant@);
    let (a1, v1) = (eq_ind(inner.amount@, q % 64), eq_ind(inner.variant@, q / 64));
    let (a2, v2) = (eq_ind(outer.amount@, t % 64), eq_ind(outer.variant@, t / 64));
    assert(pow2(6) == 64 && pow2(3) == 8);
    assert(eq_at(point, 6, x) == eq_ind(r_j, j)) by {
        assert(p * pow2(6) + j == x);
    }
    assert(eq_at(rest, 6, p) == a1) by {
        assert((p / 64) * pow2(6) + q % 64 == p);
    }
    assert(eq_at(rest2, 3, p / 64) == v1) by {
        assert(t * pow2(3) + q / 64 == p / 64);
    }
    assert(eq_at(rest3, 6, t) == a2) by {
        assert((t / 64) * pow2(6) + t % 64 == t);
    }
    assert(eq_at(rest3.skip(6), 3, t / 64) == v2);
    assert(eq_at(rest3, 9, t) == a2.times(v2));
    assert(eq_at(rest2, 12, p / 64) == v1.times(a2.times(v2)));
    assert(eq_at(rest, 18, p) == a1.times(v1.times(a2.times(v2))));
    assert(eq_ind(point, x) == eq_ind(r_j, j).times(a1.times(v1.times(a2.times(v2)))));
    lemma_unit_times(v1);
    F::times_comm(a2, v2);
    F::times_assoc(a1, v1, v2.times(a2));
    F::times_comm(a1, v1);
}

/// One key against the equality weights of every sequence and bit position.
proof fn lemma_key_evaluates<F: Field>(
    words: Seq<Word>,
    models: Seq<Seq<KeyModel>>,
    prepared: &PreparedOperatorClaims<F>,
    r_j: Seq<F>,
    inner: &ShiftChallenge<F>,
    outer: &ShiftChallenge<F>,
    w: int,
    k: int,
)
    requires
        r_j.len() == 6,
        inner.wf(),
        outer.wf(),
        models[w][k].shift_seq.wf(),
    ensures
        sum(
            0x1000000,
            |x: int|
                key_term(words, models, prepared, seq_at(x / 64), x % 64, w, k).times(
                    eq_ind(
                        r_j + inner.amount@ + inner.variant@ + outer.amount@ + outer.variant@,
                        x,
                    ),
                ),
        ) == word_fold(words[w], Seq::new(64, |j: int| eq_ind(r_j, j))).times(
            key_weight(models[w][k], prepared).times(
                sequence_weight(inner, outer, models[w][k].shift_seq),
            ),
        ),
{
    let point = r_j + inner.amount@ + inner.variant@ + outer.amount@ + outer.variant@;
    let key = models[w][k];
    let s = key.shift_seq;
    let weight = key_weight(key, prepared);
    let tensor = Seq::new(64, |j: int| eq_ind(r_j, j));
    let f = |x: int|
        key_term(words, models, prepared, seq_at(x / 64), x % 64, w, k).times(eq_ind(point, x));
    lemma_sum_blocks(0x40000, 64, f);
    let block = |p: int| sum(64, |j: int| f(p * 64 + j));
    lemma_seq_at(s);
    let place = s.place();
    assert forall|p: int| 0 <= p < 0x40000 && p != place implies #[trigger] block(p)
        == F::nil() by {
        lemma_place_of_seq_at(p);
        let g = |j: int| f(p * 64 + j);
        assert forall|j: int| 0 <= j < 64 implies #[trigger] g(j) == F::nil() by {
            assert((p * 64 + j) / 64 == p);
            lemma_times_nil(eq_ind(point, p * 64 + j));
        }
        lemma_sum_nil(64, g);
    }
    lemma_sum_single(0x40000, block, place);
    let g = |j: int| f(place * 64 + j);
    let e = sequence_weight(inner, outer, s);
    let we = weight.times(e);
    let bits = |j: int| select(words[w].bit(j), tensor[j]);
    lemma_sum_scale(64, we, bits);
    let out = |j: int| bits(j).times(we);
    assert forall|j: int| 0 <= j < 64 implies #[trigger] g(j) == out(j) by {
        let x = place * 64 + j;
        assert(x / 64 == place && x % 64 == j);
        lemma_point_splits(r_j, inner, outer, place, j);
        assert(x == 64 * place + j);
        let ej = eq_ind(r_j, j);
        lemma_times_nil(we);
        lemma_times_nil(ej.times(e));
        F::times_assoc(weight, ej, e);
        F::times_comm(weight, ej);
        F::times_assoc(ej, weight, e);
    }
    lemma_sum_ext(64, g, out);
}

/// One segment's share of the witness multilinear, evaluated.
proof fn lemma_segment_evaluates<F: Field>(
    segment: &KeySegment,
    words: Seq<Word>,
    prepared: &PreparedOperatorClaims<F>,
    r_j: Seq<F>,
    inner: &ShiftChallenge<F>,
    outer: &ShiftChallenge<F>,
)
    requires
        segment.wf(),
        segment_fits(segment, prepared),
        r_j.len() == 6,
        inner.wf(),
        outer.wf(),
    ensures
        sum(
            0x1000000,
            |x: int|
                segment_g(segment, words, prepared, x / 64, x % 64).times(
                    eq_ind(
                        r_j + inner.amount@ + inner.variant@ + outer.amount@ + outer.variant@,
                        x,
                    ),
                ),
        ) == segment_total(
            segment,
            words,
            prepared,
            Seq::new(64, |j: int| eq_ind(r_j, j)),
            F::unit(),
            inner,
            outer,
        ),
{
    let point = r_j + inner.amount@ + inner.variant@ + outer.amount@ + outer.variant@;
    let tensor = Seq::new(64, |j: int| eq_ind(r_j, j));
    let n: int = 0x1000000;
    let m = keyed_words(words, segment);
    let models = segment.model();
    let f = |x: int| segment_g(segment, words, prepared, x / 64, x % 64).times(eq_ind(point, x));
    let t = |x: int, w: int|
        word_term(words, models, prepared, seq_at(x / 64), x % 64, w).times(eq_ind(point, x));
    let spread = |x: int| sum(m, |w: int| t(x, w));
    assert forall|x: int| 0 <= x < n implies #[trigger] f(x) == spread(x) by {
        let g = |w: int| word_term(words, models, prepared, seq_at(x / 64), x % 64, w);
        lemma_sum_scale(m, eq_ind(point, x), g);
        lemma_sum_ext(m, |w: int| g(w).times(eq_ind(point, x)), |w: int| t(x, w));
    }
    lemma_sum_ext(n, f, spread);
    lemma_sum_swap(n, m, t);
    let by_word = |w: int| sum(n, |x: int| t(x, w));
    let out = |w: int|
        word_fold(words[w], tensor).times(
            monster_word(models[w], prepared, F::unit(), inner, outer),
        );
    assert forall|w: int| 0 <= w < m implies #[trigger] by_word(w) == out(w) by {
        lemma_word_evaluates(segment, words, prepared, r_j, inner, outer, w);
        lemma_sum_ext(
            n,
            |x: int| t(x, w),
            |x: int|
                word_term(words, models, prepared, seq_at(x / 64), x % 64, w).times(
                    eq_ind(point, x),
                ),
        );
    }
    lemma_sum_ext(m, by_word, out);
}

/// One word's share of the witness multilinear, evaluated.
proof fn lemma_word_evaluates<F: Field>(
    segment: &KeySegment,
    words: Seq<Word>,
    prepared: &PreparedOperatorClaims<F>,
    r_j: Seq<F>,
    inner: &ShiftChallenge<F>,
    outer: &ShiftChallenge<F>,
    w: int,
)
    requires
        segment.wf(),
        segment_fits(segment, prepared),
        r_j.len() == 6,
        inner.wf(),
        outer.wf(),
        0 <= w < segment.key_ranges.len(),
    ensures
        sum(
            0x1000000,
            |x: int|
                word_term(words, segment.model(), prepared, seq_at(x / 64), x % 64, w).times(
                    eq_ind(
                        r_j + inner.amount@ + inner.variant@ + outer.amount@ + outer.variant@,
                        x,
                    ),
                ),
        ) == word_fold(words[w], Seq::new(64, |j: int| eq_ind(r_j, j))).times(
            monster_word(segment.model()[w], prepared, F::unit(), inner, outer),
        ),
{
    let point = r_j + inner.amount@ + inner.variant@ + outer.amount@ + outer.variant@;
    let tensor = Seq::new(64, |j: int| eq_ind(r_j, j));
    let models = segment.model();
    let keys = models[w];
    let n: int = 0x1000000;
    let m = keys.len() as int;
    let fold = word_fold(words[w], tensor);
    let t = |x: int, k: int|
        key_term(words, models, prepared, seq_at(x / 64), x % 64, w, k).times(eq_ind(point, x));
    let f = |x: int|
        word_term(words, models, prepared, seq_at(x / 64), x % 64, w).times(eq_ind(point, x));
    let spread = |x: int| sum(m, |k: int| t(x, k));
    assert forall|x: int| 0 <= x < n implies #[trigger] f(x) == spread(x) by {
        let g = |k: int| key_term(words, models, prepared, seq_at(x / 64), x % 64, w, k);
        lemma_sum_scale(m, eq_ind(point, x), g);
        lemma_sum_ext(m, |k: int| g(k).times(eq_ind(point, x)), |k: int| t(x, k));
    }
    lemma_sum_ext(n, f, spread);
    lemma_sum_swap(n, m, t);
    let by_key = |k: int| sum(n, |x: int| t(x, k));
    let own = |k: int| monster_key(keys[k], prepared, F::unit(), inner, outer);
    lemma_sum_scale(m, fold, own);
    let out = |k: int| fold.times(own(k));
    assert forall|k: int| 0 <= k < m implies #[trigger] by_key(k) == out(k) by {
        let at = segment.key_ranges[w].start + k;
        assert(keys[k] == segment.key_model(at));
        assert(segment.keys[at].dense_shift_idx < segment.dense_shift_enc.sequences.len());
        assert(segment.dense_shift_enc.sequences[segment.keys[at].dense_shift_idx as int].wf());
        lemma_key_evaluates(words, models, prepared, r_j, inner, outer, w, k);
        lemma_sum_ext(
            n,
            |x: int| t(x, k),
            |x: int|
                key_term(words, models, prepared, seq_at(x / 64), x % 64, w, k).times(
                    eq_ind(point, x),
                ),
        );
        monster_factors(keys[k], prepared, F::unit(), inner, outer);
    }
    lemma_sum_ext(m, by_key, out);
}

/// The witness multilinear at a point is the folded words against the unscaled wiring.
pub proof fn witness_evaluates_to_wiring<F: Field>(
    key_collection: &KeyCollection,
    public: Seq<Word>,
    hidden: Seq<Word>,
    prepared: &PreparedOperatorClaims<F>,
    r_j: Seq<F>,
    inner: &ShiftChallenge<F>,
    outer: &ShiftChallenge<F>,
)
    requires
        key_collection.public.wf(),
        key_collection.hidden.wf(),
        segment_fits(&key_collection.public, prepared),
        segment_fits(&key_collection.hidden, prepared),
        r_j.len() == 6,
        inner.wf(),
        outer.wf(),
    ensures
        ({
            let tensor = Seq::new(64, |j: int| eq_ind(r_j, j));
            multilinear_eval(
                dense_g(key_collection, public, hidden, prepared),
                r_j + inner.amount@ + inner.variant@ + outer.amount@ + outer.variant@,
            ) == segment_total(
                &key_collection.public,
                public,
                prepared,
                tensor,
                F::unit(),
                inner,
                outer,
            ).plus(
                segment_total(
                    &key_collection.hidden,
                    hidden,
                    prepared,
                    tensor,
                    F::unit(),
                    inner,
                    outer,
                ),
            )
        }),
{
    let point = r_j + inner.amount@ + inner.variant@ + outer.amount@ + outer.variant@;
    let g = dense_g(key_collection, public, hidden, prepared);
    lemma2_to64();
    lemma_pow2_adds(9, 9);
    let n: int = 0x1000000;
    assert(g.len() == n);
    let fp = |x: int|
        segment_g(&key_collection.public, public, prepared, x / 64, x % 64).times(
            eq_ind(point, x),
        );
    let fh = |x: int|
        segment_g(&key_collection.hidden, hidden, prepared, x / 64, x % 64).times(
            eq_ind(point, x),
        );
    let f = |x: int| g[x].times(eq_ind(point, x));
    let both = |x: int| fp(x).plus(fh(x));
    assert forall|x: int| 0 <= x < n implies #[trigger] f(x) == both(x) by {
        lemma_plus_times(
            segment_g(&key_collection.public, public, prepared, x / 64, x % 64),
            segment_g(&key_collection.hidden, hidden, prepared, x / 64, x % 64),
            eq_ind(point, x),
        );
    }
    lemma_sum_ext(n, f, both);
    lemma_sum_plus(n, fp, fh);
    lemma_segment_evaluates(&key_collection.public, public, prepared, r_j, inner, outer);
    lemma_segment_evaluates(&key_collection.hidden, hidden, prepared, r_j, inner, outer);
}

/// The product of combined segments is the sum of the segments' products.
proof fn lemma_combined_dot<F: FieldOps>(p1: Seq<F>, h1: Seq<F>, p2: Seq<F>, h2: Seq<F>)
    requires
        p1.len() == p2.len(),
        h1.len() == h2.len(),
        p1.len() <= h1.len(),
    ensures
        dot(combined(p1, h1), combined(p2, h2)) == dot(p1, p2).plus(dot(h1, h2)),
{
    let (m, n) = (p1.len() as int, h1.len() as int);
    let (a, b) = (combined(p1, h1), combined(p2, h2));
    let f = |x: int| a[x].times(b[x]);
    lemma_sum_split(n, n, f);
    assert forall|x: int| m <= x < n implies #[trigger] f(x) == F::nil() by {
        lemma_times_nil(F::nil());
    }
    lemma_sum_prefix(m, n, f);
    lemma_sum_ext(m, f, |v: int| p1[v].times(p2[v]));
    lemma_sum_ext(n, |x: int| f(n + x), |v: int| h1[v].times(h2[v]));
}

/// A segment's folded words against its wiring.
proof fn lemma_segment_dot<F: Field>(
    segment: &KeySegment,
    words: Seq<Word>,
    prepared: &PreparedOperatorClaims<F>,
    tensor: Seq<F>,
    h_eval: F,
    inner: &ShiftChallenge<F>,
    outer: &ShiftChallenge<F>,
    log_len: nat,
)
    requires
        words.len() <= pow2(log_len),
        segment.key_ranges.len() <= pow2(log_len),
    ensures
        dot(
            folded_words(words, tensor, log_len),
            segment_monster(segment, prepared, h_eval, inner, outer, pow2(log_len)),
        ) == segment_total(segment, words, prepared, tensor, h_eval, inner, outer),
{
    let a = folded_words(words, tensor, log_len);
    let b = segment_monster(segment, prepared, h_eval, inner, outer, pow2(log_len));
    let f = |x: int| a[x].times(b[x]);
    let m = keyed_words(words, segment);
    assert forall|x: int| m <= x < pow2(log_len) implies #[trigger] f(x) == F::nil() by {
        lemma_times_nil(a[x]);
        lemma_times_nil(b[x]);
    }
    lemma_sum_prefix(m, pow2(log_len) as int, f);
    lemma_sum_ext(
        m,
        f,
        |w: int|
            word_fold(words[w], tensor).times(
                monster_word(segment.model()[w], prepared, h_eval, inner, outer),
            ),
    );
}

/// The wiring scales by its common factor.
proof fn lemma_segment_total_scales<F: Field>(
    segment: &KeySegment,
    words: Seq<Word>,
    prepared: &PreparedOperatorClaims<F>,
    tensor: Seq<F>,
    h_eval: F,
    inner: &ShiftChallenge<F>,
    outer: &ShiftChallenge<F>,
)
    requires
        segment.wf(),
        segment_fits(segment, prepared),
    ensures
        segment_total(segment, words, prepared, tensor, h_eval, inner, outer) == segment_total(
            segment,
            words,
            prepared,
            tensor,
            F::unit(),
            inner,
            outer,
        ).times(h_eval),
{
    let n = keyed_words(words, segment);
    let models = segment.model();
    let f = |w: int|
        word_fold(words[w], tensor).times(
            monster_word(models[w], prepared, F::unit(), inner, outer),
        );
    lemma_sum_scale(n, h_eval, f);
    let g = |w: int|
        word_fold(words[w], tensor).times(
            monster_word(models[w], prepared, h_eval, inner, outer),
        );
    let h = |w: int| f(w).times(h_eval);
    assert forall|w: int| 0 <= w < n implies #[trigger] g(w) == h(w) by {
        let keys = models[w];
        let m = keys.len() as int;
        let own = |k: int| monster_key(keys[k], prepared, F::unit(), inner, outer);
        lemma_sum_scale(m, h_eval, own);
        let full = |k: int| monster_key(keys[k], prepared, h_eval, inner, outer);
        let out = |k: int| own(k).times(h_eval);
        assert forall|k: int| 0 <= k < m implies #[trigger] full(k) == out(k) by {
            assert(keys[k] == segment.key_model(segment.key_ranges[w].start + k));
            monster_factors(keys[k], prepared, F::unit(), inner, outer);
            monster_factors(keys[k], prepared, h_eval, inner, outer);
            lemma_scalar_factors(h_eval, inner, outer, keys[k].shift_seq);
            F::times_assoc(
                key_weight(keys[k], prepared),
                sequence_weight(inner, outer, keys[k].shift_seq),
                h_eval,
            );
        }
        lemma_sum_ext(m, full, out);
        F::times_assoc(
            word_fold(words[w], tensor),
            monster_word(keys, prepared, F::unit(), inner, outer),
            h_eval,
        );
    }
    lemma_sum_ext(n, g, h);
}

/// A sequence's scalar is its equality weight times the common factor.
proof fn lemma_scalar_factors<F: FieldOps>(
    h_eval: F,
    inner: &ShiftChallenge<F>,
    outer: &ShiftChallenge<F>,
    s: ShiftSeq,
)
    ensures
        sequence_scalar(h_eval, inner, outer, s) == sequence_weight(inner, outer, s).times(h_eval),
{
    let v = eq_ind(inner.variant@, s.inner.variant.position());
    let a = eq_ind(inner.amount@, s.inner.amount as int);
    let o = slot_weight(outer.amount@, outer.variant@, s.outer);
    lemma_unit_times(v);
    F::times_assoc(h_eval, v, a);
    F::times_assoc(h_eval, v.times(a), o);
    F::times_comm(h_eval, v.times(a).times(o));
}

/// The rounds over the words start from the claim the rounds before them ended at.
pub proof fn word_rounds_continue_the_claim<F: Field>(
    t: ShiftRun<F>,
    key_collection: &KeyCollection,
    public: Seq<Word>,
    hidden: Seq<Word>,
    claims: OperatorClaims<F>,
    weights: Seq<F>,
    r: ShiftOutput<F>,
)
    requires
        weights.len() == 64,
        shift_inputs_fit(key_collection, public, hidden),
        claims_cover(&key_collection.public, &claims),
        claims_cover(&key_collection.hidden, &claims),
        shift_run(t, key_collection, public, hidden, claims, weights, r),
    ensures
        dot(
            folded_witness(public, hidden, t.phase_1.r_j@),
            combined_monster(
                key_collection,
                &t.prepared,
                t.h_eval(),
                &t.phase_1.inner,
                &t.phase_1.outer,
            ),
        ) == t.outer.eval,
{
    let p = t.phase_1;
    let tensor = Seq::new(64, |j: int| eq_ind(p.r_j@, j));
    let prepared = &t.prepared;
    let g = dense_g(key_collection, public, hidden, prepared);
    lemma2_to64();
    lemma_pow2_adds(9, 9);
    lemma_pow2_adds(18, 6);
    lemma_ceil_log2_exists(public.len());
    lemma_ceil_log2_exists(hidden.len());
    lemma_ceil_log2_exists(key_collection.public.key_ranges.len() as nat);
    lemma_ceil_log2_exists(key_collection.hidden.key_ranges.len() as nat);
    lemma_claims_cover(&key_collection.public, claims, t.prepared, t.coefficients);
    lemma_claims_cover(&key_collection.hidden, claims, t.prepared, t.coefficients);
    // The witness multilinear at the bound point.
    folding_evaluates(g, t.shift_challenges);
    let point = t.shift_challenges.reverse();
    assert(point =~= p.r_j@ + p.inner.amount@ + p.inner.variant@ + p.outer.amount@
        + p.outer.variant@);
    witness_evaluates_to_wiring(
        key_collection,
        public,
        hidden,
        prepared,
        p.r_j@,
        &p.inner,
        &p.outer,
    );
    // The sum over the words.
    let h = t.h_eval();
    let (lp, lh) = (
        ceil_log2(key_collection.public.key_ranges.len() as nat),
        ceil_log2(key_collection.hidden.key_ranges.len() as nat),
    );
    let (fp, fh) = (folded_words(public, tensor, lp), folded_words(hidden, tensor, lh));
    let (mp, mh) = (
        segment_monster(&key_collection.public, prepared, h, &p.inner, &p.outer, pow2(lp)),
        segment_monster(&key_collection.hidden, prepared, h, &p.inner, &p.outer, pow2(lh)),
    );
    lemma_pow2_split(lp, lh);
    lemma_combined_dot(fp, fh, mp, mh);
    lemma_segment_dot(
        &key_collection.public,
        public,
        prepared,
        tensor,
        h,
        &p.inner,
        &p.outer,
        lp,
    );
    lemma_segment_dot(
        &key_collection.hidden,
        hidden,
        prepared,
        tensor,
        h,
        &p.inner,
        &p.outer,
        lh,
    );
    lemma_segment_total_scales(
        &key_collection.public,
        public,
        prepared,
        tensor,
        h,
        &p.inner,
        &p.outer,
    );
    lemma_segment_total_scales(
        &key_collection.hidden,
        hidden,
        prepared,
        tensor,
        h,
        &p.inner,
        &p.outer,
    );
    let tp = segment_total(
        &key_collection.public,
        public,
        prepared,
        tensor,
        F::unit(),
        &p.inner,
        &p.outer,
    );
    let th = segment_total(
        &key_collection.hidden,
        hidden,
        prepared,
        tensor,
        F::unit(),
        &p.inner,
        &p.outer,
    );
    lemma_plus_times(tp, th, h);
    assert(p.g_eval == tp.plus(th));
    // Both products hold the same four factors.
    let (w, i, j) = (t.outer.weights_eval, t.outer.ind_eval, t.inner.ind_eval);
    F::times_comm(p.g_eval, h);
    F::times_assoc(w.times(i), j, p.g_eval);
}

} // verus!
