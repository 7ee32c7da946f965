//! The shift reduction: every operation's operand claims become one claim on the witness.

use vstd::arithmetic::power2::{lemma2_to64, pow2};
use crate::algebra::field::{Field, FieldOps, select};
use crate::algebra::group::AdditiveGroup;
use crate::algebra::sum::{lemma_sum_ext, lemma_sum_nil, lemma_sum_single, lemma_sum_split, sum};
use crate::constraint_system::{Shift, ShiftVariant};
use crate::field::packed::{PackedField, all_lanes};
use crate::math::index::ceil_log2;
use crate::math::univariate::{BinarySubspace, lagrange_basis, lagrange_evals};
use crate::shift::claims::{
    OperatorClaims, PreparedOperatorClaims, claims_prepared, lemma_prepared_arity,
};
use crate::shift::g::{
    build_g, g_value, key_term, keyed_words, row_indices, segment_fits, word_term,
};
use crate::shift::keys::{
    KeyCollection, KeySegment, Operation, ShiftSeq, indices_fit, lemma_seq_place,
};
use crate::shift::outer::dense_h;
use crate::shift::phase_1::{Phase1Output, phase_1_result, run_phase_1_sumcheck};
use crate::shift::phase_2::{
    ShiftOutput, combined_monster, folded_witness, phase_2_result, prove_phase_2, shift_inputs_fit,
};
use crate::shift::shift_ind::{
    ShiftChallengePoint, ShiftIndOutput, ShiftIndSumcheck, indicator, scaled_by, shift_ind_result,
};
use crate::shift::sparse::{SparseShiftRows, cell, scattered};
use crate::sumcheck::channel::{
    IPProverChannel, ProverEvent, draws, lemma_rounds_join, round_events,
};
use crate::sumcheck::product::{dot, product_messages};
use crate::sumcheck::replay::lemma_messages_len;
use crate::word::Word;
use vstd::prelude::*;

verus! {

/// The shift sequence at a place.
pub open spec fn seq_at(p: int) -> ShiftSeq {
    ShiftSeq { inner: Shift::at(p % 512), outer: Shift::at(p / 512) }
}

/// A sequence's place leads back to it.
pub proof fn lemma_seq_at(s: ShiftSeq)
    requires
        s.wf(),
    ensures
        0 <= s.place() < 0x40000,
        seq_at(s.place()) == s,
{
    let p = s.place();
    assert(p / 512 == s.outer.place() && p % 512 == s.inner.place());
    lemma_shift_at(s.inner);
    lemma_shift_at(s.outer);
}

proof fn lemma_shift_at(s: Shift)
    requires
        s.wf(),
    ensures
        Shift::at(s.place()) == s,
        0 <= s.place() < 512,
{
    assert(s.place() / 64 == s.variant.position() && s.place() % 64 == s.amount);
}

/// A place leads to a sequence with that place.
pub proof fn lemma_place_of_seq_at(p: int)
    requires
        0 <= p < 0x40000,
    ensures
        seq_at(p).wf(),
        seq_at(p).place() == p,
{
    let (i, o) = (p % 512, p / 512);
    assert(ShiftVariant::at(i / 64).position() == i / 64);
    assert(ShiftVariant::at(o / 64).position() == o / 64);
}

/// One segment's share of the witness multilinear at place `p` and bit position `j`.
pub open spec fn segment_g<F: Field>(
    segment: &KeySegment,
    words: Seq<Word>,
    prepared: &PreparedOperatorClaims<F>,
    p: int,
    j: int,
) -> F {
    g_value(words, segment.model(), prepared, seq_at(p), j, keyed_words(words, segment))
}

/// The witness multilinear over every shift sequence and bit position.
pub open spec fn dense_g<F: Field>(
    key_collection: &KeyCollection,
    public: Seq<Word>,
    hidden: Seq<Word>,
    prepared: &PreparedOperatorClaims<F>,
) -> Seq<F> {
    Seq::new(
        pow2(18) * 64,
        |x: int|
            segment_g(&key_collection.public, public, prepared, x / 64, x % 64).plus(
                segment_g(&key_collection.hidden, hidden, prepared, x / 64, x % 64),
            ),
    )
}

/// The rows of one segment add up to its share.
proof fn lemma_segment_rows<F: Field>(
    segment: &KeySegment,
    words: Seq<Word>,
    prepared: &PreparedOperatorClaims<F>,
    cells: Seq<F>,
    p: int,
    j: int,
)
    requires
        segment.wf(),
        0 <= p < 0x40000,
        0 <= j < 64,
        forall|d: int|
            0 <= d < segment.dense_shift_enc.sequences.len() ==> #[trigger] cell(cells, d, j)
                == g_value(
                words,
                segment.model(),
                prepared,
                segment.dense_shift_enc.sequences[d],
                j,
                keyed_words(words, segment),
            ),
    ensures
        sum(
            segment.dense_shift_enc.sequences.len() as int,
            |d: int|
                select(
                    row_indices(segment.dense_shift_enc.sequences@)[d] as int == p,
                    cell(cells, d, j),
                ),
        ) == segment_g(segment, words, prepared, p, j),
{
    let enc = segment.dense_shift_enc.sequences@;
    let n = enc.len() as int;
    let s = seq_at(p);
    lemma_place_of_seq_at(p);
    let f = |d: int| select(row_indices(enc)[d] as int == p, cell(cells, d, j));
    assert forall|d: int| 0 <= d < n implies row_indices(enc)[d] as int == (
    #[trigger] enc[d]).place() by {
        assert(enc[d].wf());
        lemma_seq_at(enc[d]);
    }
    if enc.contains(s) {
        let d = choose|d: int| 0 <= d < n && enc[d] == s;
        assert forall|e: int| 0 <= e < n && e != d implies #[trigger] f(e) == F::nil() by {
            if e < d {
                assert(enc[e].place() < enc[d].place());
            } else {
                assert(enc[d].place() < enc[e].place());
            }
        }
        lemma_sum_single(n, f, d);
        assert(f(d) == cell(cells, d, j));
    } else {
        assert forall|d: int| 0 <= d < n implies #[trigger] f(d) == F::nil() by {
            if enc[d].place() == p {
                assert(enc[d].wf());
                lemma_seq_place(enc[d], s);
                assert(enc.contains(s));
            }
        }
        lemma_sum_nil(n, f);
        // No key names the sequence.
        let m = keyed_words(words, segment);
        let models = segment.model();
        let g = |w: int| word_term(words, models, prepared, s, j, w);
        assert forall|w: int| 0 <= w < m implies #[trigger] g(w) == F::nil() by {
            let h = |k: int| key_term(words, models, prepared, s, j, w, k);
            let range = segment.key_ranges[w];
            assert forall|k: int| 0 <= k < models[w].len() implies #[trigger] h(k) == F::nil() by {
                let key = segment.keys[range.start + k];
                assert(models[w][k] == segment.key_model(range.start + k));
                assert(enc[key.dense_shift_idx as int] == models[w][k].shift_seq);
            }
            lemma_sum_nil(models[w].len() as int, h);
        }
        lemma_sum_nil(m, g);
    }
}

/// The collected rows are the witness multilinear.
proof fn lemma_dense_g<F: Field>(
    key_collection: &KeyCollection,
    public: Seq<Word>,
    hidden: Seq<Word>,
    prepared: &PreparedOperatorClaims<F>,
    public_cells: Seq<F>,
    hidden_cells: Seq<F>,
)
    requires
        key_collection.public.wf(),
        key_collection.hidden.wf(),
        public_cells.len() == 64 * key_collection.public.dense_shift_enc.sequences.len(),
        hidden_cells.len() == 64 * key_collection.hidden.dense_shift_enc.sequences.len(),
        forall|d: int, j: int|
            0 <= d < key_collection.public.dense_shift_enc.sequences.len() && 0 <= j < 64
                ==> #[trigger] cell(public_cells, d, j) == g_value(
                public,
                key_collection.public.model(),
                prepared,
                key_collection.public.dense_shift_enc.sequences[d],
                j,
                keyed_words(public, &key_collection.public),
            ),
        forall|d: int, j: int|
            0 <= d < key_collection.hidden.dense_shift_enc.sequences.len() && 0 <= j < 64
                ==> #[trigger] cell(hidden_cells, d, j) == g_value(
                hidden,
                key_collection.hidden.model(),
                prepared,
                key_collection.hidden.dense_shift_enc.sequences[d],
                j,
                keyed_words(hidden, &key_collection.hidden),
            ),
    ensures
        scattered(
            row_indices(key_collection.public.dense_shift_enc.sequences@) + row_indices(
                key_collection.hidden.dense_shift_enc.sequences@,
            ),
            public_cells + hidden_cells,
            pow2(18),
        ) == dense_g(key_collection, public, hidden, prepared),
{
    let (pe, he) = (
        key_collection.public.dense_shift_enc.sequences@,
        key_collection.hidden.dense_shift_enc.sequences@,
    );
    let (m, n) = (pe.len() as int, he.len() as int);
    let indices = row_indices(pe) + row_indices(he);
    let cells = public_cells + hidden_cells;
    let lhs = scattered(indices, cells, pow2(18));
    let rhs = dense_g(key_collection, public, hidden, prepared);
    lemma2_to64();
    assert forall|x: int| 0 <= x < lhs.len() implies #[trigger] lhs[x] == rhs[x] by {
        let (p, j) = (x / 64, x % 64);
        let f = |t: int| select(indices[t] as int == p, cells[64 * t + j]);
        lemma_sum_split(m, n, f);
        let fp = |d: int| select(row_indices(pe)[d] as int == p, cell(public_cells, d, j));
        let fh = |d: int| select(row_indices(he)[d] as int == p, cell(hidden_cells, d, j));
        assert forall|d: int| 0 <= d < m implies #[trigger] f(d) == fp(d) by {
            assert(cells[64 * d + j] == public_cells[64 * d + j]);
        }
        lemma_sum_ext(m, f, fp);
        let up = |d: int| f(m + d);
        assert forall|d: int| 0 <= d < n implies #[trigger] up(d) == fh(d) by {
            assert(cells[64 * (m + d) + j] == hidden_cells[64 * d + j]);
        }
        lemma_sum_ext(n, up, fh);
        lemma_segment_rows(&key_collection.public, public, prepared, public_cells, p, j);
        lemma_segment_rows(&key_collection.hidden, hidden, prepared, hidden_cells, p, j);
    }
    assert(lhs =~= rhs);
}

/// Proves the first phase: builds the witness multilinear and runs its rounds.
pub fn prove_phase_1<F: Field, P: PackedField<Scalar = F>, C: IPProverChannel<F>>(
    key_collection: &KeyCollection,
    public_words: &[Word],
    hidden_words: &[Word],
    prepared: &PreparedOperatorClaims<F>,
    oblong_weights: &[F],
    channel: &mut C,
) -> (r: Phase1Output<F>)
    requires
        P::LOG_WIDTH <= 3,
        shift_inputs_fit(key_collection, public_words@, hidden_words@),
        segment_fits(&key_collection.public, prepared),
        segment_fits(&key_collection.hidden, prepared),
        oblong_weights.len() == 64,
        old(channel).can_draw(24),
    ensures
        final(channel).drawn().len() == old(channel).drawn().len() + 24,
        final(channel).drawn().take(old(channel).drawn().len() as int) == old(channel).drawn(),
        ({
            let c = final(channel).drawn().skip(old(channel).drawn().len() as int);
            let g = dense_g(key_collection, public_words@, hidden_words@, prepared);
            &&& final(channel).transcript() == old(channel).transcript() + round_events(
                product_messages(g, dense_h(oblong_weights@), total_claim(prepared), c, 24),
                c,
                24,
            )
            &&& final(channel).sent() == old(channel).sent() + product_messages(
                g,
                dense_h(oblong_weights@),
                total_claim(prepared),
                c,
                24,
            )
            &&& phase_1_result(r, g, oblong_weights@, c)
        }),
        r.psi.len() == 64,
        r.r_j.len() == 6,
        r.inner.wf(),
        r.outer.wf(),
        forall|m: nat|
            m >= 24 && #[trigger] old(channel).can_draw(m) ==> final(channel).can_draw(
                (m - 24) as nat,
            ),
{
    let public = build_g::<F, P>(public_words, &key_collection.public, prepared);
    let hidden = build_g::<F, P>(hidden_words, &key_collection.hidden, prepared);
    let g = SparseShiftRows::from_segments(
        &public,
        &key_collection.public.dense_shift_enc,
        &hidden,
        &key_collection.hidden.dense_shift_enc,
    );
    proof {
        lemma_dense_g(
            key_collection,
            public_words@,
            hidden_words@,
            prepared,
            all_lanes(public@),
            all_lanes(hidden@),
        );
    }
    run_phase_1_sumcheck(g, oblong_weights, prepared.batched_eval(), channel)
}

/// The four operations' claims collapsed into one.
pub open spec fn total_claim<F: Field>(prepared: &PreparedOperatorClaims<F>) -> F {
    prepared.zero.batched_eval.plus(prepared.bitand.batched_eval).plus(
        prepared.intmul.batched_eval,
    ).plus(prepared.binmul.batched_eval)
}

/// The number of constraint weights an operation's claim expands to.
pub open spec fn n_weights<F>(claims: &OperatorClaims<F>, operation: Operation) -> nat {
    match operation {
        Operation::Zero => pow2(claims.zero.r_x_prime.len() as nat),
        Operation::BitwiseAnd => pow2(claims.bitand.r_x_prime.len() as nat),
        Operation::IntegerMul => pow2(claims.intmul.r_x_prime.len() as nat),
        Operation::BinMul => pow2(claims.binmul.r_x_prime.len() as nat),
    }
}

/// Every key's constraint indices lie within its operation's claim.
pub open spec fn claims_cover<F>(segment: &KeySegment, claims: &OperatorClaims<F>) -> bool {
    forall|k: int|
        0 <= k < segment.keys.len() ==> {
            let key = #[trigger] segment.key_model(k);
            indices_fit(key.indices, n_weights(claims, key.operation), key.operation.arity())
        }
}

/// Everything one run of the reduction draws and computes on the way.
pub struct ShiftRun<F> {
    /// The batching coefficients.
    pub coefficients: Seq<F>,
    /// The claims with the coefficients folded in.
    pub prepared: PreparedOperatorClaims<F>,
    /// The challenges of the rounds over the shifts and the bit position.
    pub shift_challenges: Seq<F>,
    /// What those rounds leave.
    pub phase_1: Phase1Output<F>,
    /// The challenges of the rounds over the intermediate bit.
    pub inner_challenges: Seq<F>,
    /// What those rounds leave.
    pub inner: ShiftIndOutput<F>,
    /// The challenges of the rounds over the output bit.
    pub outer_challenges: Seq<F>,
    /// What those rounds leave.
    pub outer: ShiftIndOutput<F>,
    /// The challenges of the rounds over the words.
    pub word_challenges: Seq<F>,
}

impl<F: Field> ShiftRun<F> {
    /// Every challenge in the order drawn.
    pub open spec fn challenges(&self) -> Seq<F> {
        self.coefficients + self.shift_challenges + self.inner_challenges + self.outer_challenges
            + self.word_challenges
    }

    /// The inner shift's indicator.
    pub open spec fn inner_indicator(&self) -> Seq<F> {
        indicator(
            self.phase_1.r_j@,
            self.phase_1.inner.amount@,
            self.phase_1.inner.variant@,
        )
    }

    /// The outer shift's indicator.
    pub open spec fn outer_indicator(&self) -> Seq<F> {
        indicator(
            self.inner.point@,
            self.phase_1.outer.amount@,
            self.phase_1.outer.variant@,
        )
    }

    /// The constant carried through the rounds over the output bit.
    pub open spec fn outer_scale(&self) -> F {
        self.inner.ind_eval.times(self.phase_1.g_eval)
    }

    /// The factor the wiring multilinear is scaled by.
    pub open spec fn h_eval(&self) -> F {
        self.outer.weights_eval.times(self.outer.ind_eval).times(self.inner.ind_eval)
    }
}

/// The steps of a run follow from its inputs and its challenges.
pub open spec fn shift_run<F: Field>(
    t: ShiftRun<F>,
    key_collection: &KeyCollection,
    public: Seq<Word>,
    hidden: Seq<Word>,
    claims: OperatorClaims<F>,
    weights: Seq<F>,
    r: ShiftOutput<F>,
) -> bool {
    &&& t.coefficients.len() == 4
    &&& t.shift_challenges.len() == 24
    &&& t.inner_challenges.len() == 6
    &&& t.outer_challenges.len() == 6
    &&& t.word_challenges.len() == ceil_log2(hidden.len()) + 1
    &&& claims_prepared(t.prepared, claims, t.coefficients)
    &&& phase_1_result(
        t.phase_1,
        dense_g(key_collection, public, hidden, &t.prepared),
        weights,
        t.shift_challenges,
    )
    &&& shift_ind_result(
        t.inner,
        t.phase_1.psi@,
        t.inner_indicator(),
        t.phase_1.g_eval,
        t.inner_challenges,
    )
    &&& shift_ind_result(
        t.outer,
        weights,
        t.outer_indicator(),
        t.outer_scale(),
        t.outer_challenges,
    )
    &&& phase_2_result(
        r,
        folded_witness(public, hidden, t.phase_1.r_j@),
        combined_monster(
            key_collection,
            &t.prepared,
            t.h_eval(),
            &t.phase_1.inner,
            &t.phase_1.outer,
        ),
        t.phase_1.r_j@,
        t.word_challenges,
    )
}

/// Everything a run sends.
pub open spec fn shift_messages<F: Field>(
    t: ShiftRun<F>,
    key_collection: &KeyCollection,
    public: Seq<Word>,
    hidden: Seq<Word>,
    weights: Seq<F>,
) -> Seq<F> {
    product_messages(
        dense_g(key_collection, public, hidden, &t.prepared),
        dense_h(weights),
        total_claim(&t.prepared),
        t.shift_challenges,
        24,
    ) + product_messages(
        t.phase_1.psi@,
        scaled_by(t.inner_indicator(), t.phase_1.g_eval),
        dot(t.phase_1.psi@, t.inner_indicator()).times(t.phase_1.g_eval),
        t.inner_challenges,
        6,
    ) + product_messages(
        weights,
        scaled_by(t.outer_indicator(), t.outer_scale()),
        dot(weights, t.outer_indicator()).times(t.outer_scale()),
        t.outer_challenges,
        6,
    ) + product_messages(
        folded_witness(public, hidden, t.phase_1.r_j@),
        combined_monster(
            key_collection,
            &t.prepared,
            t.h_eval(),
            &t.phase_1.inner,
            &t.phase_1.outer,
        ),
        t.outer.eval,
        t.word_challenges,
        (ceil_log2(hidden.len()) + 1) as int,
    )
}

/// Everything a run sends and draws, in order: the batching coefficients, and then in each round
/// its message before its challenge.
pub open spec fn shift_events<F: Field>(
    t: ShiftRun<F>,
    key_collection: &KeyCollection,
    public: Seq<Word>,
    hidden: Seq<Word>,
    weights: Seq<F>,
) -> Seq<ProverEvent<F>> {
    draws(t.coefficients) + round_events(
        shift_messages(t, key_collection, public, hidden, weights),
        t.challenges().skip(4),
        t.challenges().len() - 4,
    )
}

/// The events of four stages, one after the other.
proof fn lemma_stages_join<F>(
    m: (Seq<F>, Seq<F>, Seq<F>, Seq<F>),
    c: (Seq<F>, Seq<F>, Seq<F>, Seq<F>),
)
    requires
        m.0.len() == 2 * c.0.len(),
        m.1.len() == 2 * c.1.len(),
        m.2.len() == 2 * c.2.len(),
        m.3.len() == 2 * c.3.len(),
    ensures
        round_events(
            m.0 + m.1 + m.2 + m.3,
            c.0 + c.1 + c.2 + c.3,
            (c.0.len() + c.1.len() + c.2.len() + c.3.len()) as int,
        ) == round_events(m.0, c.0, c.0.len() as int) + round_events(m.1, c.1, c.1.len() as int)
            + round_events(m.2, c.2, c.2.len() as int) + round_events(m.3, c.3, c.3.len() as int),
{
    lemma_rounds_join(m.0, m.1, c.0, c.1, c.1.len() as int);
    lemma_rounds_join(m.0 + m.1, m.2, c.0 + c.1, c.2, c.2.len() as int);
    lemma_rounds_join(m.0 + m.1 + m.2, m.3, c.0 + c.1 + c.2, c.3, c.3.len() as int);
}

/// Proves the reduction of every operation's claims to one claim on the witness.
///
/// The rounds bind both shift slots and the bit position, then the bit index where the two shift
/// indicators meet, then the output bit the oblong weights attach to, and last the word index.
#[verifier::rlimit(40)]
pub fn prove<F: Field, P: PackedField<Scalar = F>, C: IPProverChannel<F>>(
    key_collection: &KeyCollection,
    public_words: &[Word],
    hidden_words: &[Word],
    claims: OperatorClaims<F>,
    domain_subspace: &BinarySubspace<F>,
    channel: &mut C,
) -> (r: ShiftOutput<F>)
    requires
        P::LOG_WIDTH <= 3,
        claims.wf(),
        shift_inputs_fit(key_collection, public_words@, hidden_words@),
        claims_cover(&key_collection.public, &claims),
        claims_cover(&key_collection.hidden, &claims),
        domain_subspace.basis.len() == 6,
        old(channel).can_draw(41 + ceil_log2(hidden_words.len() as nat)),
    ensures
        ({
            let weights = lagrange_basis(domain_subspace.basis@, claims.bitand.r_zhat_prime);
            exists|t: ShiftRun<F>| #[trigger]
                shift_run(
                    t,
                    key_collection,
                    public_words@,
                    hidden_words@,
                    claims,
                    weights,
                    r,
                ) && final(channel).drawn() == old(channel).drawn() + t.challenges() && final(channel).sent() == old(channel).sent() + shift_messages(
                    t,
                    key_collection,
                    public_words@,
                    hidden_words@,
                    weights,
                ) && final(channel).transcript() == old(channel).transcript() + shift_events(
                    t,
                    key_collection,
                    public_words@,
                    hidden_words@,
                    weights,
                )
        }),
{
    let ghost s0 = *channel;
    let ghost n = ceil_log2(hidden_words.len() as nat);
    proof {
        lemma2_to64();
        channel.can_draw_fewer(4, 41 + n);
    }
    let prepared = claims.prepare(channel);
    let ghost s1 = *channel;
    let ghost coefficients = choose|c: Seq<F>| #[trigger]
        claims_prepared(prepared, claims, c) && c.len() == 4 && s1.drawn() == s0.drawn() + c
            && s1.transcript() == s0.transcript() + draws(c);
    proof {
        assert(s1.can_draw((41 + n - 4) as nat));
        s1.can_draw_fewer(24, 37 + n);
        lemma_prepared_arity(prepared, claims, coefficients);
        lemma_claims_cover(&key_collection.public, claims, prepared, coefficients);
        lemma_claims_cover(&key_collection.hidden, claims, prepared, coefficients);
    }
    let oblong_weights = lagrange_evals(domain_subspace, prepared.bitand.r_zhat_prime);
    let phase_1 = prove_phase_1::<F, P, C>(
        key_collection,
        public_words,
        hidden_words,
        &prepared,
        oblong_weights.as_slice(),
        channel,
    );
    let ghost s2 = *channel;
    proof {
        assert(s2.can_draw((37 + n - 24) as nat));
        s2.can_draw_fewer(6, 13 + n);
    }
    let inner = ShiftIndSumcheck::new(
        &phase_1.psi,
        &ShiftChallengePoint::new(&phase_1.r_j, &phase_1.inner),
        phase_1.g_eval,
    );
    let inner_output = inner.prove::<P, C>(channel);
    let ghost s3 = *channel;
    proof {
        assert(s3.can_draw((13 + n - 6) as nat));
        s3.can_draw_fewer(6, 7 + n);
    }
    let outer = ShiftIndSumcheck::new(
        &oblong_weights,
        &ShiftChallengePoint::new(&inner_output.point, &phase_1.outer),
        inner_output.ind_eval.mul(phase_1.g_eval),
    );
    let outer_output = outer.prove::<P, C>(channel);
    let ghost s4 = *channel;
    proof {
        assert(s4.can_draw((7 + n - 6) as nat));
    }
    let h_eval = outer_output.weights_eval.mul(outer_output.ind_eval).mul(inner_output.ind_eval);
    let ghost phase_1_kept = phase_1;
    let r = prove_phase_2::<F, P, C>(
        key_collection,
        public_words,
        hidden_words,
        &prepared,
        phase_1,
        h_eval,
        outer_output.eval,
        channel,
    );
    proof {
        let weights = oblong_weights@;
        let t = ShiftRun {
            coefficients,
            prepared,
            shift_challenges: s2.drawn().skip(s1.drawn().len() as int),
            phase_1: phase_1_kept,
            inner_challenges: s3.drawn().skip(s2.drawn().len() as int),
            inner: inner_output,
            outer_challenges: s4.drawn().skip(s3.drawn().len() as int),
            outer: outer_output,
            word_challenges: channel.drawn().skip(s4.drawn().len() as int),
        };
        lemma_drawn_split(s1.drawn(), s2.drawn());
        lemma_drawn_split(s2.drawn(), s3.drawn());
        lemma_drawn_split(s3.drawn(), s4.drawn());
        lemma_drawn_split(s4.drawn(), channel.drawn());
        assert(channel.drawn() =~= s0.drawn() + t.challenges());
        assert(shift_run(
            t,
            key_collection,
            public_words@,
            hidden_words@,
            claims,
            weights,
            r,
        ));
        assert(channel.sent() =~= s0.sent() + shift_messages(
            t,
            key_collection,
            public_words@,
            hidden_words@,
            weights,
        ));
        let m = (
            product_messages(
                dense_g(key_collection, public_words@, hidden_words@, &prepared),
                dense_h(weights),
                total_claim(&prepared),
                t.shift_challenges,
                24,
            ),
            product_messages(
                t.phase_1.psi@,
                scaled_by(t.inner_indicator(), t.phase_1.g_eval),
                dot(t.phase_1.psi@, t.inner_indicator()).times(t.phase_1.g_eval),
                t.inner_challenges,
                6,
            ),
            product_messages(
                weights,
                scaled_by(t.outer_indicator(), t.outer_scale()),
                dot(weights, t.outer_indicator()).times(t.outer_scale()),
                t.outer_challenges,
                6,
            ),
            product_messages(
                folded_witness(public_words@, hidden_words@, t.phase_1.r_j@),
                combined_monster(
                    key_collection,
                    &t.prepared,
                    t.h_eval(),
                    &t.phase_1.inner,
                    &t.phase_1.outer,
                ),
                t.outer.eval,
                t.word_challenges,
                (n + 1) as int,
            ),
        );
        lemma_messages_len(
            dense_g(key_collection, public_words@, hidden_words@, &prepared),
            dense_h(weights),
            total_claim(&prepared),
            t.shift_challenges,
            24,
        );
        lemma_messages_len(
            t.phase_1.psi@,
            scaled_by(t.inner_indicator(), t.phase_1.g_eval),
            dot(t.phase_1.psi@, t.inner_indicator()).times(t.phase_1.g_eval),
            t.inner_challenges,
            6,
        );
        lemma_messages_len(
            weights,
            scaled_by(t.outer_indicator(), t.outer_scale()),
            dot(weights, t.outer_indicator()).times(t.outer_scale()),
            t.outer_challenges,
            6,
        );
        lemma_messages_len(
            folded_witness(public_words@, hidden_words@, t.phase_1.r_j@),
            combined_monster(
                key_collection,
                &t.prepared,
                t.h_eval(),
                &t.phase_1.inner,
                &t.phase_1.outer,
            ),
            t.outer.eval,
            t.word_challenges,
            (n + 1) as int,
        );
        let c = (t.shift_challenges, t.inner_challenges, t.outer_challenges, t.word_challenges);
        lemma_stages_join(m, c);
        assert(t.challenges().skip(4) =~= c.0 + c.1 + c.2 + c.3);
        let (e1, e2, e3, e4) = (
            round_events(m.0, c.0, 24),
            round_events(m.1, c.1, 6),
            round_events(m.2, c.2, 6),
            round_events(m.3, c.3, (n + 1) as int),
        );
        assert(channel.transcript() == s0.transcript() + draws(coefficients) + e1 + e2 + e3 + e4);
        assert(s0.transcript() + draws(coefficients) + e1 + e2 + e3 + e4 =~= s0.transcript() + (
        draws(coefficients) + (e1 + e2 + e3 + e4)));
    }
    r
}

/// A list is its prefix and the rest.
proof fn lemma_drawn_split<F>(before: Seq<F>, after: Seq<F>)
    requires
        before.len() <= after.len(),
        after.take(before.len() as int) == before,
    ensures
        after == before + after.skip(before.len() as int),
{
    assert(after =~= after.take(before.len() as int) + after.skip(before.len() as int));
}

/// Claims that cover a segment's keys still do once prepared.
pub proof fn lemma_claims_cover<F: Field>(
    segment: &KeySegment,
    claims: OperatorClaims<F>,
    prepared: PreparedOperatorClaims<F>,
    coefficients: Seq<F>,
)
    requires
        claims_cover(segment, &claims),
        claims_prepared(prepared, claims, coefficients),
    ensures
        segment_fits(segment, &prepared),
{
    lemma_prepared_arity(prepared, claims, coefficients);
    assert forall|k: int| 0 <= k < segment.keys.len() implies {
        let key = #[trigger] segment.key_model(k);
        let data = prepared.of(key.operation);
        indices_fit(
            key.indices,
            data.r_x_prime_tensor.len() as nat,
            data.lambda_powers.len() as nat,
        )
    } by {
        let key = segment.key_model(k);
        assert(indices_fit(
            key.indices,
            n_weights(&claims, key.operation),
            key.operation.arity(),
        ));
        assert(prepared.of(key.operation).lambda_powers.len() == key.operation.arity());
        assert(prepared.of(key.operation).r_x_prime_tensor.len() == n_weights(
            &claims,
            key.operation,
        ));
    }
}

} // verus!
