//! The last phase of the shift reduction: the witness against the wiring multilinear.

use vstd::arithmetic::power2::{lemma2_to64, lemma_pow2_strictly_increases, lemma_pow2_unfold, pow2};
use crate::algebra::field::{Field, FieldOps};
use crate::algebra::group::AdditiveGroup;
use crate::field::packed::PackedField;
use crate::math::eq::{eq_ind, eq_ind_partial_eval_scalars};
use crate::math::field_buffer::FieldBuffer;
use crate::math::index::{ceil_log2, lemma_ceil_log2, lemma_pow2_split};
use crate::prover::fold_word::{fold_words, folded_words};
use crate::shift::claims::PreparedOperatorClaims;
use crate::shift::g::segment_fits;
use crate::shift::keys::KeyCollection;
use crate::shift::monster::{build_monster_segments, segment_monster};
use crate::shift::phase_1::{Phase1Output, ShiftChallenge, reversed_list};
use crate::sumcheck::channel::{IPProverChannel, round_events};
use crate::sumcheck::evaluate::{folding_evaluates, multilinear_eval};
use crate::sumcheck::product::product_messages;
use crate::sumcheck::prover::{bivariate_product_prover, prove_single};
use crate::word::Word;
use vstd::prelude::*;

verus! {

/// Two segments under one more variable: the first in the lower half, padded with zeros, the
/// second in the upper half.
pub open spec fn combined<F: FieldOps>(public: Seq<F>, hidden: Seq<F>) -> Seq<F> {
    let n = hidden.len() as int;
    Seq::new(
        (2 * n) as nat,
        |x: int|
            if x >= n {
                hidden[x - n]
            } else if x < public.len() {
                public[x]
            } else {
                F::nil()
            },
    )
}

/// Joins two segments under one more variable.
fn combine<P: PackedField>(public: &FieldBuffer<P>, hidden: &FieldBuffer<P>) -> (r: FieldBuffer<P>)
    requires
        public.wf(),
        hidden.wf(),
        public.log_len <= hidden.log_len,
        pow2((hidden.log_len + 1) as nat) <= usize::MAX,
        hidden.log_len < usize::MAX,
    ensures
        r.wf(),
        r.log_len == hidden.log_len + 1,
        r.scalars() == combined(public.scalars(), hidden.scalars()),
{
    proof {
        lemma_pow2_unfold((hidden.log_len + 1) as nat);
        lemma_pow2_split(public.log_len as nat, hidden.log_len as nat);
    }
    let n = hidden.len();
    let m = public.len();
    let ghost want = combined(public.scalars(), hidden.scalars());
    let mut r = FieldBuffer::<P>::zeros(hidden.log_len + 1);
    let mut x: usize = 0;
    while x < n
        invariant
            x <= n,
            m <= n,
            public.wf(),
            hidden.wf(),
            m == public.scalars().len(),
            n == hidden.scalars().len(),
            2 * n == pow2((hidden.log_len + 1) as nat),
            2 * n <= usize::MAX,
            want == combined(public.scalars(), hidden.scalars()),
            r.wf(),
            r.log_len == hidden.log_len + 1,
            forall|y: int|
                0 <= y < 2 * n ==> #[trigger] r.scalars()[y] == if y < x || n <= y < n + x {
                    want[y]
                } else {
                    P::Scalar::nil()
                },
        decreases n - x,
    {
        let ghost before = r.scalars();
        if x < m {
            r.set(x, public.get(x));
        }
        let ghost mid = r.scalars();
        r.set(n + x, hidden.get(x));
        proof {
            assert forall|y: int| 0 <= y < 2 * n implies #[trigger] r.scalars()[y] == (if y < x + 1
                || n <= y < n + x + 1 {
                want[y]
            } else {
                P::Scalar::nil()
            }) by {
                if y != n + x {
                    assert(r.scalars()[y] == mid[y]);
                    if y != x {
                        assert(mid[y] == before[y]);
                    } else if x >= m {
                        assert(before[y] == P::Scalar::nil());
                    }
                }
            }
        }
        x = x + 1;
    }
    assert(r.scalars() =~= want);
    r
}

/// What the shift reduction leaves: one claim on the witness and one on the wiring multilinear.
#[derive(Debug)]
pub struct ShiftOutput<F> {
    /// The point over the bit position.
    pub r_j: Vec<F>,
    /// The point over the word index.
    pub r_y: Vec<F>,
    /// The witness's value at both points.
    pub witness_eval: F,
    /// The wiring multilinear's value at the word point.
    pub monster_eval: F,
}

/// The witness folded along the bit axis, both segments combined.
pub open spec fn folded_witness<F: FieldOps>(
    public: Seq<Word>,
    hidden: Seq<Word>,
    r_j: Seq<F>,
) -> Seq<F> {
    let tensor = Seq::new(64, |j: int| eq_ind(r_j, j));
    combined(
        folded_words(public, tensor, ceil_log2(public.len())),
        folded_words(hidden, tensor, ceil_log2(hidden.len())),
    )
}

/// The wiring multilinear, both segments combined.
pub open spec fn combined_monster<F: Field>(
    key_collection: &KeyCollection,
    prepared: &PreparedOperatorClaims<F>,
    h_eval: F,
    inner: &ShiftChallenge<F>,
    outer: &ShiftChallenge<F>,
) -> Seq<F> {
    combined(
        segment_monster(
            &key_collection.public,
            prepared,
            h_eval,
            inner,
            outer,
            pow2(ceil_log2(key_collection.public.key_ranges.len() as nat)),
        ),
        segment_monster(
            &key_collection.hidden,
            prepared,
            h_eval,
            inner,
            outer,
            pow2(ceil_log2(key_collection.hidden.key_ranges.len() as nat)),
        ),
    )
}

/// The key collection and the words belong together.
///
/// A segment may hold fewer words than key ranges, as long as both round up to the same power of
/// two.
pub open spec fn shift_inputs_fit(
    key_collection: &KeyCollection,
    public: Seq<Word>,
    hidden: Seq<Word>,
) -> bool {
    let n_public = key_collection.public.key_ranges.len() as nat;
    let n_hidden = key_collection.hidden.key_ranges.len() as nat;
    &&& key_collection.public.wf()
    &&& key_collection.hidden.wf()
    &&& 64 * (key_collection.public.dense_shift_enc.sequences.len()
        + key_collection.hidden.dense_shift_enc.sequences.len()) <= usize::MAX
    &&& public.len() <= isize::MAX
    &&& hidden.len() <= isize::MAX
    &&& n_public <= isize::MAX
    &&& n_hidden <= isize::MAX
    &&& ceil_log2(public.len()) == ceil_log2(n_public)
    &&& ceil_log2(hidden.len()) == ceil_log2(n_hidden)
    &&& ceil_log2(n_public) <= ceil_log2(n_hidden)
    &&& pow2(ceil_log2(n_hidden) + 1) <= usize::MAX
}

/// What the last phase leaves, given its challenges in the order drawn.
pub open spec fn phase_2_result<F: FieldOps>(
    r: ShiftOutput<F>,
    witness: Seq<F>,
    monster: Seq<F>,
    r_j: Seq<F>,
    challenges: Seq<F>,
) -> bool {
    &&& r.r_j@ == r_j
    &&& r.r_y@ == challenges.reverse()
    &&& r.witness_eval == multilinear_eval(witness, r.r_y@)
    &&& r.monster_eval == multilinear_eval(monster, r.r_y@)
}

/// Reduces what is left to a value of the witness, against the wiring multilinear.
pub fn prove_phase_2<F: Field, P: PackedField<Scalar = F>, C: IPProverChannel<F>>(
    key_collection: &KeyCollection,
    public_words: &[Word],
    hidden_words: &[Word],
    prepared: &PreparedOperatorClaims<F>,
    phase_1: Phase1Output<F>,
    h_eval: F,
    claim: F,
    channel: &mut C,
) -> (r: ShiftOutput<F>)
    requires
        shift_inputs_fit(key_collection, public_words@, hidden_words@),
        prepared.wf(),
        segment_fits(&key_collection.public, prepared),
        segment_fits(&key_collection.hidden, prepared),
        phase_1.r_j.len() == 6,
        phase_1.inner.wf(),
        phase_1.outer.wf(),
        old(channel).can_draw(ceil_log2(hidden_words.len() as nat) + 1),
    ensures
        final(channel).drawn().len() == old(channel).drawn().len() + ceil_log2(
            hidden_words.len() as nat,
        ) + 1,
        final(channel).drawn().take(old(channel).drawn().len() as int) == old(channel).drawn(),
        ({
            let c = final(channel).drawn().skip(old(channel).drawn().len() as int);
            let witness = folded_witness(public_words@, hidden_words@, phase_1.r_j@);
            let monster = combined_monster(
                key_collection,
                prepared,
                h_eval,
                &phase_1.inner,
                &phase_1.outer,
            );
            &&& final(channel).transcript() == old(channel).transcript() + round_events(
                product_messages(
                    witness,
                    monster,
                    claim,
                    c,
                    (ceil_log2(hidden_words.len() as nat) + 1) as int,
                ),
                c,
                (ceil_log2(hidden_words.len() as nat) + 1) as int,
            )
            &&& final(channel).sent() == old(channel).sent() + product_messages(
                witness,
                monster,
                claim,
                c,
                (ceil_log2(hidden_words.len() as nat) + 1) as int,
            )
            &&& phase_2_result(r, witness, monster, phase_1.r_j@, c)
        }),
{
    let ghost drawn = channel.drawn();
    proof {
        lemma2_to64();
    }
    let tensor = eq_ind_partial_eval_scalars(phase_1.r_j.as_slice());
    assert(tensor@ =~= Seq::new(64, |j: int| eq_ind(phase_1.r_j@, j)));
    let public_folded = fold_words::<F, P>(public_words, tensor.as_slice());
    let hidden_folded = fold_words::<F, P>(hidden_words, tensor.as_slice());
    let (public_monster, hidden_monster) = build_monster_segments::<F, P>(
        key_collection,
        prepared,
        h_eval,
        &phase_1.inner,
        &phase_1.outer,
    );
    proof {
        lemma_ceil_log2(public_words.len() as nat, public_folded.log_len as nat);
        lemma_ceil_log2(hidden_words.len() as nat, hidden_folded.log_len as nat);
        lemma_ceil_log2(
            key_collection.public.key_ranges.len() as nat,
            public_monster.log_len as nat,
        );
        lemma_ceil_log2(
            key_collection.hidden.key_ranges.len() as nat,
            hidden_monster.log_len as nat,
        );
        lemma_log_bound((hidden_folded.log_len + 1) as nat);
    }
    let witness = combine(&public_folded, &hidden_folded);
    let monster = combine(&public_monster, &hidden_monster);
    let ghost (sw, sm) = (witness.scalars(), monster.scalars());
    let output = prove_single(bivariate_product_prover(witness, monster, claim), channel);
    let r_y = reversed_list(output.challenges.as_slice());
    proof {
        let c = output.challenges@;
        assert(channel.drawn().take(drawn.len() as int) =~= drawn);
        assert(channel.drawn().skip(drawn.len() as int) =~= c);
        folding_evaluates(sw, c);
        folding_evaluates(sm, c);
    }
    ShiftOutput {
        r_j: phase_1.r_j,
        r_y,
        witness_eval: output.multilinear_evals[0],
        monster_eval: output.multilinear_evals[1],
    }
}

/// The logarithm of a length that fits in memory is small.
proof fn lemma_log_bound(k: nat)
    requires
        pow2(k) <= usize::MAX,
    ensures
        k <= usize::MAX,
        k < 64,
{
    vstd::layout::unsigned_int_max_values();
    lemma2_to64();
    if k >= 64 {
        if k > 64 {
            lemma_pow2_strictly_increases(64, k);
        }
    }
}

} // verus!
