//! Following a run's claims from its messages alone.

use vstd::arithmetic::power2::{lemma2_to64, lemma_pow2_unfold, pow2};
use crate::algebra::field::FieldOps;
use crate::algebra::group::{AdditiveGroup, lemma_nil_plus, lemma_plus_cancel};
use crate::algebra::sum::sum;
use crate::sumcheck::evaluate::{folding_evaluates, multilinear_eval};
use crate::sumcheck::product::{
    dot, folded_high, honest_round, lemma_folded_len, product_claim, product_messages,
    product_round, value_at_infinity, value_at_one,
};
use crate::sumcheck::round::poly_eval;
use vstd::prelude::*;

verus! {

/// The claim after the first `k` rounds, read off the messages.
///
/// A round sends its polynomial without the leading coefficient, which the claim determines: the
/// polynomial's values at zero and one sum to it.
pub open spec fn replayed_claim<F: FieldOps>(
    claim: F,
    messages: Seq<F>,
    challenges: Seq<F>,
    k: int,
) -> F
    decreases k,
{
    if k <= 0 {
        claim
    } else {
        let before = replayed_claim(claim, messages, challenges, k - 1);
        let (c0, c1) = (messages[2 * (k - 1)], messages[2 * (k - 1) + 1]);
        poly_eval(seq![c0, c1, before.plus(c1)], challenges[k - 1])
    }
}

/// Two coefficients are sent a round.
pub proof fn lemma_messages_len<F: FieldOps>(
    a: Seq<F>,
    b: Seq<F>,
    claim: F,
    challenges: Seq<F>,
    k: int,
)
    requires
        0 <= k,
    ensures
        product_messages(a, b, claim, challenges, k).len() == 2 * k,
    decreases k,
{
    if k > 0 {
        lemma_messages_len(a, b, claim, challenges, k - 1);
    }
}

/// The claim depends only on the messages and challenges of the rounds followed.
pub proof fn lemma_replay_prefix<F: FieldOps>(
    claim: F,
    messages: Seq<F>,
    more_messages: Seq<F>,
    challenges: Seq<F>,
    more_challenges: Seq<F>,
    k: int,
)
    requires
        2 * k <= messages.len(),
        k <= challenges.len(),
    ensures
        replayed_claim(claim, messages + more_messages, challenges + more_challenges, k)
            == replayed_claim(claim, messages, challenges, k),
    decreases k,
{
    if k > 0 {
        lemma_replay_prefix(claim, messages, more_messages, challenges, more_challenges, k - 1);
    }
}

/// Following two lists of rounds in turn follows them joined.
pub proof fn lemma_replay_join<F: FieldOps>(
    claim: F,
    first: Seq<F>,
    second: Seq<F>,
    c: Seq<F>,
    d: Seq<F>,
    k: int,
)
    requires
        first.len() == 2 * c.len(),
        0 <= k,
        second.len() == 2 * d.len(),
        k <= d.len(),
    ensures
        replayed_claim(claim, first + second, c + d, c.len() + k) == replayed_claim(
            replayed_claim(claim, first, c, c.len() as int),
            second,
            d,
            k,
        ),
    decreases k,
{
    let m = c.len() as int;
    if k == 0 {
        lemma_replay_prefix(claim, first, second, c, d, m);
    } else {
        lemma_replay_join(claim, first, second, c, d, k - 1);
        let (ms, cs) = (first + second, c + d);
        assert(m + k - 1 == m + (k - 1));
        assert(ms[2 * (m + k - 1)] == second[2 * (k - 1)]);
        assert(ms[2 * (m + k - 1) + 1] == second[2 * (k - 1) + 1]);
        assert(cs[m + k - 1] == d[k - 1]);
    }
}

/// Whoever follows the messages arrives at the claim of whoever sends them.
pub proof fn replay_follows_the_rounds<F: FieldOps>(
    a: Seq<F>,
    b: Seq<F>,
    claim: F,
    challenges: Seq<F>,
    k: int,
)
    requires
        0 <= k <= challenges.len(),
    ensures
        replayed_claim(claim, product_messages(a, b, claim, challenges, k), challenges, k)
            == product_claim(a, b, claim, challenges, k),
    decreases k,
{
    if k > 0 {
        let before = product_messages(a, b, claim, challenges, k - 1);
        let all = product_messages(a, b, claim, challenges, k);
        let held = product_claim(a, b, claim, challenges, k - 1);
        let (x, y) = (folded_high(a, challenges, k - 1), folded_high(b, challenges, k - 1));
        let round = product_round(x, y, held);
        let (y_1, y_inf) = (value_at_one(x, y), value_at_infinity(x, y));
        lemma_messages_len(a, b, claim, challenges, k - 1);
        replay_follows_the_rounds(a, b, claim, challenges, k - 1);
        let none = Seq::<F>::empty();
        lemma_replay_prefix(claim, before, round.drop_last(), challenges, none, k - 1);
        assert(challenges + none =~= challenges);
        assert(all[2 * (k - 1)] == round[0]);
        assert(all[2 * (k - 1) + 1] == round[1]);
        // The leading coefficient is what the claim and the middle coefficient leave.
        let c0 = held.plus(y_1);
        F::plus_comm(held, y_1);
        lemma_plus_cancel(held, y_1);
        assert(y_1.plus(c0) == held);
        lemma_plus_cancel(y_inf, held);
        assert(held.plus(round[1]) == y_inf);
        assert(seq![round[0], round[1], y_inf] =~= round);
    }
}

/// Rounds that start from a true sum end at the product of the two multilinears' values.
pub proof fn honest_rounds<F: FieldOps>(a: Seq<F>, b: Seq<F>, challenges: Seq<F>, k: int)
    requires
        a.len() == pow2(challenges.len()),
        b.len() == a.len(),
        0 <= k <= challenges.len(),
    ensures
        product_claim(a, b, dot(a, b), challenges, k) == dot(
            folded_high(a, challenges, k),
            folded_high(b, challenges, k),
        ),
        k == challenges.len() ==> product_claim(a, b, dot(a, b), challenges, k)
            == multilinear_eval(a, challenges.reverse()).times(
            multilinear_eval(b, challenges.reverse()),
        ),
    decreases k,
{
    let n = challenges.len();
    lemma_folded_len(a, challenges, k, n);
    lemma_folded_len(b, challenges, k, n);
    if k > 0 {
        honest_rounds(a, b, challenges, k - 1);
        lemma_folded_len(a, challenges, k - 1, n);
        lemma_folded_len(b, challenges, k - 1, n);
        lemma_pow2_unfold((n - k + 1) as nat);
        honest_round(
            folded_high(a, challenges, k - 1),
            folded_high(b, challenges, k - 1),
            challenges[k - 1],
        );
    }
    if k == n {
        lemma2_to64();
        let (x, y) = (folded_high(a, challenges, k), folded_high(b, challenges, k));
        let f = |v: int| x[v].times(y[v]);
        assert(sum(1, f) == sum(0, f).plus(f(0)));
        lemma_nil_plus(f(0));
        folding_evaluates(a, challenges);
        folding_evaluates(b, challenges);
    }
}

} // verus!
