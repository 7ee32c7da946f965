//! Multilinear evaluation.

use vstd::arithmetic::power2::{lemma2_to64, lemma_pow2_unfold, pow2};
use crate::algebra::field::{FieldOps, lemma_plus_times, lemma_times_nil};
use crate::algebra::group::{AdditiveGroup, lemma_nil_plus};
use crate::algebra::sum::{lemma_sum_ext, lemma_sum_plus, lemma_sum_single, lemma_sum_split, sum};
use crate::math::eq::{eq_ind, indicator_tells_vertices_apart, lemma_eq_low, lemma_eq_prefix};
use crate::math::subset::{lemma_index_bit_high, lemma_index_bit_top};
use crate::sumcheck::product::{fold_high, folded_high};
use vstd::prelude::*;

verus! {

/// The value at a point of the multilinear with the given values on the hypercube.
pub open spec fn multilinear_eval<F: FieldOps>(a: Seq<F>, point: Seq<F>) -> F {
    sum(a.len() as int, |x: int| a[x].times(eq_ind(point, x)))
}

/// Binding the highest variable first, then evaluating the rest, evaluates the whole.
pub proof fn lemma_fold_evaluates<F: FieldOps>(a: Seq<F>, point: Seq<F>)
    requires
        point.len() > 0,
        a.len() == pow2(point.len()),
    ensures
        multilinear_eval(a, point) == multilinear_eval(
            fold_high(a, point.last()),
            point.drop_last(),
        ),
{
    let n = point.len() as int;
    let low = point.drop_last();
    let p = point.last();
    lemma_pow2_unfold(point.len());
    let h = pow2((n - 1) as nat) as int;
    let all = |x: int| a[x].times(eq_ind(point, x));
    lemma_sum_split(h, h, all);
    let up = |v: int| all(h + v);
    lemma_sum_plus(h, all, up);
    let both = |v: int| all(v).plus(up(v));
    let folded = fold_high(a, p);
    let out = |v: int| folded[v].times(eq_ind(low, v));
    assert forall|v: int| 0 <= v < h implies #[trigger] both(v) == out(v) by {
        lemma_eq_low(point, n - 1, n - 1, 0, v);
        lemma_eq_low(point, n - 1, n - 1, 1, v);
        lemma_eq_prefix(point, low, n - 1, v);
        let e = eq_ind(low, v);
        lemma_index_bit_high(v, n - 1, n - 1);
        lemma_index_bit_top(v, n - 1);
        assert(0 * pow2((n - 1) as nat) + v == v);
        assert(1 * pow2((n - 1) as nat) + v == h + v);
        let q = F::unit().plus(p);
        assert(eq_ind(point, v) == e.times(q));
        assert(eq_ind(point, h + v) == e.times(p));
        F::times_comm(e, q);
        F::times_comm(e, p);
        F::times_assoc(a[v], q, e);
        F::times_assoc(a[h + v], p, e);
        lemma_plus_times(a[v].times(q), a[h + v].times(p), e);
    }
    lemma_sum_ext(h, both, out);
}

/// The fold by one challenge, then by the rest.
pub proof fn lemma_folded_first<F: FieldOps>(a: Seq<F>, c: Seq<F>, k: int)
    requires
        0 <= k < c.len(),
    ensures
        folded_high(a, c, k + 1) == folded_high(fold_high(a, c[0]), c.skip(1), k),
    decreases k,
{
    if k > 0 {
        lemma_folded_first(a, c, k - 1);
        assert(c.skip(1)[k - 1] == c[k]);
    } else {
        assert(folded_high(a, c, 1) == fold_high(folded_high(a, c, 0), c[0]));
    }
}

/// Binding every variable, highest first, gives the value at the reversed challenges.
pub proof fn folding_evaluates<F: FieldOps>(a: Seq<F>, challenges: Seq<F>)
    requires
        a.len() == pow2(challenges.len()),
    ensures
        folded_high(a, challenges, challenges.len() as int)[0] == multilinear_eval(
            a,
            challenges.reverse(),
        ),
    decreases challenges.len(),
{
    let n = challenges.len() as int;
    let point = challenges.reverse();
    if n == 0 {
        lemma2_to64();
        let f = |x: int| a[x].times(eq_ind(point, x));
        assert(sum(1, f) == sum(0, f).plus(f(0)));
        lemma_nil_plus(f(0));
        F::times_unit(a[0]);
    } else {
        let rest = challenges.skip(1);
        let folded = fold_high(a, challenges[0]);
        lemma_pow2_unfold(n as nat);
        lemma_fold_evaluates(a, point);
        assert(point.last() == challenges[0]);
        assert(point.drop_last() =~= rest.reverse());
        folding_evaluates(folded, rest);
        lemma_folded_first(a, challenges, n - 1);
    }
}

/// A multilinear extension agrees with its values: at the point whose coordinate `j` is bit `j` of
/// `v`, it is value `v`.
pub proof fn extension_agrees_at_vertices<F: FieldOps>(a: Seq<F>, point: Seq<F>, v: int)
    requires
        a.len() == pow2(point.len()),
        0 <= v < a.len(),
        forall|j: int|
            0 <= j < point.len() ==> #[trigger] point[j] == if (v / pow2(j as nat) as int) % 2 == 1 {
                F::unit()
            } else {
                F::nil()
            },
    ensures
        multilinear_eval(a, point) == a[v],
{
    let f = |x: int| a[x].times(eq_ind(point, x));
    assert forall|x: int| 0 <= x < a.len() && x != v implies #[trigger] f(x) == F::nil() by {
        indicator_tells_vertices_apart(point, v, x);
        lemma_times_nil(a[x]);
    }
    lemma_sum_single(a.len() as int, f, v);
    indicator_tells_vertices_apart(point, v, v);
    F::times_unit(a[v]);
}

} // verus!
