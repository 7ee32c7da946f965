//! The sumcheck of a product of two multilinears, binding the highest variable first.

use vstd::arithmetic::power2::{lemma_pow2_unfold, pow2};
use crate::algebra::field::{FieldOps, lemma_plus_times, lemma_sum_scale};
use crate::algebra::group::{AdditiveGroup, lemma_nil_plus, lemma_plus_cancel, lemma_plus_exchange};
use crate::algebra::sum::{lemma_sum_ext, lemma_sum_plus, lemma_sum_split, sum};
use crate::sumcheck::round::{lemma_quadratic_eval, poly_eval, quadratic};
use vstd::prelude::*;

verus! {

/// A multilinear with its highest variable bound to `r`.
pub open spec fn fold_high<F: FieldOps>(a: Seq<F>, r: F) -> Seq<F> {
    let half = (a.len() / 2) as int;
    Seq::new(
        half as nat,
        |v: int| a[v].times(F::unit().plus(r)).plus(a[half + v].times(r)),
    )
}

/// The sum of the products of corresponding entries.
pub open spec fn dot<F: FieldOps>(a: Seq<F>, b: Seq<F>) -> F {
    sum(a.len() as int, |v: int| a[v].times(b[v]))
}

/// The round polynomial's value at one.
pub open spec fn value_at_one<F: FieldOps>(a: Seq<F>, b: Seq<F>) -> F {
    let half = (a.len() / 2) as int;
    sum(half, |v: int| a[half + v].times(b[half + v]))
}

/// The round polynomial's leading coefficient.
pub open spec fn value_at_infinity<F: FieldOps>(a: Seq<F>, b: Seq<F>) -> F {
    let half = (a.len() / 2) as int;
    sum(half, |v: int| a[v].plus(a[half + v]).times(b[v].plus(b[half + v])))
}

/// The round polynomial a claim and two multilinears give.
pub open spec fn product_round<F: FieldOps>(a: Seq<F>, b: Seq<F>, claim: F) -> Seq<F> {
    quadratic(claim, value_at_one(a, b), value_at_infinity(a, b))
}

/// A multilinear with its `k` highest variables bound to the first `k` challenges.
pub open spec fn folded_high<F: FieldOps>(a: Seq<F>, challenges: Seq<F>, k: int) -> Seq<F>
    decreases k,
{
    if k <= 0 {
        a
    } else {
        fold_high(folded_high(a, challenges, k - 1), challenges[k - 1])
    }
}

/// The claim after `k` rounds.
pub open spec fn product_claim<F: FieldOps>(
    a: Seq<F>,
    b: Seq<F>,
    claim: F,
    challenges: Seq<F>,
    k: int,
) -> F
    decreases k,
{
    if k <= 0 {
        claim
    } else {
        poly_eval(
            product_round(
                folded_high(a, challenges, k - 1),
                folded_high(b, challenges, k - 1),
                product_claim(a, b, claim, challenges, k - 1),
            ),
            challenges[k - 1],
        )
    }
}

/// What the prover sends in the first `k` rounds: every round polynomial without its leading
/// coefficient.
pub open spec fn product_messages<F: FieldOps>(
    a: Seq<F>,
    b: Seq<F>,
    claim: F,
    challenges: Seq<F>,
    k: int,
) -> Seq<F>
    decreases k,
{
    if k <= 0 {
        Seq::empty()
    } else {
        product_messages(a, b, claim, challenges, k - 1) + product_round(
            folded_high(a, challenges, k - 1),
            folded_high(b, challenges, k - 1),
            product_claim(a, b, claim, challenges, k - 1),
        ).drop_last()
    }
}

/// The length of a folded multilinear.
pub proof fn lemma_folded_len<F: FieldOps>(a: Seq<F>, challenges: Seq<F>, k: int, n: nat)
    requires
        0 <= k <= n,
        a.len() == pow2(n),
    ensures
        folded_high(a, challenges, k).len() == pow2((n - k) as nat),
    decreases k,
{
    if k > 0 {
        lemma_folded_len(a, challenges, k - 1, n);
        lemma_pow2_unfold((n - k + 1) as nat);
    }
}

/// Folding depends only on the challenges used.
pub proof fn lemma_folded_prefix<F: FieldOps>(a: Seq<F>, c: Seq<F>, d: Seq<F>, k: int)
    requires
        forall|j: int| 0 <= j < k ==> #[trigger] c[j] == d[j],
    ensures
        folded_high(a, c, k) == folded_high(a, d, k),
    decreases k,
{
    if k > 0 {
        lemma_folded_prefix(a, c, d, k - 1);
        assert(c[k - 1] == d[k - 1]);
    }
}

/// The rounds depend only on the challenges used.
pub proof fn lemma_product_prefix<F: FieldOps>(
    a: Seq<F>,
    b: Seq<F>,
    claim: F,
    c: Seq<F>,
    d: Seq<F>,
    k: int,
)
    requires
        forall|j: int| 0 <= j < k ==> #[trigger] c[j] == d[j],
    ensures
        product_claim(a, b, claim, c, k) == product_claim(a, b, claim, d, k),
        product_messages(a, b, claim, c, k) == product_messages(a, b, claim, d, k),
        folded_high(a, c, k) == folded_high(a, d, k),
        folded_high(b, c, k) == folded_high(b, d, k),
    decreases k,
{
    lemma_folded_prefix(a, c, d, k);
    lemma_folded_prefix(b, c, d, k);
    if k > 0 {
        lemma_product_prefix(a, b, claim, c, d, k - 1);
        assert(c[k - 1] == d[k - 1]);
    }
}

/// The rounds in two stages.
pub proof fn lemma_product_split<F: FieldOps>(
    a: Seq<F>,
    b: Seq<F>,
    claim: F,
    c: Seq<F>,
    m: int,
    k: int,
)
    requires
        0 <= m,
        0 <= k,
        m + k <= c.len(),
    ensures
        ({
            let (x, y, z) = (folded_high(a, c, m), folded_high(b, c, m), product_claim(a, b, claim, c, m));
            let d = c.skip(m);
            &&& folded_high(a, c, m + k) == folded_high(x, d, k)
            &&& folded_high(b, c, m + k) == folded_high(y, d, k)
            &&& product_claim(a, b, claim, c, m + k) == product_claim(x, y, z, d, k)
            &&& product_messages(a, b, claim, c, m + k) == product_messages(a, b, claim, c, m)
                + product_messages(x, y, z, d, k)
        }),
    decreases k,
{
    let (x, y, z) = (folded_high(a, c, m), folded_high(b, c, m), product_claim(a, b, claim, c, m));
    let d = c.skip(m);
    if k > 0 {
        lemma_product_split(a, b, claim, c, m, k - 1);
        assert(d[k - 1] == c[m + k - 1]);
        assert(m + (k - 1) == m + k - 1);
        let first = product_messages(a, b, claim, c, m);
        let second = product_messages(x, y, z, d, k - 1);
        let last = product_round(
            folded_high(x, d, k - 1),
            folded_high(y, d, k - 1),
            product_claim(x, y, z, d, k - 1),
        ).drop_last();
        assert((first + second) + last =~= first + (second + last));
    } else {
        assert(product_messages(a, b, claim, c, m) + Seq::<F>::empty() =~= product_messages(
            a,
            b,
            claim,
            c,
            m,
        ));
    }
}

/// One honest round keeps the claim true.
///
/// If the claim is the sum of products, the round polynomial at the challenge is the sum of
/// products of the folded multilinears.
pub proof fn honest_round<F: FieldOps>(a: Seq<F>, b: Seq<F>, r: F)
    requires
        a.len() == b.len(),
        a.len() % 2 == 0,
    ensures
        poly_eval(product_round(a, b, dot(a, b)), r) == dot(fold_high(a, r), fold_high(b, r)),
{
    let h = (a.len() / 2) as int;
    let lo = |v: int| a[v].times(b[v]);
    let hi = |v: int| a[h + v].times(b[h + v]);
    let inf = |v: int| a[v].plus(a[h + v]).times(b[v].plus(b[h + v]));
    let all = |v: int| a[v].times(b[v]);
    lemma_sum_split(h, h, all);
    lemma_sum_ext(h, |v: int| all(h + v), hi);
    let (s0, s1, si) = (sum(h, lo), sum(h, hi), sum(h, inf));
    assert(dot(a, b) == s0.plus(s1));
    lemma_plus_cancel(s0, s1);
    let c = product_round(a, b, dot(a, b));
    assert(c[0] == s0);
    lemma_quadratic_eval(c, r);
    // Entry by entry: (a0 (1 + r) + a1 r)(b0 (1 + r) + b1 r) is the quadratic in r.
    let (fa, fb) = (fold_high(a, r), fold_high(b, r));
    let entry = |v: int| fa[v].times(fb[v]);
    let mid = |v: int| hi(v).plus(lo(v)).plus(inf(v));
    let poly = |v: int| lo(v).plus(r.times(mid(v))).plus(r.times(r.times(inf(v))));
    assert forall|v: int| 0 <= v < h implies #[trigger] entry(v) == poly(v) by {
        lemma_entry(a[v], a[h + v], b[v], b[h + v], r);
    }
    lemma_sum_ext(h, entry, poly);
    let rmid = |v: int| r.times(mid(v));
    let rinf = |v: int| r.times(r.times(inf(v)));
    let first = |v: int| lo(v).plus(rmid(v));
    lemma_sum_plus(h, first, rinf);
    lemma_sum_ext(h, poly, |v: int| first(v).plus(rinf(v)));
    lemma_sum_plus(h, lo, rmid);
    lemma_sum_scale(h, r, mid);
    lemma_sum_ext(h, rmid, |v: int| r.times(mid(v)));
    let hl = |v: int| hi(v).plus(lo(v));
    lemma_sum_plus(h, hi, lo);
    lemma_sum_plus(h, hl, inf);
    lemma_sum_ext(h, mid, |v: int| hl(v).plus(inf(v)));
    let rinf1 = |v: int| r.times(inf(v));
    lemma_sum_scale(h, r, inf);
    lemma_sum_scale(h, r, rinf1);
    lemma_sum_ext(h, rinf, |v: int| r.times(rinf1(v)));
}

/// The product of two linear interpolations as a quadratic.
pub proof fn lemma_entry<F: FieldOps>(a0: F, a1: F, b0: F, b1: F, r: F)
    ensures
        a0.times(F::unit().plus(r)).plus(a1.times(r)).times(
            b0.times(F::unit().plus(r)).plus(b1.times(r)),
        ) == a0.times(b0).plus(
            r.times(
                a1.times(b1).plus(a0.times(b0)).plus(a0.plus(a1).times(b0.plus(b1))),
            ),
        ).plus(r.times(r.times(a0.plus(a1).times(b0.plus(b1))))),
{
    let (da, db) = (a0.plus(a1), b0.plus(b1));
    lemma_interpolate(a0, a1, r);
    lemma_interpolate(b0, b1, r);
    let (x, y) = (r.times(da), r.times(db));
    // (a0 + x)(b0 + y) = a0 b0 + a0 y + x b0 + x y
    lemma_plus_times(a0, x, b0.plus(y));
    F::times_plus(a0, b0, y);
    F::times_plus(x, b0, y);
    let p = a0.times(b0);
    // a0 y = r (a0 db), x b0 = r (da b0), x y = r (r (da db))
    F::times_assoc(a0, r, db);
    F::times_comm(a0, r);
    F::times_assoc(r, a0, db);
    F::times_assoc(r, da, b0);
    F::times_assoc(r, da, y);
    F::times_assoc(da, r, db);
    F::times_comm(da, r);
    F::times_assoc(r, da, db);
    let (u, w) = (a0.times(db), da.times(b0));
    let q = r.times(r.times(da.times(db)));
    // u + w = a0 b0 + a0 b1 + a0 b0 + a1 b0, and the middle coefficient is the same.
    F::times_plus(a0, b0, b1);
    lemma_plus_times(a0, a1, b0);
    let (m, n, s) = (a0.times(b1), a1.times(b0), a1.times(b1));
    F::times_plus(r, u, w);
    F::plus_assoc(p, r.times(u), r.times(w).plus(q));
    F::plus_assoc(r.times(u), r.times(w), q);
    F::plus_assoc(p, r.times(u.plus(w)), q);
    // u + w == s + p + (p + m + n + s)
    F::times_plus(da, b0, b1);
    lemma_plus_times(a0, a1, b1);
    let t = da.times(db);
    assert(t == p.plus(n).plus(m.plus(s)));
    assert(u.plus(w) == p.plus(m).plus(p.plus(n)));
    lemma_middle(p, m, n, s);
}

/// The middle coefficient, rearranged.
proof fn lemma_middle<G: AdditiveGroup>(p: G, m: G, n: G, s: G)
    ensures
        p.plus(m).plus(p.plus(n)) == s.plus(p).plus(p.plus(n).plus(m.plus(s))),
{
    lemma_plus_exchange(p, m, p, n);
    G::plus_self(p);
    lemma_nil_plus(m.plus(n));
    // Right side: s + p + p + n + m + s
    lemma_plus_exchange(s, p, p.plus(n), m.plus(s));
    G::plus_comm(s, p.plus(n));
    G::plus_comm(p, m.plus(s));
    lemma_plus_exchange(p.plus(n), s, m.plus(s), p);
    G::plus_comm(s, p);
    lemma_plus_exchange(p, n, m, s);
    G::plus_comm(p.plus(n).plus(m.plus(s)), p.plus(s));
    lemma_plus_exchange(p, m, n, s);
    G::plus_assoc(p.plus(m).plus(n.plus(s)), p, s);
    G::plus_comm(p, s);
    lemma_plus_exchange(p, s, p, s);
    G::plus_self(s);
    G::plus_nil(G::nil());
    // p + n + m + s + (p + s) = m + n
    lemma_plus_exchange(p, n, s, m);
    G::plus_comm(s, m);
    G::plus_comm(n, m);
    let x = p.plus(s);
    let y = m.plus(n);
    lemma_plus_cancel(y, x);
    G::plus_comm(x, y);
}

/// A linear interpolation as its lower value plus the scaled difference.
pub proof fn lemma_interpolate<F: FieldOps>(a0: F, a1: F, r: F)
    ensures
        a0.times(F::unit().plus(r)).plus(a1.times(r)) == a0.plus(r.times(a0.plus(a1))),
{
    F::times_plus(a0, F::unit(), r);
    F::times_unit(a0);
    F::plus_assoc(a0, a0.times(r), a1.times(r));
    lemma_plus_times(a0, a1, r);
    F::times_comm(a0.plus(a1), r);
}

} // verus!
