//! Finite sums `f(0) + f(1) + ... + f(n - 1)` and the rules for rearranging them.

use crate::algebra::group::{AdditiveGroup, lemma_nil_plus, lemma_plus_cancel, lemma_plus_exchange};
use vstd::prelude::*;

verus! {

/// The sum of `f` over `0..n`.
pub open spec fn sum<G: AdditiveGroup>(n: int, f: spec_fn(int) -> G) -> G
    decreases n,
{
    if n <= 0 {
        G::nil()
    } else {
        sum(n - 1, f).plus(f(n - 1))
    }
}

/// A sum depends only on its terms.
pub proof fn lemma_sum_ext<G: AdditiveGroup>(n: int, f: spec_fn(int) -> G, g: spec_fn(int) -> G)
    requires
        forall|i: int| 0 <= i < n ==> #[trigger] f(i) == g(i),
    ensures
        sum(n, f) == sum(n, g),
    decreases n,
{
    if n > 0 {
        lemma_sum_ext(n - 1, f, g);
        assert(f(n - 1) == g(n - 1));
    }
}

/// A sum of neutral terms is neutral.
pub proof fn lemma_sum_nil<G: AdditiveGroup>(n: int, f: spec_fn(int) -> G)
    requires
        forall|i: int| 0 <= i < n ==> #[trigger] f(i) == G::nil(),
    ensures
        sum(n, f) == G::nil(),
    decreases n,
{
    if n > 0 {
        lemma_sum_nil(n - 1, f);
        assert(f(n - 1) == G::nil());
        G::plus_nil(G::nil());
    }
}

/// The sum of two families is the family of their sums.
pub proof fn lemma_sum_plus<G: AdditiveGroup>(n: int, f: spec_fn(int) -> G, g: spec_fn(int) -> G)
    ensures
        sum(n, |i: int| f(i).plus(g(i))) == sum(n, f).plus(sum(n, g)),
    decreases n,
{
    if n > 0 {
        lemma_sum_plus(n - 1, f, g);
        lemma_plus_exchange(sum(n - 1, f), sum(n - 1, g), f(n - 1), g(n - 1));
    } else {
        G::plus_nil(G::nil());
    }
}

/// An additive map carries a sum to the sum of the images.
pub proof fn lemma_sum_map<G: AdditiveGroup, H: AdditiveGroup>(
    n: int,
    f: spec_fn(int) -> G,
    h: spec_fn(G) -> H,
)
    requires
        h(G::nil()) == H::nil(),
        forall|a: G, b: G| #[trigger] h(a.plus(b)) == h(a).plus(h(b)),
    ensures
        h(sum(n, f)) == sum(n, |i: int| h(f(i))),
    decreases n,
{
    if n > 0 {
        lemma_sum_map(n - 1, f, h);
        assert(h(sum(n - 1, f).plus(f(n - 1))) == h(sum(n - 1, f)).plus(h(f(n - 1))));
    }
}

/// A sum splits at any point of its range.
pub proof fn lemma_sum_split<G: AdditiveGroup>(m: int, n: int, f: spec_fn(int) -> G)
    requires
        0 <= m,
        0 <= n,
    ensures
        sum(m + n, f) == sum(m, f).plus(sum(n, |i: int| f(m + i))),
    decreases n,
{
    let g = |i: int| f(m + i);
    if n > 0 {
        lemma_sum_split(m, n - 1, f);
        assert(sum(m + n, f) == sum(m + (n - 1), f).plus(f(m + n - 1)));
        assert(sum(n, g) == sum(n - 1, g).plus(g(n - 1)));
        G::plus_assoc(sum(m, f), sum(n - 1, g), f(m + n - 1));
    } else {
        G::plus_nil(sum(m, f));
    }
}

/// The first term of a sum can be split off.
pub proof fn lemma_sum_first<G: AdditiveGroup>(n: int, f: spec_fn(int) -> G)
    requires
        0 < n,
    ensures
        sum(n, f) == f(0).plus(sum(n - 1, |i: int| f(1 + i))),
{
    lemma_sum_split(1, n - 1, f);
    assert(sum(1, f) == sum(0, f).plus(f(0)));
    lemma_nil_plus(f(0));
}

/// A sum whose terms are all neutral but one is that term.
pub proof fn lemma_sum_single<G: AdditiveGroup>(n: int, f: spec_fn(int) -> G, k: int)
    requires
        0 <= k < n,
        forall|i: int| 0 <= i < n && i != k ==> #[trigger] f(i) == G::nil(),
    ensures
        sum(n, f) == f(k),
    decreases n,
{
    if k == n - 1 {
        lemma_sum_nil(n - 1, f);
        lemma_nil_plus(f(k));
    } else {
        lemma_sum_single(n - 1, f, k);
        assert(f(n - 1) == G::nil());
        G::plus_nil(f(k));
    }
}

/// Trailing neutral terms can be dropped.
pub proof fn lemma_sum_prefix<G: AdditiveGroup>(m: int, n: int, f: spec_fn(int) -> G)
    requires
        0 <= m <= n,
        forall|i: int| m <= i < n ==> #[trigger] f(i) == G::nil(),
    ensures
        sum(n, f) == sum(m, f),
    decreases n,
{
    if m < n {
        lemma_sum_prefix(m, n - 1, f);
        assert(f(n - 1) == G::nil());
        G::plus_nil(sum(m, f));
    }
}

/// The order of two nested sums can be exchanged.
pub proof fn lemma_sum_swap<G: AdditiveGroup>(m: int, n: int, f: spec_fn(int, int) -> G)
    ensures
        sum(m, |i: int| sum(n, |j: int| f(i, j))) == sum(n, |j: int| sum(m, |i: int| f(i, j))),
    decreases m,
{
    let rows = |i: int| sum(n, |j: int| f(i, j));
    let cols = |j: int| sum(m, |i: int| f(i, j));
    if m > 0 {
        lemma_sum_swap(m - 1, n, f);
        let cols1 = |j: int| sum(m - 1, |i: int| f(i, j));
        let last = |j: int| f(m - 1, j);
        assert(sum(m - 1, rows) == sum(n, cols1));
        assert(rows(m - 1) == sum(n, last));
        lemma_sum_plus(n, cols1, last);
        let both = |j: int| cols1(j).plus(last(j));
        assert forall|j: int| 0 <= j < n implies #[trigger] cols(j) == both(j) by {
            let col = |i: int| f(i, j);
            assert(sum(m, col) == sum(m - 1, col).plus(col(m - 1)));
        }
        lemma_sum_ext(n, cols, both);
        assert(sum(m, rows) == sum(m - 1, rows).plus(rows(m - 1)));
    } else {
        assert forall|j: int| 0 <= j < n implies #[trigger] cols(j) == G::nil() by {}
        lemma_sum_nil(n, cols);
    }
}

/// A sum can be taken in the opposite order.
pub proof fn lemma_sum_reverse<G: AdditiveGroup>(n: int, f: spec_fn(int) -> G)
    ensures
        sum(n, f) == sum(n, |i: int| f(n - 1 - i)),
    decreases n,
{
    let g = |i: int| f(n - 1 - i);
    if n > 0 {
        lemma_sum_first(n, g);
        let g1 = |i: int| g(1 + i);
        lemma_sum_reverse(n - 1, f);
        let f1 = |i: int| f((n - 1) - 1 - i);
        lemma_sum_ext(n - 1, g1, f1);
        G::plus_comm(f(n - 1), sum(n - 1, g1));
    }
}

/// A sum over `m * n` indices is the sum over `m` blocks of `n`.
pub proof fn lemma_sum_blocks<G: AdditiveGroup>(m: int, n: int, f: spec_fn(int) -> G)
    requires
        0 <= m,
        0 <= n,
    ensures
        sum(m * n, f) == sum(m, |b: int| sum(n, |j: int| f(b * n + j))),
    decreases m,
{
    let blocks = |b: int| sum(n, |j: int| f(b * n + j));
    if m > 0 {
        lemma_sum_blocks(m - 1, n, f);
        assert(m * n == (m - 1) * n + n && (m - 1) * n >= 0) by (nonlinear_arith)
            requires
                m > 0,
                n >= 0,
        ;
        lemma_sum_split((m - 1) * n, n, f);
        let tail = |i: int| f((m - 1) * n + i);
        let last = |j: int| f((m - 1) * n + j);
        lemma_sum_ext(n, tail, last);
        assert(blocks(m - 1) == sum(n, last));
        assert(sum(m, blocks) == sum(m - 1, blocks).plus(blocks(m - 1)));
    } else {
        assert(m * n == 0) by (nonlinear_arith)
            requires
                m == 0,
        ;
    }
}

/// In a symmetric square of terms everything off the diagonal cancels.
pub proof fn lemma_sum_symmetric<G: AdditiveGroup>(n: int, t: spec_fn(int, int) -> G)
    requires
        forall|i: int, j: int| #[trigger] t(i, j) == t(j, i),
    ensures
        sum(n, |i: int| sum(n, |j: int| t(i, j))) == sum(n, |i: int| t(i, i)),
    decreases n,
{
    let rows = |i: int| sum(n, |j: int| t(i, j));
    let diag = |i: int| t(i, i);
    if n > 0 {
        lemma_sum_symmetric(n - 1, t);
        let rows1 = |i: int| sum(n - 1, |j: int| t(i, j));
        let col = |i: int| t(i, n - 1);
        let row = |j: int| t(n - 1, j);
        let both = |i: int| rows1(i).plus(col(i));
        assert forall|i: int| 0 <= i < n implies #[trigger] rows(i) == both(i) by {
            let r = |j: int| t(i, j);
            assert(sum(n, r) == sum(n - 1, r).plus(r(n - 1)));
        }
        lemma_sum_ext(n - 1, rows, both);
        lemma_sum_plus(n - 1, rows1, col);
        lemma_sum_ext(n - 1, col, row);
        assert(rows(n - 1) == sum(n - 1, row).plus(row(n - 1)));
        let s = sum(n - 1, rows1);
        let c = sum(n - 1, col);
        let d = t(n - 1, n - 1);
        assert(sum(n, rows) == s.plus(c).plus(c.plus(d)));
        G::plus_assoc(s.plus(c), c, d);
        lemma_plus_cancel(s, c);
    }
}

} // verus!
