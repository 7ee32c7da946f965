//! The multilinear equality indicator.

use vstd::arithmetic::power2::{lemma2_to64, lemma_pow2_unfold, pow2};
use crate::algebra::field::{FieldOps, lemma_times_nil};
use crate::algebra::group::AdditiveGroup;
use crate::field::packed::PackedField;
use crate::math::field_buffer::FieldBuffer;
use crate::math::index::lemma_pow2_split;
use crate::math::subset::{
    index_bit, lemma_index_bit_high, lemma_index_bit_low, lemma_index_bit_shift,
    lemma_index_bit_top,
};
use vstd::prelude::*;

verus! {

/// The factor one coordinate contributes: `x` for a set bit, `1 + x` for a clear one.
pub open spec fn eq_factor<F: FieldOps>(x: F, bit: bool) -> F {
    if bit {
        x
    } else {
        F::unit().plus(x)
    }
}

/// The equality indicator of the first `n` coordinates of a point at the vertex `i`.
///
/// Coordinate `j` belongs to bit `j` of the vertex index.
pub open spec fn eq_at<F: FieldOps>(point: Seq<F>, n: int, i: int) -> F
    decreases n,
{
    if n <= 0 {
        F::unit()
    } else {
        eq_at(point, n - 1, i).times(eq_factor(point[n - 1], index_bit(i, n - 1)))
    }
}

/// The indicator of the whole point.
pub open spec fn eq_ind<F: FieldOps>(point: Seq<F>, i: int) -> F {
    eq_at(point, point.len() as int, i)
}

/// Only the low bits of the vertex matter.
pub proof fn lemma_eq_low<F: FieldOps>(point: Seq<F>, n: int, k: int, hi: int, lo: int)
    requires
        0 <= n <= k,
        0 <= hi,
        0 <= lo < pow2(k as nat),
    ensures
        eq_at(point, n, hi * pow2(k as nat) + lo) == eq_at(point, n, lo),
    decreases n,
{
    if n > 0 {
        lemma_eq_low(point, n - 1, k, hi, lo);
        lemma_index_bit_low(hi, lo, k, n - 1);
    }
}

/// Only the first coordinates matter.
pub proof fn lemma_eq_prefix<F: FieldOps>(p: Seq<F>, q: Seq<F>, n: int, i: int)
    requires
        forall|j: int| 0 <= j < n ==> #[trigger] p[j] == q[j],
    ensures
        eq_at(p, n, i) == eq_at(q, n, i),
    decreases n,
{
    if n > 0 {
        lemma_eq_prefix(p, q, n - 1, i);
        assert(p[n - 1] == q[n - 1]);
    }
}

/// The indicator of a concatenated point is the product of the two indicators.
pub proof fn eq_splits<F: FieldOps>(point: Seq<F>, k: int, m: int, i: int)
    requires
        0 <= k,
        0 <= m,
        k + m <= point.len(),
        0 <= i,
    ensures
        eq_at(point, k + m, i) == eq_at(point, k, i).times(
            eq_at(point.skip(k), m, i / pow2(k as nat) as int),
        ),
    decreases m,
{
    if m == 0 {
        F::times_unit(eq_at(point, k, i));
    } else {
        eq_splits(point, k, m - 1, i);
        lemma_index_bit_shift(i, k, m - 1);
        let a = eq_at(point, k, i);
        let b = eq_at(point.skip(k), m - 1, i / pow2(k as nat) as int);
        F::times_assoc(a, b, eq_factor(point[k + m - 1], index_bit(i, k + m - 1)));
    }
}

/// The indicator at every vertex, in order.
pub fn eq_ind_partial_eval_scalars<F: FieldOps>(point: &[F]) -> (r: Vec<F>)
    requires
        pow2(point.len() as nat) <= usize::MAX,
    ensures
        r.len() == pow2(point.len() as nat),
        forall|i: int| 0 <= i < r.len() ==> #[trigger] r[i] == eq_ind(point@, i),
{
    let mut r: Vec<F> = Vec::new();
    r.push(F::one());
    let mut j: usize = 0;
    proof {
        lemma2_to64();
    }
    while j < point.len()
        invariant
            j <= point.len(),
            r.len() == pow2(j as nat),
            pow2(point.len() as nat) <= usize::MAX,
            forall|i: int| 0 <= i < r.len() ==> #[trigger] r[i] == eq_at(point@, j as int, i),
        decreases point.len() - j,
    {
        let ghost before = r@;
        let size = r.len();
        let x = point[j];
        proof {
            lemma_pow2_unfold((j + 1) as nat);
            lemma_pow2_split((j + 1) as nat, point.len() as nat);
        }
        // The second half of the new table.
        let mut v: usize = 0;
        while v < size
            invariant
                j < point.len(),
                v <= size,
                size == pow2(j as nat),
                before.len() == size,
                r.len() == size + v,
                2 * size <= usize::MAX,
                x == point[j as int],
                forall|i: int| 0 <= i < size ==> #[trigger] before[i] == eq_at(
                    point@,
                    j as int,
                    i,
                ),
                forall|i: int|
                    0 <= i < size ==> #[trigger] r[i] == if i < v {
                        before[i].times(F::unit().plus(x))
                    } else {
                        before[i]
                    },
                forall|i: int| 0 <= i < v ==> #[trigger] r[size + i] == before[i].times(x),
            decreases size - v,
        {
            let ghost current = r@;
            let e = r[v];
            let hi = e.mul(x);
            let lo = e.add(hi);
            proof {
                F::times_plus(e, F::unit(), x);
                F::times_unit(e);
            }
            r.set(v, lo);
            r.push(hi);
            proof {
                assert forall|i: int| 0 <= i < v + 1 implies #[trigger] r[size + i]
                    == before[i].times(x) by {
                    if i < v {
                        assert(current[size + i] == before[i].times(x));
                    }
                }
                assert forall|i: int| 0 <= i < size implies #[trigger] r[i] == (if i < v + 1 {
                    before[i].times(F::unit().plus(x))
                } else {
                    before[i]
                }) by {
                    if i != v {
                        assert(r[i] == current[i]);
                    }
                }
            }
            v = v + 1;
        }
        proof {
            let n = j as int;
            assert forall|i: int| 0 <= i < r.len() implies #[trigger] r[i] == eq_at(
                point@,
                n + 1,
                i,
            ) by {
                if i < size {
                    lemma_index_bit_high(i, n, n);
                    assert(before[i] == eq_at(point@, n, i));
                } else {
                    let u = i - size;
                    assert(r[size + u] == before[u].times(x));
                    lemma_index_bit_top(u, n);
                    lemma_eq_low(point@, n, n, 1, u);
                    assert(1 * pow2(n as nat) + u == i);
                }
            }
        }
        j = j + 1;
    }
    r
}

/// The indicator at every vertex, as a buffer.
pub fn eq_ind_partial_eval<P: PackedField>(point: &[P::Scalar]) -> (r: FieldBuffer<P>)
    requires
        pow2(point.len() as nat) <= usize::MAX,
    ensures
        r.wf(),
        r.log_len == point.len(),
        forall|i: int|
            0 <= i < pow2(point.len() as nat) ==> #[trigger] r.scalars()[i] == eq_ind(point@, i),
{
    let values = eq_ind_partial_eval_scalars(point);
    let mut r = FieldBuffer::<P>::zeros(point.len());
    let mut i: usize = 0;
    while i < values.len()
        invariant
            i <= values.len(),
            values.len() == pow2(point.len() as nat),
            r.wf(),
            r.log_len == point.len(),
            forall|j: int| 0 <= j < values.len() ==> #[trigger] values[j] == eq_ind(point@, j),
            forall|j: int| 0 <= j < i ==> #[trigger] r.scalars()[j] == eq_ind(point@, j),
        decreases values.len() - i,
    {
        let ghost before = r.scalars();
        r.set(i, values[i]);
        proof {
            assert forall|j: int| 0 <= j < i + 1 implies #[trigger] r.scalars()[j] == eq_ind(
                point@,
                j,
            ) by {
                if j < i {
                    assert(before[j] == eq_ind(point@, j));
                }
            }
        }
        i = i + 1;
    }
    r
}

/// The indicator of the first coordinates of a vertex.
proof fn lemma_eq_vertex<F: FieldOps>(point: Seq<F>, n: int, v: int, i: int)
    requires
        0 <= n <= point.len(),
        forall|j: int|
            0 <= j < n ==> #[trigger] point[j] == if index_bit(v, j) {
                F::unit()
            } else {
                F::nil()
            },
    ensures
        (forall|j: int| 0 <= j < n ==> #[trigger] index_bit(i, j) == index_bit(v, j)) ==> eq_at(
            point,
            n,
            i,
        ) == F::unit(),
        (exists|j: int| 0 <= j < n && #[trigger] index_bit(i, j) != index_bit(v, j)) ==> eq_at(
            point,
            n,
            i,
        ) == F::nil(),
    decreases n,
{
    if n > 0 {
        lemma_eq_vertex(point, n - 1, v, i);
        let x = point[n - 1];
        F::plus_nil(F::unit());
        F::plus_self(F::unit());
        lemma_times_nil(eq_at(point, n - 1, i));
        F::times_unit(eq_at(point, n - 1, i));
        if index_bit(i, n - 1) == index_bit(v, n - 1) {
            assert(eq_factor(x, index_bit(i, n - 1)) == F::unit());
        } else {
            assert(eq_factor(x, index_bit(i, n - 1)) == F::nil());
        }
    }
}

/// Two numbers below a power of two that differ do so in some bit.
proof fn lemma_some_bit_differs(x: int, v: int, n: int) -> (j: int)
    requires
        0 <= n,
        0 <= x < pow2(n as nat),
        0 <= v < pow2(n as nat),
        x != v,
    ensures
        0 <= j < n,
        index_bit(x, j) != index_bit(v, j),
    decreases n,
{
    lemma2_to64();
    if n > 0 {
        lemma_pow2_unfold(n as nat);
    }
    if x % 2 != v % 2 {
        assert(x / 1 == x && v / 1 == v);
        0
    } else {
        let j = lemma_some_bit_differs(x / 2, v / 2, n - 1);
        lemma_index_bit_shift(x, 1, j);
        lemma_index_bit_shift(v, 1, j);
        j + 1
    }
}

/// The indicator tells vertices apart: at the point whose coordinate `j` is bit `j` of `v`, it is
/// one at vertex `v` and zero at every other.
pub proof fn indicator_tells_vertices_apart<F: FieldOps>(point: Seq<F>, v: int, i: int)
    requires
        0 <= v < pow2(point.len()),
        0 <= i < pow2(point.len()),
        forall|j: int|
            0 <= j < point.len() ==> #[trigger] point[j] == if (v / pow2(j as nat) as int) % 2 == 1 {
                F::unit()
            } else {
                F::nil()
            },
    ensures
        eq_ind(point, i) == if i == v {
            F::unit()
        } else {
            F::nil()
        },
{
    let n = point.len() as int;
    lemma_eq_vertex(point, n, v, i);
    if i != v {
        let j = lemma_some_bit_differs(i, v, n);
        assert(index_bit(i, j) != index_bit(v, j));
    }
}

} // verus!
