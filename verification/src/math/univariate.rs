//! Lagrange evaluation over linear subspaces.

use vstd::arithmetic::power2::{lemma2_to64, lemma_pow2_pos, lemma_pow2_unfold, pow2};
use crate::algebra::field::{Field, FieldOps, lemma_times_nil, select};
use crate::algebra::group::{AdditiveGroup, lemma_nil_plus};
use crate::algebra::sum::{lemma_sum_ext, lemma_sum_nil, lemma_sum_plus, lemma_sum_single, sum};
use crate::ghash::laws::product;
use crate::math::index::lemma_pow2_split;
use crate::math::subset::{
    index_bit, lemma_index_bit_high, lemma_index_bit_low, lemma_index_bit_top, subset_sum,
};
use vstd::prelude::*;

verus! {

/// A linear subspace of a binary field, given by a basis.
#[derive(Debug)]
pub struct BinarySubspace<F> {
    pub basis: Vec<F>,
}

/// The elements of a subspace in the order of their coordinates.
pub open spec fn subspace_points<F: FieldOps>(basis: Seq<F>) -> Seq<F> {
    Seq::new(pow2(basis.len()), |i: int| subset_sum(basis, basis.len() as int, i))
}

impl<F: Field> BinarySubspace<F> {
    /// The elements in order.
    pub fn points(&self) -> (r: Vec<F>)
        requires
            pow2(self.basis.len() as nat) <= usize::MAX,
        ensures
            r@ == subspace_points(self.basis@),
    {
        let mut r: Vec<F> = Vec::new();
        r.push(F::zero());
        let ghost basis = self.basis@;
        let mut b: usize = 0;
        proof {
            lemma2_to64();
        }
        while b < self.basis.len()
            invariant
                b <= self.basis.len(),
                basis == self.basis@,
                r.len() == pow2(b as nat),
                pow2(self.basis.len() as nat) <= usize::MAX,
                forall|i: int|
                    0 <= i < r.len() ==> #[trigger] r[i] == subset_sum(basis, b as int, i),
            decreases self.basis.len() - b,
        {
            let size = r.len();
            let ghost before = r@;
            proof {
                lemma_pow2_unfold((b + 1) as nat);
                lemma_pow2_split((b + 1) as nat, self.basis.len() as nat);
            }
            let mut i: usize = 0;
            while i < size
                invariant
                    i <= size,
                    b < basis.len(),
                    basis == self.basis@,
                    size == pow2(b as nat),
                    before.len() == size,
                    2 * size <= usize::MAX,
                    r.len() == size + i,
                    forall|k: int| 0 <= k < size ==> #[trigger] r[k] == before[k],
                    forall|k: int|
                        0 <= k < size ==> #[trigger] before[k] == subset_sum(basis, b as int, k),
                    forall|k: int|
                        size <= k < size + i ==> #[trigger] r[k] == subset_sum(basis, b + 1, k),
                decreases size - i,
            {
                let value = r[i].add(self.basis[b]);
                r.push(value);
                proof {
                    let k = size + i;
                    let f = |c: int| select(index_bit(k, c), basis[c]);
                    let g = |c: int| select(index_bit(i as int, c), basis[c]);
                    assert forall|c: int| 0 <= c < b implies #[trigger] f(c) == g(c) by {
                        lemma_index_bit_low(1, i as int, b as int, c);
                    }
                    lemma_sum_ext(b as int, f, g);
                    lemma_index_bit_top(i as int, b as int);
                    assert(sum(b + 1, f) == sum(b as int, f).plus(f(b as int)));
                }
                i = i + 1;
            }
            proof {
                assert forall|k: int| 0 <= k < r.len() implies #[trigger] r[k]
                    == subset_sum(basis, b + 1, k) by {
                    if k < size {
                        let f = |c: int| select(index_bit(k, c), basis[c]);
                        lemma_index_bit_high(k, b as int, b as int);
                        assert(sum(b + 1, f) == sum(b as int, f).plus(f(b as int)));
                        F::plus_nil(sum(b as int, f));
                    }
                }
            }
            b = b + 1;
        }
        assert(r@ =~= subspace_points(basis));
        r
    }
}

/// The product over the first `n` points but one of `(z - d_j) / (d_i - d_j)`.
pub open spec fn lagrange<F: Field>(points: Seq<F>, i: int, z: F, n: int) -> F
    decreases n,
{
    if n <= 0 {
        F::unit()
    } else if n - 1 == i {
        lagrange(points, i, z, n - 1)
    } else {
        lagrange(points, i, z, n - 1).times(
            z.plus(points[n - 1]).times(points[i].plus(points[n - 1]).inverse()),
        )
    }
}

/// The Lagrange basis of a subspace at a point.
pub open spec fn lagrange_basis<F: Field>(basis: Seq<F>, z: F) -> Seq<F> {
    let points = subspace_points(basis);
    Seq::new(points.len(), |i: int| lagrange(points, i, z, points.len() as int))
}

/// The values at `z` of the Lagrange basis of a subspace.
pub fn lagrange_evals<F: Field>(subspace: &BinarySubspace<F>, z: F) -> (r: Vec<F>)
    requires
        pow2(subspace.basis.len() as nat) <= usize::MAX,
    ensures
        r@ == lagrange_basis(subspace.basis@, z),
{
    let points = subspace.points();
    let mut r: Vec<F> = Vec::new();
    let mut i: usize = 0;
    while i < points.len()
        invariant
            i <= points.len(),
            r.len() == i,
            forall|k: int|
                0 <= k < i ==> #[trigger] r[k] == lagrange(points@, k, z, points.len() as int),
        decreases points.len() - i,
    {
        let mut product = F::one();
        let mut j: usize = 0;
        while j < points.len()
            invariant
                i < points.len(),
                j <= points.len(),
                product == lagrange(points@, i as int, z, j as int),
            decreases points.len() - j,
        {
            if j != i {
                let scale = points[i].add(points[j]).invert_or_zero();
                product = product.mul(z.add(points[j]).mul(scale));
            }
            j = j + 1;
        }
        r.push(product);
        i = i + 1;
    }
    assert(r@ =~= lagrange_basis(subspace.basis@, z));
    r
}

/// A factor that vanishes makes the whole vanish.
proof fn lemma_lagrange_vanishes<F: Field>(points: Seq<F>, i: int, j: int, n: int)
    requires
        0 <= j < n,
        i != j,
    ensures
        lagrange(points, i, points[j], n) == F::nil(),
    decreases n,
{
    let z = points[j];
    let before = lagrange(points, i, z, n - 1);
    if n - 1 == j {
        F::plus_self(z);
        lemma_times_nil(points[i].plus(z).inverse());
        lemma_times_nil(before);
    } else {
        lemma_lagrange_vanishes(points, i, j, n - 1);
        if n - 1 != i {
            lemma_times_nil(
                z.plus(points[n - 1]).times(points[i].plus(points[n - 1]).inverse()),
            );
        }
    }
}

/// Every factor is one at the polynomial's own point.
proof fn lemma_lagrange_own<F: Field>(points: Seq<F>, i: int, n: int)
    requires
        forall|k: int|
            #![trigger points[k]]
            0 <= k < n && k != i ==> points[i].plus(points[k]).times(
                points[i].plus(points[k]).inverse(),
            ) == F::unit(),
    ensures
        lagrange(points, i, points[i], n) == F::unit(),
    decreases n,
{
    if n > 0 {
        lemma_lagrange_own(points, i, n - 1);
        assert(points[n - 1] == points[n - 1]);
        F::times_unit(F::unit());
    }
}

/// The Lagrange basis interpolates: at point `j` of the subspace, polynomial `j` is one, and every
/// other is zero. The differences of points must have inverses, as in a field all but zero do.
pub proof fn lagrange_basis_interpolates<F: Field>(
    subspace: &BinarySubspace<F>,
    j: int,
    r: Vec<F>,
    i: int,
)
    requires
        pow2(subspace.basis.len() as nat) <= usize::MAX,
        0 <= j < pow2(subspace.basis.len() as nat),
        0 <= i < pow2(subspace.basis.len() as nat),
        call_ensures(
            lagrange_evals::<F>,
            (subspace, subset_sum(subspace.basis@, subspace.basis.len() as int, j)),
            r,
        ),
        forall|k: int|
            #![trigger subset_sum(subspace.basis@, subspace.basis.len() as int, k)]
            0 <= k < pow2(subspace.basis.len() as nat) && k != j ==> {
                let d = subset_sum(subspace.basis@, subspace.basis.len() as int, j).plus(
                    subset_sum(subspace.basis@, subspace.basis.len() as int, k),
                );
                d.times(d.inverse()) == F::unit()
            },
    ensures
        r.len() == pow2(subspace.basis.len() as nat),
        r[i] == if i == j {
            F::unit()
        } else {
            F::nil()
        },
{
    let basis = subspace.basis@;
    let points = subspace_points(basis);
    let n = points.len() as int;
    assert(points[j] == subset_sum(basis, basis.len() as int, j));
    if i == j {
        assert forall|k: int|
            #![trigger points[k]]
            0 <= k < n && k != i implies points[i].plus(points[k]).times(
            points[i].plus(points[k]).inverse(),
        ) == F::unit() by {
            assert(points[k] == subset_sum(basis, basis.len() as int, k));
        }
        lemma_lagrange_own(points, i, n);
    } else {
        lemma_lagrange_vanishes(points, i, j, n);
    }
}

/// The elements of a subspace start at zero, and each basis element adds to those before it.
pub proof fn points_double_with_each_element<F: Field>(
    subspace: &BinarySubspace<F>,
    r: Vec<F>,
    j: int,
    i: int,
)
    requires
        pow2(subspace.basis.len() as nat) <= usize::MAX,
        call_ensures(BinarySubspace::<F>::points, (subspace,), r),
        0 <= j < subspace.basis.len(),
        0 <= i < pow2(j as nat),
    ensures
        r.len() == pow2(subspace.basis.len() as nat),
        r[0] == F::nil(),
        pow2(j as nat) + i < r.len(),
        r[pow2(j as nat) + i] == r[i].plus(subspace.basis[j]),
{
    let basis = subspace.basis@;
    let n = basis.len() as int;
    let p = pow2(j as nat) as int;
    lemma_pow2_pos(j as nat);
    lemma_pow2_pos(n as nat);
    lemma_pow2_split((j + 1) as nat, n as nat);
    lemma_pow2_unfold((j + 1) as nat);
    let zero = |t: int| select(index_bit(0, t), basis[t]);
    let low = |t: int| select(index_bit(i, t), basis[t]);
    let high = |t: int| select(index_bit(p + i, t), basis[t]);
    let only = |t: int| select(t == j, basis[t]);
    let both = |t: int| low(t).plus(only(t));
    assert forall|t: int| 0 <= t < n implies #[trigger] zero(t) == F::nil() by {
        lemma2_to64();
        lemma_index_bit_high(0, 0, t);
    }
    lemma_sum_nil(n, zero);
    assert forall|t: int| 0 <= t < n implies #[trigger] high(t) == both(t) by {
        F::plus_nil(low(t));
        lemma_nil_plus(only(t));
        if t < j {
            lemma_index_bit_low(1, i, j, t);
        } else if t == j {
            lemma_index_bit_top(i, j);
            lemma_index_bit_high(i, j, j);
        } else {
            lemma_pow2_unfold((j + 1) as nat);
            lemma_index_bit_high(p + i, j + 1, t);
            lemma_index_bit_high(i, j, t);
        }
    }
    lemma_sum_ext(n, high, both);
    lemma_sum_plus(n, low, only);
    lemma_sum_single(n, only, j);
    assert(r[0] == sum(n, zero));
    assert(r[i] == sum(n, low));
    assert(r[p + i] == sum(n, high));
}

} // verus!
