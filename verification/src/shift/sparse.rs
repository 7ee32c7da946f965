//! Multilinears over a shift index and a bit position, stored by their live rows.

use vstd::arithmetic::power2::{lemma2_to64, lemma_pow2_unfold, pow2};
use crate::algebra::field::{FieldOps, lemma_plus_times, lemma_sum_scale, lemma_times_nil, select};
use crate::algebra::group::{AdditiveGroup, lemma_nil_plus};
use crate::algebra::sum::{
    lemma_sum_blocks, lemma_sum_ext, lemma_sum_nil, lemma_sum_plus, lemma_sum_single,
    lemma_sum_split, lemma_sum_swap, sum,
};
use crate::field::packed::{
    Divisible, PackedField, all_lanes, get_packed_slice, set_packed_slice_unchecked,
};
use crate::math::field_buffer::FieldBuffer;
use crate::math::index::{lemma_block_bound, lemma_exponent_below, lemma_pow2_split, pow2_usize};
use crate::sumcheck::product::{fold_high, product_round, value_at_infinity, value_at_one};
use crate::sumcheck::round::{RoundCoeffs, RoundEvals};
use vstd::prelude::*;

verus! {

/// The rows of a multilinear that a constraint system's shifts reach.
///
/// The multilinear is the sum of its rows, so rows at a repeated index add up.
#[derive(Debug)]
pub struct SparseShiftRows<P> {
    /// The row index of each stored row. Repeatable.
    pub indices: Vec<u32>,
    /// The stored rows end to end, 64 scalars each.
    pub values: Vec<P>,
    /// The number of row-index variables still to bind.
    pub log_rows: usize,
}

/// The dense multilinear that stored rows add up to.
pub open spec fn scattered<F: FieldOps>(indices: Seq<u32>, cells: Seq<F>, rows: nat) -> Seq<F> {
    Seq::new(
        rows * 64,
        |x: int|
            sum(
                indices.len() as int,
                |t: int| select(indices[t] as int == x / 64, cells[64 * t + x % 64]),
            ),
    )
}

/// The inner product of stored row `t` with row `i` of a dense multilinear.
pub open spec fn row_dot<F: FieldOps>(cells: Seq<F>, t: int, b: Seq<F>, i: int) -> F {
    sum(64, |j: int| cells[64 * t + j].times(b[64 * i + j]))
}

/// The row across the split from a row.
pub open spec fn facing(i: int, half: int) -> int {
    if i < half {
        i + half
    } else {
        i - half
    }
}

/// What stored row `t` adds to the round polynomial at one.
pub open spec fn row_at_one<F: FieldOps>(
    indices: Seq<u32>,
    cells: Seq<F>,
    b: Seq<F>,
    half: int,
    t: int,
) -> F {
    select(indices[t] as int >= half, row_dot(cells, t, b, indices[t] as int))
}

/// What stored row `t` adds to the round polynomial at infinity.
pub open spec fn row_at_infinity<F: FieldOps>(
    indices: Seq<u32>,
    cells: Seq<F>,
    b: Seq<F>,
    half: int,
    t: int,
) -> F {
    let own = indices[t] as int;
    sum(
        64,
        |j: int| cells[64 * t + j].times(b[64 * own + j].plus(b[64 * facing(own, half) + j])),
    )
}

/// Weighing the dense multilinear is weighing the stored rows.
pub proof fn lemma_scattered_dot<F: FieldOps>(
    indices: Seq<u32>,
    cells: Seq<F>,
    rows: nat,
    w: spec_fn(int) -> F,
)
    requires
        forall|t: int| 0 <= t < indices.len() ==> (#[trigger] indices[t] as int) < rows,
    ensures
        sum((rows * 64) as int, |x: int| scattered(indices, cells, rows)[x].times(w(x))) == sum(
            indices.len() as int,
            |t: int|
                sum(64, |j: int| cells[64 * t + j].times(w(64 * (indices[t] as int) + j))),
        ),
{
    let n = indices.len() as int;
    let m = (rows * 64) as int;
    let a = scattered(indices, cells, rows);
    let term = |x: int, t: int|
        select(indices[t] as int == x / 64, cells[64 * t + x % 64]).times(w(x));
    let dense = |x: int| a[x].times(w(x));
    let spread = |x: int| sum(n, |t: int| term(x, t));
    assert forall|x: int| 0 <= x < m implies #[trigger] dense(x) == spread(x) by {
        let f = |t: int| select(indices[t] as int == x / 64, cells[64 * t + x % 64]);
        lemma_sum_scale(n, w(x), f);
        lemma_sum_ext(n, |t: int| f(t).times(w(x)), |t: int| term(x, t));
    }
    lemma_sum_ext(m, dense, spread);
    lemma_sum_swap(m, n, term);
    let columns = |t: int| sum(m, |x: int| term(x, t));
    let stored = |t: int|
        sum(64, |j: int| cells[64 * t + j].times(w(64 * (indices[t] as int) + j)));
    assert forall|t: int| 0 <= t < n implies #[trigger] columns(t) == stored(t) by {
        let i = indices[t] as int;
        let f = |x: int| term(x, t);
        lemma_sum_blocks(rows as int, 64, f);
        let block = |b: int| sum(64, |j: int| f(b * 64 + j));
        assert forall|b: int| 0 <= b < rows && b != i implies #[trigger] block(b) == F::nil() by {
            let g = |j: int| f(b * 64 + j);
            assert forall|j: int| 0 <= j < 64 implies #[trigger] g(j) == F::nil() by {
                assert((b * 64 + j) / 64 == b);
                lemma_times_nil(w(b * 64 + j));
            }
            lemma_sum_nil(64, g);
        }
        lemma_sum_single(rows as int, block, i);
        let g = |j: int| f(i * 64 + j);
        let h = |j: int| cells[64 * t + j].times(w(64 * i + j));
        assert forall|j: int| 0 <= j < 64 implies #[trigger] g(j) == h(j) by {
            assert((i * 64 + j) / 64 == i && (i * 64 + j) % 64 == j);
        }
        lemma_sum_ext(64, g, h);
    }
    lemma_sum_ext(n, columns, stored);
}

/// A round over the dense multilinear reads the stored rows alone.
pub proof fn lemma_sparse_round<F: FieldOps>(
    indices: Seq<u32>,
    cells: Seq<F>,
    half: nat,
    b: Seq<F>,
)
    requires
        b.len() == 128 * half,
        forall|t: int| 0 <= t < indices.len() ==> (#[trigger] indices[t] as int) < 2 * half,
    ensures
        value_at_one(scattered(indices, cells, 2 * half), b) == sum(
            indices.len() as int,
            |t: int| row_at_one(indices, cells, b, half as int, t),
        ),
        value_at_infinity(scattered(indices, cells, 2 * half), b) == sum(
            indices.len() as int,
            |t: int| row_at_infinity(indices, cells, b, half as int, t),
        ),
{
    let n = indices.len() as int;
    let rows = 2 * half;
    let a = scattered(indices, cells, rows);
    let h = 64 * half as int;
    assert(a.len() / 2 == h);
    // At one, the weight is the upper half of `b`.
    let w1 = |x: int| select(x >= h, b[x]);
    lemma_scattered_dot(indices, cells, rows, w1);
    let d1 = |x: int| a[x].times(w1(x));
    lemma_sum_split(h, h, d1);
    assert forall|x: int| 0 <= x < h implies #[trigger] d1(x) == F::nil() by {
        lemma_times_nil(a[x]);
    }
    lemma_sum_nil(h, d1);
    let up = |v: int| d1(h + v);
    lemma_nil_plus(sum(h, up));
    lemma_sum_ext(h, up, |v: int| a[h + v].times(b[h + v]));
    let s1 = |t: int| sum(64, |j: int| cells[64 * t + j].times(w1(64 * (indices[t] as int) + j)));
    let r1 = |t: int| row_at_one(indices, cells, b, half as int, t);
    assert forall|t: int| 0 <= t < n implies #[trigger] s1(t) == r1(t) by {
        let i = indices[t] as int;
        let f = |j: int| cells[64 * t + j].times(w1(64 * i + j));
        if i >= half {
            lemma_sum_ext(64, f, |j: int| cells[64 * t + j].times(b[64 * i + j]));
        } else {
            assert forall|j: int| 0 <= j < 64 implies #[trigger] f(j) == F::nil() by {
                lemma_times_nil(cells[64 * t + j]);
            }
            lemma_sum_nil(64, f);
        }
    }
    lemma_sum_ext(n, s1, r1);
    // At infinity, both halves weigh the same.
    let d = |v: int| b[v].plus(b[h + v]);
    let wi = |x: int| if x < h {
        d(x)
    } else {
        d(x - h)
    };
    lemma_scattered_dot(indices, cells, rows, wi);
    let di = |x: int| a[x].times(wi(x));
    lemma_sum_split(h, h, di);
    let ui = |v: int| di(h + v);
    lemma_sum_plus(h, di, ui);
    let both = |v: int| di(v).plus(ui(v));
    let inf = |v: int| a[v].plus(a[h + v]).times(b[v].plus(b[h + v]));
    assert forall|v: int| 0 <= v < h implies #[trigger] both(v) == inf(v) by {
        lemma_plus_times(a[v], a[h + v], d(v));
    }
    lemma_sum_ext(h, both, inf);
    let si = |t: int| sum(64, |j: int| cells[64 * t + j].times(wi(64 * (indices[t] as int) + j)));
    let ri = |t: int| row_at_infinity(indices, cells, b, half as int, t);
    assert forall|t: int| 0 <= t < n implies #[trigger] si(t) == ri(t) by {
        let i = indices[t] as int;
        let f = |j: int| cells[64 * t + j].times(wi(64 * i + j));
        let g = |j: int|
            cells[64 * t + j].times(b[64 * i + j].plus(b[64 * facing(i, half as int) + j]));
        assert forall|j: int| 0 <= j < 64 implies #[trigger] f(j) == g(j) by {
            F::plus_comm(b[64 * i + j], b[64 * facing(i, half as int) + j]);
        }
        lemma_sum_ext(64, f, g);
    }
    lemma_sum_ext(n, si, ri);
}

/// Folding the stored rows folds the dense multilinear.
pub proof fn lemma_sparse_fold<F: FieldOps>(
    indices: Seq<u32>,
    cells: Seq<F>,
    folded_indices: Seq<u32>,
    folded_cells: Seq<F>,
    half: nat,
    r: F,
)
    requires
        folded_indices.len() == indices.len(),
        forall|t: int|
            0 <= t < indices.len() ==> (#[trigger] indices[t] as int) < 2 * half
                && folded_indices[t] as int == if (indices[t] as int) < half {
                indices[t] as int
            } else {
                indices[t] - half
            },
        forall|t: int, j: int|
            0 <= t < indices.len() && 0 <= j < 64 ==> #[trigger] cell(folded_cells, t, j) == cell(
                cells,
                t,
                j,
            ).times(
                if (indices[t] as int) < half {
                    F::unit().plus(r)
                } else {
                    r
                },
            ),
    ensures
        scattered(folded_indices, folded_cells, half) == fold_high(
            scattered(indices, cells, 2 * half),
            r,
        ),
{
    let n = indices.len() as int;
    let a = scattered(indices, cells, 2 * half);
    let h = 64 * half as int;
    let lhs = scattered(folded_indices, folded_cells, half);
    let rhs = fold_high(a, r);
    assert(a.len() / 2 == h);
    assert forall|v: int| 0 <= v < h implies #[trigger] lhs[v] == rhs[v] by {
        let f0 = |t: int| select(indices[t] as int == v / 64, cells[64 * t + v % 64]);
        let f1 = |t: int| select(indices[t] as int == (h + v) / 64, cells[64 * t + (h + v) % 64]);
        let q = F::unit().plus(r);
        lemma_sum_scale(n, q, f0);
        lemma_sum_scale(n, r, f1);
        let g0 = |t: int| f0(t).times(q);
        let g1 = |t: int| f1(t).times(r);
        lemma_sum_plus(n, g0, g1);
        let both = |t: int| g0(t).plus(g1(t));
        let out = |t: int|
            select(folded_indices[t] as int == v / 64, folded_cells[64 * t + v % 64]);
        assert((h + v) / 64 == half + v / 64 && (h + v) % 64 == v % 64);
        assert forall|t: int| 0 <= t < n implies #[trigger] out(t) == both(t) by {
            let j = v % 64;
            assert(cell(folded_cells, t, j) == cell(cells, t, j).times(
                if (indices[t] as int) < half {
                    F::unit().plus(r)
                } else {
                    r
                },
            ));
            lemma_times_nil(q);
            lemma_times_nil(r);
            F::plus_nil(g0(t));
            lemma_nil_plus(g1(t));
        }
        lemma_sum_ext(n, out, both);
    }
    assert(lhs =~= rhs);
}

/// The scalar of stored row `t` at bit position `j`.
pub open spec fn cell<F>(cells: Seq<F>, t: int, j: int) -> F {
    cells[64 * t + j]
}

impl<P: PackedField> SparseShiftRows<P> {
    /// One row of 64 scalars per index, and every index names a row of the space.
    pub open spec fn wf(&self) -> bool {
        &&& P::LOG_WIDTH <= 6
        &&& pow2(self.log_rows as nat) <= usize::MAX
        &&& self.values.len() * P::WIDTH == 64 * self.indices.len()
        &&& self.values.len() * P::WIDTH <= usize::MAX
        &&& forall|t: int|
            0 <= t < self.indices.len() ==> (#[trigger] self.indices[t] as int) < pow2(
                self.log_rows as nat,
            )
    }

    /// The scalars of the stored rows.
    pub open spec fn cells(&self) -> Seq<P::Scalar> {
        all_lanes(self.values@)
    }

    /// The dense multilinear the rows add up to.
    pub open spec fn dense(&self) -> Seq<P::Scalar> {
        scattered(self.indices@, self.cells(), pow2(self.log_rows as nat))
    }

    /// Collects stored rows at the given indices of a row space `log_rows` variables wide.
    pub fn new(indices: Vec<u32>, values: Vec<P>, log_rows: usize) -> (r: Self)
        requires
            P::LOG_WIDTH <= 6,
            pow2(log_rows as nat) <= usize::MAX,
            values.len() * P::WIDTH == 64 * indices.len(),
            values.len() * P::WIDTH <= usize::MAX,
            forall|t: int|
                0 <= t < indices.len() ==> (#[trigger] indices[t] as int) < pow2(log_rows as nat),
        ensures
            r.wf(),
            r.indices@ == indices@,
            r.cells() == all_lanes(values@),
            r.log_rows == log_rows,
    {
        SparseShiftRows { indices, values, log_rows }
    }

    /// The number of row-index variables still to bind.
    pub fn log_rows(&self) -> (r: usize)
        ensures
            r == self.log_rows,
    {
        self.log_rows
    }

    /// The scalar of a stored row at a bit position.
    pub fn get(&self, t: usize, j: usize) -> (r: P::Scalar)
        requires
            self.wf(),
            t < self.indices.len(),
            j < 64,
        ensures
            r == self.cells()[64 * t + j],
            r == cell(self.cells(), t as int, j as int),
    {
        proof {
            P::width_is_power();
            lemma_block_bound(64 * t + j, self.values.len() as int, P::WIDTH as int);
        }
        get_packed_slice(self.values.as_slice(), 64 * t + j)
    }

    /// The index-space value the next round splits at.
    pub fn half(&self) -> (r: usize)
        requires
            self.log_rows > 0,
            pow2(self.log_rows as nat) <= usize::MAX,
        ensures
            r == pow2((self.log_rows - 1) as nat),
            2 * r == pow2(self.log_rows as nat),
    {
        proof {
            lemma_pow2_unfold(self.log_rows as nat);
        }
        pow2_usize(self.log_rows - 1)
    }

    /// Binds the highest row-index variable to a challenge.
    ///
    /// A row is scaled by the challenge weight of the half it sits in and moved down into the
    /// folded index space; nothing is paired up or merged.
    pub fn fold(&mut self, challenge: P::Scalar)
        requires
            old(self).wf(),
            old(self).log_rows > 0,
        ensures
            final(self).wf(),
            final(self).log_rows == old(self).log_rows - 1,
            final(self).indices.len() == old(self).indices.len(),
            final(self).dense() == fold_high(old(self).dense(), challenge),
    {
        let half = self.half();
        let lower_weight = P::Scalar::one().add(challenge);
        let upper_weight = challenge;
        let ghost (indices, cells) = (self.indices@, self.cells());
        let ghost start = *self;
        let mut t: usize = 0;
        while t < self.indices.len()
            invariant
                t <= self.indices.len(),
                2 * half == pow2(start.log_rows as nat),
                start.wf(),
                indices == start.indices@,
                cells == start.cells(),
                self.log_rows == start.log_rows,
                self.indices.len() == start.indices.len(),
                self.values.len() == start.values.len(),
                lower_weight == P::Scalar::unit().plus(challenge),
                upper_weight == challenge,
                forall|s: int|
                    0 <= s < indices.len() ==> #[trigger] self.indices[s] as int == if s < t
                        && indices[s] as int >= half {
                        indices[s] - half
                    } else {
                        indices[s] as int
                    },
                forall|s: int, j: int|
                    0 <= s < indices.len() && 0 <= j < 64 ==> #[trigger] cell(self.cells(), s, j)
                        == if s < t {
                        cell(cells, s, j).times(
                            if (indices[s] as int) < half {
                                lower_weight
                            } else {
                                upper_weight
                            },
                        )
                    } else {
                        cell(cells, s, j)
                    },
            decreases self.indices.len() - t,
        {
            let index = self.indices[t];
            assert(index == indices[t as int]);
            let weight = if (index as usize) < half {
                lower_weight
            } else {
                upper_weight
            };
            let mut j: usize = 0;
            while j < 64
                invariant
                    j <= 64,
                    t < indices.len(),
                    start.wf(),
                    indices == start.indices@,
                    self.indices.len() == start.indices.len(),
                    self.values.len() == start.values.len(),
                    self.log_rows == start.log_rows,
                    weight == if (indices[t as int] as int) < half {
                        lower_weight
                    } else {
                        upper_weight
                    },
                    forall|s: int|
                        0 <= s < indices.len() ==> #[trigger] self.indices[s] as int == if s < t
                            && indices[s] as int >= half {
                            indices[s] - half
                        } else {
                            indices[s] as int
                        },
                    forall|s: int, k: int|
                        0 <= s < indices.len() && 0 <= k < 64 ==> #[trigger] cell(
                            self.cells(),
                            s,
                            k,
                        ) == if s < t || (s == t && k < j) {
                            cell(cells, s, k).times(
                                if (indices[s] as int) < half {
                                    lower_weight
                                } else {
                                    upper_weight
                                },
                            )
                        } else {
                            cell(cells, s, k)
                        },
                decreases 64 - j,
            {
                let ghost before = self.cells();
                proof {
                    P::width_is_power();
                    lemma_block_bound(64 * t + j, self.values.len() as int, P::WIDTH as int);
                    assert(cell(before, t as int, j as int) == cell(cells, t as int, j as int));
                }
                let value = get_packed_slice(self.values.as_slice(), 64 * t + j);
                let scaled = value.mul(weight);
                set_packed_slice_unchecked(self.values.as_mut_slice(), 64 * t + j, scaled);
                proof {
                    assert(self.cells() == before.update(64 * t + j, scaled));
                    assert forall|s: int, k: int|
                        0 <= s < indices.len() && 0 <= k < 64 implies #[trigger] cell(
                        self.cells(),
                        s,
                        k,
                    ) == (if s < t || (s == t && k < j + 1) {
                        cell(cells, s, k).times(
                            if (indices[s] as int) < half {
                                lower_weight
                            } else {
                                upper_weight
                            },
                        )
                    } else {
                        cell(cells, s, k)
                    }) by {
                        assert(64 * s + k < before.len());
                        if s != t || k != j {
                            assert(64 * s + k != 64 * t + j);
                            assert(cell(self.cells(), s, k) == cell(before, s, k));
                        }
                    }
                }
                j = j + 1;
            }
            let ghost after = self.cells();
            if index as usize >= half {
                let moved: u32 = index - half as u32;
                self.indices.set(t, moved);
            }
            assert(self.cells() == after);
            t = t + 1;
        }
        let ghost after = self.cells();
        self.log_rows = self.log_rows - 1;
        proof {
            assert(self.cells() == after);
            lemma_pow2_unfold(start.log_rows as nat);
            lemma_sparse_fold(indices, cells, self.indices@, self.cells(), half as nat, challenge);
            assert forall|s: int| 0 <= s < self.indices.len() implies (#[trigger] self.indices[s]
                as int) < pow2(self.log_rows as nat) by {
                assert((start.indices[s] as int) < pow2(start.log_rows as nat));
            }
        }
    }

    /// What is left once every row-index variable is bound: one dense row over the bit position.
    pub fn into_bit_multilinear(self) -> (r: FieldBuffer<P>)
        requires
            self.wf(),
            self.log_rows == 0,
        ensures
            r.wf(),
            r.log_len == 6,
            r.scalars() == self.dense(),
    {
        proof {
            lemma2_to64();
        }
        self.scatter()
    }

    /// Spreads the rows over the space they still span.
    ///
    /// Rows at a repeated index add up, and every row not stored is zero.
    pub fn scatter(&self) -> (r: FieldBuffer<P>)
        requires
            self.wf(),
            pow2((self.log_rows + 6) as nat) <= usize::MAX,
        ensures
            r.wf(),
            r.log_len == self.log_rows + 6,
            r.scalars() == self.dense(),
    {
        let ghost rows = pow2(self.log_rows as nat);
        proof {
            lemma2_to64();
            lemma_pow2_split(6, (self.log_rows + 6) as nat);
            assert(pow2((self.log_rows + 6) as nat) == 64 * rows);
            lemma_exponent_below((self.log_rows + 6) as nat);
        }
        let mut r = FieldBuffer::<P>::zeros(self.log_rows + 6);
        let ghost (indices, cells) = (self.indices@, self.cells());
        let mut t: usize = 0;
        proof {
            assert forall|x: int| 0 <= x < 64 * rows implies #[trigger] r.scalars()[x] == sum(
                0,
                |s: int| select(indices[s] as int == x / 64, cells[64 * s + x % 64]),
            ) by {}
        }
        while t < self.indices.len()
            invariant
                t <= self.indices.len(),
                self.wf(),
                rows == pow2(self.log_rows as nat),
                pow2((self.log_rows + 6) as nat) == 64 * rows,
                64 * rows <= usize::MAX,
                indices == self.indices@,
                cells == self.cells(),
                r.wf(),
                r.log_len == self.log_rows + 6,
                forall|x: int|
                    0 <= x < 64 * rows ==> #[trigger] r.scalars()[x] == sum(
                        t as int,
                        |s: int| select(indices[s] as int == x / 64, cells[64 * s + x % 64]),
                    ),
            decreases self.indices.len() - t,
        {
            let i = self.indices[t] as usize;
            let ghost start = r.scalars();
            assert((self.indices[t as int] as int) < rows);
            let mut j: usize = 0;
            while j < 64
                invariant
                    j <= 64,
                    t < self.indices.len(),
                    i == indices[t as int],
                    i < rows,
                    self.wf(),
                    indices == self.indices@,
                    cells == self.cells(),
                    pow2((self.log_rows + 6) as nat) == 64 * rows,
                    64 * rows <= usize::MAX,
                    r.wf(),
                    r.log_len == self.log_rows + 6,
                    forall|x: int|
                        0 <= x < 64 * rows ==> #[trigger] r.scalars()[x] == if 64 * i <= x < 64 * i
                            + j {
                            start[x].plus(cells[64 * t + (x - 64 * i)])
                        } else {
                            start[x]
                        },
                decreases 64 - j,
            {
                let ghost before = r.scalars();
                let value = r.get(64 * i + j).add(self.get(t, j));
                r.set(64 * i + j, value);
                proof {
                    assert(before[64 * i + j] == start[64 * i + j]);
                    assert forall|x: int| 0 <= x < 64 * rows implies #[trigger] r.scalars()[x] == (
                    if 64 * i <= x < 64 * i + j + 1 {
                        start[x].plus(cells[64 * t + (x - 64 * i)])
                    } else {
                        start[x]
                    }) by {
                        if x != 64 * i + j {
                            assert(r.scalars()[x] == before[x]);
                        }
                    }
                }
                j = j + 1;
            }
            proof {
                assert forall|x: int| 0 <= x < 64 * rows implies #[trigger] r.scalars()[x] == sum(
                    t + 1,
                    |s: int| select(indices[s] as int == x / 64, cells[64 * s + x % 64]),
                ) by {
                    let f = |s: int| select(indices[s] as int == x / 64, cells[64 * s + x % 64]);
                    assert(start[x] == sum(t as int, f));
                    P::Scalar::plus_nil(start[x]);
                    assert(sum(t + 1, f) == sum(t as int, f).plus(f(t as int)));
                    if x / 64 == i {
                        assert(x == 64 * i + x % 64);
                    }
                }
            }
            t = t + 1;
        }
        assert(r.scalars() =~= self.dense());
        r
    }
}

/// Computes one round polynomial over the row index against a dense table.
///
/// Both sampled values are linear in the stored rows, so each contributes on its own.
pub fn shift_round_coeffs<P: PackedField>(
    g: &SparseShiftRows<P>,
    h: &FieldBuffer<P>,
    claim: P::Scalar,
) -> (r: RoundCoeffs<P::Scalar>)
    requires
        g.wf(),
        h.wf(),
        g.log_rows > 0,
        h.log_len == g.log_rows + 6,
    ensures
        r.0@ == product_round(g.dense(), h.scalars(), claim),
{
    let half = g.half();
    let ghost n = g.indices.len() as int;
    let ghost (indices, cells, b) = (g.indices@, g.cells(), h.scalars());
    let ghost one = |t: int| row_at_one(indices, cells, b, half as int, t);
    let ghost inf = |t: int| row_at_infinity(indices, cells, b, half as int, t);
    proof {
        lemma2_to64();
        lemma_pow2_split(6, h.log_len as nat);
        lemma_sparse_round(indices, cells, half as nat, b);
    }
    let mut y_1 = P::Scalar::wide_zero();
    let mut y_inf = P::Scalar::wide_zero();
    let mut t: usize = 0;
    while t < g.indices.len()
        invariant
            t <= g.indices.len(),
            g.wf(),
            h.wf(),
            pow2(h.log_len as nat) == 128 * half,
            2 * half == pow2(g.log_rows as nat),
            indices == g.indices@,
            cells == g.cells(),
            b == h.scalars(),
            one == (|t: int| row_at_one(indices, cells, b, half as int, t)),
            inf == (|t: int| row_at_infinity(indices, cells, b, half as int, t)),
            P::Scalar::wide_value(y_1) == sum(t as int, one),
            P::Scalar::wide_value(y_inf) == sum(t as int, inf),
        decreases g.indices.len() - t,
    {
        let own = g.indices[t] as usize;
        assert((g.indices[t as int] as int) < 2 * half);
        let other: usize = if own < half {
            own + half
        } else {
            own - half
        };
        let ghost f = |j: int| cells[64 * t + j].times(b[64 * own + j]);
        let ghost g_inf = |j: int|
            cells[64 * t + j].times(b[64 * own + j].plus(b[64 * facing(own as int, half as int) + j]));
        let ghost (start_1, start_inf) = (P::Scalar::wide_value(y_1), P::Scalar::wide_value(y_inf));
        let upper = own >= half;
        let mut j: usize = 0;
        proof {
            P::Scalar::plus_nil(start_1);
            P::Scalar::plus_nil(start_inf);
        }
        while j < 64
            invariant
                j <= 64,
                t < g.indices.len(),
                g.wf(),
                h.wf(),
                pow2(h.log_len as nat) == 128 * half,
                own < 2 * half,
                other == facing(own as int, half as int),
                other < 2 * half,
                upper == (own >= half),
                cells == g.cells(),
                b == h.scalars(),
                f == (|j: int| cells[64 * t + j].times(b[64 * own + j])),
                g_inf == (|j: int|
                    cells[64 * t + j].times(
                        b[64 * own + j].plus(b[64 * facing(own as int, half as int) + j]),
                    )),
                P::Scalar::wide_value(y_1) == start_1.plus(select(upper, sum(j as int, f))),
                P::Scalar::wide_value(y_inf) == start_inf.plus(sum(j as int, g_inf)),
            decreases 64 - j,
        {
            let c = g.get(t, j);
            let (x, y) = (h.get(64 * own + j), h.get(64 * other + j));
            if upper {
                y_1 = P::Scalar::wide_add(y_1, P::Scalar::wide_mul(c, x));
            }
            y_inf = P::Scalar::wide_add(y_inf, P::Scalar::wide_mul(c, x.add(y)));
            proof {
                P::Scalar::plus_assoc(start_1, sum(j as int, f), f(j as int));
                P::Scalar::plus_assoc(start_inf, sum(j as int, g_inf), g_inf(j as int));
            }
            j = j + 1;
        }
        proof {
            assert(one(t as int) == select(upper, sum(64, f)));
            assert(inf(t as int) == sum(64, g_inf));
        }
        t = t + 1;
    }
    RoundEvals { y_1: P::Scalar::reduce(y_1), y_inf: P::Scalar::reduce(y_inf) }.interpolate(claim)
}

} // verus!
