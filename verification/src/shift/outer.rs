//! The rounds that bind the outer shift slot.

use vstd::arithmetic::power2::{lemma2_to64, pow2};
use crate::algebra::field::{Field, FieldOps, select};
use crate::algebra::group::AdditiveGroup;
use crate::algebra::sum::sum;
use crate::constraint_system::ShiftVariant;
use crate::field::packed::PackedField;
use crate::math::field_buffer::FieldBuffer;
use crate::math::index::lemma_pow2_split;
use crate::shift::operator::{
    operator_is_linear, operator_row, operator_table, shift_operator_row, shift_operator_table,
};
use crate::shift::sparse::{
    SparseShiftRows, facing, lemma_sparse_round, row_at_infinity, row_at_one,
};
use crate::sumcheck::product::{fold_high, product_round};
use crate::sumcheck::prover::fold_highest_var_inplace;
use crate::sumcheck::round::{RoundCoeffs, RoundEvals};
use vstd::prelude::*;

verus! {

/// Every row of a table of bit weights pushed through every inner shift.
///
/// Indexed from the low positions up by the bit position, the inner shift and the table row.
pub open spec fn pushed<F: FieldOps>(table: Seq<F>) -> Seq<F> {
    Seq::new(
        table.len() * 512,
        |x: int|
            operator_row(
                table_row(table, x / 32768),
                ShiftVariant::at((x / 4096) % 8),
                (x / 64) % 64,
                x % 64,
            ),
    )
}

/// Row `i` of a table of 64 weights a row.
pub open spec fn table_row<F>(table: Seq<F>, i: int) -> Seq<F> {
    table.subrange(64 * i, 64 * i + 64)
}

/// The bit weights pushed through both shift slots, the outer slot most significant.
pub open spec fn dense_h<F: FieldOps>(weights: Seq<F>) -> Seq<F> {
    pushed(operator_table(weights))
}

/// Folding commutes with pushing through the inner shifts.
pub proof fn lemma_pushed_fold<F: FieldOps>(table: Seq<F>, n: int, r: F)
    requires
        0 <= n,
        table.len() == 128 * n,
    ensures
        pushed(fold_high(table, r)) == fold_high(pushed(table), r),
{
    let folded = fold_high(table, r);
    let lhs = pushed(folded);
    let b = pushed(table);
    let rhs = fold_high(b, r);
    let h = 32768 * n;
    assert(table.len() / 2 == 64 * n);
    assert(b.len() / 2 == h);
    assert(folded.len() == 64 * n);
    assert(lhs.len() == h);
    assert forall|v: int| 0 <= v < h implies #[trigger] lhs[v] == rhs[v] by {
        let o = v / 32768;
        assert((h + v) / 32768 == n + o);
        assert(((h + v) / 4096) % 8 == (v / 4096) % 8);
        assert(((h + v) / 64) % 64 == (v / 64) % 64);
        assert((h + v) % 64 == v % 64);
        let (lo, hi, mix) = (table_row(table, o), table_row(table, n + o), table_row(folded, o));
        let (p, q) = (F::unit().plus(r), r);
        assert forall|k: int| 0 <= k < 64 implies #[trigger] mix[k] == p.times(lo[k]).plus(
            q.times(hi[k]),
        ) by {
            F::times_comm(p, lo[k]);
            F::times_comm(q, hi[k]);
            assert(mix[k] == folded[64 * o + k]);
            assert(lo[k] == table[64 * o + k]);
            assert(hi[k] == table[64 * n + (64 * o + k)]);
        }
        let (variant, amount, j) = (ShiftVariant::at((v / 4096) % 8), (v / 64) % 64, v % 64);
        operator_is_linear(lo, hi, mix, p, q, variant, amount, j);
        F::times_comm(p, b[v]);
        F::times_comm(q, b[h + v]);
        assert(b[v] == operator_row(lo, variant, amount, j));
        assert(b[h + v] == operator_row(hi, variant, amount, j));
        assert(lhs[v] == operator_row(mix, variant, amount, j));
    }
    assert(lhs =~= rhs);
}

/// One row left: what remains is the shift operator over it.
pub proof fn lemma_pushed_last<F: FieldOps>(table: Seq<F>)
    requires
        table.len() == 64,
    ensures
        pushed(table) == operator_table(table),
{
    assert(table_row(table, 0) =~= table);
    let (a, b) = (pushed(table), operator_table(table));
    assert forall|x: int| 0 <= x < 32768 implies #[trigger] a[x] == b[x] by {
        assert(x / 32768 == 0);
        assert((x / 4096) % 8 == x / 4096);
    }
    assert(a =~= b);
}

/// The state of the rounds binding the outer slot: a folded table of bit weights.
///
/// The table over both slots is never formed; each live row is derived from one slice.
pub struct OuterShiftStage<P: PackedField> {
    pub table: FieldBuffer<P>,
}

impl<F: Field, P: PackedField<Scalar = F>> OuterShiftStage<P> {
    /// The table still spans whole rows of 64 weights.
    pub open spec fn wf(&self) -> bool {
        &&& self.table.wf()
        &&& 6 <= self.table.log_len <= 15
    }

    /// The weights pushed through every outer shift.
    pub fn new(weights: &[F]) -> (r: Self)
        requires
            weights.len() == 64,
            P::LOG_WIDTH <= 6,
        ensures
            r.wf(),
            r.table.log_len == 15,
            r.table.scalars() == operator_table(weights@),
    {
        OuterShiftStage { table: shift_operator_table(weights) }
    }

    /// Row `i` of the table over both slots.
    fn slice_row(&self, i: usize) -> (row: [F; 64])
        requires
            self.wf(),
            64 * i < 512 * pow2(self.table.log_len as nat),
        ensures
            forall|j: int|
                0 <= j < 64 ==> #[trigger] row[j] == pushed(self.table.scalars())[64 * i + j],
    {
        let ghost t = self.table.scalars();
        proof {
            lemma2_to64();
            lemma_pow2_split(6, self.table.log_len as nat);
        }
        let ghost n = pow2((self.table.log_len - 6) as nat) as int;
        assert(i < 512 * n);
        let o: usize = i / 512;
        let mut psi: Vec<F> = Vec::new();
        let mut k: usize = 0;
        while k < 64
            invariant
                k <= 64,
                psi.len() == k,
                self.wf(),
                o < n,
                pow2(self.table.log_len as nat) == 64 * n,
                64 * n <= usize::MAX,
                t == self.table.scalars(),
                forall|x: int| 0 <= x < k ==> #[trigger] psi[x] == t[64 * o + x],
            decreases 64 - k,
        {
            psi.push(self.table.get(64 * o + k));
            k = k + 1;
        }
        let variant = ShiftVariant::from_index((i / 64) % 8);
        let mut row: [F; 64] = [F::zero(); 64];
        shift_operator_row(variant, i % 64, &mut row, psi.as_slice());
        proof {
            assert(psi@ =~= table_row(t, o as int));
            assert forall|j: int| 0 <= j < 64 implies #[trigger] row[j] == pushed(t)[64 * i + j] by {
                let x = 64 * i + j;
                assert(x / 32768 == i as int / 512);
                assert(x / 4096 == i as int / 64);
                assert(x / 64 == i);
                assert(x % 64 == j);
            }
        }
        row
    }

    /// This round's polynomial against the rows still live.
    pub fn round_coeffs(&self, g: &SparseShiftRows<P>, claim: F) -> (r: RoundCoeffs<F>)
        requires
            self.wf(),
            self.table.log_len > 6,
            g.wf(),
            g.log_rows == self.table.log_len + 3,
        ensures
            r.0@ == product_round(g.dense(), pushed(self.table.scalars()), claim),
    {
        let half = g.half();
        let ghost (indices, cells, b) = (g.indices@, g.cells(), pushed(self.table.scalars()));
        let ghost one = |t: int| row_at_one(indices, cells, b, half as int, t);
        let ghost inf = |t: int| row_at_infinity(indices, cells, b, half as int, t);
        proof {
            lemma2_to64();
            lemma_pow2_split(self.table.log_len as nat, g.log_rows as nat);
            lemma_sparse_round(indices, cells, half as nat, b);
        }
        let mut y_1 = F::wide_zero();
        let mut y_inf = F::wide_zero();
        let mut t: usize = 0;
        while t < g.indices.len()
            invariant
                t <= g.indices.len(),
                self.wf(),
                g.wf(),
                8 * pow2(self.table.log_len as nat) == 2 * half,
                2 * half == pow2(g.log_rows as nat),
                indices == g.indices@,
                cells == g.cells(),
                b == pushed(self.table.scalars()),
                one == (|t: int| row_at_one(indices, cells, b, half as int, t)),
                inf == (|t: int| row_at_infinity(indices, cells, b, half as int, t)),
                F::wide_value(y_1) == sum(t as int, one),
                F::wide_value(y_inf) == sum(t as int, inf),
            decreases g.indices.len() - t,
        {
            let own = g.indices[t] as usize;
            assert((g.indices[t as int] as int) < 2 * half);
            let other: usize = if own < half {
                own + half
            } else {
                own - half
            };
            let own_row = self.slice_row(own);
            let other_row = self.slice_row(other);
            let ghost f = |j: int| cells[64 * t + j].times(b[64 * own + j]);
            let ghost f_inf = |j: int|
                cells[64 * t + j].times(
                    b[64 * own + j].plus(b[64 * facing(own as int, half as int) + j]),
                );
            let ghost (start_1, start_inf) = (F::wide_value(y_1), F::wide_value(y_inf));
            let upper = own >= half;
            let mut j: usize = 0;
            proof {
                F::plus_nil(start_1);
                F::plus_nil(start_inf);
            }
            while j < 64
                invariant
                    j <= 64,
                    t < g.indices.len(),
                    g.wf(),
                    other == facing(own as int, half as int),
                    upper == (own >= half),
                    cells == g.cells(),
                    forall|k: int| 0 <= k < 64 ==> #[trigger] own_row[k] == b[64 * own + k],
                    forall|k: int| 0 <= k < 64 ==> #[trigger] other_row[k] == b[64 * other + k],
                    f == (|j: int| cells[64 * t + j].times(b[64 * own + j])),
                    f_inf == (|j: int|
                        cells[64 * t + j].times(
                            b[64 * own + j].plus(b[64 * facing(own as int, half as int) + j]),
                        )),
                    F::wide_value(y_1) == start_1.plus(select(upper, sum(j as int, f))),
                    F::wide_value(y_inf) == start_inf.plus(sum(j as int, f_inf)),
                decreases 64 - j,
            {
                let c = g.get(t, j);
                let (x, y) = (own_row[j], other_row[j]);
                if upper {
                    y_1 = F::wide_add(y_1, F::wide_mul(c, x));
                }
                y_inf = F::wide_add(y_inf, F::wide_mul(c, x.add(y)));
                proof {
                    F::plus_assoc(start_1, sum(j as int, f), f(j as int));
                    F::plus_assoc(start_inf, sum(j as int, f_inf), f_inf(j as int));
                }
                j = j + 1;
            }
            proof {
                assert(one(t as int) == select(upper, sum(64, f)));
                assert(inf(t as int) == sum(64, f_inf));
            }
            t = t + 1;
        }
        RoundEvals { y_1: F::reduce(y_1), y_inf: F::reduce(y_inf) }.interpolate(claim)
    }

    /// Binds the highest outer variable to a challenge.
    pub fn fold(&mut self, challenge: F)
        requires
            old(self).wf(),
            old(self).table.log_len > 6,
        ensures
            final(self).wf(),
            final(self).table.log_len == old(self).table.log_len - 1,
            final(self).table.scalars() == fold_high(old(self).table.scalars(), challenge),
    {
        fold_highest_var_inplace(&mut self.table, challenge);
    }

    /// The weights left once the outer slot is bound.
    pub fn psi(&self) -> (r: Vec<F>)
        requires
            self.wf(),
            self.table.log_len == 6,
        ensures
            r@ == self.table.scalars(),
            r.len() == 64,
    {
        proof {
            lemma2_to64();
        }
        self.table.iter_scalars()
    }
}

} // verus!
