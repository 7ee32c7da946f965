//! What a shift does to a vector of bit weights.

use vstd::arithmetic::power2::{lemma2_to64, pow2};
use crate::algebra::field::{FieldOps, lemma_sum_scale, lemma_times_nil, select};
use crate::algebra::group::{AdditiveGroup, lemma_nil_plus};
use crate::algebra::sum::{
    lemma_sum_ext, lemma_sum_nil, lemma_sum_plus, lemma_sum_single, lemma_sum_split, sum,
};
use crate::constraint_system::{Motion, ShiftVariant, local_source};
use crate::field::packed::PackedField;
use crate::math::field_buffer::FieldBuffer;
use crate::shift::phase_2::combined;
use vstd::prelude::*;

verus! {

/// The number of variables one shift operator table spans.
pub const SHIFT_OPERATOR_LOG_LEN: usize = 15;

/// The weight that arrives at input bit `j`: the sum of the weights of the output bits reading it.
pub open spec fn operator_row<F: FieldOps>(
    psi: Seq<F>,
    variant: ShiftVariant,
    amount: int,
    j: int,
) -> F {
    sum(64, |k: int| select(variant.source(k, amount) == j, psi[k]))
}

/// The rows of every variant and amount, variants most significant, bit positions least.
pub open spec fn operator_table<F: FieldOps>(psi: Seq<F>) -> Seq<F> {
    Seq::new(
        0x8000,
        |x: int| operator_row(psi, ShiftVariant::at(x / 4096), (x / 64) % 64, x % 64),
    )
}

/// The weight that arrives at position `j` of a range, read off the moved weights.
spec fn moved<F: FieldOps>(
    motion: Motion,
    psi: Seq<F>,
    base: int,
    w: int,
    s: int,
    j: int,
) -> F {
    match motion {
        Motion::Left => if j + s < w {
            psi[base + j + s]
        } else {
            F::nil()
        },
        Motion::Right => if j >= s {
            psi[base + j - s]
        } else {
            F::nil()
        },
        Motion::Arithmetic => if j == w - 1 {
            psi[base + w - 1 - s].plus(sum(s, |t: int| psi[base + w - s + t]))
        } else if j >= s {
            psi[base + j - s]
        } else {
            F::nil()
        },
        Motion::Rotate => if j >= s {
            psi[base + j - s]
        } else {
            psi[base + w - s + j]
        },
    }
}

/// The moved weights are the sums over the output bits.
proof fn lemma_moved<F: FieldOps>(
    motion: Motion,
    psi: Seq<F>,
    base: int,
    w: int,
    s: int,
    j: int,
)
    requires
        0 <= s < w,
        0 <= j < w,
    ensures
        sum(w, |k: int| select(local_source(motion, w, k, s) == j, psi[base + k])) == moved(
            motion,
            psi,
            base,
            w,
            s,
            j,
        ),
{
    let f = |k: int| select(local_source(motion, w, k, s) == j, psi[base + k]);
    match motion {
        Motion::Left => {
            if j + s < w {
                lemma_sum_single(w, f, j + s);
            } else {
                lemma_sum_nil(w, f);
            }
        },
        Motion::Right => {
            if j >= s {
                lemma_sum_single(w, f, j - s);
            } else {
                lemma_sum_nil(w, f);
            }
        },
        Motion::Rotate => {
            if j >= s {
                lemma_sum_single(w, f, j - s);
            } else {
                lemma_sum_single(w, f, w - s + j);
            }
        },
        Motion::Arithmetic => {
            if j == w - 1 {
                // The positions that fall off the end all read the top bit.
                lemma_sum_split(w - s, s, f);
                lemma_sum_single(w - s, f, w - 1 - s);
                lemma_sum_ext(
                    s,
                    |t: int| f(w - s + t),
                    |t: int| psi[base + w - s + t],
                );
            } else if j >= s {
                lemma_sum_single(w, f, j - s);
            } else {
                lemma_sum_nil(w, f);
            }
        },
    }
}

/// The row of the operator table in terms of the range the position lies in.
proof fn lemma_operator_row<F: FieldOps>(
    psi: Seq<F>,
    variant: ShiftVariant,
    amount: int,
    j: int,
)
    requires
        0 <= amount < 64,
        0 <= j < 64,
    ensures
        ({
            let w = variant.width();
            operator_row(psi, variant, amount, j) == moved(
                variant.motion(),
                psi,
                (j / w) * w,
                w,
                amount % w,
                j % w,
            )
        }),
{
    let w = variant.width();
    let m = variant.motion();
    let s = amount % w;
    let base = (j / w) * w;
    let f = |k: int| select(variant.source(k, amount) == j, psi[k]);
    lemma_moved(m, psi, base, w, s, j % w);
    let g = |k: int| select(local_source(m, w, k, s) == j % w, psi[base + k]);
    if w == 64 {
        lemma_sum_ext(64, f, g);
    } else {
        lemma_sum_split(32, 32, f);
        let hi = |k: int| f(32 + k);
        if base == 0 {
            assert forall|k: int| 0 <= k < 32 implies #[trigger] hi(k) == F::nil() by {}
            lemma_sum_nil(32, hi);
            lemma_sum_ext(32, f, g);
            F::plus_nil(sum(32, f));
        } else {
            assert forall|k: int| 0 <= k < 32 implies #[trigger] f(k) == F::nil() by {}
            lemma_sum_nil(32, f);
            assert forall|k: int| 0 <= k < 32 implies #[trigger] hi(k) == g(k) by {}
            lemma_sum_ext(32, hi, g);
            lemma_nil_plus(sum(32, hi));
        }
    }
}

/// Moves the weights of one range of positions.
fn move_range<F: FieldOps>(
    motion: Motion,
    base: usize,
    w: usize,
    s: usize,
    row: &mut [F],
    psi: &[F],
)
    requires
        s < w,
        base + w <= 64,
        old(row).len() == 64,
        psi.len() == 64,
    ensures
        final(row).len() == 64,
        forall|j: int|
            0 <= j < 64 ==> #[trigger] final(row)[j] == if base <= j < base + w {
                moved(motion, psi@, base as int, w as int, s as int, j - base)
            } else {
                old(row)[j]
            },
{
    let ghost before = row@;
    // The weights past the end of an arithmetic shift pile onto the sign position.
    let mut piled = F::zero();
    let ghost tail = |t: int| psi@[base + w - s + t];
    let mut t: usize = 0;
    while t < s
        invariant
            t <= s,
            s < w,
            base + w <= 64,
            psi.len() == 64,
            tail == (|t: int| psi@[base + w - s + t]),
            piled == sum(t as int, tail),
        decreases s - t,
    {
        piled = piled.add(psi[base + w - s + t]);
        t = t + 1;
    }
    let mut j: usize = 0;
    while j < w
        invariant
            j <= w,
            s < w,
            base + w <= 64,
            row.len() == 64,
            psi.len() == 64,
            tail == (|t: int| psi@[base + w - s + t]),
            piled == sum(s as int, tail),
            forall|x: int|
                0 <= x < 64 ==> #[trigger] row[x] == if base <= x < base + j {
                    moved(motion, psi@, base as int, w as int, s as int, x - base)
                } else {
                    before[x]
                },
        decreases w - j,
    {
        let value = match motion {
            Motion::Left => if j + s < w {
                psi[base + j + s]
            } else {
                F::zero()
            },
            Motion::Right => if j >= s {
                psi[base + j - s]
            } else {
                F::zero()
            },
            Motion::Arithmetic => if j + 1 == w {
                psi[base + j - s].add(piled)
            } else if j >= s {
                psi[base + j - s]
            } else {
                F::zero()
            },
            Motion::Rotate => if j >= s {
                psi[base + j - s]
            } else {
                psi[base + w - s + j]
            },
        };
        row[base + j] = value;
        j = j + 1;
    }
}

/// Writes the row of weights one variant and amount contribute.
///
/// Every position of the row is written.
/// A half-word variant moves each half on its own and reads the amount modulo 32.
pub fn shift_operator_row<F: FieldOps>(
    variant: ShiftVariant,
    amount: usize,
    row: &mut [F],
    psi: &[F],
)
    requires
        amount < 64,
        old(row).len() == 64,
        psi.len() == 64,
    ensures
        final(row).len() == 64,
        forall|j: int|
            0 <= j < 64 ==> #[trigger] final(row)[j] == operator_row(
                psi@,
                variant,
                amount as int,
                j,
            ),
{
    let (motion, w) = variant.parts();
    if w == 64 {
        move_range(motion, 0, 64, amount, row, psi);
    } else {
        let s: usize = amount % 32;
        move_range(motion, 0, 32, s, row, psi);
        move_range(motion, 32, 32, s, row, psi);
    }
    proof {
        assert forall|j: int| 0 <= j < 64 implies #[trigger] row@[j] == operator_row(
            psi@,
            variant,
            amount as int,
            j,
        ) by {
            lemma_operator_row(psi@, variant, amount as int, j);
            if w == 64 {
                assert(amount as int % 64 == amount);
            }
        }
    }
}

/// Pushes one weight vector through every shift.
pub fn shift_operator_table<F: FieldOps, P: PackedField<Scalar = F>>(psi: &[F]) -> (r: FieldBuffer<
    P,
>)
    requires
        psi.len() == 64,
        P::LOG_WIDTH <= 6,
    ensures
        r.wf(),
        r.log_len == SHIFT_OPERATOR_LOG_LEN,
        r.scalars() == operator_table(psi@),
{
    proof {
        lemma2_to64();
        vstd::layout::unsigned_int_max_values();
    }
    let mut r = FieldBuffer::<P>::zeros(SHIFT_OPERATOR_LOG_LEN);
    let mut row: [F; 64] = [F::zero(); 64];
    let mut c: usize = 0;
    let ghost table = operator_table(psi@);
    while c < 512
        invariant
            c <= 512,
            psi.len() == 64,
            pow2(15) == 0x8000,
            r.wf(),
            r.log_len == 15,
            table == operator_table(psi@),
            forall|x: int| 0 <= x < 64 * c ==> #[trigger] r.scalars()[x] == table[x],
        decreases 512 - c,
    {
        let variant = ShiftVariant::from_index(c / 64);
        shift_operator_row(variant, c % 64, &mut row, psi);
        let mut j: usize = 0;
        while j < 64
            invariant
                c < 512,
                j <= 64,
                pow2(15) == 0x8000,
                r.wf(),
                r.log_len == 15,
                table == operator_table(psi@),
                variant == ShiftVariant::at(c as int / 64),
                forall|k: int|
                    0 <= k < 64 ==> #[trigger] row[k] == operator_row(
                        psi@,
                        variant,
                        c as int % 64,
                        k,
                    ),
                forall|x: int| 0 <= x < 64 * c + j ==> #[trigger] r.scalars()[x] == table[x],
            decreases 64 - j,
        {
            let ghost before = r.scalars();
            r.set(64 * c + j, row[j]);
            proof {
                let y = 64 * c + j;
                assert(y / 4096 == c as int / 64 && (y / 64) % 64 == c as int % 64 && y % 64 == j);
                assert forall|x: int| 0 <= x < 64 * c + j + 1 implies #[trigger] r.scalars()[x]
                    == table[x] by {
                    if x < y {
                        assert(r.scalars()[x] == before[x]);
                    }
                }
            }
            j = j + 1;
        }
        c = c + 1;
    }
    assert(r.scalars() =~= table);
    r
}

/// The operator is linear in the weights.
pub proof fn operator_is_linear<F: FieldOps>(
    psi: Seq<F>,
    phi: Seq<F>,
    combined: Seq<F>,
    a: F,
    b: F,
    variant: ShiftVariant,
    amount: int,
    j: int,
)
    requires
        forall|k: int|
            0 <= k < 64 ==> #[trigger] combined[k] == a.times(psi[k]).plus(b.times(phi[k])),
    ensures
        operator_row(combined, variant, amount, j) == a.times(
            operator_row(psi, variant, amount, j),
        ).plus(b.times(operator_row(phi, variant, amount, j))),
{
    let f = |k: int| select(variant.source(k, amount) == j, psi[k]);
    let g = |k: int| select(variant.source(k, amount) == j, phi[k]);
    let h = |k: int| select(variant.source(k, amount) == j, combined[k]);
    lemma_sum_scale(64, a, f);
    lemma_sum_scale(64, b, g);
    let fa = |k: int| a.times(f(k));
    let gb = |k: int| b.times(g(k));
    lemma_sum_plus(64, fa, gb);
    let s = |k: int| fa(k).plus(gb(k));
    assert forall|k: int| 0 <= k < 64 implies #[trigger] h(k) == s(k) by {
        lemma_times_nil(a);
        lemma_times_nil(b);
        F::plus_nil(F::nil());
        assert(combined[k] == a.times(psi[k]).plus(b.times(phi[k])));
    }
    lemma_sum_ext(64, h, s);
}

/// A zero amount leaves the weights as they are.
pub proof fn zero_amount_is_identity<F: FieldOps>(psi: Seq<F>, variant: ShiftVariant, j: int)
    requires
        0 <= j < 64,
    ensures
        operator_row(psi, variant, 0, j) == psi[j],
{
    lemma_operator_row(psi, variant, 0, j);
    let w = variant.width();
    assert((j / w) * w + j % w == j) by {
        if w == 64 {
        } else {
        }
    }
    F::plus_nil(psi[j]);
}

/// A row is the slice of the table its variant and amount name.
pub proof fn row_is_table_slice<F: FieldOps>(
    psi: Seq<F>,
    variant: ShiftVariant,
    amount: int,
    j: int,
)
    requires
        0 <= amount < 64,
        0 <= j < 64,
    ensures
        operator_table(psi)[(variant.position() * 64 + amount) * 64 + j] == operator_row(
            psi,
            variant,
            amount,
            j,
        ),
{
    let x = (variant.position() * 64 + amount) * 64 + j;
    assert(x / 4096 == variant.position() && (x / 64) % 64 == amount && x % 64 == j);
    assert(ShiftVariant::at(variant.position()) == variant);
}

} // verus!
