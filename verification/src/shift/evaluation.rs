//! The verifier's evaluation of one operation's wiring multilinear.

use crate::algebra::field::{Field, FieldOps, lemma_sum_scale, lemma_times_nil};
use crate::algebra::group::AdditiveGroup;
use crate::algebra::sum::{lemma_sum_ext, lemma_sum_nil, lemma_sum_prefix, sum};
use crate::constraint_system::{ShiftedValueIndex, ValueIndex, ValueSegment};
use crate::field::packed::power;
use crate::math::eq::{eq_ind, eq_ind_partial_eval_scalars};
use crate::math::index::{
    ceil_log2, lemma_ceil_log2, lemma_ceil_log2_exists, lemma_index_bound, log2_ceil_usize,
};
use crate::prover::fold_word::lemma_padded_len;
use crate::shift::monster::table_entry;
use vstd::prelude::*;
use vstd::slice::slice_subrange;

verus! {

/// The shift weight tables, one per slot of a shift sequence.
#[derive(Debug)]
pub struct ShiftScalars<'a, E> {
    /// The weight of each spelling of the inner shift.
    pub inner: &'a [E],
    /// The weight of each spelling of the outer shift.
    pub outer: &'a [E],
}

impl<E> Clone for ShiftScalars<'_, E> {
    fn clone(&self) -> (r: Self)
        ensures
            r == *self,
    {
        ShiftScalars { inner: self.inner, outer: self.outer }
    }
}

impl<E> Copy for ShiftScalars<'_, E> {

}

impl<E> ShiftScalars<'_, E> {
    /// One weight per spelling.
    pub open spec fn wf(&self) -> bool {
        self.inner.len() == 512 && self.outer.len() == 512
    }
}

/// The word-index weights, one list per part of the value vector.
pub struct WordTensor<E> {
    pub constants: Seq<E>,
    pub inout: Seq<E>,
    pub hidden: Seq<E>,
}

impl<E> WordTensor<E> {
    /// The weight of one value.
    pub open spec fn at(self, v: ValueIndex) -> E {
        match v.segment {
            ValueSegment::Constant => self.constants[v.index as int],
            ValueSegment::Inout => self.inout[v.index as int],
            ValueSegment::Private => self.hidden[v.index as int],
        }
    }
}

/// The weight of one term of operand `o`.
pub open spec fn term_value<E: FieldOps>(
    svi: ShiftedValueIndex,
    o: int,
    lambda: E,
    inner: Seq<E>,
    outer: Seq<E>,
    words: WordTensor<E>,
) -> E {
    inner[svi.inner.place()].times(power(lambda, (o + 1) as nat)).times(
        outer[svi.outer.place()],
    ).times(words.at(svi.value_index))
}

/// The weight of the first `n` operands of one constraint.
pub open spec fn constraint_value<E: FieldOps>(
    constraint: Seq<Vec<ShiftedValueIndex>>,
    n: int,
    lambda: E,
    inner: Seq<E>,
    outer: Seq<E>,
    words: WordTensor<E>,
) -> E {
    sum(
        n,
        |o: int|
            sum(
                constraint[o]@.len() as int,
                |t: int| term_value(constraint[o]@[t], o, lambda, inner, outer, words),
            ),
    )
}

/// One operation's wiring multilinear at a point.
pub open spec fn operation_value<E: FieldOps>(
    constraints: Seq<Vec<Vec<ShiftedValueIndex>>>,
    arity: int,
    r_x_prime: Seq<E>,
    lambda: E,
    inner: Seq<E>,
    outer: Seq<E>,
    words: WordTensor<E>,
) -> E {
    sum(
        constraints.len() as int,
        |c: int|
            constraint_value(constraints[c]@, arity, lambda, inner, outer, words).times(
                eq_ind(r_x_prime, c),
            ),
    )
}

/// Every constraint has its operands, whose terms name values and proper shifts.
pub open spec fn operands_fit(
    constraints: Seq<Vec<Vec<ShiftedValueIndex>>>,
    arity: int,
    n_constants: int,
    n_inout: int,
    n_hidden: int,
) -> bool {
    &&& forall|i: int| 0 <= i < constraints.len() ==> (#[trigger] constraints[i])@.len() == arity
    &&& forall|i: int, j: int, t: int|
        0 <= i < constraints.len() && 0 <= j < arity && 0 <= t < constraints[i]@[j]@.len() ==> (
        #[trigger] constraints[i]@[j]@[t]).wf() && constraints[i]@[j]@[t].value_index.index
            < match constraints[i]@[j]@[t].value_index.segment {
            ValueSegment::Constant => n_constants,
            ValueSegment::Inout => n_inout,
            ValueSegment::Private => n_hidden,
        }
}

/// Evaluates one operation's wiring multilinear.
///
/// The input is the flat list [`encode_operation_input`] builds.
pub struct OperationEvalFn<'a, const ARITY: usize> {
    /// The operation's constraints.
    pub constraints: &'a Vec<Vec<Vec<ShiftedValueIndex>>>,
    /// The number of constants the constraints may name.
    pub n_constants: usize,
    /// The number of inout values the constraints may name.
    pub n_inout: usize,
    /// The number of private values the constraints may name.
    pub n_hidden: usize,
}

/// The sections of a flat input.
pub struct SplitInput<'i, E> {
    /// The constraint point.
    pub r_x_prime: &'i [E],
    /// The batching coefficient.
    pub lambda: &'i E,
    /// The shift weights.
    pub shift_scalars: ShiftScalars<'i, E>,
    /// The weights of the constants.
    pub constants: &'i [E],
    /// The weights of the inout values.
    pub inout: &'i [E],
    /// The weights of the private values.
    pub hidden: &'i [E],
}

impl<E> SplitInput<'_, E> {
    /// The word-index weights.
    pub open spec fn words(&self) -> WordTensor<E> {
        WordTensor { constants: self.constants@, inout: self.inout@, hidden: self.hidden@ }
    }
}

impl<'a, const ARITY: usize> OperationEvalFn<'a, ARITY> {
    /// The constraints are proper.
    pub open spec fn wf(&self) -> bool {
        &&& ARITY <= 6
        &&& self.constraints.len() <= isize::MAX
        &&& operands_fit(
            self.constraints@,
            ARITY as int,
            self.n_constants as int,
            self.n_inout as int,
            self.n_hidden as int,
        )
    }

    /// The length of the flat input.
    pub open spec fn input_len(&self) -> nat {
        (ceil_log2(self.constraints.len() as nat) + 1025 + self.n_constants + self.n_inout
            + self.n_hidden) as nat
    }

    /// The flat input holds these sections.
    pub open spec fn holds<E>(&self, input: Seq<E>, parts: &SplitInput<'_, E>) -> bool {
        let n = ceil_log2(self.constraints.len() as nat) as int;
        let (c, i, h) = (self.n_constants as int, self.n_inout as int, self.n_hidden as int);
        &&& parts.r_x_prime@ == input.subrange(0, n)
        &&& *parts.lambda == input[n]
        &&& parts.shift_scalars.inner@ == input.subrange(n + 1, n + 513)
        &&& parts.shift_scalars.outer@ == input.subrange(n + 513, n + 1025)
        &&& parts.constants@ == input.subrange(n + 1025, n + 1025 + c)
        &&& parts.inout@ == input.subrange(n + 1025 + c, n + 1025 + c + i)
        &&& parts.hidden@ == input.subrange(n + 1025 + c + i, n + 1025 + c + i + h)
    }

    /// Wraps an operation's constraints for evaluation.
    pub fn new(
        constraints: &'a Vec<Vec<Vec<ShiftedValueIndex>>>,
        n_constants: usize,
        n_inout: usize,
        n_hidden: usize,
    ) -> (r: Self)
        ensures
            r.constraints == constraints,
            r.n_constants == n_constants,
            r.n_inout == n_inout,
            r.n_hidden == n_hidden,
    {
        OperationEvalFn { constraints, n_constants, n_inout, n_hidden }
    }

    /// Splits a flat input into its sections.
    pub fn split_input<'i, E>(&self, input: &'i [E]) -> (r: SplitInput<'i, E>)
        requires
            input.len() >= self.input_len(),
        ensures
            self.holds(input@, &r),
    {
        let n_vars = log2_ceil_usize(self.constraints.len());
        proof {
            lemma_ceil_log2(self.constraints.len() as nat, n_vars as nat);
        }
        let a: usize = n_vars + 1025;
        let b: usize = a + self.n_constants;
        let c: usize = b + self.n_inout;
        SplitInput {
            r_x_prime: slice_subrange(input, 0, n_vars),
            lambda: &input[n_vars],
            shift_scalars: ShiftScalars {
                inner: slice_subrange(input, n_vars + 1, n_vars + 513),
                outer: slice_subrange(input, n_vars + 513, a),
            },
            constants: slice_subrange(input, a, b),
            inout: slice_subrange(input, b, c),
            hidden: slice_subrange(input, c, c + self.n_hidden),
        }
    }

    /// The weight of one constraint.
    fn constraint_eval<E: FieldOps>(
        &self,
        c: usize,
        table: &Vec<E>,
        parts: &SplitInput<'_, E>,
    ) -> (r: E)
        requires
            self.wf(),
            c < self.constraints.len(),
            parts.shift_scalars.wf(),
            parts.constants.len() == self.n_constants,
            parts.inout.len() == self.n_inout,
            parts.hidden.len() == self.n_hidden,
            shift_table(table@, parts.shift_scalars.inner@, *parts.lambda, ARITY as int),
        ensures
            r == constraint_value(
                self.constraints@[c as int]@,
                ARITY as int,
                *parts.lambda,
                parts.shift_scalars.inner@,
                parts.shift_scalars.outer@,
                parts.words(),
            ),
    {
        let ghost (lambda, inner, outer, words) = (
            *parts.lambda,
            parts.shift_scalars.inner@,
            parts.shift_scalars.outer@,
            parts.words(),
        );
        let constraint = &self.constraints[c];
        let ghost whole = constraint@;
        assert(whole.len() == ARITY);
        let ghost f = |o: int|
            sum(
                whole[o]@.len() as int,
                |t: int| term_value(whole[o]@[t], o, lambda, inner, outer, words),
            );
        let mut total = E::zero();
        let mut o: usize = 0;
        while o < ARITY
            invariant
                o <= ARITY,
                self.wf(),
                c < self.constraints.len(),
                parts.shift_scalars.wf(),
                parts.constants.len() == self.n_constants,
                parts.inout.len() == self.n_inout,
                parts.hidden.len() == self.n_hidden,
                lambda == *parts.lambda,
                inner == parts.shift_scalars.inner@,
                outer == parts.shift_scalars.outer@,
                words == parts.words(),
                shift_table(table@, inner, lambda, ARITY as int),
                *constraint == self.constraints@[c as int],
                whole == constraint@,
                whole.len() == ARITY,
                f == (|o: int|
                    sum(
                        whole[o]@.len() as int,
                        |t: int| term_value(whole[o]@[t], o, lambda, inner, outer, words),
                    )),
                total == sum(o as int, f),
            decreases ARITY - o,
        {
            let operand = &constraint[o];
            let ghost g = |t: int| term_value(whole[o as int]@[t], o as int, lambda, inner, outer, words);
            let ghost before = total;
            let mut t: usize = 0;
            proof {
                E::plus_nil(before);
            }
            while t < operand.len()
                invariant
                    t <= operand.len(),
                    o < ARITY,
                    self.wf(),
                    c < self.constraints.len(),
                    parts.shift_scalars.wf(),
                    parts.constants.len() == self.n_constants,
                    parts.inout.len() == self.n_inout,
                    parts.hidden.len() == self.n_hidden,
                    lambda == *parts.lambda,
                    inner == parts.shift_scalars.inner@,
                    outer == parts.shift_scalars.outer@,
                    words == parts.words(),
                    shift_table(table@, inner, lambda, ARITY as int),
                    whole == self.constraints@[c as int]@,
                    *operand == whole[o as int],
                    g == (|t: int|
                        term_value(whole[o as int]@[t], o as int, lambda, inner, outer, words)),
                    total == before.plus(sum(t as int, g)),
                decreases operand.len() - t,
            {
                let svi = operand[t];
                assert(self.constraints@[c as int]@[o as int]@[t as int].wf());
                proof {
                    lemma_index_bound(svi.inner.place(), o as int, 512, ARITY as int);
                    let place = svi.inner.place();
                    assert(0 <= place * ARITY <= 512 * 6) by (nonlinear_arith)
                        requires
                            0 <= place < 512,
                            ARITY <= 6,
                    ;
                }
                let entry: usize = svi.inner.index() * ARITY + o;
                proof {
                    assert(table_entry(table@, ARITY as int, svi.inner.place(), o as int)
                        == inner[svi.inner.place()].times(power(lambda, (o + 1) as nat)));
                }
                let at = svi.value_index.index as usize;
                let word = match svi.value_index.segment {
                    ValueSegment::Constant => parts.constants[at],
                    ValueSegment::Inout => parts.inout[at],
                    ValueSegment::Private => parts.hidden[at],
                };
                let term = table[entry].mul(parts.shift_scalars.outer[svi.outer.index()]).mul(word);
                total = total.add(term);
                proof {
                    E::plus_assoc(before, sum(t as int, g), g(t as int));
                }
                t = t + 1;
            }
            o = o + 1;
        }
        total
    }

    /// Evaluates over any field.
    pub fn call<E: FieldOps>(&self, input: &[E]) -> (r: E)
        requires
            self.wf(),
            input.len() >= self.input_len(),
        ensures
            forall|parts: SplitInput<'_, E>| #[trigger]
                self.holds(input@, &parts) ==> r == operation_value(
                    self.constraints@,
                    ARITY as int,
                    parts.r_x_prime@,
                    *parts.lambda,
                    parts.shift_scalars.inner@,
                    parts.shift_scalars.outer@,
                    parts.words(),
                ),
    {
        let parts = self.split_input(input);
        proof {
            lemma_ceil_log2_exists(self.constraints.len() as nat);
            lemma_padded_len(
                self.constraints.len() as nat,
                ceil_log2(self.constraints.len() as nat),
            );
        }
        let r_x_prime_tensor = eq_ind_partial_eval_scalars(parts.r_x_prime);
        proof {
            assert(512 * ARITY <= usize::MAX);
        }
        let table = operand_shift_scalar_table(parts.shift_scalars.inner, *parts.lambda, ARITY);
        let ghost f = |c: int|
            constraint_value(
                self.constraints@[c]@,
                ARITY as int,
                *parts.lambda,
                parts.shift_scalars.inner@,
                parts.shift_scalars.outer@,
                parts.words(),
            ).times(eq_ind(parts.r_x_prime@, c));
        let mut eval = E::zero();
        let mut c: usize = 0;
        while c < self.constraints.len()
            invariant
                c <= self.constraints.len(),
                self.wf(),
                self.holds(input@, &parts),
                input.len() >= self.input_len(),
                self.constraints.len() <= r_x_prime_tensor.len(),
                forall|i: int|
                    0 <= i < r_x_prime_tensor.len() ==> #[trigger] r_x_prime_tensor[i] == eq_ind(
                        parts.r_x_prime@,
                        i,
                    ),
                shift_table(table@, parts.shift_scalars.inner@, *parts.lambda, ARITY as int),
                f == (|c: int|
                    constraint_value(
                        self.constraints@[c]@,
                        ARITY as int,
                        *parts.lambda,
                        parts.shift_scalars.inner@,
                        parts.shift_scalars.outer@,
                        parts.words(),
                    ).times(eq_ind(parts.r_x_prime@, c))),
                eval == sum(c as int, f),
            decreases self.constraints.len() - c,
        {
            let value = self.constraint_eval(c, &table, &parts);
            eval = eval.add(value.mul(r_x_prime_tensor[c]));
            c = c + 1;
        }
        eval
    }

    /// Evaluates over the base field, reducing once at the end.
    pub fn call_native<F: Field>(&self, input: &[F]) -> (r: F)
        requires
            self.wf(),
            input.len() >= self.input_len(),
        ensures
            forall|parts: SplitInput<'_, F>| #[trigger]
                self.holds(input@, &parts) ==> r == operation_value(
                    self.constraints@,
                    ARITY as int,
                    parts.r_x_prime@,
                    *parts.lambda,
                    parts.shift_scalars.inner@,
                    parts.shift_scalars.outer@,
                    parts.words(),
                ),
    {
        let parts = self.split_input(input);
        proof {
            lemma_ceil_log2_exists(self.constraints.len() as nat);
            lemma_padded_len(
                self.constraints.len() as nat,
                ceil_log2(self.constraints.len() as nat),
            );
        }
        let r_x_prime_tensor = eq_ind_partial_eval_scalars(parts.r_x_prime);
        proof {
            assert(512 * ARITY <= usize::MAX);
        }
        let table = operand_shift_scalar_table(parts.shift_scalars.inner, *parts.lambda, ARITY);
        let ghost f = |c: int|
            constraint_value(
                self.constraints@[c]@,
                ARITY as int,
                *parts.lambda,
                parts.shift_scalars.inner@,
                parts.shift_scalars.outer@,
                parts.words(),
            ).times(eq_ind(parts.r_x_prime@, c));
        let mut eval = F::wide_zero();
        let mut c: usize = 0;
        while c < self.constraints.len()
            invariant
                c <= self.constraints.len(),
                self.wf(),
                self.holds(input@, &parts),
                input.len() >= self.input_len(),
                self.constraints.len() <= r_x_prime_tensor.len(),
                forall|i: int|
                    0 <= i < r_x_prime_tensor.len() ==> #[trigger] r_x_prime_tensor[i] == eq_ind(
                        parts.r_x_prime@,
                        i,
                    ),
                shift_table(table@, parts.shift_scalars.inner@, *parts.lambda, ARITY as int),
                f == (|c: int|
                    constraint_value(
                        self.constraints@[c]@,
                        ARITY as int,
                        *parts.lambda,
                        parts.shift_scalars.inner@,
                        parts.shift_scalars.outer@,
                        parts.words(),
                    ).times(eq_ind(parts.r_x_prime@, c))),
                F::wide_value(eval) == sum(c as int, f),
            decreases self.constraints.len() - c,
        {
            let value = self.constraint_eval(c, &table, &parts);
            eval = F::wide_add(eval, F::wide_mul(value, r_x_prime_tensor[c]));
            c = c + 1;
        }
        F::reduce(eval)
    }
}

/// A table holds every inner weight times every batching power, the operand innermost.
pub open spec fn shift_table<E: FieldOps>(
    table: Seq<E>,
    inner: Seq<E>,
    lambda: E,
    arity: int,
) -> bool {
    &&& table.len() == inner.len() * arity
    &&& forall|s: int, o: int|
        0 <= s < inner.len() && 0 <= o < arity ==> #[trigger] table_entry(table, arity, s, o)
            == inner[s].times(power(lambda, (o + 1) as nat))
}

/// Folds the batching powers into the inner slot's shift weights.
pub fn operand_shift_scalar_table<E: FieldOps>(
    shift_scalars: &[E],
    lambda: E,
    arity: usize,
) -> (r: Vec<E>)
    requires
        shift_scalars.len() * arity <= usize::MAX,
    ensures
        shift_table(r@, shift_scalars@, lambda, arity as int),
{
    let mut lambda_powers: Vec<E> = Vec::new();
    let mut current = E::one();
    let mut o: usize = 0;
    while o < arity
        invariant
            o <= arity,
            lambda_powers.len() == o,
            current == power(lambda, o as nat),
            forall|k: int|
                0 <= k < o ==> #[trigger] lambda_powers[k] == power(lambda, (k + 1) as nat),
        decreases arity - o,
    {
        current = current.mul(lambda);
        lambda_powers.push(current);
        o = o + 1;
    }
    let mut table: Vec<E> = Vec::new();
    let mut s: usize = 0;
    proof {
        assert(0 * arity == 0) by (nonlinear_arith);
    }
    while s < shift_scalars.len()
        invariant
            s <= shift_scalars.len(),
            lambda_powers.len() == arity,
            forall|k: int|
                0 <= k < arity ==> #[trigger] lambda_powers[k] == power(lambda, (k + 1) as nat),
            table.len() == s * arity,
            forall|x: int, p: int|
                0 <= x < s && 0 <= p < arity ==> #[trigger] table_entry(
                    table@,
                    arity as int,
                    x,
                    p,
                ) == shift_scalars[x].times(power(lambda, (p + 1) as nat)),
        decreases shift_scalars.len() - s,
    {
        let ghost before = table@;
        let mut p: usize = 0;
        while p < arity
            invariant
                p <= arity,
                s < shift_scalars.len(),
                lambda_powers.len() == arity,
                forall|k: int|
                    0 <= k < arity ==> #[trigger] lambda_powers[k] == power(
                        lambda,
                        (k + 1) as nat,
                    ),
                before.len() == s * arity,
                table.len() == s * arity + p,
                forall|x: int| 0 <= x < before.len() ==> #[trigger] table[x] == before[x],
                forall|q: int|
                    0 <= q < p ==> #[trigger] table_entry(table@, arity as int, s as int, q)
                        == shift_scalars[s as int].times(power(lambda, (q + 1) as nat)),
            decreases arity - p,
        {
            let ghost mid = table@;
            table.push(shift_scalars[s].mul(lambda_powers[p]));
            proof {
                assert forall|q: int| 0 <= q < p + 1 implies #[trigger] table_entry(
                    table@,
                    arity as int,
                    s as int,
                    q,
                ) == shift_scalars[s as int].times(power(lambda, (q + 1) as nat)) by {
                    if q < p {
                        assert(table_entry(table@, arity as int, s as int, q) == table_entry(
                            mid,
                            arity as int,
                            s as int,
                            q,
                        ));
                    }
                }
            }
            p = p + 1;
        }
        proof {
            assert((s + 1) * arity == s * arity + arity) by (nonlinear_arith);
            assert forall|x: int, q: int| 0 <= x < s + 1 && 0 <= q < arity implies #[trigger]
                table_entry(table@, arity as int, x, q) == shift_scalars[x].times(
                power(lambda, (q + 1) as nat),
            ) by {
                if x < s {
                    lemma_index_bound(x, q, s as int, arity as int);
                    assert(table_entry(before, arity as int, x, q) == table_entry(
                        table@,
                        arity as int,
                        x,
                        q,
                    ));
                }
            }
        }
        s = s + 1;
    }
    table
}

/// Builds the flat input of an [`OperationEvalFn`].
///
/// The constraint point, the batching coefficient, the two shift tables and the word weights.
pub fn encode_operation_input<E: Copy>(
    r_x_prime: &[E],
    lambda: E,
    shift_scalars: ShiftScalars<'_, E>,
    constants: &[E],
    inout: &[E],
    hidden: &[E],
) -> (r: Vec<E>)
    requires
        r_x_prime.len() + 1 + shift_scalars.inner.len() + shift_scalars.outer.len()
            + constants.len() + inout.len() + hidden.len() <= usize::MAX,
    ensures
        r@ == r_x_prime@.push(lambda) + shift_scalars.inner@ + shift_scalars.outer@ + constants@
            + inout@ + hidden@,
{
    let mut r: Vec<E> = Vec::new();
    append_slice(&mut r, r_x_prime);
    r.push(lambda);
    append_slice(&mut r, shift_scalars.inner);
    append_slice(&mut r, shift_scalars.outer);
    append_slice(&mut r, constants);
    append_slice(&mut r, inout);
    append_slice(&mut r, hidden);
    assert(Seq::<E>::empty() + r_x_prime@ =~= r_x_prime@);
    r
}

fn append_slice<E: Copy>(list: &mut Vec<E>, more: &[E])
    requires
        old(list).len() + more.len() <= usize::MAX,
    ensures
        final(list)@ == old(list)@ + more@,
{
    let ghost before = list@;
    let mut i: usize = 0;
    assert(before + more@.take(0) =~= before);
    while i < more.len()
        invariant
            i <= more.len(),
            list@ == before + more@.take(i as int),
        decreases more.len() - i,
    {
        list.push(more[i]);
        assert(list@ =~= before + more@.take(i + 1));
        i = i + 1;
    }
    assert(more@.take(i as int) =~= more@);
}

/// Splitting an encoded input gives back its sections.
pub proof fn split_inverts_encode<E, const ARITY: usize>(
    f: &OperationEvalFn<'_, ARITY>,
    parts: &SplitInput<'_, E>,
    input: Seq<E>,
)
    requires
        parts.r_x_prime.len() == ceil_log2(f.constraints.len() as nat),
        parts.shift_scalars.wf(),
        parts.constants.len() == f.n_constants,
        parts.inout.len() == f.n_inout,
        parts.hidden.len() == f.n_hidden,
        input == parts.r_x_prime@.push(*parts.lambda) + parts.shift_scalars.inner@
            + parts.shift_scalars.outer@ + parts.constants@ + parts.inout@ + parts.hidden@,
    ensures
        input.len() == f.input_len(),
        f.holds(input, parts),
{
    let n = ceil_log2(f.constraints.len() as nat) as int;
    let (c, i, h) = (f.n_constants as int, f.n_inout as int, f.n_hidden as int);
    assert(input.subrange(0, n) =~= parts.r_x_prime@);
    assert(input.subrange(n + 1, n + 513) =~= parts.shift_scalars.inner@);
    assert(input.subrange(n + 513, n + 1025) =~= parts.shift_scalars.outer@);
    assert(input.subrange(n + 1025, n + 1025 + c) =~= parts.constants@);
    assert(input.subrange(n + 1025 + c, n + 1025 + c + i) =~= parts.inout@);
    assert(input.subrange(n + 1025 + c + i, n + 1025 + c + i + h) =~= parts.hidden@);
}

/// Scaling the outer weights scales the value.
pub proof fn value_scales_with_outer_weights<E: FieldOps>(
    constraints: Seq<Vec<Vec<ShiftedValueIndex>>>,
    arity: int,
    r_x_prime: Seq<E>,
    lambda: E,
    inner: Seq<E>,
    outer: Seq<E>,
    scaled_outer: Seq<E>,
    words: WordTensor<E>,
    scale: E,
)
    requires
        forall|c: int, o: int, t: int|
            0 <= c < constraints.len() && 0 <= o < arity && 0 <= t < constraints[c]@[o]@.len()
                ==> (#[trigger] constraints[c]@[o]@[t]).wf(),
        forall|i: int|
            0 <= i < 512 ==> #[trigger] scaled_outer[i] == outer[i].times(scale),
    ensures
        operation_value(constraints, arity, r_x_prime, lambda, inner, scaled_outer, words)
            == operation_value(constraints, arity, r_x_prime, lambda, inner, outer, words).times(
            scale,
        ),
{
    let n = constraints.len() as int;
    let f = |c: int|
        constraint_value(constraints[c]@, arity, lambda, inner, outer, words).times(
            eq_ind(r_x_prime, c),
        );
    let g = |c: int|
        constraint_value(constraints[c]@, arity, lambda, inner, scaled_outer, words).times(
            eq_ind(r_x_prime, c),
        );
    lemma_sum_scale(n, scale, f);
    let h = |c: int| f(c).times(scale);
    assert forall|c: int| 0 <= c < n implies #[trigger] g(c) == h(c) by {
        let constraint = constraints[c]@;
        let fo = |o: int|
            sum(
                constraint[o]@.len() as int,
                |t: int| term_value(constraint[o]@[t], o, lambda, inner, outer, words),
            );
        let go = |o: int|
            sum(
                constraint[o]@.len() as int,
                |t: int| term_value(constraint[o]@[t], o, lambda, inner, scaled_outer, words),
            );
        lemma_sum_scale(arity, scale, fo);
        let ho = |o: int| fo(o).times(scale);
        assert forall|o: int| 0 <= o < arity implies #[trigger] go(o) == ho(o) by {
            let m = constraint[o]@.len() as int;
            let ft = |t: int| term_value(constraint[o]@[t], o, lambda, inner, outer, words);
            let gt = |t: int| term_value(constraint[o]@[t], o, lambda, inner, scaled_outer, words);
            lemma_sum_scale(m, scale, ft);
            let ht = |t: int| ft(t).times(scale);
            assert forall|t: int| 0 <= t < m implies #[trigger] gt(t) == ht(t) by {
                let svi = constraints[c]@[o]@[t];
                assert(svi.wf());
                let a = inner[svi.inner.place()].times(power(lambda, (o + 1) as nat));
                let b = outer[svi.outer.place()];
                let w = words.at(svi.value_index);
                assert(scaled_outer[svi.outer.place()] == b.times(scale));
                // a (b s) w = (a b w) s
                E::times_assoc(a, b, scale);
                E::times_assoc(a.times(b), scale, w);
                E::times_comm(scale, w);
                E::times_assoc(a.times(b), w, scale);
            }
            lemma_sum_ext(m, gt, ht);
        }
        lemma_sum_ext(arity, go, ho);
        let e = eq_ind(r_x_prime, c);
        let v = constraint_value(constraint, arity, lambda, inner, outer, words);
        E::times_assoc(v, scale, e);
        E::times_comm(scale, e);
        E::times_assoc(v, e, scale);
    }
    lemma_sum_ext(n, g, h);
}

/// Constraints without terms contribute nothing.
pub proof fn value_ignores_empty_constraints<E: FieldOps>(
    constraints: Seq<Vec<Vec<ShiftedValueIndex>>>,
    padded: Seq<Vec<Vec<ShiftedValueIndex>>>,
    arity: int,
    r_x_prime: Seq<E>,
    lambda: E,
    inner: Seq<E>,
    outer: Seq<E>,
    words: WordTensor<E>,
)
    requires
        constraints.len() <= padded.len(),
        forall|c: int|
            0 <= c < constraints.len() ==> (#[trigger] padded[c]) == constraints[c],
        forall|c: int, o: int|
            constraints.len() <= c < padded.len() && 0 <= o < arity ==> (
            #[trigger] padded[c]@[o])@.len() == 0,
    ensures
        operation_value(padded, arity, r_x_prime, lambda, inner, outer, words)
            == operation_value(constraints, arity, r_x_prime, lambda, inner, outer, words),
{
    let (m, n) = (constraints.len() as int, padded.len() as int);
    let f = |c: int|
        constraint_value(padded[c]@, arity, lambda, inner, outer, words).times(
            eq_ind(r_x_prime, c),
        );
    assert forall|c: int| m <= c < n implies #[trigger] f(c) == E::nil() by {
        let fo = |o: int|
            sum(
                padded[c]@[o]@.len() as int,
                |t: int| term_value(padded[c]@[o]@[t], o, lambda, inner, outer, words),
            );
        assert forall|o: int| 0 <= o < arity implies #[trigger] fo(o) == E::nil() by {
            assert(padded[c]@[o]@.len() == 0);
        }
        lemma_sum_nil(arity, fo);
        lemma_times_nil(eq_ind(r_x_prime, c));
    }
    lemma_sum_prefix(m, n, f);
    lemma_sum_ext(
        m,
        f,
        |c: int|
            constraint_value(constraints[c]@, arity, lambda, inner, outer, words).times(
                eq_ind(r_x_prime, c),
            ),
    );
}

/// An encoded input holds the constraint point first, then the batching coefficient, the inner and
/// the outer shift weights, and the weights of the constants, the public and the hidden words.
pub proof fn inputs_are_laid_out_in_order<E: Copy>(
    r_x_prime: &[E],
    lambda: E,
    shift_scalars: ShiftScalars<'_, E>,
    constants: &[E],
    inout: &[E],
    hidden: &[E],
    r: Vec<E>,
    k: int,
)
    requires
        shift_scalars.wf(),
        call_ensures(
            encode_operation_input::<E>,
            (r_x_prime, lambda, shift_scalars, constants, inout, hidden),
            r,
        ),
        0 <= k,
    ensures
        r.len() == r_x_prime.len() + 1025 + constants.len() + inout.len() + hidden.len(),
        k < r_x_prime.len() ==> r[k] == r_x_prime[k],
        r[r_x_prime.len() as int] == lambda,
        k < 512 ==> r[r_x_prime.len() + 1 + k] == shift_scalars.inner[k],
        k < 512 ==> r[r_x_prime.len() + 513 + k] == shift_scalars.outer[k],
        k < constants.len() ==> r[r_x_prime.len() + 1025 + k] == constants[k],
        k < inout.len() ==> r[r_x_prime.len() + 1025 + constants.len() + k] == inout[k],
        k < hidden.len() ==> r[r_x_prime.len() + 1025 + constants.len() + inout.len() + k]
            == hidden[k],
{
}

} // verus!
