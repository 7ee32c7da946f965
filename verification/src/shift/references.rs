//! What the keys of a constraint system add up to, reference by reference.

use crate::algebra::field::{
    Field, FieldOps, lemma_plus_times, lemma_sum_scale, lemma_times_nil, select,
};
use crate::algebra::group::{AdditiveGroup, lemma_nil_plus};
use crate::algebra::sum::{
    lemma_sum_ext, lemma_sum_nil, lemma_sum_plus, lemma_sum_single, lemma_sum_split, sum,
};
use crate::constraint_system::{ConstraintSystem, InoutSegment, ShiftedValueIndex};
use crate::field::packed::power;
use crate::shift::builder::{
    TermRef, collects, column_terms, find_key, lemma_find_is_first, lemma_operation_fits,
    lemma_recorded, lemma_terms_fit_add, no_empty_keys, operand_terms, operation_terms, proper_keys,
    record_key, recorded, system_terms, terms_fit,
};
use crate::shift::claims::PreparedOperatorClaims;
use crate::shift::g::key_weight;
use crate::shift::keys::{
    ConstraintIndex, KeyCollection, KeyModel, Operation, ShiftSeq, indices_weight,
};
use vstd::prelude::*;

verus! {

/// A collection holds the keys of a constraint system.
pub open spec fn keys_of(
    cs: &ConstraintSystem,
    inout: InoutSegment,
    key_collection: &KeyCollection,
) -> bool {
    let models = recorded(
        Seq::new(cs.n_values() as nat, |w: int| Seq::<KeyModel>::empty()),
        system_terms(cs),
    );
    &&& key_collection.public.wf()
    &&& key_collection.hidden.wf()
    &&& key_collection.public.model() == models.take(cs.public_words(inout))
    &&& key_collection.hidden.model() == models.skip(cs.public_words(inout))
}

/// What key `k` of word `w` adds, for given values of a word under a shift sequence.
pub open spec fn key_value<F: Field>(
    models: Seq<Seq<KeyModel>>,
    prepared: &PreparedOperatorClaims<F>,
    value: spec_fn(int, ShiftSeq) -> F,
    w: int,
    k: int,
) -> F {
    key_weight(models[w][k], prepared).times(value(w, models[w][k].shift_seq))
}

/// What the keys of word `w` add.
pub open spec fn word_value<F: Field>(
    models: Seq<Seq<KeyModel>>,
    prepared: &PreparedOperatorClaims<F>,
    value: spec_fn(int, ShiftSeq) -> F,
    w: int,
) -> F {
    sum(models[w].len() as int, |k: int| key_value(models, prepared, value, w, k))
}

/// What the keys of the first `n` words add.
pub open spec fn keys_value<F: Field>(
    models: Seq<Seq<KeyModel>>,
    prepared: &PreparedOperatorClaims<F>,
    value: spec_fn(int, ShiftSeq) -> F,
    n: int,
) -> F {
    sum(n, |w: int| word_value(models, prepared, value, w))
}

/// What one reference adds.
pub open spec fn reference_value<F: Field>(
    t: TermRef,
    prepared: &PreparedOperatorClaims<F>,
    value: spec_fn(int, ShiftSeq) -> F,
) -> F {
    let data = prepared.of(t.operation);
    data.r_x_prime_tensor@[t.index.constraint_index as int].times(
        data.lambda_powers@[t.index.operand_index as int],
    ).times(value(t.word, t.shift_seq))
}

/// What a list of references adds.
pub open spec fn references_value<F: Field>(
    terms: Seq<TermRef>,
    prepared: &PreparedOperatorClaims<F>,
    value: spec_fn(int, ShiftSeq) -> F,
) -> F {
    sum(terms.len() as int, |i: int| reference_value(terms[i], prepared, value))
}

/// What the shifted values of one operand add up to.
pub open spec fn operand_sum<F: FieldOps>(
    cs: &ConstraintSystem,
    operand: Seq<ShiftedValueIndex>,
    value: spec_fn(int, ShiftSeq) -> F,
) -> F {
    sum(
        operand.len() as int,
        |t: int|
            value(
                cs.place(operand[t].value_index),
                ShiftSeq { inner: operand[t].inner, outer: operand[t].outer },
            ),
    )
}

/// One operand's sums over the first `n` constraints, weighted constraint by constraint.
pub open spec fn column_sum<F: FieldOps>(
    cs: &ConstraintSystem,
    constraints: Seq<Vec<Vec<ShiftedValueIndex>>>,
    operand_index: int,
    value: spec_fn(int, ShiftSeq) -> F,
    tensor: Seq<F>,
    n: int,
) -> F {
    sum(
        n,
        |i: int|
            operand_sum(cs, constraints[i]@[operand_index]@, value).times(tensor[i]),
    )
}

/// Adding to one term adds to the sum.
proof fn lemma_sum_bump<G: AdditiveGroup>(
    n: int,
    f: spec_fn(int) -> G,
    g: spec_fn(int) -> G,
    p: int,
    d: G,
)
    requires
        0 <= p < n,
        g(p) == f(p).plus(d),
        forall|i: int| 0 <= i < n && i != p ==> #[trigger] g(i) == f(i),
    ensures
        sum(n, g) == sum(n, f).plus(d),
{
    let e = |i: int| select(i == p, d);
    let both = |i: int| f(i).plus(e(i));
    assert forall|i: int| 0 <= i < n implies #[trigger] g(i) == both(i) by {
        G::plus_nil(f(i));
    }
    lemma_sum_ext(n, g, both);
    lemma_sum_plus(n, f, e);
    lemma_sum_single(n, e, p);
}

/// One more index adds its weight.
proof fn lemma_index_pushed<F: Field>(
    indices: Seq<ConstraintIndex>,
    index: ConstraintIndex,
    tensor: Seq<F>,
    powers: Seq<F>,
)
    ensures
        indices_weight(indices.push(index), tensor, powers) == indices_weight(
            indices,
            tensor,
            powers,
        ).plus(tensor[index.constraint_index as int].times(powers[index.operand_index as int])),
{
    let after = indices.push(index);
    let n = indices.len() as int;
    let f = |i: int|
        tensor[indices[i].constraint_index as int].times(powers[indices[i].operand_index as int]);
    let g = |i: int|
        tensor[after[i].constraint_index as int].times(powers[after[i].operand_index as int]);
    assert forall|i: int| 0 <= i < n implies #[trigger] f(i) == g(i) by {
        assert(after[i] == indices[i]);
    }
    lemma_sum_ext(n, f, g);
    assert(sum(n + 1, g) == sum(n, g).plus(g(n)));
}

/// Recording a reference adds it to its word.
proof fn lemma_record_adds<F: Field>(
    before: Seq<Seq<KeyModel>>,
    after: Seq<Seq<KeyModel>>,
    t: TermRef,
    prepared: &PreparedOperatorClaims<F>,
    value: spec_fn(int, ShiftSeq) -> F,
)
    requires
        after[t.word] == record_key(before[t.word], t),
    ensures
        word_value(after, prepared, value, t.word) == word_value(
            before,
            prepared,
            value,
            t.word,
        ).plus(reference_value(t, prepared, value)),
{
    let w = t.word;
    let keys = before[w];
    let p = find_key(keys, t.operation, t.shift_seq);
    let n = keys.len() as int;
    let data = prepared.of(t.operation);
    let (tensor, powers) = (data.r_x_prime_tensor@, data.lambda_powers@);
    let own = tensor[t.index.constraint_index as int].times(
        powers[t.index.operand_index as int],
    );
    let v = value(w, t.shift_seq);
    let f = |k: int| key_value(before, prepared, value, w, k);
    let g = |k: int| key_value(after, prepared, value, w, k);
    lemma_find_is_first(keys, t.operation, t.shift_seq);
    if p < n {
        assert(collects(keys[p], t.operation, t.shift_seq));
        lemma_index_pushed(keys[p].indices, t.index, tensor, powers);
        lemma_plus_times(key_weight(keys[p], prepared), own, v);
        assert(after[w][p].indices == keys[p].indices.push(t.index));
        assert(key_weight(after[w][p], prepared) == key_weight(keys[p], prepared).plus(own));
        lemma_sum_bump(n, f, g, p, own.times(v));
    } else {
        lemma_sum_ext(n, f, g);
        let none = Seq::<ConstraintIndex>::empty();
        lemma_index_pushed(none, t.index, tensor, powers);
        assert(none.push(t.index) =~= seq![t.index]);
        lemma_nil_plus(own);
        assert(indices_weight(none, tensor, powers) == F::nil());
        assert(after[w][n].indices == seq![t.index]);
        assert(g(n) == own.times(v));
        assert(sum(n + 1, g) == sum(n, g).plus(g(n)));
    }
}

/// Recording references adds what they stand for.
proof fn lemma_recording_adds<F: Field>(
    lists: Seq<Seq<KeyModel>>,
    terms: Seq<TermRef>,
    prepared: &PreparedOperatorClaims<F>,
    value: spec_fn(int, ShiftSeq) -> F,
)
    requires
        terms_fit(terms, lists.len() as int),
        no_empty_keys(lists),
        proper_keys(lists),
    ensures
        keys_value(recorded(lists, terms), prepared, value, lists.len() as int) == keys_value(
            lists,
            prepared,
            value,
            lists.len() as int,
        ).plus(references_value(terms, prepared, value)),
    decreases terms.len(),
{
    let n = lists.len() as int;
    if terms.len() == 0 {
        F::plus_nil(keys_value(lists, prepared, value, n));
    } else {
        let rest = terms.drop_last();
        let t = terms.last();
        assert(terms[terms.len() - 1] == t);
        assert forall|i: int| 0 <= i < rest.len() implies 0 <= (#[trigger] rest[i]).word
            < lists.len() && rest[i].shift_seq.wf() by {
            assert(rest[i] == terms[i]);
        }
        lemma_recorded(lists, rest);
        lemma_recording_adds(lists, rest, prepared, value);
        let before = recorded(lists, rest);
        let after = recorded(lists, terms);
        let m = rest.len() as int;
        let own = reference_value(t, prepared, value);
        assert(after[t.word] == record_key(before[t.word], t));
        lemma_record_adds(before, after, t, prepared, value);
        let f = |w: int| word_value(before, prepared, value, w);
        let g = |w: int| word_value(after, prepared, value, w);
        assert forall|w: int| 0 <= w < n && w != t.word implies #[trigger] g(w) == f(w) by {
            assert(after[w] == before[w]);
            lemma_sum_ext(
                after[w].len() as int,
                |k: int| key_value(after, prepared, value, w, k),
                |k: int| key_value(before, prepared, value, w, k),
            );
        }
        lemma_sum_bump(n, f, g, t.word, own);
        let a = |i: int| reference_value(rest[i], prepared, value);
        let b = |i: int| reference_value(terms[i], prepared, value);
        lemma_sum_ext(m, a, b);
        assert(sum(m + 1, b) == sum(m, b).plus(b(m)));
        F::plus_assoc(
            keys_value(lists, prepared, value, n),
            references_value(rest, prepared, value),
            own,
        );
    }
}

/// References listed one after the other add up.
pub proof fn lemma_references_add<F: Field>(
    first: Seq<TermRef>,
    second: Seq<TermRef>,
    prepared: &PreparedOperatorClaims<F>,
    value: spec_fn(int, ShiftSeq) -> F,
)
    ensures
        references_value(first + second, prepared, value) == references_value(
            first,
            prepared,
            value,
        ).plus(references_value(second, prepared, value)),
{
    let all = first + second;
    let (m, n) = (first.len() as int, second.len() as int);
    let f = |i: int| reference_value(all[i], prepared, value);
    lemma_sum_split(m, n, f);
    lemma_sum_ext(m, f, |i: int| reference_value(first[i], prepared, value));
    lemma_sum_ext(n, |i: int| f(m + i), |i: int| reference_value(second[i], prepared, value));
}

/// One operand of one constraint adds its weighted sum.
proof fn lemma_operand_references<F: Field>(
    cs: &ConstraintSystem,
    operation: Operation,
    operand_index: int,
    operand: Seq<ShiftedValueIndex>,
    constraint_index: int,
    prepared: &PreparedOperatorClaims<F>,
    value: spec_fn(int, ShiftSeq) -> F,
)
    requires
        0 <= operand_index <= u8::MAX,
        0 <= constraint_index <= u32::MAX,
    ensures
        ({
            let data = prepared.of(operation);
            references_value(
                operand_terms(cs, operation, operand_index, operand, constraint_index),
                prepared,
                value,
            ) == data.r_x_prime_tensor@[constraint_index].times(
                data.lambda_powers@[operand_index],
            ).times(operand_sum(cs, operand, value))
        }),
{
    let data = prepared.of(operation);
    let scale = data.r_x_prime_tensor@[constraint_index].times(
        data.lambda_powers@[operand_index],
    );
    let terms = operand_terms(cs, operation, operand_index, operand, constraint_index);
    let n = operand.len() as int;
    let own = |t: int|
        value(
            cs.place(operand[t].value_index),
            ShiftSeq { inner: operand[t].inner, outer: operand[t].outer },
        );
    lemma_sum_scale(n, scale, own);
    lemma_sum_ext(
        n,
        |i: int| reference_value(terms[i], prepared, value),
        |i: int| scale.times(own(i)),
    );
}

/// One operand over the first `n` constraints adds its weighted column.
proof fn lemma_column_references<F: Field>(
    cs: &ConstraintSystem,
    operation: Operation,
    operand_index: int,
    constraints: Seq<Vec<Vec<ShiftedValueIndex>>>,
    n: int,
    prepared: &PreparedOperatorClaims<F>,
    value: spec_fn(int, ShiftSeq) -> F,
)
    requires
        0 <= operand_index <= u8::MAX,
        0 <= n <= constraints.len(),
        constraints.len() <= u32::MAX,
    ensures
        ({
            let data = prepared.of(operation);
            references_value(
                column_terms(cs, operation, operand_index, constraints, n),
                prepared,
                value,
            ) == column_sum(
                cs,
                constraints,
                operand_index,
                value,
                data.r_x_prime_tensor@,
                n,
            ).times(data.lambda_powers@[operand_index])
        }),
    decreases n,
{
    let data = prepared.of(operation);
    let (tensor, power) = (data.r_x_prime_tensor@, data.lambda_powers@[operand_index]);
    let f = |i: int|
        operand_sum(cs, constraints[i]@[operand_index]@, value).times(tensor[i]);
    if n == 0 {
        lemma_times_nil(power);
    } else {
        let i = n - 1;
        let operand = constraints[i]@[operand_index]@;
        let own = operand_sum(cs, operand, value);
        lemma_column_references(
            cs,
            operation,
            operand_index,
            constraints,
            i,
            prepared,
            value,
        );
        lemma_operand_references(
            cs,
            operation,
            operand_index,
            operand,
            i,
            prepared,
            value,
        );
        lemma_references_add(
            column_terms(cs, operation, operand_index, constraints, i),
            operand_terms(cs, operation, operand_index, operand, i),
            prepared,
            value,
        );
        lemma_plus_times(sum(i, f), f(i), power);
        F::times_comm(tensor[i].times(power), own);
        F::times_assoc(own, tensor[i], power);
    }
}

/// The first `n` operands of an operation add their weighted columns.
pub proof fn lemma_operation_references<F: Field>(
    cs: &ConstraintSystem,
    operation: Operation,
    constraints: Seq<Vec<Vec<ShiftedValueIndex>>>,
    n: int,
    prepared: &PreparedOperatorClaims<F>,
    value: spec_fn(int, ShiftSeq) -> F,
)
    requires
        0 <= n <= u8::MAX,
        constraints.len() <= u32::MAX,
    ensures
        ({
            let data = prepared.of(operation);
            references_value(operation_terms(cs, operation, constraints, n), prepared, value)
                == sum(
                n,
                |o: int|
                    column_sum(
                        cs,
                        constraints,
                        o,
                        value,
                        data.r_x_prime_tensor@,
                        constraints.len() as int,
                    ).times(data.lambda_powers@[o]),
            )
        }),
    decreases n,
{
    if n > 0 {
        let m = constraints.len() as int;
        lemma_operation_references(cs, operation, constraints, n - 1, prepared, value);
        lemma_column_references(cs, operation, n - 1, constraints, m, prepared, value);
        lemma_references_add(
            operation_terms(cs, operation, constraints, n - 1),
            column_terms(cs, operation, n - 1, constraints, m),
            prepared,
            value,
        );
    }
}

/// The two segments' keys together add what the system's references add, operation by operation.
pub proof fn lemma_segments_add_references<F: Field>(
    cs: &ConstraintSystem,
    inout: InoutSegment,
    key_collection: &KeyCollection,
    prepared: &PreparedOperatorClaims<F>,
    value: spec_fn(int, ShiftSeq) -> F,
    public_value: spec_fn(int, ShiftSeq) -> F,
    hidden_value: spec_fn(int, ShiftSeq) -> F,
)
    requires
        cs.wf(),
        keys_of(cs, inout, key_collection),
        forall|w: int, s: ShiftSeq|
            0 <= w < cs.public_words(inout) ==> #[trigger] public_value(w, s) == value(w, s),
        forall|w: int, s: ShiftSeq|
            0 <= w < cs.n_values() - cs.public_words(inout) ==> #[trigger] hidden_value(w, s)
                == value(cs.public_words(inout) + w, s),
    ensures
        key_collection.public.key_ranges.len() == cs.public_words(inout),
        key_collection.hidden.key_ranges.len() == cs.n_values() - cs.public_words(inout),
        keys_value(
            key_collection.public.model(),
            prepared,
            public_value,
            cs.public_words(inout),
        ).plus(
            keys_value(
                key_collection.hidden.model(),
                prepared,
                hidden_value,
                cs.n_values() - cs.public_words(inout),
            ),
        ) == references_value(
            operation_terms(cs, Operation::Zero, cs.zero_constraints@, 1),
            prepared,
            value,
        ).plus(
            references_value(
                operation_terms(cs, Operation::BitwiseAnd, cs.and_constraints@, 3),
                prepared,
                value,
            ),
        ).plus(
            references_value(
                operation_terms(cs, Operation::IntegerMul, cs.imul_constraints@, 4),
                prepared,
                value,
            ),
        ).plus(
            references_value(
                operation_terms(cs, Operation::BinMul, cs.bmul_constraints@, 6),
                prepared,
                value,
            ),
        ),
{
    let n = cs.n_values();
    let m = cs.public_words(inout);
    let t0 = operation_terms(cs, Operation::Zero, cs.zero_constraints@, 1);
    let t1 = operation_terms(cs, Operation::BitwiseAnd, cs.and_constraints@, 3);
    let t2 = operation_terms(cs, Operation::IntegerMul, cs.imul_constraints@, 4);
    let t3 = operation_terms(cs, Operation::BinMul, cs.bmul_constraints@, 6);
    lemma_references_add(t0, t1, prepared, value);
    lemma_references_add(t0 + t1, t2, prepared, value);
    lemma_references_add(t0 + t1 + t2, t3, prepared, value);
    lemma_operation_fits(cs, Operation::Zero, cs.zero_constraints@, 1, 1);
    lemma_operation_fits(cs, Operation::BitwiseAnd, cs.and_constraints@, 3, 3);
    lemma_operation_fits(cs, Operation::IntegerMul, cs.imul_constraints@, 4, 4);
    lemma_operation_fits(cs, Operation::BinMul, cs.bmul_constraints@, 6, 6);
    lemma_terms_fit_add(t0, t1, n);
    lemma_terms_fit_add(t0 + t1, t2, n);
    lemma_terms_fit_add(t0 + t1 + t2, t3, n);
    let empty = Seq::new(n as nat, |w: int| Seq::<KeyModel>::empty());
    let models = recorded(empty, system_terms(cs));
    lemma_recorded(empty, system_terms(cs));
    lemma_recording_adds(empty, system_terms(cs), prepared, value);
    // Nothing is recorded at first.
    let none = |w: int| word_value(empty, prepared, value, w);
    assert forall|w: int| 0 <= w < n implies #[trigger] none(w) == F::nil() by {
        assert(empty[w].len() == 0);
    }
    lemma_sum_nil(n, none);
    lemma_nil_plus(references_value(system_terms(cs), prepared, value));
    // The words split into the two segments.
    let all = |w: int| word_value(models, prepared, value, w);
    lemma_sum_split(m, n - m, all);
    let first = key_collection.public.model();
    let second = key_collection.hidden.model();
    assert(first.len() == m);
    assert(second.len() == n - m);
    let fp = |w: int| word_value(first, prepared, public_value, w);
    assert forall|w: int| 0 <= w < m implies #[trigger] fp(w) == all(w) by {
        assert(first[w] == models[w]);
        let a = |k: int| key_value(first, prepared, public_value, w, k);
        let b = |k: int| key_value(models, prepared, value, w, k);
        assert forall|k: int| 0 <= k < models[w].len() implies #[trigger] a(k) == b(k) by {
            assert(public_value(w, models[w][k].shift_seq) == value(w, models[w][k].shift_seq));
        }
        lemma_sum_ext(models[w].len() as int, a, b);
    }
    lemma_sum_ext(m, fp, all);
    let fh = |w: int| word_value(second, prepared, hidden_value, w);
    let rest = |w: int| all(m + w);
    assert forall|w: int| 0 <= w < n - m implies #[trigger] fh(w) == rest(w) by {
        assert(second[w] == models[m + w]);
        let a = |k: int| key_value(second, prepared, hidden_value, w, k);
        let b = |k: int| key_value(models, prepared, value, m + w, k);
        assert forall|k: int| 0 <= k < models[m + w].len() implies #[trigger] a(k) == b(k) by {
            let s = models[m + w][k].shift_seq;
            assert(hidden_value(w, s) == value(m + w, s));
        }
        lemma_sum_ext(models[m + w].len() as int, a, b);
    }
    lemma_sum_ext(n - m, fh, rest);
}

} // verus!
