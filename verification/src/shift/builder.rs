//! Builds the shift keys of a constraint system.

use crate::constraint_system::{
    BINMUL_ARITY, BITAND_ARITY, ConstraintSystem, INTMUL_ARITY, InoutSegment, ShiftedValueIndex,
    ZERO_ARITY,
};
use crate::shift::keys::{
    ConstraintIndex, DenseShiftEncoding, Key, KeyCollection, KeyModel, KeyRange, KeySegment,
    Operation, ShiftSeq, increasing,
};
use vstd::prelude::*;

verus! {

/// One key still being assembled while its segment is built.
pub struct BuilderKey {
    /// The shift sequence the key's word is referenced under.
    pub shift_seq: ShiftSeq,
    /// The constraint kind.
    pub operation: Operation,
    /// The constraint indices collected so far.
    pub constraint_indices: Vec<ConstraintIndex>,
}

impl BuilderKey {
    /// What the key stands for.
    pub open spec fn model(&self) -> KeyModel {
        KeyModel {
            shift_seq: self.shift_seq,
            operation: self.operation,
            indices: self.constraint_indices@,
        }
    }
}

/// One reference from a constraint to a word.
pub struct TermRef {
    pub word: int,
    pub shift_seq: ShiftSeq,
    pub operation: Operation,
    pub index: ConstraintIndex,
}

/// Whether a key collects references of one kind under one sequence.
pub open spec fn collects(key: KeyModel, operation: Operation, shift_seq: ShiftSeq) -> bool {
    key.operation == operation && key.shift_seq == shift_seq
}

/// The first key that collects such references, or the number of keys.
pub open spec fn find_key(keys: Seq<KeyModel>, operation: Operation, shift_seq: ShiftSeq) -> int
    decreases keys.len(),
{
    if keys.len() == 0 || collects(keys[0], operation, shift_seq) {
        0
    } else {
        1 + find_key(keys.skip(1), operation, shift_seq)
    }
}

/// A word's keys after one more reference: it joins the key that collects it, or starts one.
pub open spec fn record_key(keys: Seq<KeyModel>, t: TermRef) -> Seq<KeyModel> {
    let p = find_key(keys, t.operation, t.shift_seq);
    if p < keys.len() {
        keys.update(
            p,
            KeyModel {
                shift_seq: t.shift_seq,
                operation: t.operation,
                indices: keys[p].indices.push(t.index),
            },
        )
    } else {
        keys.push(
            KeyModel {
                shift_seq: t.shift_seq,
                operation: t.operation,
                indices: seq![t.index],
            },
        )
    }
}

/// Every word's keys after recording a list of references in order.
pub open spec fn recorded(lists: Seq<Seq<KeyModel>>, terms: Seq<TermRef>) -> Seq<Seq<KeyModel>>
    decreases terms.len(),
{
    if terms.len() == 0 {
        lists
    } else {
        let before = recorded(lists, terms.drop_last());
        let t = terms.last();
        before.update(t.word, record_key(before[t.word], t))
    }
}

/// The references one operand of one constraint makes.
pub open spec fn operand_terms(
    cs: &ConstraintSystem,
    operation: Operation,
    operand_index: int,
    operand: Seq<ShiftedValueIndex>,
    constraint_index: int,
) -> Seq<TermRef> {
    Seq::new(
        operand.len(),
        |t: int|
            TermRef {
                word: cs.place(operand[t].value_index),
                shift_seq: ShiftSeq { inner: operand[t].inner, outer: operand[t].outer },
                operation,
                index: ConstraintIndex {
                    operand_index: operand_index as u8,
                    constraint_index: constraint_index as u32,
                },
            },
    )
}

/// The references one operand makes over the first `n` constraints.
pub open spec fn column_terms(
    cs: &ConstraintSystem,
    operation: Operation,
    operand_index: int,
    constraints: Seq<Vec<Vec<ShiftedValueIndex>>>,
    n: int,
) -> Seq<TermRef>
    decreases n,
{
    if n <= 0 {
        Seq::empty()
    } else {
        column_terms(cs, operation, operand_index, constraints, n - 1) + operand_terms(
            cs,
            operation,
            operand_index,
            constraints[n - 1]@[operand_index]@,
            n - 1,
        )
    }
}

/// The references the first `n` operands make over all constraints, operand by operand.
pub open spec fn operation_terms(
    cs: &ConstraintSystem,
    operation: Operation,
    constraints: Seq<Vec<Vec<ShiftedValueIndex>>>,
    n: int,
) -> Seq<TermRef>
    decreases n,
{
    if n <= 0 {
        Seq::empty()
    } else {
        operation_terms(cs, operation, constraints, n - 1) + column_terms(
            cs,
            operation,
            n - 1,
            constraints,
            constraints.len() as int,
        )
    }
}

/// Every reference of a constraint system, in the order it is recorded.
pub open spec fn system_terms(cs: &ConstraintSystem) -> Seq<TermRef> {
    operation_terms(cs, Operation::Zero, cs.zero_constraints@, 1) + operation_terms(
        cs,
        Operation::BitwiseAnd,
        cs.and_constraints@,
        3,
    ) + operation_terms(cs, Operation::IntegerMul, cs.imul_constraints@, 4) + operation_terms(
        cs,
        Operation::BinMul,
        cs.bmul_constraints@,
        6,
    )
}

/// Recording two lists in turn records their concatenation.
pub proof fn lemma_recorded_add(
    lists: Seq<Seq<KeyModel>>,
    first: Seq<TermRef>,
    second: Seq<TermRef>,
)
    ensures
        recorded(lists, first + second) == recorded(recorded(lists, first), second),
    decreases second.len(),
{
    if second.len() == 0 {
        assert(first + second =~= first);
    } else {
        lemma_recorded_add(lists, first, second.drop_last());
        assert((first + second).drop_last() =~= first + second.drop_last());
        assert((first + second).last() == second.last());
    }
}

/// The key found is the first that collects.
proof fn lemma_find_key(keys: Seq<KeyModel>, operation: Operation, shift_seq: ShiftSeq, p: int)
    requires
        0 <= p <= keys.len(),
        forall|i: int| 0 <= i < p ==> !collects(#[trigger] keys[i], operation, shift_seq),
        p < keys.len() ==> collects(keys[p], operation, shift_seq),
    ensures
        find_key(keys, operation, shift_seq) == p,
    decreases keys.len(),
{
    if p > 0 {
        assert(!collects(keys[0], operation, shift_seq));
        let rest = keys.skip(1);
        assert forall|i: int| 0 <= i < p - 1 implies !collects(
            #[trigger] rest[i],
            operation,
            shift_seq,
        ) by {
            assert(rest[i] == keys[i + 1]);
        }
        lemma_find_key(rest, operation, shift_seq, p - 1);
    }
}

/// The number of constraint indices a word's keys hold.
pub open spec fn word_total(keys: Seq<KeyModel>) -> nat
    decreases keys.len(),
{
    if keys.len() == 0 {
        0
    } else {
        word_total(keys.drop_last()) + keys.last().indices.len()
    }
}

/// The number of constraint indices all words' keys hold.
pub open spec fn lists_total(lists: Seq<Seq<KeyModel>>) -> nat
    decreases lists.len(),
{
    if lists.len() == 0 {
        0
    } else {
        lists_total(lists.drop_last()) + word_total(lists.last())
    }
}

/// Every key holds a constraint index.
pub open spec fn no_empty_keys(lists: Seq<Seq<KeyModel>>) -> bool {
    forall|w: int, k: int|
        0 <= w < lists.len() && 0 <= k < lists[w].len() ==> (#[trigger] lists[w][k]).indices.len()
            > 0
}

/// Every key's sequence is proper.
pub open spec fn proper_keys(lists: Seq<Seq<KeyModel>>) -> bool {
    forall|w: int, k: int|
        0 <= w < lists.len() && 0 <= k < lists[w].len() ==> (#[trigger] lists[w][k]).shift_seq.wf()
}

/// Replacing one key changes the total by the change in its length.
proof fn lemma_word_total_update(keys: Seq<KeyModel>, p: int, key: KeyModel)
    requires
        0 <= p < keys.len(),
    ensures
        word_total(keys.update(p, key)) == word_total(keys) - keys[p].indices.len()
            + key.indices.len(),
    decreases keys.len(),
{
    let after = keys.update(p, key);
    if p == keys.len() - 1 {
        assert(after.drop_last() =~= keys.drop_last());
    } else {
        assert(after.drop_last() =~= keys.drop_last().update(p, key));
        lemma_word_total_update(keys.drop_last(), p, key);
    }
}

/// Replacing one word's keys changes the total by the change in the word's.
proof fn lemma_lists_total_update(lists: Seq<Seq<KeyModel>>, w: int, keys: Seq<KeyModel>)
    requires
        0 <= w < lists.len(),
    ensures
        lists_total(lists.update(w, keys)) == lists_total(lists) - word_total(lists[w])
            + word_total(keys),
    decreases lists.len(),
{
    let after = lists.update(w, keys);
    if w == lists.len() - 1 {
        assert(after.drop_last() =~= lists.drop_last());
    } else {
        assert(after.drop_last() =~= lists.drop_last().update(w, keys));
        lemma_lists_total_update(lists.drop_last(), w, keys);
    }
}

/// The total splits at any word.
proof fn lemma_lists_total_split(lists: Seq<Seq<KeyModel>>, m: int)
    requires
        0 <= m <= lists.len(),
    ensures
        lists_total(lists) == lists_total(lists.take(m)) + lists_total(lists.skip(m)),
    decreases lists.len(),
{
    if m == lists.len() {
        assert(lists.take(m) =~= lists);
    } else {
        lemma_lists_total_split(lists.drop_last(), m);
        assert(lists.drop_last().take(m) =~= lists.take(m));
        assert(lists.drop_last().skip(m) =~= lists.skip(m).drop_last());
    }
}

/// The totals up to a key within a word.
proof fn lemma_word_total_prefix(keys: Seq<KeyModel>, k: int)
    requires
        0 <= k < keys.len(),
    ensures
        word_total(keys.take(k)) + keys[k].indices.len() == word_total(keys.take(k + 1)),
        word_total(keys.take(k + 1)) <= word_total(keys),
    decreases keys.len(),
{
    assert(keys.take(k + 1).drop_last() =~= keys.take(k));
    if k + 1 < keys.len() {
        lemma_word_total_prefix(keys.drop_last(), k);
        assert(keys.drop_last().take(k + 1) =~= keys.take(k + 1));
    } else {
        assert(keys.take(k + 1) =~= keys);
    }
}

/// A word holds no more keys than constraint indices.
proof fn lemma_word_keys_bound(keys: Seq<KeyModel>)
    requires
        forall|k: int| 0 <= k < keys.len() ==> (#[trigger] keys[k]).indices.len() > 0,
    ensures
        keys.len() <= word_total(keys),
    decreases keys.len(),
{
    if keys.len() > 0 {
        lemma_word_keys_bound(keys.drop_last());
        assert(keys.last().indices.len() > 0);
    }
}

/// The totals up to a word.
proof fn lemma_lists_total_prefix(lists: Seq<Seq<KeyModel>>, w: int)
    requires
        0 <= w < lists.len(),
    ensures
        lists_total(lists.take(w)) + word_total(lists[w]) == lists_total(lists.take(w + 1)),
        lists_total(lists.take(w + 1)) <= lists_total(lists),
{
    lemma_lists_total_split(lists, w + 1);
    assert(lists.take(w + 1).drop_last() =~= lists.take(w));
}

/// The references of a proper constraint system name words and hold proper sequences.
pub open spec fn terms_fit(terms: Seq<TermRef>, n_words: int) -> bool {
    forall|t: int|
        0 <= t < terms.len() ==> 0 <= (#[trigger] terms[t]).word < n_words
            && terms[t].shift_seq.wf()
}

/// Recording counts every reference once.
pub proof fn lemma_recorded(lists: Seq<Seq<KeyModel>>, terms: Seq<TermRef>)
    requires
        terms_fit(terms, lists.len() as int),
        no_empty_keys(lists),
        proper_keys(lists),
    ensures
        recorded(lists, terms).len() == lists.len(),
        no_empty_keys(recorded(lists, terms)),
        proper_keys(recorded(lists, terms)),
        lists_total(recorded(lists, terms)) == lists_total(lists) + terms.len(),
    decreases terms.len(),
{
    if terms.len() > 0 {
        let before = recorded(lists, terms.drop_last());
        let t = terms.last();
        assert(terms[terms.len() - 1] == t);
        assert forall|i: int| 0 <= i < terms.drop_last().len() implies 0 <= (
        #[trigger] terms.drop_last()[i]).word < lists.len() && terms.drop_last()[i].shift_seq.wf() by {
            assert(terms.drop_last()[i] == terms[i]);
        }
        lemma_recorded(lists, terms.drop_last());
        let keys = before[t.word];
        let after = record_key(keys, t);
        let p = find_key(keys, t.operation, t.shift_seq);
        lemma_find_is_first(keys, t.operation, t.shift_seq);
        if p < keys.len() {
            lemma_word_total_update(
                keys,
                p,
                KeyModel {
                    shift_seq: t.shift_seq,
                    operation: t.operation,
                    indices: keys[p].indices.push(t.index),
                },
            );
        } else {
            assert(after.drop_last() =~= keys);
        }
        lemma_lists_total_update(before, t.word, after);
        let out = before.update(t.word, after);
        assert forall|w: int, k: int| 0 <= w < out.len() && 0 <= k < out[w].len() implies (
        #[trigger] out[w][k]).indices.len() > 0 && out[w][k].shift_seq.wf() by {
            if w == t.word && k < keys.len() {
                assert(before[w][k].indices.len() > 0);
            } else if w != t.word {
                assert(before[w][k].indices.len() > 0);
            }
        }
    }
}

/// The references of one operand fit.
proof fn lemma_column_fits(
    cs: &ConstraintSystem,
    operation: Operation,
    operand_index: int,
    constraints: Seq<Vec<Vec<ShiftedValueIndex>>>,
    arity: int,
    n: int,
)
    requires
        cs.n_values() <= isize::MAX,
        cs.constraints_wf(constraints, arity),
        0 <= operand_index < arity,
        n <= constraints.len(),
    ensures
        terms_fit(column_terms(cs, operation, operand_index, constraints, n), cs.n_values()),
    decreases n,
{
    if n > 0 {
        lemma_column_fits(cs, operation, operand_index, constraints, arity, n - 1);
        let last = operand_terms(
            cs,
            operation,
            operand_index,
            constraints[n - 1]@[operand_index]@,
            n - 1,
        );
        assert forall|t: int| 0 <= t < last.len() implies 0 <= (#[trigger] last[t]).word
            < cs.n_values() && last[t].shift_seq.wf() by {
            assert(cs.names(constraints[n - 1]@[operand_index]@[t].value_index));
        }
        let first = column_terms(cs, operation, operand_index, constraints, n - 1);
        let all = first + last;
        assert forall|t: int| 0 <= t < all.len() implies 0 <= (#[trigger] all[t]).word
            < cs.n_values() && all[t].shift_seq.wf() by {
            if t < first.len() {
                assert(all[t] == first[t]);
            } else {
                assert(all[t] == last[t - first.len()]);
            }
        }
    }
}

/// The references of one operation fit.
pub proof fn lemma_operation_fits(
    cs: &ConstraintSystem,
    operation: Operation,
    constraints: Seq<Vec<Vec<ShiftedValueIndex>>>,
    arity: int,
    n: int,
)
    requires
        cs.n_values() <= isize::MAX,
        cs.constraints_wf(constraints, arity),
        n <= arity,
    ensures
        terms_fit(operation_terms(cs, operation, constraints, n), cs.n_values()),
    decreases n,
{
    if n > 0 {
        lemma_operation_fits(cs, operation, constraints, arity, n - 1);
        lemma_column_fits(cs, operation, n - 1, constraints, arity, constraints.len() as int);
        lemma_terms_fit_add(
            operation_terms(cs, operation, constraints, n - 1),
            column_terms(cs, operation, n - 1, constraints, constraints.len() as int),
            cs.n_values(),
        );
    }
}

/// Two lists that fit fit together.
pub proof fn lemma_terms_fit_add(first: Seq<TermRef>, second: Seq<TermRef>, n: int)
    requires
        terms_fit(first, n),
        terms_fit(second, n),
    ensures
        terms_fit(first + second, n),
{
    let all = first + second;
    assert forall|t: int| 0 <= t < all.len() implies 0 <= (#[trigger] all[t]).word < n
        && all[t].shift_seq.wf() by {
        if t < first.len() {
            assert(all[t] == first[t]);
        } else {
            assert(all[t] == second[t - first.len()]);
        }
    }
}

/// One builder key list per word.
pub struct BuilderKeyLists(pub Vec<Vec<BuilderKey>>);

/// What one word's builder keys stand for.
pub open spec fn word_models(keys: Seq<BuilderKey>) -> Seq<KeyModel> {
    Seq::new(keys.len(), |k: int| keys[k].model())
}

/// What every word's builder keys stand for.
pub open spec fn list_models(lists: Seq<Vec<BuilderKey>>) -> Seq<Seq<KeyModel>> {
    Seq::new(lists.len(), |w: int| word_models(lists[w]@))
}

impl BuilderKeyLists {
    /// What every word's keys stand for.
    pub open spec fn model(&self) -> Seq<Seq<KeyModel>> {
        list_models(self.0@)
    }

    /// An empty list for every word.
    pub fn new(word_count: usize) -> (r: Self)
        ensures
            r.model() == Seq::new(word_count as nat, |w: int| Seq::<KeyModel>::empty()),
    {
        let mut lists: Vec<Vec<BuilderKey>> = Vec::new();
        let mut w: usize = 0;
        while w < word_count
            invariant
                w <= word_count,
                lists.len() == w,
                forall|x: int| 0 <= x < w ==> (#[trigger] lists[x])@.len() == 0,
            decreases word_count - w,
        {
            lists.push(Vec::new());
            w = w + 1;
        }
        let r = BuilderKeyLists(lists);
        assert forall|x: int| 0 <= x < word_count implies #[trigger] r.model()[x] == Seq::<
            KeyModel,
        >::empty() by {
            assert(r.model()[x] =~= Seq::<KeyModel>::empty());
        }
        assert(r.model() =~= Seq::new(word_count as nat, |w: int| Seq::<KeyModel>::empty()));
        r
    }

    /// Splits the words from `public_word_count` onward into a second set of lists.
    pub fn split_off(&mut self, public_word_count: usize) -> (r: Self)
        requires
            public_word_count <= old(self).model().len(),
        ensures
            final(self).model() == old(self).model().take(public_word_count as int),
            r.model() == old(self).model().skip(public_word_count as int),
    {
        let r = BuilderKeyLists(self.0.split_off(public_word_count));
        assert(self.model() =~= old(self).model().take(public_word_count as int));
        assert(r.model() =~= old(self).model().skip(public_word_count as int));
        r
    }

    /// Records one reference into the keys of the word it names.
    fn record(
        &mut self,
        word: usize,
        shift_seq: ShiftSeq,
        operation: Operation,
        index: ConstraintIndex,
    )
        requires
            word < old(self).model().len(),
        ensures
            final(self).model() == old(self).model().update(
                word as int,
                record_key(
                    old(self).model()[word as int],
                    TermRef { word: word as int, shift_seq, operation, index },
                ),
            ),
    {
        let ghost before = self.model();
        let ghost t = TermRef { word: word as int, shift_seq, operation, index };
        let mut keys: Vec<BuilderKey> = Vec::new();
        core::mem::swap(&mut keys, &mut self.0[word]);
        let ghost old_keys = word_models(keys@);
        assert(old_keys == before[word as int]);
        let mut p: usize = 0;
        while p < keys.len() && !(keys[p].shift_seq == shift_seq && keys[p].operation == operation)
            invariant
                p <= keys.len(),
                old_keys == word_models(keys@),
                forall|i: int|
                    0 <= i < p ==> !collects(#[trigger] old_keys[i], operation, shift_seq),
            decreases keys.len() - p,
        {
            p = p + 1;
        }
        proof {
            lemma_find_key(old_keys, operation, shift_seq, p as int);
        }
        let ghost start = keys@;
        if p < keys.len() {
            let mut list: Vec<ConstraintIndex> = Vec::new();
            core::mem::swap(&mut list, &mut keys[p].constraint_indices);
            list.push(index);
            let key = BuilderKey { shift_seq, operation, constraint_indices: list };
            keys.set(p, key);
            proof {
                assert(word_models(keys@)[p as int] == record_key(old_keys, t)[p as int]);
                assert(word_models(keys@) =~= record_key(old_keys, t));
            }
        } else {
            let mut list: Vec<ConstraintIndex> = Vec::new();
            list.push(index);
            let key = BuilderKey { shift_seq, operation, constraint_indices: list };
            keys.push(key);
            proof {
                assert(list@ =~= seq![index]);
                assert(word_models(keys@) =~= record_key(old_keys, t));
            }
        }
        core::mem::swap(&mut keys, &mut self.0[word]);
        assert(self.model() =~= before.update(word as int, record_key(old_keys, t)));
    }

    /// Records one operand's references over every constraint.
    pub fn update_with_operand(
        &mut self,
        operation: Operation,
        operand_index: usize,
        constraints: &Vec<Vec<Vec<ShiftedValueIndex>>>,
        cs: &ConstraintSystem,
    )
        requires
            cs.n_values() <= isize::MAX,
            cs.constraints_wf(constraints@, operation.arity() as int),
            operand_index < operation.arity(),
            old(self).model().len() == cs.n_values(),
        ensures
            final(self).model() == recorded(
                old(self).model(),
                column_terms(
                    cs,
                    operation,
                    operand_index as int,
                    constraints@,
                    constraints.len() as int,
                ),
            ),
            final(self).model().len() == cs.n_values(),
    {
        let ghost before = self.model();
        let mut c: usize = 0;
        while c < constraints.len()
            invariant
                c <= constraints.len(),
                cs.n_values() <= isize::MAX,
                cs.constraints_wf(constraints@, operation.arity() as int),
                operand_index < operation.arity(),
                operation.arity() <= 6,
                self.model().len() == cs.n_values(),
                self.model() == recorded(
                    before,
                    column_terms(cs, operation, operand_index as int, constraints@, c as int),
                ),
            decreases constraints.len() - c,
        {
            assert(constraints[c as int]@.len() == operation.arity());
            let operand = &constraints[c][operand_index];
            let index = ConstraintIndex {
                operand_index: operand_index as u8,
                constraint_index: c as u32,
            };
            let ghost done = column_terms(
                cs,
                operation,
                operand_index as int,
                constraints@,
                c as int,
            );
            let ghost own = operand_terms(
                cs,
                operation,
                operand_index as int,
                operand@,
                c as int,
            );
            let mut t: usize = 0;
            assert(done + own.take(0) =~= done);
            while t < operand.len()
                invariant
                    t <= operand.len(),
                    c < constraints.len(),
                    cs.n_values() <= isize::MAX,
                    cs.constraints_wf(constraints@, operation.arity() as int),
                    operand_index < operation.arity(),
                    *operand == constraints[c as int]@[operand_index as int],
                    own == operand_terms(
                        cs,
                        operation,
                        operand_index as int,
                        operand@,
                        c as int,
                    ),
                    index.operand_index == operand_index as u8,
                    index.constraint_index == c as u32,
                    self.model().len() == cs.n_values(),
                    self.model() == recorded(before, done + own.take(t as int)),
                decreases operand.len() - t,
            {
                let term = operand[t];
                assert(cs.names(constraints[c as int]@[operand_index as int]@[t as int].value_index));
                let word = cs.word_offset(term.value_index);
                let shift_seq = ShiftSeq { inner: term.inner, outer: term.outer };
                proof {
                    let all = done + own.take(t + 1);
                    assert(all.drop_last() =~= done + own.take(t as int));
                    assert(all.last() == own[t as int]);
                }
                self.record(word, shift_seq, operation, index);
                t = t + 1;
            }
            assert(own.take(t as int) =~= own);
            c = c + 1;
        }
    }

    /// Records every operand of every constraint of one operation.
    pub fn update_with_constraints(
        &mut self,
        operation: Operation,
        arity: usize,
        constraints: &Vec<Vec<Vec<ShiftedValueIndex>>>,
        cs: &ConstraintSystem,
    )
        requires
            arity == operation.arity(),
            cs.n_values() <= isize::MAX,
            cs.constraints_wf(constraints@, operation.arity() as int),
            old(self).model().len() == cs.n_values(),
        ensures
            final(self).model() == recorded(
                old(self).model(),
                operation_terms(cs, operation, constraints@, arity as int),
            ),
            final(self).model().len() == cs.n_values(),
    {
        let ghost before = self.model();
        let mut o: usize = 0;
        while o < arity
            invariant
                o <= arity,
                arity == operation.arity(),
                cs.n_values() <= isize::MAX,
                cs.constraints_wf(constraints@, operation.arity() as int),
                self.model().len() == cs.n_values(),
                self.model() == recorded(
                    before,
                    operation_terms(cs, operation, constraints@, o as int),
                ),
            decreases arity - o,
        {
            self.update_with_operand(operation, o, constraints, cs);
            proof {
                lemma_recorded_add(
                    before,
                    operation_terms(cs, operation, constraints@, o as int),
                    column_terms(
                        cs,
                        operation,
                        o as int,
                        constraints@,
                        constraints.len() as int,
                    ),
                );
            }
            o = o + 1;
        }
    }
}

/// Whether some key names a sequence.
pub open spec fn names_sequence(lists: Seq<Seq<KeyModel>>, s: ShiftSeq) -> bool {
    exists|w: int, k: int|
        0 <= w < lists.len() && 0 <= k < lists[w].len() && (#[trigger] lists[w][k]).shift_seq == s
}

/// The sequences all keys name, each once.
fn encode_sequences(lists: &Vec<Vec<BuilderKey>>) -> (r: DenseShiftEncoding)
    requires
        proper_keys(list_models(lists@)),
    ensures
        increasing(r.sequences@),
        forall|s: ShiftSeq| #[trigger]
            r.sequences@.contains(s) <==> names_sequence(list_models(lists@), s),
{
    let ghost models = list_models(lists@);
    let mut r = DenseShiftEncoding { sequences: Vec::new() };
    let mut w: usize = 0;
    while w < lists.len()
        invariant
            w <= lists.len(),
            models == list_models(lists@),
            proper_keys(models),
            increasing(r.sequences@),
            forall|s: ShiftSeq| #[trigger]
                r.sequences@.contains(s) <==> (exists|x: int, k: int|
                    0 <= x < w && 0 <= k < models[x].len() && (#[trigger] models[x][k]).shift_seq
                        == s),
        decreases lists.len() - w,
    {
        let mut k: usize = 0;
        while k < lists[w].len()
            invariant
                w < lists.len(),
                k <= lists[w as int].len(),
                models == list_models(lists@),
                proper_keys(models),
                increasing(r.sequences@),
                forall|s: ShiftSeq| #[trigger]
                    r.sequences@.contains(s) <==> (exists|x: int, j: int|
                        0 <= x <= w && 0 <= j < models[x].len() && (x == w ==> j < k) && (
                        #[trigger] models[x][j]).shift_seq == s),
            decreases lists[w as int].len() - k,
        {
            let seq = lists[w][k].shift_seq;
            let ghost before = r.sequences@;
            assert(models[w as int][k as int].shift_seq == seq);
            r.insert(seq);
            proof {
                assert forall|s: ShiftSeq| #[trigger] r.sequences@.contains(s) <==> (exists|
                    x: int,
                    j: int,
                |
                    0 <= x <= w && 0 <= j < models[x].len() && (x == w ==> j < k + 1) && (
                    #[trigger] models[x][j]).shift_seq == s) by {
                    if s == seq {
                        assert(models[w as int][k as int].shift_seq == s);
                    } else if r.sequences@.contains(s) {
                        assert(before.contains(s));
                    }
                }
            }
            k = k + 1;
        }
        w = w + 1;
    }
    r
}

/// Appends a list to another.
fn append_indices(list: &mut Vec<ConstraintIndex>, more: &Vec<ConstraintIndex>)
    requires
        old(list).len() + more.len() <= usize::MAX,
    ensures
        final(list)@ == old(list)@ + more@,
{
    let ghost before = list@;
    let mut i: usize = 0;
    assert(before + more@.take(0) =~= before);
    while i < more.len()
        invariant
            i <= more.len(),
            list@ == before + more@.take(i as int),
        decreases more.len() - i,
    {
        list.push(more[i]);
        assert(more@.take(i + 1) =~= more@.take(i as int).push(more[i as int]));
        assert(list@ =~= before + more@.take(i + 1));
        i = i + 1;
    }
    assert(more@.take(i as int) =~= more@);
}

/// A range starts where the one before it ends.
pub open spec fn range_follows(ranges: Seq<KeyRange>, w: int) -> bool {
    ranges[w].start == if w == 0 {
        0
    } else {
        ranges[w - 1].end
    }
}

/// A key's indices start where those of the key before it end.
pub open spec fn key_follows(keys: Seq<Key>, k: int) -> bool {
    keys[k].start == if k == 0 {
        0
    } else {
        keys[k - 1].end
    }
}

/// The keys' indices follow one another and cover the list.
pub open spec fn keys_contiguous(keys: Seq<Key>, n_indices: nat) -> bool {
    &&& forall|k: int| 0 <= k < keys.len() ==> #[trigger] key_follows(keys, k)
    &&& n_indices == if keys.len() == 0 {
        0
    } else {
        keys.last().end as nat
    }
}

/// The words' keys follow one another and cover the list.
pub open spec fn ranges_contiguous(ranges: Seq<KeyRange>, n_keys: nat) -> bool {
    &&& forall|w: int| 0 <= w < ranges.len() ==> #[trigger] range_follows(ranges, w)
    &&& n_keys == if ranges.len() == 0 {
        0
    } else {
        ranges.last().end as nat
    }
}

/// The ranges follow one another and cover both lists.
pub open spec fn contiguous(segment: &KeySegment) -> bool {
    &&& ranges_contiguous(segment.key_ranges@, segment.keys.len() as nat)
    &&& keys_contiguous(segment.keys@, segment.constraint_indices.len() as nat)
}

impl KeySegment {
    /// What the keys stand for, in order.
    pub open spec fn flat(&self) -> Seq<KeyModel> {
        Seq::new(self.keys.len() as nat, |k: int| self.key_model(k))
    }

    /// Keys lie within their lists and follow one another.
    pub open spec fn keys_wf(&self) -> bool {
        &&& increasing(self.dense_shift_enc.sequences@)
        &&& forall|k: int|
            0 <= k < self.keys.len() ==> (#[trigger] self.keys[k]).start <= self.keys[k].end
                <= self.constraint_indices.len() && self.keys[k].dense_shift_idx
                < self.dense_shift_enc.sequences.len()
        &&& keys_contiguous(self.keys@, self.constraint_indices.len() as nat)
    }

    /// Adds one key at the end.
    fn append_key(&mut self, entry: &BuilderKey)
        requires
            old(self).keys_wf(),
            entry.shift_seq.wf(),
            old(self).dense_shift_enc.sequences@.contains(entry.shift_seq),
            old(self).constraint_indices.len() + entry.constraint_indices.len() <= u32::MAX,
        ensures
            final(self).keys_wf(),
            final(self).flat() == old(self).flat().push(entry.model()),
            final(self).constraint_indices.len() == old(self).constraint_indices.len()
                + entry.constraint_indices.len(),
            final(self).key_ranges == old(self).key_ranges,
            final(self).dense_shift_enc == old(self).dense_shift_enc,
    {
        let ghost before = *self;
        let idx = self.dense_shift_enc.position(entry.shift_seq);
        proof {
            lemma_sequences_bound(self.dense_shift_enc.sequences@);
        }
        let from: u32 = self.constraint_indices.len() as u32;
        append_indices(&mut self.constraint_indices, &entry.constraint_indices);
        let to: u32 = self.constraint_indices.len() as u32;
        let key = Key {
            operation: entry.operation,
            dense_shift_idx: idx as u32,
            start: from,
            end: to,
        };
        self.keys.push(key);
        proof {
            let n = before.keys.len() as int;
            assert forall|k: int| 0 <= k < n + 1 implies #[trigger] key_follows(self.keys@, k) by {
                if k < n {
                    assert(key_follows(before.keys@, k));
                } else if n > 0 {
                    assert(self.keys@[n - 1] == before.keys@.last());
                }
            }
            assert forall|k: int| 0 <= k < n + 1 implies #[trigger] self.flat()[k]
                == before.flat().push(entry.model())[k] by {
                if k < n {
                    assert(self.keys[k] == before.keys[k]);
                    assert(before.keys[k].end <= before.constraint_indices.len());
                    assert(self.key_model(k).indices =~= before.key_model(k).indices);
                } else {
                    assert(self.key_model(k).indices =~= entry.constraint_indices@);
                }
            }
            assert(self.flat() =~= before.flat().push(entry.model()));
        }
    }

    /// Adds one word's keys at the end.
    fn append_word(&mut self, list: &Vec<BuilderKey>)
        requires
            old(self).keys_wf(),
            ranges_contiguous(old(self).key_ranges@, old(self).keys.len() as nat),
            forall|k: int|
                0 <= k < list.len() ==> (#[trigger] list[k]).shift_seq.wf() && old(self).dense_shift_enc.sequences@.contains(list[k].shift_seq)
                    && list[k].constraint_indices.len() > 0,
            old(self).keys.len() <= old(self).constraint_indices.len(),
            old(self).constraint_indices.len() + word_total(word_models(list@)) <= u32::MAX,
        ensures
            final(self).keys_wf(),
            ranges_contiguous(final(self).key_ranges@, final(self).keys.len() as nat),
            final(self).flat() == old(self).flat() + word_models(list@),
            final(self).keys.len() <= final(self).constraint_indices.len(),
            final(self).constraint_indices.len() == old(self).constraint_indices.len() + word_total(
                word_models(list@),
            ),
            final(self).key_ranges@ == old(self).key_ranges@.push(
                KeyRange {
                    start: old(self).keys.len() as u32,
                    end: final(self).keys.len() as u32,
                },
            ),
            final(self).keys.len() == old(self).keys.len() + list.len(),
            final(self).keys.len() <= u32::MAX,
            final(self).dense_shift_enc == old(self).dense_shift_enc,
    {
        let ghost before = *self;
        let ghost own = word_models(list@);
        let start: u32 = self.keys.len() as u32;
        let mut k: usize = 0;
        proof {
            assert(own.take(0) =~= Seq::<KeyModel>::empty());
            assert(before.flat() + own.take(0) =~= before.flat());
        }
        while k < list.len()
            invariant
                k <= list.len(),
                own == word_models(list@),
                self.keys_wf(),
                self.key_ranges == before.key_ranges,
                self.dense_shift_enc == before.dense_shift_enc,
                forall|j: int|
                    0 <= j < list.len() ==> (#[trigger] list[j]).shift_seq.wf()
                        && before.dense_shift_enc.sequences@.contains(list[j].shift_seq)
                        && list[j].constraint_indices.len() > 0,
                before.constraint_indices.len() + word_total(own) <= u32::MAX,
                before.keys.len() <= before.constraint_indices.len(),
                self.flat() == before.flat() + own.take(k as int),
                self.keys.len() == before.keys.len() + k,
                self.keys.len() <= self.constraint_indices.len(),
                self.constraint_indices.len() == before.constraint_indices.len() + word_total(
                    own.take(k as int),
                ),
            decreases list.len() - k,
        {
            proof {
                lemma_word_total_prefix(own, k as int);
                assert(own[k as int] == list[k as int].model());
            }
            let ghost flat = self.flat();
            self.append_key(&list[k]);
            proof {
                assert(flat.push(own[k as int]) =~= before.flat() + own.take(k + 1));
                assert(self.flat().len() == flat.len() + 1);
            }
            k = k + 1;
        }
        assert(own.take(k as int) =~= own);
        let end: u32 = self.keys.len() as u32;
        let ghost flat = self.flat();
        self.key_ranges.push(KeyRange { start, end });
        proof {
            assert(self.flat() =~= flat);
            let n = before.key_ranges.len() as int;
            assert forall|w: int| 0 <= w < n + 1 implies #[trigger] range_follows(
                self.key_ranges@,
                w,
            ) by {
                if w < n {
                    assert(range_follows(before.key_ranges@, w));
                } else if n > 0 {
                    assert(self.key_ranges@[n - 1] == before.key_ranges@.last());
                }
            }
        }
    }

    /// Lays out the collected keys: every word's keys in turn, every key's indices in turn.
    pub fn build(lists: &Vec<Vec<BuilderKey>>) -> (r: KeySegment)
        requires
            proper_keys(list_models(lists@)),
            no_empty_keys(list_models(lists@)),
            lists_total(list_models(lists@)) <= u32::MAX,
        ensures
            r.wf(),
            r.model() == list_models(lists@),
            contiguous(&r),
            forall|s: ShiftSeq| #[trigger]
                r.dense_shift_enc.sequences@.contains(s) <==> names_sequence(
                    list_models(lists@),
                    s,
                ),
    {
        let ghost models = list_models(lists@);
        let dense_shift_enc = encode_sequences(lists);
        let ghost sequences = dense_shift_enc.sequences@;
        let mut r = KeySegment {
            keys: Vec::new(),
            key_ranges: Vec::new(),
            constraint_indices: Vec::new(),
            dense_shift_enc,
        };
        let mut w: usize = 0;
        proof {
            assert(models.take(0) =~= Seq::<Seq<KeyModel>>::empty());
        }
        while w < lists.len()
            invariant
                w <= lists.len(),
                models == list_models(lists@),
                proper_keys(models),
                no_empty_keys(models),
                lists_total(models) <= u32::MAX,
                r.dense_shift_enc.sequences@ == sequences,
                forall|s: ShiftSeq| #[trigger]
                    sequences.contains(s) <==> names_sequence(models, s),
                r.keys_wf(),
                ranges_contiguous(r.key_ranges@, r.keys.len() as nat),
                r.key_ranges.len() == w,
                r.keys.len() <= r.constraint_indices.len(),
                r.constraint_indices.len() == lists_total(models.take(w as int)),
                forall|x: int|
                    0 <= x < w ==> (#[trigger] r.key_ranges[x]).start <= r.key_ranges[x].end
                        <= r.keys.len() && models[x] == r.flat().subrange(
                        r.key_ranges[x].start as int,
                        r.key_ranges[x].end as int,
                    ),
            decreases lists.len() - w,
        {
            let ghost before = r;
            proof {
                lemma_lists_total_prefix(models, w as int);
                assert forall|k: int| 0 <= k < lists[w as int].len() implies (
                #[trigger] lists[w as int][k]).shift_seq.wf() && sequences.contains(
                    lists[w as int][k].shift_seq,
                ) && lists[w as int][k].constraint_indices.len() > 0 by {
                    assert(models[w as int][k].shift_seq.wf());
                    assert(models[w as int][k].indices.len() > 0);
                    assert(names_sequence(models, lists[w as int][k].shift_seq));
                }
            }
            r.append_word(&lists[w]);
            proof {
                assert forall|x: int| 0 <= x < w + 1 implies (
                #[trigger] r.key_ranges[x]).start <= r.key_ranges[x].end <= r.keys.len()
                    && models[x] == r.flat().subrange(
                    r.key_ranges[x].start as int,
                    r.key_ranges[x].end as int,
                ) by {
                    let (s, e) = (r.key_ranges[x].start as int, r.key_ranges[x].end as int);
                    if x < w {
                        assert(before.key_ranges[x].end <= before.keys.len());
                        assert(r.flat().subrange(s, e) =~= before.flat().subrange(s, e));
                    } else {
                        assert(r.flat().subrange(s, e) =~= models[x]);
                    }
                }
            }
            w = w + 1;
        }
        proof {
            assert(models.take(w as int) =~= models);
            assert forall|x: int| 0 <= x < models.len() implies #[trigger] r.model()[x]
                == models[x] by {
                assert(r.key_ranges[x].start <= r.key_ranges[x].end);
                assert(r.word_model(x) =~= models[x]);
            }
            assert(r.model() =~= models);
        }
        r
    }
}

/// There are fewer sequences than places.
proof fn lemma_sequences_bound(sequences: Seq<ShiftSeq>)
    requires
        increasing(sequences),
    ensures
        sequences.len() <= 0x40000,
{
    if sequences.len() > 0 {
        lemma_place_at_least(sequences, sequences.len() - 1);
        assert(sequences[sequences.len() - 1].wf());
    }
}

proof fn lemma_place_at_least(sequences: Seq<ShiftSeq>, i: int)
    requires
        increasing(sequences),
        0 <= i < sequences.len(),
    ensures
        sequences[i].place() >= i,
    decreases i,
{
    if i > 0 {
        lemma_place_at_least(sequences, i - 1);
        assert(sequences[i - 1].place() < sequences[i].place());
    }
}

/// Walks a constraint system once and builds its keys.
///
/// The words counted as public make up the first segment, the rest the second.
pub fn build_key_collection(cs: &ConstraintSystem, inout: InoutSegment) -> (r: KeyCollection)
    requires
        cs.wf(),
        system_terms(cs).len() <= u32::MAX,
    ensures
        r.public.wf(),
        r.hidden.wf(),
        contiguous(&r.public),
        contiguous(&r.hidden),
        ({
            let models = recorded(
                Seq::new(cs.n_values() as nat, |w: int| Seq::<KeyModel>::empty()),
                system_terms(cs),
            );
            let m = cs.public_words(inout);
            &&& models.len() == cs.n_values()
            &&& r.public.model() == models.take(m)
            &&& r.hidden.model() == models.skip(m)
            &&& forall|s: ShiftSeq| #[trigger]
                r.public.dense_shift_enc.sequences@.contains(s) <==> names_sequence(
                    models.take(m),
                    s,
                )
            &&& forall|s: ShiftSeq| #[trigger]
                r.hidden.dense_shift_enc.sequences@.contains(s) <==> names_sequence(
                    models.skip(m),
                    s,
                )
        }),
{
    let n = cs.value_vec_len();
    let mut lists = BuilderKeyLists::new(n);
    let ghost empty = Seq::new(cs.n_values() as nat, |w: int| Seq::<KeyModel>::empty());
    let ghost t0 = operation_terms(cs, Operation::Zero, cs.zero_constraints@, 1);
    let ghost t1 = operation_terms(cs, Operation::BitwiseAnd, cs.and_constraints@, 3);
    let ghost t2 = operation_terms(cs, Operation::IntegerMul, cs.imul_constraints@, 4);
    let ghost t3 = operation_terms(cs, Operation::BinMul, cs.bmul_constraints@, 6);
    lists.update_with_constraints(Operation::Zero, ZERO_ARITY, &cs.zero_constraints, cs);
    lists.update_with_constraints(Operation::BitwiseAnd, BITAND_ARITY, &cs.and_constraints, cs);
    lists.update_with_constraints(Operation::IntegerMul, INTMUL_ARITY, &cs.imul_constraints, cs);
    lists.update_with_constraints(Operation::BinMul, BINMUL_ARITY, &cs.bmul_constraints, cs);
    proof {
        lemma_recorded_add(empty, t0, t1);
        lemma_recorded_add(empty, t0 + t1, t2);
        lemma_recorded_add(empty, t0 + t1 + t2, t3);
        lemma_operation_fits(cs, Operation::Zero, cs.zero_constraints@, 1, 1);
        lemma_operation_fits(cs, Operation::BitwiseAnd, cs.and_constraints@, 3, 3);
        lemma_operation_fits(cs, Operation::IntegerMul, cs.imul_constraints@, 4, 4);
        lemma_operation_fits(cs, Operation::BinMul, cs.bmul_constraints@, 6, 6);
        lemma_terms_fit_add(t0, t1, cs.n_values());
        lemma_terms_fit_add(t0 + t1, t2, cs.n_values());
        lemma_terms_fit_add(t0 + t1 + t2, t3, cs.n_values());
        lemma_recorded(empty, system_terms(cs));
        lemma_empty_total(empty);
    }
    let ghost models = lists.model();
    let m = cs.n_public_words(inout);
    let hidden_lists = lists.split_off(m);
    proof {
        lemma_lists_total_split(models, m as int);
        assert forall|w: int, k: int|
            0 <= w < models.take(m as int).len() && 0 <= k < models.take(m as int)[w].len() implies (
        #[trigger] models.take(m as int)[w][k]).indices.len() > 0 && models.take(
            m as int,
        )[w][k].shift_seq.wf() by {
            assert(models[w][k].indices.len() > 0);
        }
        assert forall|w: int, k: int|
            0 <= w < models.skip(m as int).len() && 0 <= k < models.skip(m as int)[w].len() implies (
        #[trigger] models.skip(m as int)[w][k]).indices.len() > 0 && models.skip(
            m as int,
        )[w][k].shift_seq.wf() by {
            assert(models[m + w][k].indices.len() > 0);
        }
    }
    let public = KeySegment::build(&lists.0);
    let hidden = KeySegment::build(&hidden_lists.0);
    KeyCollection { public, hidden }
}

/// Lists without keys hold nothing.
proof fn lemma_empty_total(lists: Seq<Seq<KeyModel>>)
    requires
        forall|w: int| 0 <= w < lists.len() ==> (#[trigger] lists[w]).len() == 0,
    ensures
        lists_total(lists) == 0,
    decreases lists.len(),
{
    if lists.len() > 0 {
        assert(lists[lists.len() - 1].len() == 0);
        lemma_empty_total(lists.drop_last());
    }
}

/// A key collects exactly the references of its kind and sequence to its word, in order.
pub proof fn key_collects_its_references(
    lists: Seq<Seq<KeyModel>>,
    terms: Seq<TermRef>,
    w: int,
    operation: Operation,
    shift_seq: ShiftSeq,
)
    requires
        forall|x: int| 0 <= x < lists.len() ==> (#[trigger] lists[x]).len() == 0,
        terms_fit(terms, lists.len() as int),
        0 <= w < lists.len(),
    ensures
        ({
            let keys = recorded(lists, terms)[w];
            let p = find_key(keys, operation, shift_seq);
            let own = references(terms, w, operation, shift_seq);
            &&& p < keys.len() <==> own.len() > 0
            &&& p < keys.len() ==> keys[p].indices == own
        }),
    decreases terms.len(),
{
    let keys = recorded(lists, terms)[w];
    if terms.len() > 0 {
        let rest = terms.drop_last();
        let t = terms.last();
        assert(terms[terms.len() - 1] == t);
        assert forall|i: int| 0 <= i < rest.len() implies 0 <= (#[trigger] rest[i]).word
            < lists.len() && rest[i].shift_seq.wf() by {
            assert(rest[i] == terms[i]);
        }
        key_collects_its_references(lists, rest, w, operation, shift_seq);
        lemma_recorded(lists, rest);
        let before = recorded(lists, rest);
        if t.word == w {
            let old_keys = before[w];
            let q = find_key(old_keys, t.operation, t.shift_seq);
            lemma_find_is_first(old_keys, t.operation, t.shift_seq);
            lemma_find_is_first(old_keys, operation, shift_seq);
            let p = find_key(old_keys, operation, shift_seq);
            if t.operation == operation && t.shift_seq == shift_seq {
                assert(p == q);
                lemma_find_key(keys, operation, shift_seq, p);
                if p == old_keys.len() {
                    assert(references(rest, w, operation, shift_seq).push(t.index) =~= seq![t.index]);
                }
            } else {
                assert(q != p || p == old_keys.len());
                if p < old_keys.len() {
                    lemma_find_key(keys, operation, shift_seq, p);
                } else {
                    assert forall|i: int| 0 <= i < keys.len() implies !collects(
                        #[trigger] keys[i],
                        operation,
                        shift_seq,
                    ) by {
                        if i < old_keys.len() {
                            assert(!collects(old_keys[i], operation, shift_seq));
                        }
                    }
                    lemma_find_key(keys, operation, shift_seq, keys.len() as int);
                }
            }
        }
    }
}

/// The indices of the references of one kind and sequence to one word, in order.
pub open spec fn references(
    terms: Seq<TermRef>,
    w: int,
    operation: Operation,
    shift_seq: ShiftSeq,
) -> Seq<ConstraintIndex>
    decreases terms.len(),
{
    if terms.len() == 0 {
        Seq::empty()
    } else {
        let before = references(terms.drop_last(), w, operation, shift_seq);
        let t = terms.last();
        if t.word == w && t.operation == operation && t.shift_seq == shift_seq {
            before.push(t.index)
        } else {
            before
        }
    }
}

/// The first key that collects such references is found.
pub proof fn lemma_find_is_first(keys: Seq<KeyModel>, operation: Operation, shift_seq: ShiftSeq)
    ensures
        ({
            let p = find_key(keys, operation, shift_seq);
            &&& 0 <= p <= keys.len()
            &&& forall|i: int| 0 <= i < p ==> !collects(#[trigger] keys[i], operation, shift_seq)
            &&& p < keys.len() ==> collects(keys[p], operation, shift_seq)
        }),
    decreases keys.len(),
{
    if keys.len() > 0 && !collects(keys[0], operation, shift_seq) {
        let rest = keys.skip(1);
        lemma_find_is_first(rest, operation, shift_seq);
        let p = find_key(keys, operation, shift_seq);
        assert forall|i: int| 0 <= i < p implies !collects(
            #[trigger] keys[i],
            operation,
            shift_seq,
        ) by {
            if i > 0 {
                assert(keys[i] == rest[i - 1]);
            }
        }
    }
}

} // verus!
