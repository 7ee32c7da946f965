//! Shift keys: where each word of the value vector is referenced, and under which shifts.

use crate::algebra::field::FieldOps;
use crate::algebra::sum::sum;
use crate::constraint_system::{Shift, lemma_shift_place};
use crate::math::index::{is_log2_ceil, log2_ceil_usize};
use crate::sumcheck::prover::copy_of;
use vstd::prelude::*;

verus! {

/// The constraint kind a key names.
#[derive(Clone, Copy, Debug, PartialEq, Eq, Structural)]
pub enum Operation {
    /// A single word equals zero.
    Zero,
    /// The bitwise AND of two words, XORed with a third, equals zero.
    BitwiseAnd,
    /// Two 64-bit words multiplied as integers equal a 128-bit product split across two words.
    IntegerMul,
    /// Two words multiplied in the GHASH field equal a third.
    BinMul,
}

impl Operation {
    /// The number of operands of the operation.
    pub open spec fn arity(self) -> nat {
        match self {
            Operation::Zero => 1,
            Operation::BitwiseAnd => 3,
            Operation::IntegerMul => 4,
            Operation::BinMul => 6,
        }
    }
}

/// Two shifts applied in sequence, the inner one first.
#[derive(Clone, Copy, Debug, PartialEq, Eq, Structural)]
pub struct ShiftSeq {
    pub inner: Shift,
    pub outer: Shift,
}

impl ShiftSeq {
    /// Both amounts are indices of bits.
    pub open spec fn wf(self) -> bool {
        self.inner.wf() && self.outer.wf()
    }

    /// The place of the sequence among all of them, the outer shift most significant.
    pub open spec fn place(self) -> int {
        self.outer.place() * 512 + self.inner.place()
    }

    /// The place of the sequence among all of them.
    pub fn index(self) -> (r: usize)
        requires
            self.wf(),
        ensures
            r == self.place(),
            r < 0x40000,
    {
        self.outer.index() * 512 + self.inner.index()
    }
}

/// Different sequences have different places.
pub proof fn lemma_seq_place(a: ShiftSeq, b: ShiftSeq)
    requires
        a.wf(),
        b.wf(),
        a.place() == b.place(),
    ensures
        a == b,
{
    assert(a.outer.place() == b.outer.place());
    lemma_shift_place(a.outer, b.outer);
    lemma_shift_place(a.inner, b.inner);
}

/// One operand slot of one constraint.
#[derive(Clone, Copy, Debug, PartialEq, Eq, Structural)]
pub struct ConstraintIndex {
    pub operand_index: u8,
    pub constraint_index: u32,
}

/// One word's references under one shift sequence in one kind of constraint.
#[derive(Clone, Copy, Debug, PartialEq, Eq, Structural)]
pub struct Key {
    /// The constraint kind.
    pub operation: Operation,
    /// The shift sequence, as an index into the segment's encoding.
    pub dense_shift_idx: u32,
    /// The first of the key's constraint indices.
    pub start: u32,
    /// One past the last of the key's constraint indices.
    pub end: u32,
}

/// What a key stands for.
pub struct KeyModel {
    pub shift_seq: ShiftSeq,
    pub operation: Operation,
    pub indices: Seq<ConstraintIndex>,
}

/// The combined weight of a list of constraint indices.
pub open spec fn indices_weight<F: FieldOps>(
    indices: Seq<ConstraintIndex>,
    tensor: Seq<F>,
    weights: Seq<F>,
) -> F {
    sum(
        indices.len() as int,
        |i: int|
            tensor[indices[i].constraint_index as int].times(
                weights[indices[i].operand_index as int],
            ),
    )
}

/// Every constraint index names an entry of both tables.
pub open spec fn indices_fit(
    indices: Seq<ConstraintIndex>,
    n_constraints: nat,
    n_operands: nat,
) -> bool {
    forall|i: int|
        0 <= i < indices.len() ==> (#[trigger] indices[i]).constraint_index < n_constraints
            && indices[i].operand_index < n_operands
}

impl Key {
    /// The weight of the key's constraint indices, unreduced.
    pub fn accumulate_wide<F: FieldOps>(
        &self,
        constraint_indices: &[ConstraintIndex],
        tensor: &[F],
        weights: &[F],
    ) -> (r: F::Wide)
        requires
            self.start <= self.end <= constraint_indices.len(),
            indices_fit(
                constraint_indices@.subrange(self.start as int, self.end as int),
                tensor.len() as nat,
                weights.len() as nat,
            ),
        ensures
            F::wide_value(r) == indices_weight(
                constraint_indices@.subrange(self.start as int, self.end as int),
                tensor@,
                weights@,
            ),
    {
        let ghost own = constraint_indices@.subrange(self.start as int, self.end as int);
        let ghost f = |i: int|
            tensor@[own[i].constraint_index as int].times(weights@[own[i].operand_index as int]);
        let mut r = F::wide_zero();
        let mut i: usize = self.start as usize;
        while i < self.end as usize
            invariant
                self.start <= i <= self.end <= constraint_indices.len(),
                own == constraint_indices@.subrange(self.start as int, self.end as int),
                indices_fit(own, tensor.len() as nat, weights.len() as nat),
                f == (|i: int|
                    tensor@[own[i].constraint_index as int].times(
                        weights@[own[i].operand_index as int],
                    )),
                F::wide_value(r) == sum(i - self.start, f),
            decreases self.end - i,
        {
            let index = constraint_indices[i];
            proof {
                assert(own[i - self.start] == index);
            }
            let term = F::wide_mul(
                tensor[index.constraint_index as usize],
                weights[index.operand_index as usize],
            );
            r = F::wide_add(r, term);
            i = i + 1;
        }
        r
    }

    /// The weight of the key's constraint indices.
    pub fn accumulate<F: FieldOps>(
        &self,
        constraint_indices: &[ConstraintIndex],
        tensor: &[F],
        weights: &[F],
    ) -> (r: F)
        requires
            self.start <= self.end <= constraint_indices.len(),
            indices_fit(
                constraint_indices@.subrange(self.start as int, self.end as int),
                tensor.len() as nat,
                weights.len() as nat,
            ),
        ensures
            r == indices_weight(
                constraint_indices@.subrange(self.start as int, self.end as int),
                tensor@,
                weights@,
            ),
    {
        F::reduce(self.accumulate_wide(constraint_indices, tensor, weights))
    }
}

/// The shift sequences a segment uses, each once, in increasing order of place.
#[derive(Debug)]
pub struct DenseShiftEncoding {
    pub sequences: Vec<ShiftSeq>,
}

/// The sequences are proper and in increasing order of place.
pub open spec fn increasing(sequences: Seq<ShiftSeq>) -> bool {
    &&& forall|i: int| 0 <= i < sequences.len() ==> (#[trigger] sequences[i]).wf()
    &&& forall|i: int, j: int|
        0 <= i < j < sequences.len() ==> (#[trigger] sequences[i]).place() < (
        #[trigger] sequences[j]).place()
}

impl DenseShiftEncoding {
    /// The number of sequences.
    pub fn len(&self) -> (r: usize)
        ensures
            r == self.sequences.len(),
    {
        self.sequences.len()
    }

    /// The sequences in order.
    pub fn iter(&self) -> (r: Vec<ShiftSeq>)
        ensures
            r@ == self.sequences@,
    {
        copy_of(&self.sequences)
    }

    /// The places of the sequences in order.
    pub fn shift_indices(&self) -> (r: Vec<usize>)
        requires
            increasing(self.sequences@),
        ensures
            r.len() == self.sequences.len(),
            forall|i: int| 0 <= i < r.len() ==> #[trigger] r[i] == self.sequences[i].place(),
            forall|i: int| 0 <= i < r.len() ==> #[trigger] r[i] < 0x40000,
    {
        let mut r: Vec<usize> = Vec::new();
        let mut i: usize = 0;
        while i < self.sequences.len()
            invariant
                i <= self.sequences.len(),
                increasing(self.sequences@),
                r.len() == i,
                forall|k: int| 0 <= k < i ==> #[trigger] r[k] == self.sequences[k].place(),
                forall|k: int| 0 <= k < i ==> #[trigger] r[k] < 0x40000,
            decreases self.sequences.len() - i,
        {
            assert(self.sequences[i as int].wf());
            r.push(self.sequences[i].index());
            i = i + 1;
        }
        r
    }

    /// Where a sequence stands, or where it would be inserted.
    pub(crate) fn position(&self, seq: ShiftSeq) -> (r: usize)
        requires
            increasing(self.sequences@),
            seq.wf(),
        ensures
            r <= self.sequences.len(),
            forall|i: int|
                0 <= i < r ==> (#[trigger] self.sequences[i]).place() < seq.place(),
            forall|i: int|
                r <= i < self.sequences.len() ==> (#[trigger] self.sequences[i]).place()
                    >= seq.place(),
            self.sequences@.contains(seq) ==> r < self.sequences.len() && self.sequences[r as int]
                == seq,
    {
        let place = seq.index();
        let mut lo: usize = 0;
        let mut hi: usize = self.sequences.len();
        while lo < hi
            invariant
                lo <= hi <= self.sequences.len(),
                place == seq.place(),
                increasing(self.sequences@),
                forall|i: int|
                    0 <= i < lo ==> (#[trigger] self.sequences[i]).place() < seq.place(),
                forall|i: int|
                    hi <= i < self.sequences.len() ==> (#[trigger] self.sequences[i]).place()
                        >= seq.place(),
            decreases hi - lo,
        {
            let mid: usize = lo + (hi - lo) / 2;
            assert(self.sequences[mid as int].wf());
            if self.sequences[mid].index() < place {
                lo = mid + 1;
            } else {
                hi = mid;
            }
        }
        proof {
            if self.sequences@.contains(seq) {
                let i = choose|i: int| 0 <= i < self.sequences.len() && self.sequences@[i] == seq;
                assert(self.sequences[i] == seq);
                if i > lo {
                    assert(self.sequences[lo as int].place() >= seq.place());
                }
            }
        }
        lo
    }

    /// Adds a sequence unless it is there.
    pub(crate) fn insert(&mut self, seq: ShiftSeq)
        requires
            increasing(old(self).sequences@),
            seq.wf(),
        ensures
            increasing(final(self).sequences@),
            forall|s: ShiftSeq| #[trigger]
                final(self).sequences@.contains(s) <==> old(self).sequences@.contains(s) || s == seq,
            final(self).sequences.len() <= old(self).sequences.len() + 1,
    {
        let p = self.position(seq);
        let ghost before = self.sequences@;
        if p < self.sequences.len() && self.sequences[p] == seq {
            return;
        }
        proof {
            if p < before.len() {
                if before[p as int].place() == seq.place() {
                    assert(before[p as int].wf());
                    lemma_seq_place(before[p as int], seq);
                }
            }
        }
        self.sequences.insert(p, seq);
        proof {
            let after = self.sequences@;
            assert(after =~= before.insert(p as int, seq));
            assert forall|i: int, j: int| 0 <= i < j < after.len() implies (
            #[trigger] after[i]).place() < (#[trigger] after[j]).place() by {
                if i == p {
                    assert(after[j] == before[j - 1]);
                    if j - 1 > p {
                        assert(before[p as int].place() < before[j - 1].place());
                    }
                }
            }
            assert forall|s: ShiftSeq| #[trigger] after.contains(s) <==> before.contains(s) || s
                == seq by {
                if before.contains(s) {
                    let i = choose|i: int| 0 <= i < before.len() && before[i] == s;
                    if i < p {
                        assert(after[i] == s);
                    } else {
                        assert(after[i + 1] == s);
                    }
                }
                if s == seq {
                    assert(after[p as int] == s);
                }
                if after.contains(s) {
                    let i = choose|i: int| 0 <= i < after.len() && after[i] == s;
                    if i < p {
                        assert(before[i] == s);
                    } else if i > p {
                        assert(before[i - 1] == s);
                    }
                }
            }
        }
    }
}

/// A range of a segment's keys.
#[derive(Clone, Copy, Debug, PartialEq, Eq, Structural)]
pub struct KeyRange {
    pub start: u32,
    pub end: u32,
}

/// The keys of one part of the value vector.
#[derive(Debug)]
pub struct KeySegment {
    /// Every word's keys, one word after the other.
    pub keys: Vec<Key>,
    /// Each word's range of keys.
    pub key_ranges: Vec<KeyRange>,
    /// Every key's constraint indices, one key after the other.
    pub constraint_indices: Vec<ConstraintIndex>,
    /// The shift sequences the keys name.
    pub dense_shift_enc: DenseShiftEncoding,
}

impl KeySegment {
    /// Ranges lie within their lists, and keys within the encoding.
    pub open spec fn wf(&self) -> bool {
        &&& increasing(self.dense_shift_enc.sequences@)
        &&& forall|w: int|
            0 <= w < self.key_ranges.len() ==> (#[trigger] self.key_ranges[w]).start
                <= self.key_ranges[w].end <= self.keys.len()
        &&& forall|k: int|
            0 <= k < self.keys.len() ==> (#[trigger] self.keys[k]).start <= self.keys[k].end
                <= self.constraint_indices.len() && self.keys[k].dense_shift_idx
                < self.dense_shift_enc.sequences.len()
    }

    /// What key `k` of the whole list stands for.
    pub open spec fn key_model(&self, k: int) -> KeyModel {
        let key = self.keys[k];
        KeyModel {
            shift_seq: self.dense_shift_enc.sequences[key.dense_shift_idx as int],
            operation: key.operation,
            indices: self.constraint_indices@.subrange(key.start as int, key.end as int),
        }
    }

    /// What a word's keys stand for.
    pub open spec fn word_model(&self, w: int) -> Seq<KeyModel> {
        let range = self.key_ranges[w];
        Seq::new((range.end - range.start) as nat, |k: int| self.key_model(range.start + k))
    }

    /// What every word's keys stand for.
    pub open spec fn model(&self) -> Seq<Seq<KeyModel>> {
        Seq::new(self.key_ranges.len() as nat, |w: int| self.word_model(w))
    }

    /// The number of words.
    pub fn n_words(&self) -> (r: usize)
        ensures
            r == self.key_ranges.len(),
    {
        self.key_ranges.len()
    }

    /// A word's keys.
    pub fn word_keys(&self, w: usize) -> (r: Vec<Key>)
        requires
            self.wf(),
            w < self.key_ranges.len(),
        ensures
            r@ == self.keys@.subrange(
                self.key_ranges[w as int].start as int,
                self.key_ranges[w as int].end as int,
            ),
    {
        let range = self.key_ranges[w];
        let ghost own = self.keys@.subrange(range.start as int, range.end as int);
        let mut r: Vec<Key> = Vec::new();
        let mut k: usize = range.start as usize;
        while k < range.end as usize
            invariant
                range.start <= k <= range.end <= self.keys.len(),
                r.len() == k - range.start,
                forall|i: int| 0 <= i < r.len() ==> #[trigger] r[i] == self.keys[range.start + i],
            decreases range.end - k,
        {
            r.push(self.keys[k]);
            k = k + 1;
        }
        assert(r@ =~= own);
        r
    }
}

/// The prover's view of a constraint system's shift keys, split by part of the value vector.
///
/// Word indices inside each segment are relative to that segment's own start.
#[derive(Debug)]
pub struct KeyCollection {
    /// The keys of the public words.
    pub public: KeySegment,
    /// The keys of the hidden words.
    pub hidden: KeySegment,
}

impl KeyCollection {
    /// The base-2 logarithm of the hidden segment's length, rounded up.
    pub fn log_witness_words(&self) -> (r: usize)
        ensures
            is_log2_ceil(self.hidden.key_ranges.len() as nat, r as nat),
    {
        log2_ceil_usize(self.hidden.n_words())
    }
}

} // verus!
