//! Constraint systems over shifted words.

use crate::bits::{bit64, lemma_bit64_shl, lemma_bit64_single, lemma_bit64_xor, lemma_bit64_zero};
use crate::word::Word;
use vstd::prelude::*;

verus! {

/// What a shift does to the bits of a word.
#[derive(Clone, Copy, Debug, PartialEq, Eq, Structural)]
pub enum ShiftVariant {
    /// Logical left shift.
    Sll,
    /// Logical right shift.
    Slr,
    /// Arithmetic right shift.
    Sar,
    /// Right rotation.
    Rotr,
    /// Logical left shift of each 32-bit half.
    Sll32,
    /// Logical right shift of each 32-bit half.
    Srl32,
    /// Arithmetic right shift of each 32-bit half.
    Sra32,
    /// Right rotation of each 32-bit half.
    Rotr32,
}

/// How bits move within a range of positions.
#[derive(Clone, Copy, Debug, PartialEq, Eq, Structural)]
pub enum Motion {
    /// Towards the high end, clearing the low end.
    Left,
    /// Towards the low end, clearing the high end.
    Right,
    /// Towards the low end, repeating the highest bit.
    Arithmetic,
    /// Towards the low end, wrapping around.
    Rotate,
}

impl ShiftVariant {
    /// The motion a variant applies.
    pub open spec fn motion(self) -> Motion {
        match self {
            ShiftVariant::Sll | ShiftVariant::Sll32 => Motion::Left,
            ShiftVariant::Slr | ShiftVariant::Srl32 => Motion::Right,
            ShiftVariant::Sar | ShiftVariant::Sra32 => Motion::Arithmetic,
            ShiftVariant::Rotr | ShiftVariant::Rotr32 => Motion::Rotate,
        }
    }

    /// The width of the ranges a variant moves bits within.
    pub open spec fn width(self) -> int {
        match self {
            ShiftVariant::Sll | ShiftVariant::Slr | ShiftVariant::Sar | ShiftVariant::Rotr => 64,
            _ => 32,
        }
    }

    /// The position of a variant among all of them.
    pub open spec fn position(self) -> int {
        match self {
            ShiftVariant::Sll => 0,
            ShiftVariant::Slr => 1,
            ShiftVariant::Sar => 2,
            ShiftVariant::Rotr => 3,
            ShiftVariant::Sll32 => 4,
            ShiftVariant::Srl32 => 5,
            ShiftVariant::Sra32 => 6,
            ShiftVariant::Rotr32 => 7,
        }
    }

    /// The variant at a position.
    pub open spec fn at(i: int) -> Self {
        if i == 0 {
            ShiftVariant::Sll
        } else if i == 1 {
            ShiftVariant::Slr
        } else if i == 2 {
            ShiftVariant::Sar
        } else if i == 3 {
            ShiftVariant::Rotr
        } else if i == 4 {
            ShiftVariant::Sll32
        } else if i == 5 {
            ShiftVariant::Srl32
        } else if i == 6 {
            ShiftVariant::Sra32
        } else {
            ShiftVariant::Rotr32
        }
    }

    /// The input bit that output bit `k` reads, or minus one where it reads none.
    pub open spec fn source(self, k: int, amount: int) -> int {
        let w = self.width();
        let s = local_source(self.motion(), w, k % w, amount % w);
        if s < 0 {
            -1
        } else {
            (k / w) * w + s
        }
    }

    /// The position of a variant among all of them.
    pub fn to_index(self) -> (r: usize)
        ensures
            r == self.position(),
            r < 8,
    {
        match self {
            ShiftVariant::Sll => 0,
            ShiftVariant::Slr => 1,
            ShiftVariant::Sar => 2,
            ShiftVariant::Rotr => 3,
            ShiftVariant::Sll32 => 4,
            ShiftVariant::Srl32 => 5,
            ShiftVariant::Sra32 => 6,
            ShiftVariant::Rotr32 => 7,
        }
    }

    /// The variant at a position.
    pub fn from_index(i: usize) -> (r: Self)
        requires
            i < 8,
        ensures
            r == Self::at(i as int),
            r.position() == i,
    {
        if i == 0 {
            ShiftVariant::Sll
        } else if i == 1 {
            ShiftVariant::Slr
        } else if i == 2 {
            ShiftVariant::Sar
        } else if i == 3 {
            ShiftVariant::Rotr
        } else if i == 4 {
            ShiftVariant::Sll32
        } else if i == 5 {
            ShiftVariant::Srl32
        } else if i == 6 {
            ShiftVariant::Sra32
        } else {
            ShiftVariant::Rotr32
        }
    }

    /// The motion and the range width of a variant.
    pub fn parts(self) -> (r: (Motion, usize))
        ensures
            r.0 == self.motion(),
            r.1 == self.width(),
    {
        match self {
            ShiftVariant::Sll => (Motion::Left, 64),
            ShiftVariant::Slr => (Motion::Right, 64),
            ShiftVariant::Sar => (Motion::Arithmetic, 64),
            ShiftVariant::Rotr => (Motion::Rotate, 64),
            ShiftVariant::Sll32 => (Motion::Left, 32),
            ShiftVariant::Srl32 => (Motion::Right, 32),
            ShiftVariant::Sra32 => (Motion::Arithmetic, 32),
            ShiftVariant::Rotr32 => (Motion::Rotate, 32),
        }
    }

    /// The input bit that output bit `k` reads.
    pub fn source_of(self, k: usize, amount: usize) -> (r: Option<usize>)
        requires
            k < 64,
        ensures
            match r {
                Some(x) => x == self.source(k as int, amount as int) && x < 64,
                None => self.source(k as int, amount as int) < 0,
            },
    {
        let (motion, w) = self.parts();
        let base: usize = (k / w) * w;
        match local_source_of(motion, w, k % w, amount % w) {
            Some(x) => Some(base + x),
            None => None,
        }
    }

    /// The word with its bits moved.
    pub fn apply(self, word: Word, amount: usize) -> (r: Word)
        ensures
            forall|k: int|
                0 <= k < 64 ==> #[trigger] r.bit(k) == word.bit(self.source(k, amount as int)),
    {
        let mut r: u64 = 0;
        let mut n: usize = 0;
        proof {
            assert forall|j: int| !#[trigger] bit64(0, j) by {
                lemma_bit64_zero(j);
            }
        }
        // The bits come in from the top, so bit 63 is read first.
        while n < 64
            invariant
                n <= 64,
                forall|j: int| #[trigger]
                    bit64(r, j) == (0 <= j < n && word.bit(
                        self.source(j + 64 - n, amount as int),
                    )),
            decreases 64 - n,
        {
            let k: usize = 63 - n;
            let source = self.source_of(k, amount);
            let bit: u64 = match source {
                Some(x) => (word.0 >> (x as u64)) & 1,
                None => 0,
            };
            let ghost before = r;
            r = (r << 1) ^ bit;
            proof {
                let src = self.source(k as int, amount as int);
                assert forall|j: int| #[trigger] bit64(bit, j) == (j == 0 && word.bit(src)) by {
                    if source is Some {
                        lemma_bit64_single(word.0, (source->0) as u64, j);
                    } else {
                        lemma_bit64_zero(j);
                    }
                }
                assert forall|j: int| #[trigger]
                    bit64(r, j) == (0 <= j < n + 1 && word.bit(
                        self.source(j + 63 - n, amount as int),
                    )) by {
                    lemma_bit64_xor(before << 1, bit, j);
                    lemma_bit64_shl(before, 1, j);
                    assert(bit64(before, j - 1) == (0 <= j - 1 < n && word.bit(
                        self.source(j - 1 + 64 - n, amount as int),
                    )));
                }
            }
            n = n + 1;
        }
        Word(r)
    }
}

/// The input position that output position `k` reads within a range, or minus one.
pub open spec fn local_source(motion: Motion, w: int, k: int, s: int) -> int {
    match motion {
        Motion::Left => if k >= s {
            k - s
        } else {
            -1
        },
        Motion::Right => if k + s < w {
            k + s
        } else {
            -1
        },
        Motion::Arithmetic => if k + s < w {
            k + s
        } else {
            w - 1
        },
        Motion::Rotate => if k + s < w {
            k + s
        } else {
            k + s - w
        },
    }
}

/// The input position that output position `k` reads within a range.
fn local_source_of(motion: Motion, w: usize, k: usize, s: usize) -> (r: Option<usize>)
    requires
        k < w,
        s < w,
        w <= 64,
    ensures
        match r {
            Some(x) => x == local_source(motion, w as int, k as int, s as int) && x < w,
            None => local_source(motion, w as int, k as int, s as int) < 0,
        },
{
    match motion {
        Motion::Left => if k >= s {
            Some(k - s)
        } else {
            None
        },
        Motion::Right => if k + s < w {
            Some(k + s)
        } else {
            None
        },
        Motion::Arithmetic => if k + s < w {
            Some(k + s)
        } else {
            Some(w - 1)
        },
        Motion::Rotate => if k + s < w {
            Some(k + s)
        } else {
            Some(k + s - w)
        },
    }
}

/// The number of shift variants.
pub const SHIFT_VARIANT_COUNT: usize = 8;

/// Base-2 logarithm of the number of spellings one shift has.
pub const LOG_SHIFT_COUNT: usize = 9;

/// The number of spellings one shift has: every variant at every amount.
pub const SHIFT_COUNT: usize = 512;

/// One shift: a variant and an amount.
#[derive(Clone, Copy, Debug, PartialEq, Eq, Structural)]
pub struct Shift {
    pub variant: ShiftVariant,
    pub amount: u8,
}

impl Shift {
    /// The shift's place among all spellings, variants most significant.
    pub open spec fn place(self) -> int {
        self.variant.position() * 64 + self.amount
    }

    /// The amount is an index of a bit.
    pub open spec fn wf(self) -> bool {
        self.amount < 64
    }

    /// The shift at a place.
    pub open spec fn at(i: int) -> Self {
        Shift { variant: ShiftVariant::at(i / 64), amount: (i % 64) as u8 }
    }

    /// The shift that moves nothing.
    pub fn identity() -> (r: Self)
        ensures
            r == (Shift { variant: ShiftVariant::Sll, amount: 0 }),
            r.place() == 0,
            r.wf(),
    {
        Shift { variant: ShiftVariant::Sll, amount: 0 }
    }

    /// A logical left shift.
    pub fn sll(amount: u8) -> (r: Self)
        ensures
            r == (Shift { variant: ShiftVariant::Sll, amount }),
    {
        Shift { variant: ShiftVariant::Sll, amount }
    }

    /// A logical right shift.
    pub fn srl(amount: u8) -> (r: Self)
        ensures
            r == (Shift { variant: ShiftVariant::Slr, amount }),
    {
        Shift { variant: ShiftVariant::Slr, amount }
    }

    /// An arithmetic right shift.
    pub fn sar(amount: u8) -> (r: Self)
        ensures
            r == (Shift { variant: ShiftVariant::Sar, amount }),
    {
        Shift { variant: ShiftVariant::Sar, amount }
    }

    /// A right rotation.
    pub fn rotr(amount: u8) -> (r: Self)
        ensures
            r == (Shift { variant: ShiftVariant::Rotr, amount }),
    {
        Shift { variant: ShiftVariant::Rotr, amount }
    }

    /// The shift's place among all spellings.
    pub fn index(self) -> (r: usize)
        ensures
            r == self.place(),
            self.wf() ==> r < 512,
    {
        self.variant.to_index() * 64 + self.amount as usize
    }

    /// The shift at a place.
    pub fn from_index(i: usize) -> (r: Self)
        requires
            i < 512,
        ensures
            r == Self::at(i as int),
            r.wf(),
            r.place() == i,
    {
        Shift { variant: ShiftVariant::from_index(i / 64), amount: (i % 64) as u8 }
    }
}

/// Different shifts have different places.
pub proof fn lemma_shift_place(a: Shift, b: Shift)
    requires
        a.wf(),
        b.wf(),
        a.place() == b.place(),
    ensures
        a == b,
{
    assert(a.variant.position() == b.variant.position());
    assert(a.variant == b.variant);
}

/// The part of the value vector a value lies in.
#[derive(Clone, Copy, Debug, PartialEq, Eq, Structural)]
pub enum ValueSegment {
    /// Constants.
    Constant,
    /// Public inputs and outputs.
    Inout,
    /// Private values.
    Private,
}

impl ValueSegment {
    /// The position of the segment among the three.
    pub open spec fn position(self) -> int {
        match self {
            ValueSegment::Constant => 0,
            ValueSegment::Inout => 1,
            ValueSegment::Private => 2,
        }
    }

    /// The position of the segment among the three.
    pub fn to_index(self) -> (r: usize)
        ensures
            r == self.position(),
            r < 3,
    {
        match self {
            ValueSegment::Constant => 0,
            ValueSegment::Inout => 1,
            ValueSegment::Private => 2,
        }
    }
}

/// A value named by its segment and its place there.
#[derive(Clone, Copy, Debug, PartialEq, Eq, Structural)]
pub struct ValueIndex {
    pub segment: ValueSegment,
    pub index: u32,
}

impl ValueIndex {
    /// A constant.
    pub fn constant(index: u32) -> (r: Self)
        ensures
            r == (ValueIndex { segment: ValueSegment::Constant, index }),
    {
        ValueIndex { segment: ValueSegment::Constant, index }
    }

    /// A public input or output.
    pub fn inout(index: u32) -> (r: Self)
        ensures
            r == (ValueIndex { segment: ValueSegment::Inout, index }),
    {
        ValueIndex { segment: ValueSegment::Inout, index }
    }

    /// A private value.
    pub fn private(index: u32) -> (r: Self)
        ensures
            r == (ValueIndex { segment: ValueSegment::Private, index }),
    {
        ValueIndex { segment: ValueSegment::Private, index }
    }
}

/// A value with two shifts applied in sequence, the inner one first.
#[derive(Clone, Copy, Debug, PartialEq, Eq, Structural)]
pub struct ShiftedValueIndex {
    pub value_index: ValueIndex,
    pub inner: Shift,
    pub outer: Shift,
}

impl ShiftedValueIndex {
    /// Both amounts are indices of bits.
    pub open spec fn wf(self) -> bool {
        self.inner.wf() && self.outer.wf()
    }

    /// The place of the shift sequence, the outer shift most significant.
    pub open spec fn seq_place(self) -> int {
        self.outer.place() * 512 + self.inner.place()
    }

    /// A value under a sequence of two shifts.
    pub fn new(value_index: ValueIndex, inner: Shift, outer: Shift) -> (r: Self)
        ensures
            r == (ShiftedValueIndex { value_index, inner, outer }),
    {
        ShiftedValueIndex { value_index, inner, outer }
    }

    /// A value under one shift.
    pub fn single(value_index: ValueIndex, inner: Shift) -> (r: Self)
        ensures
            r.value_index == value_index,
            r.inner == inner,
            r.outer.place() == 0,
            r.outer.wf(),
    {
        ShiftedValueIndex { value_index, inner, outer: Shift::identity() }
    }

    /// A value without a shift.
    pub fn plain(value_index: ValueIndex) -> (r: Self)
        ensures
            r.value_index == value_index,
            r.seq_place() == 0,
            r.wf(),
    {
        ShiftedValueIndex { value_index, inner: Shift::identity(), outer: Shift::identity() }
    }

    /// Whether the outer shift is not the identity.
    pub fn is_doubly_shifted(&self) -> (r: bool)
        ensures
            r == (self.outer != (Shift { variant: ShiftVariant::Sll, amount: 0 })),
    {
        self.outer != Shift::identity()
    }
}

/// Where the public inputs and outputs are counted.
#[derive(Clone, Copy, Debug, PartialEq, Eq, Structural)]
pub enum InoutSegment {
    /// With the constants.
    Public,
    /// With the private values.
    Hidden,
}

/// A system of constraints on a vector of words.
///
/// Each constraint holds one list of shifted values per operand; an operand is their exclusive-or.
pub struct ConstraintSystem {
    /// The constant words.
    pub constants: Vec<Word>,
    /// The number of public inputs and outputs.
    pub n_inout: usize,
    /// The number of private values.
    pub n_private: usize,
    /// `VAL == 0`, with one operand.
    pub zero_constraints: Vec<Vec<Vec<ShiftedValueIndex>>>,
    /// `A & B ^ C == 0`, with three operands.
    pub and_constraints: Vec<Vec<Vec<ShiftedValueIndex>>>,
    /// `A * B == (HI << 64) | LO`, with four operands.
    pub imul_constraints: Vec<Vec<Vec<ShiftedValueIndex>>>,
    /// `A * B == C` in the GHASH field, with six operands.
    pub bmul_constraints: Vec<Vec<Vec<ShiftedValueIndex>>>,
}

/// The number of operands of a ZERO constraint.
pub const ZERO_ARITY: usize = 1;

/// The number of operands of an AND constraint.
pub const BITAND_ARITY: usize = 3;

/// The number of operands of an IMUL constraint.
pub const INTMUL_ARITY: usize = 4;

/// The number of operands of a BMUL constraint.
pub const BINMUL_ARITY: usize = 6;

impl ConstraintSystem {
    /// The number of words in the value vector.
    pub open spec fn n_values(&self) -> int {
        self.constants.len() + self.n_inout + self.n_private
    }

    /// The place of a value in the value vector.
    pub open spec fn place(&self, v: ValueIndex) -> int {
        match v.segment {
            ValueSegment::Constant => v.index as int,
            ValueSegment::Inout => self.constants.len() + v.index,
            ValueSegment::Private => self.constants.len() + self.n_inout + v.index,
        }
    }

    /// Whether a value lies in its segment.
    pub open spec fn names(&self, v: ValueIndex) -> bool {
        match v.segment {
            ValueSegment::Constant => v.index < self.constants.len(),
            ValueSegment::Inout => v.index < self.n_inout,
            ValueSegment::Private => v.index < self.n_private,
        }
    }

    /// Every constraint has its operands, and every operand names values under proper shifts.
    pub open spec fn constraints_wf(
        &self,
        constraints: Seq<Vec<Vec<ShiftedValueIndex>>>,
        arity: int,
    ) -> bool {
        &&& constraints.len() <= u32::MAX
        &&& forall|i: int|
            0 <= i < constraints.len() ==> (#[trigger] constraints[i])@.len() == arity
        &&& forall|i: int, j: int, t: int|
            0 <= i < constraints.len() && 0 <= j < arity && 0 <= t < constraints[i]@[j]@.len()
                ==> self.names((#[trigger] constraints[i]@[j]@[t]).value_index)
                && constraints[i]@[j]@[t].wf()
    }

    /// The whole system is well formed.
    pub open spec fn wf(&self) -> bool {
        &&& self.n_values() <= isize::MAX
        &&& self.constraints_wf(self.zero_constraints@, 1)
        &&& self.constraints_wf(self.and_constraints@, 3)
        &&& self.constraints_wf(self.imul_constraints@, 4)
        &&& self.constraints_wf(self.bmul_constraints@, 6)
    }

    /// The number of words counted as public.
    pub open spec fn public_words(&self, inout: InoutSegment) -> int {
        match inout {
            InoutSegment::Public => self.constants.len() + self.n_inout,
            InoutSegment::Hidden => self.constants.len() as int,
        }
    }

    /// The number of words in the value vector.
    pub fn value_vec_len(&self) -> (r: usize)
        requires
            self.n_values() <= usize::MAX,
        ensures
            r == self.n_values(),
    {
        self.constants.len() + self.n_inout + self.n_private
    }

    /// The place of a value in the value vector.
    pub fn word_offset(&self, v: ValueIndex) -> (r: usize)
        requires
            self.n_values() <= usize::MAX,
            self.names(v),
        ensures
            r == self.place(v),
            r < self.n_values(),
    {
        match v.segment {
            ValueSegment::Constant => v.index as usize,
            ValueSegment::Inout => self.constants.len() + v.index as usize,
            ValueSegment::Private => self.constants.len() + self.n_inout + v.index as usize,
        }
    }

    /// The number of words counted as public.
    pub fn n_public_words(&self, inout: InoutSegment) -> (r: usize)
        requires
            self.n_values() <= usize::MAX,
        ensures
            r == self.public_words(inout),
            r <= self.n_values(),
    {
        match inout {
            InoutSegment::Public => self.constants.len() + self.n_inout,
            InoutSegment::Hidden => self.constants.len(),
        }
    }
}

} // verus!
