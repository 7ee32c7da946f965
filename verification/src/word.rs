//! 64-bit words.

use crate::bits::{bit64, lemma_bit64_and, lemma_bit64_zero};
use vstd::prelude::*;

verus! {

/// A 64-bit word, the unit a circuit computes on.
#[derive(Clone, Copy, Debug, PartialEq, Eq, Structural)]
pub struct Word(pub u64);

/// Number of bits in a word.
pub const WORD_BITS: usize = 64;

impl Word {
    /// Whether bit `i` is set; positions outside the word read as clear.
    pub open spec fn bit(self, i: int) -> bool {
        bit64(self.0, i)
    }

    /// The word with the given bits.
    pub fn from_u64(value: u64) -> (r: Self)
        ensures
            r.0 == value,
    {
        Word(value)
    }

    /// The word's bits as an integer.
    pub fn as_u64(self) -> (r: u64)
        ensures
            r == self.0,
    {
        self.0
    }

    /// The word with no bit set.
    pub fn zero() -> (r: Self)
        ensures
            r == Word(0),
    {
        Word(0)
    }

    /// The bitwise conjunction.
    pub fn and(self, other: Self) -> (r: Self)
        ensures
            r.0 == self.0 & other.0,
            forall|i: int| #[trigger] r.bit(i) == (self.bit(i) && other.bit(i)),
    {
        proof {
            assert forall|i: int| #[trigger] bit64(self.0 & other.0, i) == (bit64(self.0, i)
                && bit64(other.0, i)) by {
                lemma_bit64_and(self.0, other.0, i);
            }
        }
        Word(self.0 & other.0)
    }
}

/// The zero word has no bit set.
pub proof fn lemma_zero_word(i: int)
    ensures
        !Word(0).bit(i),
{
    lemma_bit64_zero(i);
}

} // verus!
