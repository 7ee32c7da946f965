//! A dry run of a verifier that records the shape of every oracle it receives.

use core::marker::PhantomData;
use crate::algebra::field::{Field, FieldOps};
use crate::algebra::group::AdditiveGroup;
use crate::math::index::{div_up, lemma_split_index};
use crate::math::ntt::TraceOneElement;
use crate::sumcheck::channel::ChannelError;
use crate::word::{WORD_BITS, Word};
use vstd::prelude::*;

verus! {

/// The shape of one oracle.
#[derive(Clone, Copy, Debug, PartialEq, Eq, Structural)]
pub struct OracleSpec {
    /// Base-2 logarithm of the message length.
    pub log_msg_len: usize,
    /// Whether the oracle hides its message.
    pub is_zk: bool,
}

/// A stand-in for a field element whose value nobody looks at.
///
/// The dry run only follows the structure of a protocol, so all its elements are one and the same
/// and their arithmetic does nothing.
#[derive(Debug)]
pub struct DummyElem<F>(pub PhantomData<F>);

impl<F> Clone for DummyElem<F> {
    fn clone(&self) -> (r: Self)
        ensures
            r == *self,
    {
        DummyElem(PhantomData)
    }
}

impl<F> Copy for DummyElem<F> {

}

/// There is only one dummy element.
pub proof fn dummies_are_equal<F>(a: DummyElem<F>, b: DummyElem<F>)
    ensures
        a == b,
{
}

impl<F> AdditiveGroup for DummyElem<F> {
    open spec fn nil() -> Self {
        DummyElem(PhantomData)
    }

    open spec fn plus(self, rhs: Self) -> Self {
        self
    }

    proof fn plus_comm(a: Self, b: Self) {
    }

    proof fn plus_assoc(a: Self, b: Self, c: Self) {
    }

    proof fn plus_nil(a: Self) {
    }

    proof fn plus_self(a: Self) {
    }
}

impl<F> FieldOps for DummyElem<F> {
    type Wide = DummyElem<F>;

    open spec fn unit() -> Self {
        DummyElem(PhantomData)
    }

    open spec fn times(self, rhs: Self) -> Self {
        self
    }

    open spec fn wide_value(w: Self::Wide) -> Self {
        w
    }

    proof fn times_comm(a: Self, b: Self) {
    }

    proof fn times_assoc(a: Self, b: Self, c: Self) {
    }

    proof fn times_unit(a: Self) {
    }

    proof fn times_plus(a: Self, b: Self, c: Self) {
    }

    fn zero() -> (r: Self) {
        DummyElem(PhantomData)
    }

    fn one() -> (r: Self) {
        DummyElem(PhantomData)
    }

    fn add(self, _rhs: Self) -> (r: Self) {
        self
    }

    fn mul(self, _rhs: Self) -> (r: Self) {
        self
    }

    fn square(self) -> (r: Self) {
        self
    }

    fn wide_zero() -> (w: Self::Wide) {
        DummyElem(PhantomData)
    }

    fn wide_mul(a: Self, _b: Self) -> (w: Self::Wide) {
        a
    }

    fn wide_add(x: Self::Wide, _y: Self::Wide) -> (w: Self::Wide) {
        x
    }

    fn reduce(w: Self::Wide) -> (r: Self) {
        w
    }
}

impl<F> Field for DummyElem<F> {
    open spec fn inverse(self) -> Self {
        self
    }

    fn invert_or_zero(self) -> (r: Self) {
        self
    }
}

/// A list of dummy elements.
fn dummies<F>(n: usize) -> (r: Vec<DummyElem<F>>)
    ensures
        r.len() == n,
{
    let mut r: Vec<DummyElem<F>> = Vec::new();
    let mut i: usize = 0;
    while i < n
        invariant
            i <= n,
            r.len() == i,
        decreases n - i,
    {
        r.push(DummyElem(PhantomData));
        i = i + 1;
    }
    r
}

/// A verifier's channel that records the shape of each received oracle and checks nothing.
///
/// What it receives and samples is a dummy, what it observes is dropped, and every assertion
/// passes. Drive a verifier with it and read the shapes off afterwards.
#[derive(Debug)]
pub struct OracleSetupChannel {
    /// Whether the protocol is zero-knowledge.
    pub is_zk: bool,
    /// The shapes recorded so far.
    pub oracle_specs: Vec<OracleSpec>,
}

impl OracleSetupChannel {
    /// A channel that has received nothing.
    pub fn new(is_zk: bool) -> (r: Self)
        ensures
            r.is_zk == is_zk,
            r.oracle_specs@ == Seq::<OracleSpec>::empty(),
    {
        OracleSetupChannel { is_zk, oracle_specs: Vec::new() }
    }

    /// The shapes recorded so far.
    pub fn oracle_specs(&self) -> (r: &[OracleSpec])
        ensures
            r@ == self.oracle_specs@,
    {
        self.oracle_specs.as_slice()
    }

    /// The recorded shapes, in the order received.
    pub fn into_oracle_specs(self) -> (r: Vec<OracleSpec>)
        ensures
            r@ == self.oracle_specs@,
    {
        self.oracle_specs
    }

    /// Receives one element.
    pub fn recv_one<F>(&mut self) -> (r: Result<DummyElem<F>, ChannelError>)
        ensures
            r is Ok,
            *final(self) == *old(self),
    {
        Ok(DummyElem(PhantomData))
    }

    /// Receives several elements.
    pub fn recv_many<F>(&mut self, n: usize) -> (r: Result<Vec<DummyElem<F>>, ChannelError>)
        ensures
            r matches Ok(v) && v.len() == n,
            *final(self) == *old(self),
    {
        Ok(dummies(n))
    }

    /// Receives an array of elements.
    pub fn recv_array<F, const N: usize>(&mut self) -> (r: Result<[DummyElem<F>; N], ChannelError>)
        ensures
            r is Ok,
            *final(self) == *old(self),
    {
        Ok([DummyElem(PhantomData);N])
    }

    /// Samples a challenge.
    pub fn sample<F>(&mut self) -> (r: DummyElem<F>)
        ensures
            *final(self) == *old(self),
    {
        DummyElem(PhantomData)
    }

    /// Observes one value.
    pub fn observe_one<F>(&mut self, _val: F) -> (r: DummyElem<F>)
        ensures
            *final(self) == *old(self),
    {
        DummyElem(PhantomData)
    }

    /// Observes several values.
    pub fn observe_many<F>(&mut self, vals: &[F]) -> (r: Vec<DummyElem<F>>)
        ensures
            r.len() == vals.len(),
            *final(self) == *old(self),
    {
        dummies(vals.len())
    }

    /// Asserts that an element is zero.
    pub fn assert_zero<F>(&mut self, _val: DummyElem<F>) -> (r: Result<(), ChannelError>)
        ensures
            r is Ok,
            *final(self) == *old(self),
    {
        Ok(())
    }

    /// Observes words: nothing reaches a challenger, so they come back as they are.
    pub fn observe_words(&mut self, words: &[Word]) -> (r: Vec<Word>)
        ensures
            r@ == words@,
            *final(self) == *old(self),
    {
        let mut r: Vec<Word> = Vec::new();
        let mut i: usize = 0;
        while i < words.len()
            invariant
                i <= words.len(),
                r@ == words@.take(i as int),
                *self == *old(self),
            decreases words.len() - i,
        {
            r.push(words[i]);
            assert(words@.take(i + 1) =~= words@.take(i as int).push(words@[i as int]));
            i = i + 1;
        }
        assert(words@.take(i as int) =~= words@);
        r
    }

    /// Adds the elements a word's bits select.
    pub fn subset_sum<F>(&mut self, _elems: &[DummyElem<F>], _word: &Word) -> (r: DummyElem<F>)
        ensures
            *final(self) == *old(self),
    {
        DummyElem(PhantomData)
    }

    /// Picks the element a word indexes.
    pub fn select<F>(&mut self, _elems: &[DummyElem<F>], _word: &Word) -> (r: DummyElem<F>)
        ensures
            *final(self) == *old(self),
    {
        DummyElem(PhantomData)
    }

    /// Samples an index: the recorded shapes do not depend on which one.
    pub fn sample_bits(&mut self, _bits: usize) -> (r: Word)
        ensures
            r == Word(0),
            *final(self) == *old(self),
    {
        Word::zero()
    }

    /// Packs words into elements: only their number matters.
    pub fn pack_words<F: TraceOneElement>(&mut self, words: &[Word]) -> (r: Vec<DummyElem<F>>)
        requires
            F::N_BITS >= WORD_BITS,
        ensures
            r.len() == div_up(words.len() as int, F::N_BITS as int / WORD_BITS as int),
            *final(self) == *old(self),
    {
        let words_per_elem: usize = F::N_BITS / WORD_BITS;
        let full: usize = words.len() / words_per_elem;
        proof {
            lemma_split_index(words.len() as int, words_per_elem as int);
        }
        if words.len() % words_per_elem == 0 {
            dummies(full)
        } else {
            proof {
                assert(full < words.len()) by (nonlinear_arith)
                    requires
                        words.len() == full * words_per_elem + words.len() % words_per_elem,
                        words.len() % words_per_elem > 0,
                        words_per_elem >= 1,
                        full >= 0,
                ;
            }
            dummies(full + 1)
        }
    }

    /// The shapes still to come: a setup channel knows none in advance.
    pub fn remaining_oracle_specs(&self) -> (r: Vec<OracleSpec>)
        ensures
            r@ == Seq::<OracleSpec>::empty(),
    {
        Vec::new()
    }

    /// Receives an oracle: its shape is recorded.
    ///
    /// An oracle hides its message when the protocol does and the message depends on the witness.
    pub fn recv_oracle(&mut self, log_msg_len: usize, is_witness_dependent: bool) -> (r: Result<
        (),
        ChannelError,
    >)
        ensures
            r is Ok,
            final(self).is_zk == old(self).is_zk,
            final(self).oracle_specs@ == old(self).oracle_specs@.push(
                OracleSpec { log_msg_len, is_zk: old(self).is_zk && is_witness_dependent },
            ),
    {
        self.oracle_specs.push(
            OracleSpec { log_msg_len, is_zk: self.is_zk && is_witness_dependent },
        );
        Ok(())
    }

    /// Checks a relation on an oracle.
    pub fn verify_oracle_relation<F, T>(
        &mut self,
        _oracle: (),
        _transparent: T,
        _claim: DummyElem<F>,
    ) -> (r: Result<(), ChannelError>)
        ensures
            r is Ok,
            *final(self) == *old(self),
    {
        Ok(())
    }
}

impl Default for OracleSetupChannel {
    fn default() -> (r: Self)
        ensures
            !r.is_zk,
            r.oracle_specs@ == Seq::<OracleSpec>::empty(),
    {
        OracleSetupChannel::new(false)
    }
}

} // verus!
