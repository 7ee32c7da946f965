//! Circuits that verify signatures, inline or through a chip.

use crate::frontend::wire_set::Wire;
use crate::word::Word;
use vstd::prelude::*;

verus! {

/// A signature check that a circuit states, over its words in order.
#[derive(Debug)]
pub struct Verification {
    /// The signer after whom the part of the circuit is named, where it has a name.
    pub signer: Option<usize>,
    pub words: Vec<Wire>,
}

/// A chip that a system registers for the gadgets inside it.
#[derive(Clone, Copy, Debug, PartialEq, Eq, Structural)]
pub enum RegisteredChip {
    /// Two BLAKE3 compressions side by side.
    Blake3Compress2x,
}

/// A system of its own that a circuit can embed: one signature check over public words.
#[derive(Debug)]
pub struct Chip {
    /// The words a caller passes, in order.
    pub inout: Vec<Wire>,
    /// The check over the chip's own words.
    pub verification: Verification,
    /// The chips that the check itself calls.
    pub registered: Vec<RegisteredChip>,
}

/// A chip among those of a circuit.
#[derive(Debug)]
pub enum EmbeddedChip {
    /// A chip that the circuit calls.
    Main(Chip),
    /// A chip that another one brought in and calls.
    Nested { chip: RegisteredChip, caller: usize },
}

/// The chips that embedding one brings in: itself, and those it calls.
pub open spec fn brought_in(chip: Chip, at: int) -> Seq<EmbeddedChip> {
    seq![EmbeddedChip::Main(chip)] + Seq::new(
        chip.registered.len() as nat,
        |k: int| EmbeddedChip::Nested { chip: chip.registered[k], caller: at as usize },
    )
}

/// A call of a chip.
#[derive(Debug)]
pub struct ChipCall {
    pub chip: usize,
    pub words: Vec<Wire>,
}

/// Collects the wires and statements of a circuit.
#[derive(Debug)]
pub struct CircuitBuilder {
    /// The number of wires.
    pub n_wires: u32,
    /// The public words, in order.
    pub inout: Vec<Wire>,
    /// The private words, in order.
    pub witness: Vec<Wire>,
    /// The checks stated inline.
    pub verifications: Vec<Verification>,
    /// The chips embedded.
    pub chips: Vec<EmbeddedChip>,
    /// The calls of chips.
    pub calls: Vec<ChipCall>,
    /// The chips registered for the gadgets inside.
    pub registered: Vec<RegisteredChip>,
}

/// The values on a list of wires.
pub open spec fn values_of(wires: Seq<Wire>, vals: spec_fn(Wire) -> Word) -> Seq<Word> {
    Seq::new(wires.len(), |i: int| vals(wires[i]))
}

/// Whether a chip accepts operands: some values on its wires carry the operands on its public words
/// and satisfy its check.
pub open spec fn chip_accepts(
    chip: &Chip,
    operands: Seq<Word>,
    valid: spec_fn(Seq<Word>) -> bool,
) -> bool {
    exists|inner: spec_fn(Wire) -> Word|
        #![trigger values_of(chip.inout@, inner)]
        values_of(chip.inout@, inner) == operands && valid(
            values_of(chip.verification.words@, inner),
        )
}

/// Whether an embedded chip accepts operands; only those that a circuit calls take any.
pub open spec fn embedded_accepts(
    embedded: &EmbeddedChip,
    operands: Seq<Word>,
    valid: spec_fn(Seq<Word>) -> bool,
) -> bool {
    match embedded {
        EmbeddedChip::Main(chip) => chip_accepts(chip, operands, valid),
        EmbeddedChip::Nested { .. } => false,
    }
}

impl CircuitBuilder {
    /// Calls name chips that are there and take them.
    pub open spec fn wf(&self) -> bool {
        forall|c: int|
            0 <= c < self.calls.len() ==> (#[trigger] self.calls[c]).chip < self.chips.len()
                && self.chips[self.calls[c].chip as int] is Main
    }

    /// Whether values on the wires satisfy the circuit, for a notion of a valid signature.
    pub open spec fn holds(
        &self,
        valid: spec_fn(Seq<Word>) -> bool,
        vals: spec_fn(Wire) -> Word,
    ) -> bool {
        &&& forall|v: int|
            0 <= v < self.verifications.len() ==> valid(
                values_of((#[trigger] self.verifications[v]).words@, vals),
            )
        &&& forall|c: int|
            0 <= c < self.calls.len() ==> embedded_accepts(
                &self.chips[(#[trigger] self.calls[c]).chip as int],
                values_of(self.calls[c].words@, vals),
                valid,
            )
    }

    /// An empty circuit.
    pub fn new() -> (r: Self)
        ensures
            r.wf(),
            r.n_wires == 0,
            r.inout.len() == 0,
            r.witness.len() == 0,
            r.verifications.len() == 0,
            r.chips.len() == 0,
            r.calls.len() == 0,
            r.registered.len() == 0,
    {
        CircuitBuilder {
            n_wires: 0,
            inout: Vec::new(),
            witness: Vec::new(),
            verifications: Vec::new(),
            chips: Vec::new(),
            calls: Vec::new(),
            registered: Vec::new(),
        }
    }

    /// Whether the wires were added to a circuit and nothing else.
    pub open spec fn grown_by(&self, before: &Self, n: int) -> bool {
        &&& self.n_wires == before.n_wires + n
        &&& self.verifications == before.verifications
        &&& self.chips == before.chips
        &&& self.calls == before.calls
        &&& self.registered == before.registered
    }

    /// Adds public or private words.
    pub fn add_words(&mut self, n: usize, public: bool) -> (r: Vec<Wire>)
        requires
            old(self).n_wires + n <= u32::MAX,
        ensures
            final(self).grown_by(old(self), n as int),
            r@ == wire_range(old(self).n_wires as int, n as int),
            final(self).inout@ == if public {
                old(self).inout@ + r@
            } else {
                old(self).inout@
            },
            final(self).witness@ == if public {
                old(self).witness@
            } else {
                old(self).witness@ + r@
            },
    {
        let ghost first = self.n_wires;
        let ghost inout = self.inout@;
        let ghost witness = self.witness@;
        let mut r: Vec<Wire> = Vec::new();
        let mut i: usize = 0;
        assert(inout + r@ =~= inout);
        assert(witness + r@ =~= witness);
        while i < n
            invariant
                i <= n,
                first + n <= u32::MAX,
                self.n_wires == first + i,
                self.verifications == old(self).verifications,
                self.chips == old(self).chips,
                self.calls == old(self).calls,
                self.registered == old(self).registered,
                r@ == wire_range(first as int, i as int),
                self.inout@ == if public {
                    inout + r@
                } else {
                    inout
                },
                self.witness@ == if public {
                    witness
                } else {
                    witness + r@
                },
            decreases n - i,
        {
            let wire = Wire(self.n_wires);
            let ghost before = r@;
            r.push(wire);
            if public {
                self.inout.push(wire);
            } else {
                self.witness.push(wire);
            }
            proof {
                assert(r@ =~= wire_range(first as int, i + 1));
                assert((inout + before).push(wire) =~= inout + r@);
                assert((witness + before).push(wire) =~= witness + r@);
            }
            self.n_wires = self.n_wires + 1;
            i = i + 1;
        }
        r
    }

    /// States a check inline, in the part of the circuit named after a signer.
    pub fn verify_signature(&mut self, signer: usize, words: Vec<Wire>)
        ensures
            final(self).n_wires == old(self).n_wires,
            final(self).inout == old(self).inout,
            final(self).witness == old(self).witness,
            final(self).chips == old(self).chips,
            final(self).calls == old(self).calls,
            final(self).registered == old(self).registered,
            final(self).verifications@ == old(self).verifications@.push(
                Verification { signer: Some(signer), words },
            ),
    {
        self.verifications.push(Verification { signer: Some(signer), words });
    }

    /// Registers a chip for the gadgets inside.
    pub fn register_chip(&mut self, chip: RegisteredChip)
        ensures
            final(self).n_wires == old(self).n_wires,
            final(self).inout == old(self).inout,
            final(self).witness == old(self).witness,
            final(self).verifications == old(self).verifications,
            final(self).chips == old(self).chips,
            final(self).calls == old(self).calls,
            final(self).registered@ == old(self).registered@.push(chip),
    {
        self.registered.push(chip);
    }

    /// Embeds a chip, with the chips that it calls.
    pub fn add_chip(&mut self, chip: Chip) -> (r: usize)
        ensures
            r == old(self).chips.len(),
            final(self).n_wires == old(self).n_wires,
            final(self).inout == old(self).inout,
            final(self).witness == old(self).witness,
            final(self).verifications == old(self).verifications,
            final(self).calls == old(self).calls,
            final(self).registered == old(self).registered,
            final(self).chips@ == old(self).chips@ + brought_in(chip, r as int),
    {
        let at: usize = self.chips.len();
        let ghost whole = chip;
        let ghost before = self.chips@;
        let mut nested: Vec<RegisteredChip> = Vec::new();
        let mut k: usize = 0;
        while k < chip.registered.len()
            invariant
                k <= chip.registered.len(),
                nested@ == chip.registered@.take(k as int),
            decreases chip.registered.len() - k,
        {
            nested.push(chip.registered[k]);
            assert(nested@ =~= chip.registered@.take(k + 1));
            k = k + 1;
        }
        assert(nested@ =~= chip.registered@);
        self.chips.push(EmbeddedChip::Main(chip));
        let mut j: usize = 0;
        assert(self.chips@ =~= before + brought_in(whole, at as int).take(1));
        while j < nested.len()
            invariant
                j <= nested.len(),
                nested@ == whole.registered@,
                self.n_wires == old(self).n_wires,
                self.inout == old(self).inout,
                self.witness == old(self).witness,
                self.verifications == old(self).verifications,
                self.calls == old(self).calls,
                self.registered == old(self).registered,
                self.chips@ == before + brought_in(whole, at as int).take(j + 1),
            decreases nested.len() - j,
        {
            self.chips.push(EmbeddedChip::Nested { chip: nested[j], caller: at });
            assert(self.chips@ =~= before + brought_in(whole, at as int).take(j + 2));
            j = j + 1;
        }
        assert(brought_in(whole, at as int).take(j + 1) =~= brought_in(whole, at as int));
        at
    }

    /// Calls a chip.
    pub fn call_chip(&mut self, chip: usize, words: Vec<Wire>)
        requires
            chip < old(self).chips.len(),
            old(self).chips[chip as int] matches EmbeddedChip::Main(called) && words.len()
                == called.inout.len(),
        ensures
            final(self).n_wires == old(self).n_wires,
            final(self).inout == old(self).inout,
            final(self).witness == old(self).witness,
            final(self).verifications == old(self).verifications,
            final(self).chips == old(self).chips,
            final(self).registered == old(self).registered,
            final(self).calls@ == old(self).calls@.push(ChipCall { chip, words }),
    {
        self.calls.push(ChipCall { chip, words });
    }
}

/// Consecutive wires.
pub open spec fn wire_range(first: int, n: int) -> Seq<Wire> {
    Seq::new(n as nat, |i: int| Wire((first + i) as u32))
}

} // verus!
