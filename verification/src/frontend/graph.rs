//! Gate graphs: gates that read wires and define others.

use vstd::arithmetic::power2::{lemma2_to64, lemma_pow2_unfold, pow2};
use crate::algebra::sum::sum;
use crate::bits::bit64;
use crate::constraint_system::{Shift, ShiftVariant};
use crate::frontend::wire_set::Wire;
use crate::math::subset::{index_bit, lemma_bit64_is_index_bit, lemma_index_bit_top};
use crate::word::Word;
use vstd::prelude::*;

verus! {

/// What a gate computes.
#[derive(Clone, Copy, Debug, PartialEq, Eq, Structural)]
pub enum Opcode {
    /// One word shifted or rotated by a constant amount.
    Shift,
    /// The exclusive-or of two words.
    Bxor,
    /// The conjunction of two words.
    Band,
    /// The sums of two words' 32-bit halves, and the word of carries out of every bit.
    Iadd32,
    /// One of two words, the first where the top bit of a third is set.
    Select,
    /// Two words are the same.
    AssertEq,
    /// A word is zero.
    AssertZero,
}

/// What stands behind a gate.
#[derive(Clone, Copy, Debug, PartialEq, Eq, Structural)]
pub enum GateBody {
    /// An operation of the circuit.
    Op(Opcode),
    /// A value computed outside the circuit.
    Hint(u32),
}

/// One gate.
#[derive(Debug)]
pub struct GateData {
    pub body: GateBody,
    pub inputs: Vec<Wire>,
    pub outputs: Vec<Wire>,
    pub imms: Vec<u32>,
}

/// A gate graph.
///
/// A gate is emitted after the wires it reads, so its outputs have higher numbers.
pub struct GateGraph {
    /// The number of wires.
    pub n_wires: u32,
    /// The constants and their wires.
    pub const_pool: Vec<(Word, Wire)>,
    /// The gates in the order emitted.
    pub gates: Vec<GateData>,
}

/// The sum of two words' halves, each wrapping around on its own.
pub open spec fn add_halves(a: u64, b: u64) -> u64 {
    let (al, ah) = (a % 0x1_0000_0000, a / 0x1_0000_0000);
    let (bl, bh) = (b % 0x1_0000_0000, b / 0x1_0000_0000);
    ((al + bl) % 0x1_0000_0000 + 0x1_0000_0000 * ((ah + bh) % 0x1_0000_0000)) as u64
}

/// The carries out of every bit, given the operands and their sum.
pub open spec fn carries(a: u64, b: u64, sum: u64) -> u64 {
    (a & b) | ((a ^ b) & !sum)
}

/// Whether values on a gate's wires are what its operation computes.
pub open spec fn gate_holds(gate: &GateData, vals: spec_fn(Wire) -> Word) -> bool {
    let (x, z) = (gate.inputs@, gate.outputs@);
    match gate.body {
        GateBody::Hint(_) => true,
        GateBody::Op(Opcode::Shift) => x.len() == 1 && z.len() == 1 && gate.imms@.len() == 2 ==> (
        forall|k: int|
            0 <= k < 64 ==> #[trigger] vals(z[0]).bit(k) == vals(x[0]).bit(
                ShiftVariant::at(gate.imms@[0] as int).source(k, gate.imms@[1] as int),
            )),
        GateBody::Op(Opcode::Bxor) => x.len() == 2 && z.len() == 1 ==> vals(z[0]).0 == vals(
            x[0],
        ).0 ^ vals(x[1]).0,
        GateBody::Op(Opcode::Band) => x.len() == 2 && z.len() == 1 ==> vals(z[0]).0 == vals(
            x[0],
        ).0 & vals(x[1]).0,
        GateBody::Op(Opcode::Iadd32) => x.len() == 2 && z.len() == 2 ==> vals(z[0]).0
            == add_halves(vals(x[0]).0, vals(x[1]).0) && vals(z[1]).0 == carries(
            vals(x[0]).0,
            vals(x[1]).0,
            vals(z[0]).0,
        ),
        GateBody::Op(Opcode::Select) => x.len() == 3 && z.len() == 1 ==> vals(z[0]) == if vals(
            x[0],
        ).bit(63) {
            vals(x[1])
        } else {
            vals(x[2])
        },
        GateBody::Op(Opcode::AssertEq) => x.len() == 2 ==> vals(x[0]) == vals(x[1]),
        GateBody::Op(Opcode::AssertZero) => x.len() == 1 ==> vals(x[0]) == Word(0),
    }
}

impl GateGraph {
    /// Gates read wires emitted before their outputs, shifts have proper immediates, constants are
    /// not computed, and no word is interned twice.
    pub open spec fn wf(&self) -> bool {
        &&& self.n_wires < u32::MAX
        &&& forall|g: int, i: int|
            0 <= g < self.gates.len() && 0 <= i < self.gates[g].inputs.len() ==> (
            #[trigger] self.gates[g].inputs[i]).0 < self.n_wires
        &&& forall|g: int, i: int, o: int|
            0 <= g < self.gates.len() && 0 <= i < self.gates[g].inputs.len() && 0 <= o
                < self.gates[g].outputs.len() ==> (#[trigger] self.gates[g].inputs[i]).0 < (
            #[trigger] self.gates[g].outputs[o]).0
        &&& forall|g: int, o: int, c: int|
            0 <= g < self.gates.len() && 0 <= o < self.gates[g].outputs.len() && 0 <= c
                < self.const_pool.len() ==> (#[trigger] self.gates[g].outputs[o]) != (
            #[trigger] self.const_pool[c]).1
        &&& forall|g: int, o: int|
            0 <= g < self.gates.len() && 0 <= o < self.gates[g].outputs.len() ==> (
            #[trigger] self.gates[g].outputs[o]).0 < self.n_wires
        &&& forall|c: int|
            0 <= c < self.const_pool.len() ==> (#[trigger] self.const_pool[c]).1.0 < self.n_wires
        &&& forall|g: int|
            0 <= g < self.gates.len() ==> shift_imms_wf(#[trigger] &self.gates[g])
        &&& forall|c: int, d: int|
            0 <= c < d < self.const_pool.len() ==> (#[trigger] self.const_pool[c]).0 != (
            #[trigger] self.const_pool[d]).0
    }

    /// Whether values on the wires are what the constants and the gates say.
    pub open spec fn holds(&self, vals: spec_fn(Wire) -> Word) -> bool {
        &&& forall|c: int|
            0 <= c < self.const_pool.len() ==> vals((#[trigger] self.const_pool[c]).1)
                == self.const_pool[c].0
        &&& forall|g: int| 0 <= g < self.gates.len() ==> gate_holds(#[trigger] &self.gates[g], vals)
    }

    /// The wire of a constant, if the graph holds it.
    pub open spec fn constant(&self, word: Word) -> Option<Wire> {
        if exists|c: int| 0 <= c < self.const_pool.len() && (#[trigger] self.const_pool[c]).0
            == word {
            let c = choose|c: int|
                0 <= c < self.const_pool.len() && (#[trigger] self.const_pool[c]).0 == word;
            Some(self.const_pool[c].1)
        } else {
            None
        }
    }

    /// A graph that holds the all-one constant.
    pub fn new() -> (r: Self)
        ensures
            r.wf(),
            r.gates.len() == 0,
            r.const_pool@ == seq![(Word(0xffff_ffff_ffff_ffff), Wire(0))],
            r.n_wires == 1,
    {
        let mut const_pool: Vec<(Word, Wire)> = Vec::new();
        const_pool.push((Word(0xffff_ffff_ffff_ffff), Wire(0)));
        assert(const_pool@ =~= seq![(Word(0xffff_ffff_ffff_ffff), Wire(0))]);
        GateGraph { n_wires: 1, const_pool, gates: Vec::new() }
    }

    /// Adds a wire that no gate defines.
    pub fn add_wire(&mut self) -> (r: Wire)
        requires
            old(self).wf(),
            old(self).n_wires < u32::MAX - 1,
        ensures
            final(self).wf(),
            r.0 == old(self).n_wires,
            final(self).n_wires == old(self).n_wires + 1,
            final(self).gates == old(self).gates,
            final(self).const_pool == old(self).const_pool,
    {
        let r = Wire(self.n_wires);
        self.n_wires = self.n_wires + 1;
        r
    }

    /// The wire of a constant, if the graph holds it.
    pub fn find_constant(&self, word: Word) -> (r: Option<Wire>)
        requires
            self.wf(),
        ensures
            r == self.constant(word),
            r matches Some(w) ==> self.const_pool@.contains((word, w)) && w.0 < self.n_wires,
    {
        let mut c: usize = 0;
        while c < self.const_pool.len()
            invariant
                c <= self.const_pool.len(),
                self.wf(),
                forall|d: int|
                    0 <= d < c ==> (#[trigger] self.const_pool[d]).0 != word,
            decreases self.const_pool.len() - c,
        {
            let (w, wire) = self.const_pool[c];
            if w == word {
                proof {
                    assert(self.const_pool@[c as int] == (word, wire));
                    assert(self.const_pool[c as int].0 == word);
                    let d = choose|d: int|
                        0 <= d < self.const_pool.len() && (#[trigger] self.const_pool[d]).0 == word;
                    if c < d {
                        assert(self.const_pool[c as int].0 != self.const_pool[d].0);
                    } else if d < c {
                        assert(self.const_pool[d].0 != self.const_pool[c as int].0);
                    }
                }
                return Some(wire);
            }
            c = c + 1;
        }
        None
    }

    /// The wire of a constant, added if the graph does not hold it.
    pub fn add_constant(&mut self, word: Word) -> (r: Wire)
        requires
            old(self).wf(),
            old(self).n_wires < u32::MAX - 1,
        ensures
            final(self).wf(),
            final(self).gates == old(self).gates,
            final(self).const_pool@.contains((word, r)),
            old(self).constant(word) matches Some(w) ==> r == w && *final(self) == *old(self),
            old(self).constant(word) is None ==> r.0 == old(self).n_wires && final(self).n_wires
                == old(self).n_wires + 1 && final(self).const_pool@ == old(self).const_pool@.push((word, r)),
    {
        if let Some(wire) = self.find_constant(word) {
            return wire;
        }
        let r = Wire(self.n_wires);
        self.n_wires = self.n_wires + 1;
        self.const_pool.push((word, r));
        assert(self.const_pool@[self.const_pool.len() - 1] == (word, r));
        r
    }

    /// Emits a gate with new output wires.
    pub fn emit_gate(
        &mut self,
        body: GateBody,
        inputs: Vec<Wire>,
        n_outputs: usize,
        imms: Vec<u32>,
    ) -> (r: Vec<Wire>)
        requires
            old(self).wf(),
            old(self).n_wires + n_outputs < u32::MAX,
            forall|i: int| 0 <= i < inputs.len() ==> (#[trigger] inputs[i]).0 < old(self).n_wires,
            body == GateBody::Op(Opcode::Shift) ==> imms.len() == 2 && imms[0] < 8 && imms[1] < 64,
        ensures
            final(self).wf(),
            final(self).const_pool == old(self).const_pool,
            final(self).n_wires == old(self).n_wires + n_outputs,
            final(self).gates.len() == old(self).gates.len() + 1,
            forall|g: int|
                0 <= g < old(self).gates.len() ==> #[trigger] final(self).gates[g] == old(self).gates[g],
            ({
                let last = final(self).gates[old(self).gates.len() as int];
                &&& last.body == body
                &&& last.inputs@ == inputs@
                &&& last.outputs@ == r@
                &&& last.imms@ == imms@
            }),
            r.len() == n_outputs,
            forall|o: int| 0 <= o < n_outputs ==> (#[trigger] r[o]).0 == old(self).n_wires + o,
    {
        let ghost start = self.n_wires;
        let mut r: Vec<Wire> = Vec::new();
        let mut outputs: Vec<Wire> = Vec::new();
        let mut o: usize = 0;
        while o < n_outputs
            invariant
                o <= n_outputs,
                start + n_outputs < u32::MAX,
                self.n_wires == start + o,
                self.const_pool == old(self).const_pool,
                self.gates == old(self).gates,
                r.len() == o,
                outputs@ == r@,
                forall|k: int| 0 <= k < o ==> (#[trigger] r[k]).0 == start + k,
            decreases n_outputs - o,
        {
            let wire = Wire(self.n_wires);
            r.push(wire);
            outputs.push(wire);
            self.n_wires = self.n_wires + 1;
            o = o + 1;
        }
        let ghost before = self.gates@;
        self.gates.push(GateData { body, inputs, outputs, imms });
        proof {
            assert forall|g: int, i: int|
                0 <= g < self.gates.len() && 0 <= i < self.gates[g].inputs.len() implies (
            #[trigger] self.gates[g].inputs[i]).0 < self.n_wires by {
                if g < before.len() {
                    assert(old(self).gates[g].inputs[i].0 < old(self).n_wires);
                }
            }
            assert forall|g: int, i: int, o: int|
                0 <= g < self.gates.len() && 0 <= i < self.gates[g].inputs.len() && 0 <= o
                    < self.gates[g].outputs.len() implies (#[trigger] self.gates[g].inputs[i]).0
                < (#[trigger] self.gates[g].outputs[o]).0 by {
                if g < before.len() {
                    assert(old(self).gates[g].inputs[i].0 < old(self).gates[g].outputs[o].0);
                }
            }
            assert forall|g: int, o: int, c: int|
                0 <= g < self.gates.len() && 0 <= o < self.gates[g].outputs.len() && 0 <= c
                    < self.const_pool.len() implies (#[trigger] self.gates[g].outputs[o]) != (
            #[trigger] self.const_pool[c]).1 by {
                if g < before.len() {
                    assert(old(self).gates[g].outputs[o] != old(self).const_pool[c].1);
                } else {
                    assert(old(self).const_pool[c].1.0 < old(self).n_wires);
                }
            }
            assert forall|g: int, o: int|
                0 <= g < self.gates.len() && 0 <= o < self.gates[g].outputs.len() implies (
            #[trigger] self.gates[g].outputs[o]).0 < self.n_wires by {
                if g < before.len() {
                    assert(old(self).gates[g].outputs[o].0 < old(self).n_wires);
                }
            }
            assert forall|g: int| 0 <= g < self.gates.len() implies shift_imms_wf(
                #[trigger] &self.gates[g],
            ) by {
                if g < before.len() {
                    assert(shift_imms_wf(&old(self).gates[g]));
                }
            }
        }
        r
    }
}

/// A shift gate names a variant and an amount below the word size.
pub open spec fn shift_imms_wf(gate: &GateData) -> bool {
    gate.body == GateBody::Op(Opcode::Shift) ==> gate.imms.len() == 2 && gate.imms[0] < 8
        && gate.imms[1] < 64
}

/// What an operation computes from its input words.
pub fn eval_gate(opcode: Opcode, inputs: &[Word], imms: &[u32]) -> (r: Vec<Word>)
    requires
        match opcode {
            Opcode::Shift => inputs.len() == 1 && imms.len() == 2 && imms[0] < 8 && imms[1] < 64,
            Opcode::Select => inputs.len() == 3,
            Opcode::AssertZero => inputs.len() == 1,
            _ => inputs.len() == 2,
        },
    ensures
        match opcode {
            Opcode::Shift => r.len() == 1 && forall|k: int|
                0 <= k < 64 ==> #[trigger] r[0].bit(k) == inputs[0].bit(
                    ShiftVariant::at(imms[0] as int).source(k, imms[1] as int),
                ),
            Opcode::Bxor => r.len() == 1 && r[0].0 == inputs[0].0 ^ inputs[1].0,
            Opcode::Band => r.len() == 1 && r[0].0 == inputs[0].0 & inputs[1].0,
            Opcode::Iadd32 => r.len() == 2 && r[0].0 == add_halves(inputs[0].0, inputs[1].0)
                && r[1].0 == carries(inputs[0].0, inputs[1].0, r[0].0),
            Opcode::Select => r.len() == 1 && r[0] == if inputs[0].bit(63) {
                inputs[1]
            } else {
                inputs[2]
            },
            Opcode::AssertEq | Opcode::AssertZero => r.len() == 0,
        },
{
    let mut r: Vec<Word> = Vec::new();
    match opcode {
        Opcode::Shift => {
            let variant = ShiftVariant::from_index(imms[0] as usize);
            r.push(variant.apply(inputs[0], imms[1] as usize));
        },
        Opcode::Bxor => {
            r.push(Word(inputs[0].0 ^ inputs[1].0));
        },
        Opcode::Band => {
            r.push(Word(inputs[0].0 & inputs[1].0));
        },
        Opcode::Iadd32 => {
            let (a, b) = (inputs[0].0, inputs[1].0);
            let low: u64 = (a % 0x1_0000_0000 + b % 0x1_0000_0000) % 0x1_0000_0000;
            let high: u64 = (a / 0x1_0000_0000 + b / 0x1_0000_0000) % 0x1_0000_0000;
            let sum: u64 = low + 0x1_0000_0000 * high;
            r.push(Word(sum));
            r.push(Word((a & b) | ((a ^ b) & !sum)));
        },
        Opcode::Select => {
            let top: u64 = (inputs[0].0 >> 63) & 1;
            if top == 1 {
                r.push(inputs[1]);
            } else {
                r.push(inputs[2]);
            }
        },
        Opcode::AssertEq | Opcode::AssertZero => {},
    }
    r
}

/// A word without a set bit is zero.
pub proof fn lemma_no_bits(x: u64)
    requires
        forall|k: int| 0 <= k < 64 ==> !#[trigger] bit64(x, k),
    ensures
        x == 0,
{
    assert forall|k: int| 0 <= k < 64 implies !#[trigger] index_bit(x as int, k) by {
        assert(!bit64(x, k));
        lemma_bit64_is_index_bit(x, k);
    }
    lemma2_to64();
    lemma_no_index_bits(x as int, 64);
}

proof fn lemma_no_index_bits(x: int, n: int)
    requires
        0 <= n,
        0 <= x < pow2(n as nat),
        forall|k: int| 0 <= k < n ==> !#[trigger] index_bit(x, k),
    ensures
        x == 0,
    decreases n,
{
    lemma2_to64();
    if n > 0 {
        lemma_pow2_unfold(n as nat);
        let h = pow2((n - 1) as nat) as int;
        if x >= h {
            lemma_index_bit_top(x - h, n - 1);
            assert(index_bit(x, n - 1));
        }
        lemma_no_index_bits(x, n - 1);
    }
}

} // verus!
