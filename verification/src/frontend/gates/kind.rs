//! What a kind of gate provides: its shape, its constraints and its instructions.

use crate::constraint_system::ShiftVariant;
use crate::frontend::graph::GateData;
use crate::frontend::wire_set::Wire;
use crate::word::Word;
use vstd::prelude::*;

verus! {

/// The number of wires and immediates a gate carries.
#[derive(Clone, Copy, Debug, PartialEq, Eq, Structural)]
pub struct OpcodeShape {
    pub n_in: usize,
    pub n_out: usize,
    pub n_imm: usize,
}

impl OpcodeShape {
    /// Whether a gate has this shape.
    pub open spec fn fits(self, gate: &GateData) -> bool {
        &&& gate.inputs.len() == self.n_in
        &&& gate.outputs.len() == self.n_out
        &&& gate.imms.len() == self.n_imm
    }
}

/// A wire as an operand reads it, shifted on the way.
#[derive(Clone, Copy, Debug, PartialEq, Eq, Structural)]
pub struct WireExprTerm {
    pub wire: Wire,
    pub variant: ShiftVariant,
    pub amount: u8,
}

/// A constraint that a shifted wire equals another wire.
#[derive(Clone, Copy, Debug, PartialEq, Eq, Structural)]
pub struct LinearConstraint {
    pub rhs: WireExprTerm,
    pub dst: Wire,
}

impl LinearConstraint {
    /// Whether values on the wires satisfy the constraint.
    pub open spec fn holds(self, vals: spec_fn(Wire) -> Word) -> bool {
        forall|k: int|
            0 <= k < 64 ==> #[trigger] vals(self.dst).bit(k) == vals(self.rhs.wire).bit(
                self.rhs.variant.source(k, self.rhs.amount as int),
            )
    }
}

/// Collects the constraints of a circuit.
pub struct ConstraintBuilder {
    pub linear_constraints: Vec<LinearConstraint>,
}

impl ConstraintBuilder {
    /// No constraints yet.
    pub fn new() -> (r: Self)
        ensures
            r.linear_constraints@ == Seq::<LinearConstraint>::empty(),
    {
        ConstraintBuilder { linear_constraints: Vec::new() }
    }

    /// Adds a linear constraint.
    pub fn linear(&mut self, rhs: WireExprTerm, dst: Wire)
        ensures
            final(self).linear_constraints@ == old(self).linear_constraints@.push(
                LinearConstraint { rhs, dst },
            ),
    {
        self.linear_constraints.push(LinearConstraint { rhs, dst });
    }
}

/// One step of evaluating a circuit.
#[derive(Clone, Copy, Debug, PartialEq, Eq, Structural)]
pub enum Instruction {
    /// Shifts one register into another.
    Shift { dst: u32, src: u32, variant: ShiftVariant, amount: u8 },
}

/// Collects the instructions that evaluate a circuit.
pub struct BytecodeBuilder {
    pub code: Vec<Instruction>,
}

impl BytecodeBuilder {
    /// No instructions yet.
    pub fn new() -> (r: Self)
        ensures
            r.code@ == Seq::<Instruction>::empty(),
    {
        BytecodeBuilder { code: Vec::new() }
    }

    /// Adds a shift.
    pub fn emit_shift(&mut self, dst: u32, src: u32, variant: ShiftVariant, amount: u8)
        ensures
            final(self).code@ == old(self).code@.push(
                Instruction::Shift { dst, src, variant, amount },
            ),
    {
        self.code.push(Instruction::Shift { dst, src, variant, amount });
    }
}

/// Where each wire's value is kept.
pub struct EmitCtx {
    pub registers: Vec<u32>,
}

impl EmitCtx {
    /// The register of a wire.
    pub fn reg(&self, wire: Wire) -> (r: u32)
        requires
            wire.0 < self.registers.len(),
        ensures
            r == self.registers[wire.0 as int],
    {
        self.registers[wire.0 as usize]
    }
}

/// A kind of gate.
pub trait GateKind {
    /// What the kind accepts: its shape, and immediates with a meaning.
    spec fn accepts(gate: &GateData) -> bool;

    /// The constraints a gate contributes.
    spec fn constraints(gate: &GateData) -> Seq<LinearConstraint>;

    /// The instructions that evaluate a gate.
    spec fn instructions(gate: &GateData, registers: Seq<u32>) -> Seq<Instruction>;

    /// The number of wires and immediates.
    fn shape() -> (r: OpcodeShape)
        ensures
            forall|gate: &GateData| #[trigger] Self::accepts(gate) ==> r.fits(gate),
    ;

    /// Adds a gate's constraints.
    fn constrain(gate: &GateData, cb: &mut ConstraintBuilder)
        requires
            Self::accepts(gate),
        ensures
            final(cb).linear_constraints@ == old(cb).linear_constraints@ + Self::constraints(gate),
    ;

    /// Adds a gate's instructions.
    fn emit(gate: &GateData, ctx: &EmitCtx, bc: &mut BytecodeBuilder)
        requires
            Self::accepts(gate),
            forall|i: int|
                0 <= i < gate.inputs.len() ==> (#[trigger] gate.inputs[i]).0 < ctx.registers.len(),
            forall|o: int|
                0 <= o < gate.outputs.len() ==> (#[trigger] gate.outputs[o]).0
                    < ctx.registers.len(),
        ensures
            final(bc).code@ == old(bc).code@ + Self::instructions(gate, ctx.registers@),
    ;
}

} // verus!
