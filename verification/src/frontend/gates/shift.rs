//! Constant-amount shift and rotate.
//!
//! A shift gate computes `z = shift(x, n)` for one of the eight variants. Its first immediate selects
//! the variant and its second is the amount. It costs one linear constraint: the shift is folded
//! into the constraint's operand.

use crate::constraint_system::ShiftVariant;
use crate::frontend::gates::kind::{
    BytecodeBuilder, ConstraintBuilder, EmitCtx, GateKind, Instruction, LinearConstraint,
    OpcodeShape, WireExprTerm,
};
use crate::frontend::graph::{GateBody, GateData, Opcode, gate_holds};
use crate::frontend::wire_set::Wire;
use crate::word::Word;
use vstd::prelude::*;

verus! {

/// One word shifted or rotated by a constant amount.
pub struct Shift;

impl GateKind for Shift {
    open spec fn accepts(gate: &GateData) -> bool {
        &&& gate.inputs.len() == 1
        &&& gate.outputs.len() == 1
        &&& gate.imms.len() == 2
        &&& gate.imms[0] < 8
        &&& gate.imms[1] < 64
    }

    open spec fn constraints(gate: &GateData) -> Seq<LinearConstraint> {
        seq![
            LinearConstraint {
                rhs: WireExprTerm {
                    wire: gate.inputs[0],
                    variant: ShiftVariant::at(gate.imms[0] as int),
                    amount: gate.imms[1] as u8,
                },
                dst: gate.outputs[0],
            },
        ]
    }

    open spec fn instructions(gate: &GateData, registers: Seq<u32>) -> Seq<Instruction> {
        seq![
            Instruction::Shift {
                dst: registers[gate.outputs[0].0 as int],
                src: registers[gate.inputs[0].0 as int],
                variant: ShiftVariant::at(gate.imms[0] as int),
                amount: gate.imms[1] as u8,
            },
        ]
    }

    fn shape() -> (r: OpcodeShape)
        ensures
            r == (OpcodeShape { n_in: 1, n_out: 1, n_imm: 2 }),
    {
        OpcodeShape { n_in: 1, n_out: 1, n_imm: 2 }
    }

    fn constrain(gate: &GateData, cb: &mut ConstraintBuilder) {
        // shift(x, n) = z, with the shift folded into the operand.
        let term = shifted_term(variant_of(gate.imms[0]), gate.inputs[0], gate.imms[1]);
        cb.linear(term, gate.outputs[0]);
        assert(cb.linear_constraints@ =~= old(cb).linear_constraints@ + Self::constraints(gate));
    }

    fn emit(gate: &GateData, ctx: &EmitCtx, bc: &mut BytecodeBuilder) {
        assert(gate.inputs[0].0 < ctx.registers.len());
        assert(gate.outputs[0].0 < ctx.registers.len());
        // One instruction carrying the variant and the amount.
        bc.emit_shift(
            ctx.reg(gate.outputs[0]),
            ctx.reg(gate.inputs[0]),
            variant_of(gate.imms[0]),
            gate.imms[1] as u8,
        );
        assert(bc.code@ =~= old(bc).code@ + Self::instructions(gate, ctx.registers@));
    }
}

/// Decodes the variant immediate.
fn variant_of(imm: u32) -> (r: ShiftVariant)
    requires
        imm < 8,
    ensures
        r == ShiftVariant::at(imm as int),
{
    ShiftVariant::from_index(imm as usize)
}

/// Builds the shifted-operand term for the given variant and amount.
fn shifted_term(variant: ShiftVariant, x: Wire, n: u32) -> (r: WireExprTerm)
    requires
        n < 64,
    ensures
        r == (WireExprTerm { wire: x, variant, amount: n as u8 }),
{
    WireExprTerm { wire: x, variant, amount: n as u8 }
}

/// The constraint of a shift gate says what its operation says: values satisfy one exactly when
/// they satisfy the other.
pub proof fn shift_constraint_states_the_gate(gate: &GateData, vals: spec_fn(Wire) -> Word)
    requires
        gate.body == GateBody::Op(Opcode::Shift),
        <Shift as GateKind>::accepts(gate),
    ensures
        <Shift as GateKind>::constraints(gate)[0].holds(vals) <==> gate_holds(gate, vals),
{
    let c = <Shift as GateKind>::constraints(gate)[0];
    assert(c.rhs.amount == gate.imms@[1]);
    if c.holds(vals) {
        assert forall|k: int| 0 <= k < 64 implies #[trigger] vals(gate.outputs@[0]).bit(k) == vals(
            gate.inputs@[0],
        ).bit(ShiftVariant::at(gate.imms@[0] as int).source(k, gate.imms@[1] as int)) by {
            assert(vals(c.dst).bit(k) == vals(c.rhs.wire).bit(
                c.rhs.variant.source(k, c.rhs.amount as int),
            ));
        }
    }
}

} // verus!
