use binius64::constraint_system::ShiftVariant;
use binius64::frontend::gates::kind::{
    BytecodeBuilder, ConstraintBuilder, EmitCtx, GateKind, Instruction, LinearConstraint,
    OpcodeShape, WireExprTerm,
};
use binius64::frontend::gates::shift::Shift;
use binius64::frontend::graph::{eval_gate, GateBody, GateData, GateGraph, Opcode};
use binius64::frontend::wire_set::{Wire, WireSet};
use binius64::frontend::zero_fold::zero_propagation;
use binius64::word::Word;

fn shl(graph: &mut GateGraph, x: Wire, n: u32) -> Wire {
    graph.emit_gate(GateBody::Op(Opcode::Shift), vec![x], 1, vec![0, n])[0]
}

fn bxor(graph: &mut GateGraph, x: Wire, y: Wire) -> Wire {
    graph.emit_gate(GateBody::Op(Opcode::Bxor), vec![x, y], 1, vec![])[0]
}

fn iadd_32(graph: &mut GateGraph, x: Wire, y: Wire) -> Vec<Wire> {
    graph.emit_gate(GateBody::Op(Opcode::Iadd32), vec![x, y], 2, vec![])
}

fn assert_equal(graph: &mut GateGraph, x: Wire, y: Wire) {
    graph.emit_gate(GateBody::Op(Opcode::AssertEq), vec![x, y], 0, vec![]);
}

/// The gates whose results reach an assertion.
fn live(graph: &GateGraph) -> Vec<&GateData> {
    let mut wanted: Vec<Wire> = Vec::new();
    let mut kept = Vec::new();
    for gate in graph.gates.iter().rev() {
        let asserts = gate.outputs.is_empty();
        if asserts || gate.outputs.iter().any(|o| wanted.contains(o)) {
            wanted.extend(gate.inputs.iter().copied());
            kept.push(gate);
        }
    }
    kept
}

/// A carry chain is what costs conjunctions.
fn count_and(graph: &GateGraph) -> usize {
    live(graph)
        .iter()
        .filter(|g| g.body == GateBody::Op(Opcode::Iadd32) || g.body == GateBody::Op(Opcode::Band))
        .count()
}

/// Evaluates the gates in order; false where an assertion fails.
fn evaluate(graph: &GateGraph, values: &mut [Word]) -> bool {
    for (word, wire) in &graph.const_pool {
        values[wire.0 as usize] = *word;
    }
    for gate in &graph.gates {
        let inputs: Vec<Word> = gate.inputs.iter().map(|w| values[w.0 as usize]).collect();
        if let GateBody::Op(opcode) = gate.body {
            if opcode == Opcode::AssertEq {
                if inputs[0] != inputs[1] {
                    return false;
                }
                continue;
            }
            let results = eval_gate(opcode, &inputs, &gate.imms);
            for (wire, value) in gate.outputs.iter().zip(results) {
                values[wire.0 as usize] = value;
            }
        }
    }
    true
}

#[test]
fn zero_addend_costs_no_carry_chain() {
    // A zero addend leaves the sum alone, so the carry chain is dead weight. The zero reaches the
    // addition only after a shift and an exclusive-or, so all three rules have to fire in turn.
    let count = |enable: bool| {
        let mut graph = GateGraph::new();
        let x = graph.add_wire();
        let zero = graph.add_constant(Word::zero());

        let shifted = shl(&mut graph, zero, 32);
        let packed = bxor(&mut graph, shifted, zero);
        let sum = iadd_32(&mut graph, x, packed)[0];

        let out = graph.add_wire();
        assert_equal(&mut graph, sum, out);
        if enable {
            assert!(zero_propagation(&mut graph, &WireSet::new()) > 0);
        }
        count_and(&graph)
    };

    assert!(count(true) < count(false));
    assert_eq!(count(true), 0);
}

#[test]
fn folded_circuit_still_computes_the_sum() {
    // The pass rewrites which wire carries a value, never the value itself.
    let mut graph = GateGraph::new();
    let x = graph.add_wire();
    let y = graph.add_wire();
    let zero = graph.add_constant(Word::zero());

    // Two additions, one foldable and one not.
    let folded = iadd_32(&mut graph, x, zero)[0];
    let real = iadd_32(&mut graph, folded, y)[0];
    let out = graph.add_wire();
    assert_equal(&mut graph, real, out);
    assert_eq!(zero_propagation(&mut graph, &WireSet::new()), 1);
    let swept: Vec<Vec<Wire>> = graph.gates.iter().map(|g| g.inputs.clone()).collect();

    // A second call finds nothing left.
    assert_eq!(zero_propagation(&mut graph, &WireSet::new()), 0);
    let again: Vec<Vec<Wire>> = graph.gates.iter().map(|g| g.inputs.clone()).collect();
    assert_eq!(again, swept);

    // Low halves overflow and high halves do not, so a carry crossing bit 32 would show.
    let mut values = vec![Word::zero(); graph.n_wires as usize];
    values[x.0 as usize] = Word(0x0000_0002_FFFF_FFFF);
    values[y.0 as usize] = Word(0x0000_0003_0000_0001);
    values[out.0 as usize] = Word(0x0000_0005_0000_0000);
    assert!(evaluate(&graph, &mut values));
    values[out.0 as usize] = Word(0x0000_0006_0000_0000);
    assert!(!evaluate(&graph, &mut values));
}

#[test]
fn a_circuit_without_zero_is_untouched() {
    // The pass interns nothing, so a circuit holding no zero constant keeps exactly the constants
    // it declared.
    let mut graph = GateGraph::new();
    let x = graph.add_wire();
    let out = graph.add_wire();
    let shifted = shl(&mut graph, x, 8);
    assert_equal(&mut graph, shifted, out);
    assert_eq!(zero_propagation(&mut graph, &WireSet::new()), 0);

    assert!(graph.const_pool.iter().all(|(word, _)| *word != Word::zero()));
    assert_eq!(graph.gates[0].inputs, vec![x]);
    assert_eq!(graph.gates[1].inputs, vec![shifted, out]);
}

#[test]
fn a_force_committed_output_keeps_its_readers() {
    let mut graph = GateGraph::new();
    let x = graph.add_wire();
    let zero = graph.add_constant(Word::zero());
    let z = bxor(&mut graph, x, zero);
    let out = graph.add_wire();
    assert_equal(&mut graph, z, out);

    let mut committed = WireSet::new();
    assert!(!committed.contains(z));
    committed.insert(z);
    assert!(committed.contains(z));
    assert!(!committed.contains(x));
    assert_eq!(zero_propagation(&mut graph, &committed), 0);
    assert_eq!(graph.gates[1].inputs, vec![z, out]);

    assert_eq!(zero_propagation(&mut graph, &WireSet::new()), 1);
    assert_eq!(graph.gates[1].inputs, vec![x, out]);
}

#[test]
fn replacing_a_wire_counts_its_readers() {
    let mut graph = GateGraph::new();
    let x = graph.add_wire();
    let y = graph.add_wire();
    let z = bxor(&mut graph, x, x);
    assert_equal(&mut graph, z, x);
    assert_eq!(graph.replace_wire_with_wire(x, y), 3);
    assert_eq!(graph.gates[0].inputs, vec![y, y]);
    assert_eq!(graph.gates[1].inputs, vec![z, y]);
    assert_eq!(graph.replace_wire_with_wire(x, y), 0);
}

#[test]
fn every_slot_rewritten_in_any_sweep_is_counted() {
    // One sweep points the second gate at x, and the reader of both slots at y; the next one
    // points those two at x as well.
    let mut graph = GateGraph::new();
    let x = graph.add_wire();
    let zero = graph.add_constant(Word::zero());
    let y = bxor(&mut graph, x, zero);
    let z = bxor(&mut graph, y, zero);
    assert_equal(&mut graph, z, z);
    assert_eq!(zero_propagation(&mut graph, &WireSet::new()), 5);
    assert_eq!(graph.gates[1].inputs, vec![x, zero]);
    assert_eq!(graph.gates[2].inputs, vec![x, x]);
    assert_eq!(zero_propagation(&mut graph, &WireSet::new()), 0);
}

#[test]
fn a_hint_is_left_alone() {
    let mut graph = GateGraph::new();
    let zero = graph.add_constant(Word::zero());
    let h = graph.emit_gate(GateBody::Hint(3), vec![zero], 1, vec![])[0];
    let out = graph.add_wire();
    assert_equal(&mut graph, h, out);
    assert_eq!(zero_propagation(&mut graph, &WireSet::new()), 0);
    assert_eq!(graph.gates[1].inputs, vec![h, out]);
}

#[test]
fn gates_evaluate_to_their_exact_values() {
    let words = [Word(0xFFFF_FFFF_8000_0001), Word(0x0000_0001_8000_0001)];
    let sum = eval_gate(Opcode::Iadd32, &words, &[]);
    assert_eq!(sum[0], Word(0x0000_0000_0000_0002));
    assert_eq!(sum[1], Word(0xFFFF_FFFF_8000_0001));
    assert_eq!(
        eval_gate(Opcode::Bxor, &words, &[])[0],
        Word(0xFFFF_FFFE_0000_0000)
    );
    assert_eq!(
        eval_gate(Opcode::Band, &words, &[])[0],
        Word(0x0000_0001_8000_0001)
    );
    assert_eq!(
        eval_gate(Opcode::Shift, &words[..1], &[7, 4])[0],
        Word(0xFFFF_FFFF_1800_0000)
    );
    let chosen = [Word(1 << 63), Word(5), Word(6)];
    assert_eq!(eval_gate(Opcode::Select, &chosen, &[])[0], Word(5));
    let chosen = [Word(1 << 62), Word(5), Word(6)];
    assert_eq!(eval_gate(Opcode::Select, &chosen, &[])[0], Word(6));
}

#[test]
fn a_shift_gate_is_one_constraint_and_one_instruction() {
    let gate = GateData {
        body: GateBody::Op(Opcode::Shift),
        inputs: vec![Wire(1)],
        outputs: vec![Wire(2)],
        imms: vec![3, 17],
    };
    assert_eq!(
        Shift::shape(),
        OpcodeShape {
            n_in: 1,
            n_out: 1,
            n_imm: 2
        }
    );
    let mut constraints = ConstraintBuilder::new();
    Shift::constrain(&gate, &mut constraints);
    assert_eq!(
        constraints.linear_constraints,
        vec![LinearConstraint {
            rhs: WireExprTerm {
                wire: Wire(1),
                variant: ShiftVariant::Rotr,
                amount: 17
            },
            dst: Wire(2),
        }]
    );
    let ctx = EmitCtx {
        registers: vec![10, 11, 12],
    };
    let mut code = BytecodeBuilder::new();
    Shift::emit(&gate, &ctx, &mut code);
    assert_eq!(
        code.code,
        vec![Instruction::Shift {
            dst: 12,
            src: 11,
            variant: ShiftVariant::Rotr,
            amount: 17
        }]
    );
}

#[test]
fn a_wire_set_tells_what_is_new() {
    let mut set = WireSet::new();
    assert!(!set.contains(Wire(700)));
    assert!(set.insert(Wire(700)));
    assert!(!set.insert(Wire(700)));
    assert!(set.contains(Wire(700)));
    assert!(!set.contains(Wire(699)));
}
