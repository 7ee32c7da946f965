//! Zero propagation over a gate graph.

use crate::bits::{bit64, lemma_bit64_zero};
use crate::constraint_system::ShiftVariant;
use crate::frontend::graph::{
    GateBody, GateData, GateGraph, Opcode, gate_holds, lemma_no_bits, shift_imms_wf,
};
use crate::frontend::wire_set::{Wire, WireSet, holds_wire, wires_in};
use crate::word::Word;
use vstd::prelude::*;

verus! {

/// Where a gate's two outputs move to, when a zero operand makes it an identity.
///
/// With `z` the zero word: a shift of `z` is `z`, the exclusive-or of `x` and `z` is `x`, and the
/// sum of `x` and `z` is `x` with no carries. A gate with one output pads the pair.
pub open spec fn zero_pairs(gate: &GateData, zero: Wire, force_committed: Set<u32>) -> Option<
    ((Wire, Wire), (Wire, Wire)),
> {
    let (x, z) = (gate.inputs@, gate.outputs@);
    let nothing = (zero, zero);
    if exists|o: int| 0 <= o < z.len() && force_committed.contains((#[trigger] z[o]).0) {
        None
    } else {
        match gate.body {
            GateBody::Op(Opcode::Shift) => if x.len() == 1 && z.len() == 1 && x[0] == zero {
                Some(((z[0], zero), nothing))
            } else {
                None
            },
            GateBody::Op(Opcode::Bxor) => if x.len() == 2 && z.len() == 1 && x[1] == zero {
                Some(((z[0], x[0]), nothing))
            } else if x.len() == 2 && z.len() == 1 && x[0] == zero {
                Some(((z[0], x[1]), nothing))
            } else {
                None
            },
            GateBody::Op(Opcode::Iadd32) => if x.len() == 2 && z.len() == 2 && x[1] == zero {
                Some(((z[0], x[0]), (z[1], zero)))
            } else if x.len() == 2 && z.len() == 2 && x[0] == zero {
                Some(((z[0], x[1]), (z[1], zero)))
            } else {
                None
            },
            _ => None,
        }
    }
}

/// Where each of a gate's outputs moves to, when a zero operand makes it an identity.
fn zero_identity(gate: &GateData, zero: Wire, force_committed: &WireSet) -> (r: Option<
    ((Wire, Wire), (Wire, Wire)),
>)
    ensures
        r == zero_pairs(gate, zero, wires_in(*force_committed)),
{
    // A force-committed output stays backed by its own constraint.
    let mut o: usize = 0;
    while o < gate.outputs.len()
        invariant
            o <= gate.outputs.len(),
            forall|k: int|
                0 <= k < o ==> !wires_in(*force_committed).contains(
                    (#[trigger] gate.outputs@[k]).0,
                ),
        decreases gate.outputs.len() - o,
    {
        if holds_wire(force_committed, gate.outputs[o]) {
            assert(wires_in(*force_committed).contains(gate.outputs@[o as int].0));
            return None;
        }
        o = o + 1;
    }
    let nothing = (zero, zero);
    match gate.body {
        GateBody::Op(Opcode::Shift) => {
            if gate.inputs.len() == 1 && gate.outputs.len() == 1 && gate.inputs[0] == zero {
                Some(((gate.outputs[0], zero), nothing))
            } else {
                None
            }
        },
        GateBody::Op(Opcode::Bxor) => {
            if gate.inputs.len() == 2 && gate.outputs.len() == 1 && gate.inputs[1] == zero {
                Some(((gate.outputs[0], gate.inputs[0]), nothing))
            } else if gate.inputs.len() == 2 && gate.outputs.len() == 1 && gate.inputs[0]
                == zero {
                Some(((gate.outputs[0], gate.inputs[1]), nothing))
            } else {
                None
            }
        },
        GateBody::Op(Opcode::Iadd32) => {
            if gate.inputs.len() == 2 && gate.outputs.len() == 2 && gate.inputs[1] == zero {
                Some(((gate.outputs[0], gate.inputs[0]), (gate.outputs[1], zero)))
            } else if gate.inputs.len() == 2 && gate.outputs.len() == 2 && gate.inputs[0]
                == zero {
                Some(((gate.outputs[0], gate.inputs[1]), (gate.outputs[1], zero)))
            } else {
                None
            }
        },
        _ => None,
    }
}

/// Words against zero.
proof fn lemma_zero_word_ops(x: u64)
    ensures
        x ^ 0 == x,
        0 ^ x == x,
        (x & 0) | ((x ^ 0) & !x) == 0,
        (0 & x) | ((0 ^ x) & !x) == 0,
{
    assert(x ^ 0 == x && 0 ^ x == x && (x & 0) | ((x ^ 0) & !x) == 0 && (0 & x) | ((0 ^ x) & !x)
        == 0) by (bit_vector);
}

/// A gate that a zero makes an identity carries equal values on the wires it forwards.
proof fn lemma_pairs_agree(
    gate: &GateData,
    zero: Wire,
    force_committed: Set<u32>,
    vals: spec_fn(Wire) -> Word,
)
    requires
        gate_holds(gate, vals),
        shift_imms_wf(gate),
        vals(zero) == Word(0),
    ensures
        zero_pairs(gate, zero, force_committed) matches Some(p) ==> vals(p.0.0) == vals(p.0.1)
            && vals(p.1.0) == vals(p.1.1),
{
    let (x, z) = (gate.inputs@, gate.outputs@);
    match gate.body {
        GateBody::Op(Opcode::Shift) => {
            if x.len() == 1 && z.len() == 1 && x[0] == zero {
                assert forall|k: int| 0 <= k < 64 implies !#[trigger] bit64(vals(z[0]).0, k) by {
                    let source = ShiftVariant::at(gate.imms@[0] as int).source(
                        k,
                        gate.imms@[1] as int,
                    );
                    assert(vals(z[0]).bit(k) == vals(x[0]).bit(source));
                    lemma_bit64_zero(source);
                }
                lemma_no_bits(vals(z[0]).0);
            }
        },
        GateBody::Op(Opcode::Bxor) => {
            if x.len() == 2 {
                lemma_zero_word_ops(vals(x[0]).0);
                lemma_zero_word_ops(vals(x[1]).0);
            }
        },
        GateBody::Op(Opcode::Iadd32) => {
            if x.len() == 2 {
                lemma_zero_word_ops(vals(x[0]).0);
                lemma_zero_word_ops(vals(x[1]).0);
            }
        },
        _ => {},
    }
}

/// A list with one wire replaced by another.
pub open spec fn replaced_inputs(inputs: Seq<Wire>, from: Wire, to: Wire) -> Seq<Wire> {
    Seq::new(
        inputs.len(),
        |i: int|
            if inputs[i] == from {
                to
            } else {
                inputs[i]
            },
    )
}

/// The number of slots of a list that hold a wire.
pub open spec fn list_reads(inputs: Seq<Wire>, w: Wire) -> nat
    decreases inputs.len(),
{
    if inputs.len() == 0 {
        0
    } else {
        list_reads(inputs.drop_last(), w) + if inputs.last() == w {
            1nat
        } else {
            0
        }
    }
}

/// The sum of the wire numbers in a list.
pub open spec fn list_weight(inputs: Seq<Wire>) -> nat
    decreases inputs.len(),
{
    if inputs.len() == 0 {
        0
    } else {
        list_weight(inputs.drop_last()) + inputs.last().0 as nat
    }
}

/// The number of input slots that hold a wire.
pub open spec fn graph_reads(gates: Seq<GateData>, w: Wire) -> nat
    decreases gates.len(),
{
    if gates.len() == 0 {
        0
    } else {
        graph_reads(gates.drop_last(), w) + list_reads(gates.last().inputs@, w)
    }
}

/// The sum of the wire numbers in all input slots.
pub open spec fn graph_weight(gates: Seq<GateData>) -> nat
    decreases gates.len(),
{
    if gates.len() == 0 {
        0
    } else {
        graph_weight(gates.drop_last()) + list_weight(gates.last().inputs@)
    }
}

/// Moving readers down lowers the weight by at least one a slot.
proof fn lemma_list_replaced(inputs: Seq<Wire>, from: Wire, to: Wire)
    requires
        to.0 < from.0,
    ensures
        list_weight(replaced_inputs(inputs, from, to)) + list_reads(inputs, from) <= list_weight(
            inputs,
        ),
    decreases inputs.len(),
{
    if inputs.len() > 0 {
        lemma_list_replaced(inputs.drop_last(), from, to);
        assert(replaced_inputs(inputs, from, to).drop_last() =~= replaced_inputs(
            inputs.drop_last(),
            from,
            to,
        ));
    }
}

/// A list that does not hold a wire reads it nowhere.
proof fn lemma_list_reads_zero(inputs: Seq<Wire>, w: Wire)
    ensures
        list_reads(inputs, w) == 0 <==> !inputs.contains(w),
    decreases inputs.len(),
{
    if inputs.len() > 0 {
        lemma_list_reads_zero(inputs.drop_last(), w);
        let init = inputs.drop_last();
        if inputs.last() == w {
            assert(inputs[inputs.len() - 1] == w);
            assert(inputs.contains(w));
        } else {
            if inputs.contains(w) {
                let i = choose|i: int| 0 <= i < inputs.len() && inputs[i] == w;
                assert(init[i] == w);
            }
            if init.contains(w) {
                let i = choose|i: int| 0 <= i < init.len() && init[i] == w;
                assert(inputs[i] == w);
            }
        }
    }
}

/// Two lists of gates that differ in one wire having been replaced by another.
pub open spec fn gates_replaced(
    before: Seq<GateData>,
    after: Seq<GateData>,
    from: Wire,
    to: Wire,
) -> bool {
    &&& before.len() == after.len()
    &&& forall|g: int| #![trigger after[g]]
        0 <= g < before.len() ==> after[g].body == before[g].body && after[g].outputs@
            == before[g].outputs@ && after[g].imms@ == before[g].imms@ && after[g].inputs@
            == replaced_inputs(before[g].inputs@, from, to)
}

proof fn lemma_graph_replaced(
    before: Seq<GateData>,
    after: Seq<GateData>,
    from: Wire,
    to: Wire,
)
    requires
        gates_replaced(before, after, from, to),
        to.0 < from.0,
    ensures
        graph_weight(after) + graph_reads(before, from) <= graph_weight(before),
    decreases before.len(),
{
    if before.len() > 0 {
        let (b, a) = (before.drop_last(), after.drop_last());
        assert forall|g: int| #![trigger a[g]] 0 <= g < b.len() implies a[g].body == b[g].body
            && a[g].outputs@ == b[g].outputs@ && a[g].imms@ == b[g].imms@ && a[g].inputs@
            == replaced_inputs(b[g].inputs@, from, to) by {
            assert(a[g] == after[g]);
        }
        lemma_graph_replaced(b, a, from, to);
        lemma_list_replaced(before.last().inputs@, from, to);
        assert(after[after.len() - 1].inputs@ == replaced_inputs(
            before[before.len() - 1].inputs@,
            from,
            to,
        ));
    }
}

/// No gate reads a wire exactly when no slot holds it.
proof fn lemma_graph_reads_zero(gates: Seq<GateData>, w: Wire)
    ensures
        graph_reads(gates, w) == 0 <==> forall|g: int|
            0 <= g < gates.len() ==> !(#[trigger] gates[g]).inputs@.contains(w),
    decreases gates.len(),
{
    if gates.len() > 0 {
        lemma_graph_reads_zero(gates.drop_last(), w);
        lemma_list_reads_zero(gates.last().inputs@, w);
        let init = gates.drop_last();
        assert(gates[gates.len() - 1] == gates.last());
        if forall|g: int| 0 <= g < gates.len() ==> !(#[trigger] gates[g]).inputs@.contains(w) {
            assert forall|g: int| 0 <= g < init.len() implies !(
            #[trigger] init[g]).inputs@.contains(w) by {
                assert(init[g] == gates[g]);
            }
        }
        if forall|g: int| 0 <= g < init.len() ==> !(#[trigger] init[g]).inputs@.contains(w) {
            if !gates.last().inputs@.contains(w) {
                assert forall|g: int| 0 <= g < gates.len() implies !(
                #[trigger] gates[g]).inputs@.contains(w) by {
                    if g < init.len() {
                        assert(init[g] == gates[g]);
                    }
                }
            }
        }
    }
}

/// Replaces a wire in a list of inputs.
fn replace_in_list(inputs: &mut Vec<Wire>, from: Wire, to: Wire) -> (r: usize)
    ensures
        final(inputs)@ == replaced_inputs(old(inputs)@, from, to),
        r == list_reads(old(inputs)@, from),
        r <= old(inputs).len(),
{
    let ghost before = inputs@;
    let mut count: usize = 0;
    let mut i: usize = 0;
    assert(before.take(0) =~= Seq::<Wire>::empty());
    while i < inputs.len()
        invariant
            i <= inputs.len(),
            inputs.len() == before.len(),
            count <= i,
            count == list_reads(before.take(i as int), from),
            forall|k: int|
                0 <= k < before.len() ==> #[trigger] inputs[k] == if k < i && before[k] == from {
                    to
                } else {
                    before[k]
                },
        decreases inputs.len() - i,
    {
        proof {
            assert(before.take(i + 1).drop_last() =~= before.take(i as int));
        }
        if inputs[i] == from {
            inputs.set(i, to);
            count = count + 1;
        }
        i = i + 1;
    }
    assert(before.take(i as int) =~= before);
    assert(inputs@ =~= replaced_inputs(before, from, to));
    count
}

impl GateGraph {
    /// Points every reader of one wire at another, and counts the slots rewritten.
    pub fn replace_wire_with_wire(&mut self, from: Wire, to: Wire) -> (r: usize)
        requires
            graph_reads(old(self).gates@, from) <= usize::MAX,
        ensures
            final(self).n_wires == old(self).n_wires,
            final(self).const_pool == old(self).const_pool,
            gates_replaced(old(self).gates@, final(self).gates@, from, to),
            r == graph_reads(old(self).gates@, from),
    {
        let ghost before = self.gates@;
        let mut count: usize = 0;
        let mut g: usize = 0;
        assert(before.take(0) =~= Seq::<GateData>::empty());
        while g < self.gates.len()
            invariant
                g <= self.gates.len(),
                self.gates.len() == before.len(),
                self.n_wires == old(self).n_wires,
                self.const_pool == old(self).const_pool,
                graph_reads(before, from) <= usize::MAX,
                count == graph_reads(before.take(g as int), from),
                forall|k: int| g <= k < before.len() ==> #[trigger] self.gates[k] == before[k],
                forall|k: int| #![trigger self.gates[k]]
                    0 <= k < g ==> self.gates[k].body == before[k].body && self.gates[k].outputs@
                        == before[k].outputs@ && self.gates[k].imms@ == before[k].imms@
                        && self.gates[k].inputs@ == replaced_inputs(before[k].inputs@, from, to),
            decreases self.gates.len() - g,
        {
            let mut inputs: Vec<Wire> = Vec::new();
            assert(self.gates[g as int] == before[g as int]);
            core::mem::swap(&mut inputs, &mut self.gates[g].inputs);
            proof {
                assert(inputs@ == before[g as int].inputs@);
                assert(before.take(g + 1).drop_last() =~= before.take(g as int));
                lemma_reads_prefix(before, from, g + 1);
            }
            let n = replace_in_list(&mut inputs, from, to);
            count = count + n;
            core::mem::swap(&mut inputs, &mut self.gates[g].inputs);
            g = g + 1;
        }
        assert(before.take(g as int) =~= before);
        count
    }
}

proof fn lemma_reads_prefix(gates: Seq<GateData>, w: Wire, n: int)
    requires
        0 <= n <= gates.len(),
    ensures
        graph_reads(gates.take(n), w) <= graph_reads(gates, w),
    decreases gates.len(),
{
    if n == gates.len() {
        assert(gates.take(n) =~= gates);
    } else {
        lemma_reads_prefix(gates.drop_last(), w, n);
        assert(gates.drop_last().take(n) =~= gates.take(n));
    }
}

/// A graph that differs in its input slots only.
pub open spec fn same_shape(a: &GateGraph, b: &GateGraph) -> bool {
    &&& a.n_wires == b.n_wires
    &&& a.const_pool == b.const_pool
    &&& a.gates.len() == b.gates.len()
    &&& forall|g: int| #![trigger b.gates[g]]
        0 <= g < a.gates.len() ==> b.gates[g].body == a.gates[g].body && b.gates[g].outputs@
            == a.gates[g].outputs@ && b.gates[g].imms@ == a.gates[g].imms@
            && b.gates[g].inputs.len() == a.gates[g].inputs.len()
}

/// Every input slot carries the same value in both graphs.
pub open spec fn same_values(
    a: &GateGraph,
    b: &GateGraph,
    vals: spec_fn(Wire) -> Word,
) -> bool {
    forall|g: int, i: int|
        0 <= g < a.gates.len() && 0 <= i < a.gates[g].inputs.len() ==> vals(
            #[trigger] b.gates[g].inputs@[i],
        ) == vals(a.gates[g].inputs@[i])
}

/// Slots that carry the same values keep the gates satisfied.
proof fn lemma_same_values_hold(a: &GateGraph, b: &GateGraph, vals: spec_fn(Wire) -> Word)
    requires
        same_shape(a, b),
        same_values(a, b, vals),
        a.holds(vals),
    ensures
        b.holds(vals),
{
    assert forall|g: int| 0 <= g < b.gates.len() implies gate_holds(
        #[trigger] &b.gates[g],
        vals,
    ) by {
        let (p, q) = (a.gates[g], b.gates[g]);
        assert(gate_holds(&p, vals));
        if p.inputs.len() > 0 {
            assert(vals(b.gates[g].inputs@[0]) == vals(a.gates[g].inputs@[0]));
        }
        if p.inputs.len() > 1 {
            assert(vals(b.gates[g].inputs@[1]) == vals(a.gates[g].inputs@[1]));
        }
        if p.inputs.len() > 2 {
            assert(vals(b.gates[g].inputs@[2]) == vals(a.gates[g].inputs@[2]));
        }
        assert(q.body == p.body && q.outputs@ == p.outputs@ && q.imms@ == p.imms@);
        if q.body == GateBody::Op(Opcode::Shift) && q.inputs.len() == 1 && q.outputs.len() == 1
            && q.imms.len() == 2 {
            assert forall|k: int| 0 <= k < 64 implies #[trigger] vals(q.outputs@[0]).bit(k)
                == vals(q.inputs@[0]).bit(
                ShiftVariant::at(q.imms@[0] as int).source(k, q.imms@[1] as int),
            ) by {
                assert(p.outputs@.len() == 1 && p.imms@.len() == 2 && p.inputs@.len() == 1);
                assert(vals(p.outputs@[0]).bit(k) == vals(p.inputs@[0]).bit(
                    ShiftVariant::at(p.imms@[0] as int).source(k, p.imms@[1] as int),
                ));
            }
        }
    }
}

/// Rewriting a graph never changes a value: whatever satisfies the old graph puts the same values
/// on every rewritten slot.
pub open spec fn keeps_values(a: &GateGraph, b: &GateGraph) -> bool {
    forall|vals: spec_fn(Wire) -> Word| #[trigger] a.holds(vals) ==> same_values(a, b, vals)
}

/// Value-keeping rewrites compose.
proof fn lemma_keeps_values_trans(a: &GateGraph, b: &GateGraph, c: &GateGraph)
    requires
        same_shape(a, b),
        same_shape(b, c),
        keeps_values(a, b),
        keeps_values(b, c),
    ensures
        same_shape(a, c),
        keeps_values(a, c),
{
    assert forall|vals: spec_fn(Wire) -> Word| #[trigger] a.holds(vals) implies same_values(
        a,
        c,
        vals,
    ) by {
        lemma_same_values_hold(a, b, vals);
        assert(same_values(b, c, vals));
        assert forall|g: int, i: int|
            0 <= g < a.gates.len() && 0 <= i < a.gates[g].inputs.len() implies vals(
            #[trigger] c.gates[g].inputs@[i],
        ) == vals(a.gates[g].inputs@[i]) by {
            assert(b.gates[g].inputs.len() == a.gates[g].inputs.len());
            assert(vals(c.gates[g].inputs@[i]) == vals(b.gates[g].inputs@[i]));
            assert(vals(b.gates[g].inputs@[i]) == vals(a.gates[g].inputs@[i]));
        }
    }
    assert forall|g: int| #![trigger c.gates[g]] 0 <= g < a.gates.len() implies c.gates[g].body
        == a.gates[g].body && c.gates[g].outputs@ == a.gates[g].outputs@ && c.gates[g].imms@
        == a.gates[g].imms@ && c.gates[g].inputs.len() == a.gates[g].inputs.len() by {
        assert(b.gates[g].body == a.gates[g].body);
    }
}

/// Where a list of replacements, applied in order, takes a wire.
pub open spec fn moved_wire(w: Wire, pairs: Seq<(Wire, Wire)>) -> Wire
    decreases pairs.len(),
{
    if pairs.len() == 0 {
        w
    } else {
        let v = moved_wire(w, pairs.drop_last());
        if v == pairs.last().0 {
            pairs.last().1
        } else {
            v
        }
    }
}

/// How often a list of replacements, applied in order, moves a wire.
pub open spec fn wire_moves(w: Wire, pairs: Seq<(Wire, Wire)>) -> nat
    decreases pairs.len(),
{
    if pairs.len() == 0 {
        0
    } else {
        wire_moves(w, pairs.drop_last()) + if pairs.last().0 != pairs.last().1 && moved_wire(
            w,
            pairs.drop_last(),
        ) == pairs.last().0 {
            1nat
        } else {
            0
        }
    }
}

/// How often replacements rewrite the slots of a list.
pub open spec fn list_moves(inputs: Seq<Wire>, pairs: Seq<(Wire, Wire)>) -> nat
    decreases inputs.len(),
{
    if inputs.len() == 0 {
        0
    } else {
        list_moves(inputs.drop_last(), pairs) + wire_moves(inputs.last(), pairs)
    }
}

/// How often replacements rewrite the input slots of gates.
pub open spec fn graph_moves(gates: Seq<GateData>, pairs: Seq<(Wire, Wire)>) -> nat
    decreases gates.len(),
{
    if gates.len() == 0 {
        0
    } else {
        graph_moves(gates.drop_last(), pairs) + list_moves(gates.last().inputs@, pairs)
    }
}

/// The pairs that gates forward, in gate order.
pub open spec fn forward_pairs(
    gates: Seq<GateData>,
    zero: Wire,
    force_committed: Set<u32>,
) -> Seq<(Wire, Wire)>
    decreases gates.len(),
{
    if gates.len() == 0 {
        Seq::empty()
    } else {
        forward_pairs(gates.drop_last(), zero, force_committed) + match zero_pairs(
            &gates.last(),
            zero,
            force_committed,
        ) {
            Some(p) => seq![p.0, p.1],
            None => Seq::empty(),
        }
    }
}

/// The slots one sweep over a graph rewrites.
pub open spec fn sweep_slots(graph: &GateGraph, zero: Wire, force_committed: Set<u32>) -> nat {
    graph_moves(graph.gates@, forward_pairs(graph.gates@, zero, force_committed))
}

/// A graph of a list is swept into the next one.
pub open spec fn sweep_leads(
    graphs: Seq<GateGraph>,
    k: int,
    zero: Wire,
    force_committed: Set<u32>,
) -> bool {
    slots_moved(
        &graphs[k],
        &graphs[k + 1],
        forward_pairs(graphs[k].gates@, zero, force_committed),
    )
}

/// Each graph of a list is the one before it, swept; the first one is given.
pub open spec fn sweeps_from(
    start: &GateGraph,
    graphs: Seq<GateGraph>,
    zero: Wire,
    force_committed: Set<u32>,
) -> bool {
    &&& graphs.len() >= 1
    &&& graphs[0] == *start
    &&& forall|k: int|
        0 <= k < graphs.len() - 1 ==> #[trigger] sweep_leads(graphs, k, zero, force_committed)
}

/// The slots that sweeps over the graphs of a list rewrite, all together.
pub open spec fn total_slots(
    graphs: Seq<GateGraph>,
    zero: Wire,
    force_committed: Set<u32>,
) -> nat
    decreases graphs.len(),
{
    if graphs.len() == 0 {
        0
    } else {
        total_slots(graphs.drop_last(), zero, force_committed) + sweep_slots(
            &graphs.last(),
            zero,
            force_committed,
        )
    }
}

/// However long the sweeps over a graph go on, the slots they rewrite can be counted.
pub open spec fn count_fits(graph: &GateGraph, zero: Wire, force_committed: Set<u32>) -> bool {
    forall|graphs: Seq<GateGraph>| #[trigger]
        sweeps_from(graph, graphs, zero, force_committed) ==> total_slots(
            graphs,
            zero,
            force_committed,
        ) <= usize::MAX
}

/// Sweeps lead from one graph to another and end with one that rewrites nothing; so many slots are
/// rewritten on the way.
pub open spec fn propagated(
    a: &GateGraph,
    b: &GateGraph,
    zero: Wire,
    force_committed: Set<u32>,
    graphs: Seq<GateGraph>,
    count: int,
) -> bool {
    &&& graphs.len() >= 1
    &&& sweeps_from(a, graphs.push(*b), zero, force_committed)
    &&& sweep_slots(&graphs.last(), zero, force_committed) == 0
    &&& count == total_slots(graphs, zero, force_committed)
}

/// One replacement more rewrites the slots that hold its source by then.
proof fn lemma_list_moves_step(inputs: Seq<Wire>, held: Seq<Wire>, pairs: Seq<(Wire, Wire)>)
    requires
        pairs.len() > 0,
        held.len() == inputs.len(),
        forall|i: int|
            0 <= i < inputs.len() ==> #[trigger] held[i] == moved_wire(
                inputs[i],
                pairs.drop_last(),
            ),
    ensures
        list_moves(inputs, pairs) == list_moves(inputs, pairs.drop_last()) + if pairs.last().0
            != pairs.last().1 {
            list_reads(held, pairs.last().0)
        } else {
            0
        },
    decreases inputs.len(),
{
    if inputs.len() > 0 {
        lemma_list_moves_step(inputs.drop_last(), held.drop_last(), pairs);
        assert(held[held.len() - 1] == moved_wire(inputs[inputs.len() - 1], pairs.drop_last()));
    }
}

proof fn lemma_graph_moves_step(
    start: Seq<GateData>,
    held: Seq<GateData>,
    pairs: Seq<(Wire, Wire)>,
)
    requires
        pairs.len() > 0,
        held.len() == start.len(),
        forall|g: int|
            0 <= g < start.len() ==> (#[trigger] held[g]).inputs.len() == start[g].inputs.len(),
        forall|g: int, i: int|
            0 <= g < start.len() && 0 <= i < start[g].inputs.len() ==> (
            #[trigger] held[g].inputs@[i]) == moved_wire(start[g].inputs@[i], pairs.drop_last()),
    ensures
        graph_moves(start, pairs) == graph_moves(start, pairs.drop_last()) + if pairs.last().0
            != pairs.last().1 {
            graph_reads(held, pairs.last().0)
        } else {
            0
        },
    decreases start.len(),
{
    if start.len() > 0 {
        let n = start.len() - 1;
        let (p, q) = (start.drop_last(), held.drop_last());
        assert forall|g: int| 0 <= g < p.len() implies (#[trigger] q[g]).inputs.len()
            == p[g].inputs.len() by {
            assert(q[g] == held[g]);
        }
        assert forall|g: int, i: int|
            0 <= g < p.len() && 0 <= i < p[g].inputs.len() implies (#[trigger] q[g].inputs@[i])
            == moved_wire(p[g].inputs@[i], pairs.drop_last()) by {
            assert(q[g] == held[g]);
            assert(held[g].inputs@[i] == moved_wire(start[g].inputs@[i], pairs.drop_last()));
        }
        lemma_graph_moves_step(p, q, pairs);
        assert(held[n].inputs.len() == start[n].inputs.len());
        assert forall|i: int| 0 <= i < start[n].inputs.len() implies #[trigger] held[n].inputs@[i]
            == moved_wire(start[n].inputs@[i], pairs.drop_last()) by {}
        lemma_list_moves_step(start[n].inputs@, held[n].inputs@, pairs);
    }
}

/// The first replacements of a list rewrite no more than all of them.
proof fn lemma_list_moves_prefix(inputs: Seq<Wire>, pairs: Seq<(Wire, Wire)>)
    requires
        pairs.len() > 0,
    ensures
        list_moves(inputs, pairs.drop_last()) <= list_moves(inputs, pairs),
    decreases inputs.len(),
{
    if inputs.len() > 0 {
        lemma_list_moves_prefix(inputs.drop_last(), pairs);
    }
}

proof fn lemma_graph_moves_last(gates: Seq<GateData>, pairs: Seq<(Wire, Wire)>)
    requires
        pairs.len() > 0,
    ensures
        graph_moves(gates, pairs.drop_last()) <= graph_moves(gates, pairs),
    decreases gates.len(),
{
    if gates.len() > 0 {
        lemma_graph_moves_last(gates.drop_last(), pairs);
        lemma_list_moves_prefix(gates.last().inputs@, pairs);
    }
}

proof fn lemma_graph_moves_prefix(gates: Seq<GateData>, pairs: Seq<(Wire, Wire)>, n: int)
    requires
        0 <= n <= pairs.len(),
    ensures
        graph_moves(gates, pairs.take(n)) <= graph_moves(gates, pairs),
    decreases pairs.len(),
{
    if n == pairs.len() {
        assert(pairs.take(n) =~= pairs);
    } else {
        lemma_graph_moves_prefix(gates, pairs.drop_last(), n);
        lemma_graph_moves_last(gates, pairs);
        assert(pairs.drop_last().take(n) =~= pairs.take(n));
    }
}

/// No replacement rewrites anything at first.
proof fn lemma_list_moves_none(inputs: Seq<Wire>)
    ensures
        list_moves(inputs, Seq::empty()) == 0,
    decreases inputs.len(),
{
    if inputs.len() > 0 {
        lemma_list_moves_none(inputs.drop_last());
    }
}

proof fn lemma_graph_moves_none(gates: Seq<GateData>)
    ensures
        graph_moves(gates, Seq::empty()) == 0,
    decreases gates.len(),
{
    if gates.len() > 0 {
        lemma_graph_moves_none(gates.drop_last());
        lemma_list_moves_none(gates.last().inputs@);
    }
}

/// The second graph is the first with every slot moved.
pub open spec fn slots_moved(a: &GateGraph, b: &GateGraph, pairs: Seq<(Wire, Wire)>) -> bool {
    &&& same_shape(a, b)
    &&& forall|g: int, i: int|
        0 <= g < a.gates.len() && 0 <= i < a.gates[g].inputs.len() ==> (
        #[trigger] b.gates[g].inputs@[i]) == moved_wire(a.gates[g].inputs@[i], pairs)
}

/// A pair one of a graph's gates forwards.
pub open spec fn forwarded(
    graph: &GateGraph,
    zero: Wire,
    force_committed: Set<u32>,
    g: int,
    pair: (Wire, Wire),
) -> bool {
    0 <= g < graph.gates.len() && (zero_pairs(&graph.gates[g], zero, force_committed) matches Some(
        p,
    ) && (pair == p.0 || pair == p.1))
}

/// A pair that some gate of a graph forwards.
pub open spec fn some_forwards(
    graph: &GateGraph,
    zero: Wire,
    force_committed: Set<u32>,
    pair: (Wire, Wire),
) -> bool {
    exists|g: int| forwarded(graph, zero, force_committed, g, pair)
}

/// Every pair of a list is forwarded by one of a graph's gates.
pub open spec fn all_forwarded(
    graph: &GateGraph,
    zero: Wire,
    force_committed: Set<u32>,
    pairs: Seq<(Wire, Wire)>,
) -> bool {
    forall|k: int|
        0 <= k < pairs.len() ==> some_forwards(graph, zero, force_committed, #[trigger] pairs[k])
}

/// Constants are wires of the graph, and the zero wire is one.
pub open spec fn zero_in_pool(graph: &GateGraph, zero: Wire) -> bool {
    &&& graph.const_pool@.contains((Word(0), zero))
    &&& zero.0 < graph.n_wires
}

/// A forwarded pair leads to a lower wire, or from the zero wire to itself.
proof fn lemma_pairs_descend(
    graph: &GateGraph,
    zero: Wire,
    force_committed: Set<u32>,
    g: int,
    pair: (Wire, Wire),
)
    requires
        graph.wf(),
        zero_in_pool(graph, zero),
        forwarded(graph, zero, force_committed, g, pair),
    ensures
        pair.1.0 < pair.0.0 || pair == (zero, zero),
        pair.1.0 < graph.n_wires,
        pair.0 == zero ==> pair.1 == zero,
{
    let gate = graph.gates[g];
    let c = choose|c: int|
        0 <= c < graph.const_pool.len() && graph.const_pool@[c] == (Word(0), zero);
    if gate.outputs.len() > 0 {
        assert(graph.gates[g].outputs[0] != graph.const_pool[c].1);
    }
    if gate.outputs.len() > 1 {
        assert(graph.gates[g].outputs[1] != graph.const_pool[c].1);
    }
    if gate.inputs.len() > 0 && gate.outputs.len() > 0 {
        assert(graph.gates[g].inputs[0].0 < graph.gates[g].outputs[0].0);
        assert(graph.gates[g].inputs[0].0 < graph.n_wires);
    }
    if gate.inputs.len() > 1 && gate.outputs.len() > 0 {
        assert(graph.gates[g].inputs[1].0 < graph.gates[g].outputs[0].0);
        assert(graph.gates[g].inputs[1].0 < graph.n_wires);
    }
    if gate.inputs.len() > 1 && gate.outputs.len() > 1 {
        assert(graph.gates[g].inputs[0].0 < graph.gates[g].outputs[1].0);
        assert(graph.gates[g].inputs[1].0 < graph.gates[g].outputs[1].0);
    }
}

/// A move leads downwards and keeps the zero wire in place.
proof fn lemma_moved_descends(
    graph: &GateGraph,
    zero: Wire,
    force_committed: Set<u32>,
    pairs: Seq<(Wire, Wire)>,
    w: Wire,
)
    requires
        graph.wf(),
        zero_in_pool(graph, zero),
        all_forwarded(graph, zero, force_committed, pairs),
    ensures
        moved_wire(w, pairs).0 <= w.0,
        w == zero ==> moved_wire(w, pairs) == zero,
    decreases pairs.len(),
{
    if pairs.len() > 0 {
        let init = pairs.drop_last();
        assert forall|k: int| 0 <= k < init.len() implies some_forwards(graph, zero, force_committed, #[trigger] init[k]) by {
            assert(init[k] == pairs[k]);
        }
        lemma_moved_descends(graph, zero, force_committed, init, w);
        let last = pairs[pairs.len() - 1];
        let g = choose|g: int| forwarded(graph, zero, force_committed, g, last);
        lemma_pairs_descend(graph, zero, force_committed, g, last);
    }
}

/// A graph whose slots were moved along forwarded pairs is well formed.
proof fn lemma_moved_wf(
    a: &GateGraph,
    b: &GateGraph,
    zero: Wire,
    force_committed: Set<u32>,
    pairs: Seq<(Wire, Wire)>,
)
    requires
        a.wf(),
        zero_in_pool(a, zero),
        all_forwarded(a, zero, force_committed, pairs),
        slots_moved(a, b, pairs),
    ensures
        b.wf(),
{
    assert forall|g: int, i: int|
        0 <= g < b.gates.len() && 0 <= i < b.gates[g].inputs.len() implies (
    #[trigger] b.gates[g].inputs[i]).0 < b.n_wires by {
        assert(a.gates[g].inputs[i].0 < a.n_wires);
        lemma_moved_descends(a, zero, force_committed, pairs, a.gates[g].inputs@[i]);
        assert(b.gates[g].inputs@[i] == moved_wire(a.gates[g].inputs@[i], pairs));
    }
    assert forall|g: int, i: int, o: int|
        0 <= g < b.gates.len() && 0 <= i < b.gates[g].inputs.len() && 0 <= o
            < b.gates[g].outputs.len() implies (#[trigger] b.gates[g].inputs[i]).0 < (
    #[trigger] b.gates[g].outputs[o]).0 by {
        assert(b.gates[g].outputs@ == a.gates[g].outputs@);
        assert(a.gates[g].inputs[i].0 < a.gates[g].outputs[o].0);
        lemma_moved_descends(a, zero, force_committed, pairs, a.gates[g].inputs@[i]);
        assert(b.gates[g].inputs@[i] == moved_wire(a.gates[g].inputs@[i], pairs));
    }
    assert forall|g: int, o: int, c: int|
        0 <= g < b.gates.len() && 0 <= o < b.gates[g].outputs.len() && 0 <= c
            < b.const_pool.len() implies (#[trigger] b.gates[g].outputs[o]) != (
    #[trigger] b.const_pool[c]).1 by {
        assert(b.gates[g].outputs@ == a.gates[g].outputs@);
        assert(a.gates[g].outputs[o] != a.const_pool[c].1);
    }
    assert forall|g: int, o: int|
        0 <= g < b.gates.len() && 0 <= o < b.gates[g].outputs.len() implies (
    #[trigger] b.gates[g].outputs[o]).0 < b.n_wires by {
        assert(b.gates[g].outputs@ == a.gates[g].outputs@);
        assert(a.gates[g].outputs[o].0 < a.n_wires);
    }
    assert forall|g: int| 0 <= g < b.gates.len() implies shift_imms_wf(
        #[trigger] &b.gates[g],
    ) by {
        assert(shift_imms_wf(&a.gates[g]));
        assert(b.gates[g].imms@ == a.gates[g].imms@);
    }
}

/// The value of the zero wire.
proof fn lemma_zero_value(graph: &GateGraph, zero: Wire, vals: spec_fn(Wire) -> Word)
    requires
        zero_in_pool(graph, zero),
        graph.holds(vals),
    ensures
        vals(zero) == Word(0),
{
    let c = choose|c: int|
        0 <= c < graph.const_pool.len() && graph.const_pool@[c] == (Word(0), zero);
    assert(vals(graph.const_pool[c].1) == graph.const_pool[c].0);
}

/// What satisfies the first graph puts the same value on a moved wire.
proof fn lemma_moved_keeps(
    a: &GateGraph,
    zero: Wire,
    force_committed: Set<u32>,
    pairs: Seq<(Wire, Wire)>,
    vals: spec_fn(Wire) -> Word,
    w: Wire,
)
    requires
        a.wf(),
        zero_in_pool(a, zero),
        all_forwarded(a, zero, force_committed, pairs),
        a.holds(vals),
    ensures
        vals(moved_wire(w, pairs)) == vals(w),
    decreases pairs.len(),
{
    if pairs.len() > 0 {
        let init = pairs.drop_last();
        assert forall|k: int| 0 <= k < init.len() implies some_forwards(a, zero, force_committed, #[trigger] init[k]) by {
            assert(init[k] == pairs[k]);
        }
        lemma_moved_keeps(a, zero, force_committed, init, vals, w);
        let last = pairs[pairs.len() - 1];
        let g = choose|g: int| forwarded(a, zero, force_committed, g, last);
        lemma_zero_value(a, zero, vals);
        assert(shift_imms_wf(&a.gates[g]));
        assert(gate_holds(&a.gates[g], vals));
        lemma_pairs_agree(&a.gates[g], zero, force_committed, vals);
    }
}

/// What satisfies the second graph puts the same value on a moved wire: whatever forwarded a pair
/// is still there, reading wires below the one it forwards.
proof fn lemma_moved_keeps_back(
    a: &GateGraph,
    b: &GateGraph,
    zero: Wire,
    force_committed: Set<u32>,
    pairs: Seq<(Wire, Wire)>,
    n: int,
    vals: spec_fn(Wire) -> Word,
    w: Wire,
)
    requires
        a.wf(),
        zero_in_pool(a, zero),
        all_forwarded(a, zero, force_committed, pairs),
        slots_moved(a, b, pairs),
        b.holds(vals),
        0 <= n <= pairs.len(),
    ensures
        vals(moved_wire(w, pairs.take(n))) == vals(w),
    decreases w.0, n,
{
    if n > 0 {
        let init = pairs.take(n - 1);
        assert(pairs.take(n).drop_last() =~= init);
        lemma_moved_keeps_back(a, b, zero, force_committed, pairs, n - 1, vals, w);
        assert forall|k: int| 0 <= k < init.len() implies some_forwards(a, zero, force_committed, #[trigger] init[k]) by {
            assert(init[k] == pairs[k]);
        }
        lemma_moved_descends(a, zero, force_committed, init, w);
        let last = pairs[n - 1];
        if moved_wire(w, init) == last.0 {
            let g = choose|g: int| forwarded(a, zero, force_committed, g, last);
            lemma_pairs_descend(a, zero, force_committed, g, last);
            if last.0 != last.1 {
                lemma_moved_keeps_back(
                    a,
                    b,
                    zero,
                    force_committed,
                    pairs,
                    pairs.len() as int,
                    vals,
                    last.1,
                );
                assert(pairs.take(pairs.len() as int) =~= pairs);
                lemma_zero_value(b, zero, vals);
                lemma_moved_descends(a, zero, force_committed, pairs, zero);
                lemma_moved_wf(a, b, zero, force_committed, pairs);
                assert(shift_imms_wf(&b.gates[g]));
                assert(gate_holds(&b.gates[g], vals));
                let (p, q) = (a.gates[g], b.gates[g]);
                assert(q.outputs@ == p.outputs@);
                if p.inputs.len() > 0 {
                    assert(b.gates[g].inputs@[0] == moved_wire(a.gates[g].inputs@[0], pairs));
                }
                if p.inputs.len() > 1 {
                    assert(b.gates[g].inputs@[1] == moved_wire(a.gates[g].inputs@[1], pairs));
                }
                assert(zero_pairs(&p, zero, force_committed) is Some);
                assert forall|o: int| 0 <= o < q.outputs@.len() implies !force_committed.contains(
                    (#[trigger] q.outputs@[o]).0,
                ) by {
                    assert(p.outputs@[o] == q.outputs@[o]);
                }
                lemma_pairs_agree(&b.gates[g], zero, force_committed, vals);
            }
        }
    }
}

/// Moving slots along forwarded pairs keeps every value, in both directions.
proof fn lemma_moved_graph(
    a: &GateGraph,
    b: &GateGraph,
    zero: Wire,
    force_committed: Set<u32>,
    pairs: Seq<(Wire, Wire)>,
)
    requires
        a.wf(),
        zero_in_pool(a, zero),
        all_forwarded(a, zero, force_committed, pairs),
        slots_moved(a, b, pairs),
    ensures
        keeps_values(a, b),
        keeps_values(b, a),
{
    assert forall|vals: spec_fn(Wire) -> Word| #[trigger] a.holds(vals) implies same_values(
        a,
        b,
        vals,
    ) by {
        assert forall|g: int, i: int|
            0 <= g < a.gates.len() && 0 <= i < a.gates[g].inputs.len() implies vals(
            #[trigger] b.gates[g].inputs@[i],
        ) == vals(a.gates[g].inputs@[i]) by {
            lemma_moved_keeps(a, zero, force_committed, pairs, vals, a.gates[g].inputs@[i]);
        }
    }
    assert forall|vals: spec_fn(Wire) -> Word| #[trigger] b.holds(vals) implies same_values(
        b,
        a,
        vals,
    ) by {
        assert forall|g: int, i: int|
            0 <= g < b.gates.len() && 0 <= i < b.gates[g].inputs.len() implies vals(
            #[trigger] a.gates[g].inputs@[i],
        ) == vals(b.gates[g].inputs@[i]) by {
            assert(pairs.take(pairs.len() as int) =~= pairs);
            assert(b.gates[g].inputs@[i] == moved_wire(a.gates[g].inputs@[i], pairs));
            lemma_moved_keeps_back(
                a,
                b,
                zero,
                force_committed,
                pairs,
                pairs.len() as int,
                vals,
                a.gates[g].inputs@[i],
            );
        }
    }
}

/// Every wire the gates forward has lost its readers.
pub open spec fn nothing_left(graph: &GateGraph, zero: Wire, force_committed: Set<u32>) -> bool {
    forall|g: int, pair: (Wire, Wire)| #[trigger]
        forwarded(graph, zero, force_committed, g, pair) ==> pair.0 == pair.1 || graph_reads(
            graph.gates@,
            pair.0,
        ) == 0
}

/// The pairs all gates forward.
fn gather_pairs(graph: &GateGraph, zero: Wire, force_committed: &WireSet) -> (r: Vec<
    (Wire, Wire),
>)
    ensures
        r@ == forward_pairs(graph.gates@, zero, wires_in(*force_committed)),
        all_forwarded(graph, zero, wires_in(*force_committed), r@),
        forall|g: int, pair: (Wire, Wire)| #[trigger]
            forwarded(graph, zero, wires_in(*force_committed), g, pair) ==> r@.contains(pair),
{
    let ghost fc = wires_in(*force_committed);
    let mut r: Vec<(Wire, Wire)> = Vec::new();
    let mut g: usize = 0;
    assert(graph.gates@.take(0) =~= Seq::<GateData>::empty());
    while g < graph.gates.len()
        invariant
            g <= graph.gates.len(),
            r@ == forward_pairs(graph.gates@.take(g as int), zero, fc),
            fc == wires_in(*force_committed),
            all_forwarded(graph, zero, fc, r@),
            forall|k: int, pair: (Wire, Wire)| #[trigger]
                forwarded(graph, zero, fc, k, pair) && k < g ==> r@.contains(pair),
        decreases graph.gates.len() - g,
    {
        let ghost before = r@;
        proof {
            assert(graph.gates@.take(g + 1).drop_last() =~= graph.gates@.take(g as int));
        }
        if let Some(p) = zero_identity(&graph.gates[g], zero, force_committed) {
            r.push(p.0);
            r.push(p.1);
            proof {
                assert(forwarded(graph, zero, fc, g as int, p.0));
                assert(forwarded(graph, zero, fc, g as int, p.1));
                assert(r@[before.len() as int] == p.0);
                assert(r@[before.len() as int + 1] == p.1);
                assert(r@ =~= before + seq![p.0, p.1]);
                assert forall|k: int| 0 <= k < r@.len() implies some_forwards(graph, zero, fc, #[trigger] r@[k]) by {
                    if k < before.len() {
                        assert(r@[k] == before[k]);
                    }
                }
            }
        }
        proof {
            assert(r@ =~= forward_pairs(graph.gates@.take(g + 1), zero, fc));
            assert forall|k: int, pair: (Wire, Wire)| #[trigger]
                forwarded(graph, zero, fc, k, pair) && k < g + 1 implies r@.contains(pair) by {
                if k < g {
                    let j = choose|j: int| 0 <= j < before.len() && before[j] == pair;
                    assert(r@[j] == pair);
                }
            }
        }
        g = g + 1;
    }
    assert(graph.gates@.take(g as int) =~= graph.gates@);
    r
}

/// The reads of a graph depend on its slots alone.
proof fn lemma_same_reads(a: Seq<GateData>, b: Seq<GateData>, w: Wire)
    requires
        a.len() == b.len(),
        forall|g: int| 0 <= g < a.len() ==> (#[trigger] b[g]).inputs@ == a[g].inputs@,
    ensures
        graph_reads(a, w) == graph_reads(b, w),
    decreases a.len(),
{
    if a.len() > 0 {
        let (p, q) = (a.drop_last(), b.drop_last());
        assert forall|g: int| 0 <= g < p.len() implies (#[trigger] q[g]).inputs@ == p[g].inputs@ by {
            assert(q[g] == b[g]);
        }
        lemma_same_reads(p, q, w);
        assert(b[b.len() - 1].inputs@ == a[a.len() - 1].inputs@);
    }
}

/// A wire nothing reads can be replaced without effect.
proof fn lemma_unread_replaced(before: Seq<GateData>, after: Seq<GateData>, from: Wire, to: Wire)
    requires
        gates_replaced(before, after, from, to),
        graph_reads(before, from) == 0,
    ensures
        forall|g: int| 0 <= g < before.len() ==> (#[trigger] after[g]).inputs@ == before[g].inputs@,
{
    lemma_graph_reads_zero(before, from);
    assert forall|g: int| 0 <= g < before.len() implies (#[trigger] after[g]).inputs@
        == before[g].inputs@ by {
        assert(!before[g].inputs@.contains(from));
        assert(after[g].inputs@ == replaced_inputs(before[g].inputs@, from, to));
        assert(after[g].inputs@ =~= before[g].inputs@);
    }
}

/// One sweep: every pair the gates forward at its start is replaced, in gate order.
fn sweep_once(graph: &mut GateGraph, zero: Wire, force_committed: &WireSet) -> (r: usize)
    requires
        old(graph).wf(),
        zero_in_pool(old(graph), zero),
        sweep_slots(old(graph), zero, wires_in(*force_committed)) <= usize::MAX,
    ensures
        final(graph).wf(),
        r == sweep_slots(old(graph), zero, wires_in(*force_committed)),
        slots_moved(
            old(graph),
            final(graph),
            forward_pairs(old(graph).gates@, zero, wires_in(*force_committed)),
        ),
        nothing_left(old(graph), zero, wires_in(*force_committed)) ==> r == 0,
        same_shape(old(graph), final(graph)),
        keeps_values(old(graph), final(graph)),
        keeps_values(final(graph), old(graph)),
        graph_weight(final(graph).gates@) + r <= graph_weight(old(graph).gates@),
        r == 0 ==> nothing_left(final(graph), zero, wires_in(*force_committed)),
        r == 0 ==> forall|g: int|
            0 <= g < old(graph).gates.len() ==> (#[trigger] final(graph).gates[g]).inputs@ == old(graph).gates[g].inputs@,
{
    let ghost start = *graph;
    let ghost fc = wires_in(*force_committed);
    let pairs = gather_pairs(graph, zero, force_committed);
    let mut rewritten: usize = 0;
    let mut k: usize = 0;
    proof {
        assert(pairs@.take(0) =~= Seq::<(Wire, Wire)>::empty());
        lemma_graph_moves_none(start.gates@);
    }
    while k < pairs.len()
        invariant
            k <= pairs.len(),
            start.wf(),
            zero_in_pool(&start, zero),
            all_forwarded(&start, zero, fc, pairs@),
            slots_moved(&start, graph, pairs@.take(k as int)),
            graph_weight(graph.gates@) + rewritten <= graph_weight(start.gates@),
            rewritten == graph_moves(start.gates@, pairs@.take(k as int)),
            graph_moves(start.gates@, pairs@) <= usize::MAX,
            nothing_left(&start, zero, fc) ==> rewritten == 0,
            rewritten == 0 ==> forall|j: int|
                0 <= j < k ==> (#[trigger] pairs@[j]).0 == pairs@[j].1 || graph_reads(
                    start.gates@,
                    pairs@[j].0,
                ) == 0,
            rewritten == 0 ==> forall|g: int|
                0 <= g < start.gates.len() ==> (#[trigger] graph.gates[g]).inputs@
                    == start.gates[g].inputs@,
        decreases pairs.len() - k,
    {
        let (from, to) = pairs[k];
        let ghost mid = *graph;
        proof {
            assert(pairs@[k as int] == (from, to));
            assert(some_forwards(&start, zero, fc, pairs@[k as int]));
            let g = choose|g: int| forwarded(&start, zero, fc, g, pairs@[k as int]);
            lemma_pairs_descend(&start, zero, fc, g, (from, to));
            assert(pairs@.take(k + 1).drop_last() =~= pairs@.take(k as int));
            assert forall|g: int, i: int|
                0 <= g < start.gates@.len() && 0 <= i < start.gates@[g].inputs.len() implies (
            #[trigger] mid.gates@[g].inputs@[i]) == moved_wire(
                start.gates@[g].inputs@[i],
                pairs@.take(k as int),
            ) by {
                assert(mid.gates[g].inputs@[i] == moved_wire(
                    start.gates[g].inputs@[i],
                    pairs@.take(k as int),
                ));
            }
            assert forall|g: int| 0 <= g < start.gates@.len() implies (
            #[trigger] mid.gates@[g]).inputs.len() == start.gates@[g].inputs.len() by {
                assert(mid.gates[g].body == start.gates[g].body);
            }
            lemma_graph_moves_step(start.gates@, mid.gates@, pairs@.take(k + 1));
            lemma_graph_moves_prefix(start.gates@, pairs@, k + 1);
            if nothing_left(&start, zero, fc) {
                assert(forwarded(&start, zero, fc, g, (from, to)));
            }
        }
        if from != to {
            proof {
                if rewritten == 0 {
                    lemma_same_reads(start.gates@, mid.gates@, from);
                }
            }
            let n = graph.replace_wire_with_wire(from, to);
            proof {
                lemma_graph_replaced(mid.gates@, graph.gates@, from, to);
                if n == 0 {
                    lemma_unread_replaced(mid.gates@, graph.gates@, from, to);
                }
                assert forall|g: int| #![trigger graph.gates[g]] 0 <= g < start.gates.len() implies
                    graph.gates[g].body == start.gates[g].body && graph.gates[g].outputs@
                    == start.gates[g].outputs@ && graph.gates[g].imms@ == start.gates[g].imms@
                    && graph.gates[g].inputs.len() == start.gates[g].inputs.len() by {
                    assert(graph.gates@[g].inputs@ == replaced_inputs(
                        mid.gates@[g].inputs@,
                        from,
                        to,
                    ));
                    assert(mid.gates[g].body == start.gates[g].body);
                }
                assert forall|g: int, i: int|
                    0 <= g < start.gates.len() && 0 <= i < start.gates[g].inputs.len() implies (
                #[trigger] graph.gates[g].inputs@[i]) == moved_wire(
                    start.gates[g].inputs@[i],
                    pairs@.take(k + 1),
                ) by {
                    assert(graph.gates@[g].inputs@ == replaced_inputs(
                        mid.gates@[g].inputs@,
                        from,
                        to,
                    ));
                    assert(mid.gates[g].inputs@[i] == moved_wire(
                        start.gates[g].inputs@[i],
                        pairs@.take(k as int),
                    ));
                }
            }
            rewritten = rewritten + n;
        } else {
            proof {
                assert forall|g: int, i: int|
                    0 <= g < start.gates.len() && 0 <= i < start.gates[g].inputs.len() implies (
                #[trigger] graph.gates[g].inputs@[i]) == moved_wire(
                    start.gates[g].inputs@[i],
                    pairs@.take(k + 1),
                ) by {}
            }
        }
        k = k + 1;
    }
    proof {
        assert(pairs@.take(k as int) =~= pairs@);
        assert(rewritten == sweep_slots(&start, zero, fc));
        lemma_moved_wf(&start, graph, zero, fc, pairs@);
        lemma_moved_graph(&start, graph, zero, fc, pairs@);
        if rewritten == 0 {
            assert forall|g: int, pair: (Wire, Wire)| #[trigger]
                forwarded(graph, zero, fc, g, pair) implies pair.0 == pair.1 || graph_reads(
                graph.gates@,
                pair.0,
            ) == 0 by {
                assert(graph.gates[g].inputs@ == start.gates[g].inputs@);
                assert(graph.gates[g].outputs@ == start.gates[g].outputs@);
                assert(forwarded(&start, zero, fc, g, pair));
                let j = choose|j: int| 0 <= j < pairs@.len() && pairs@[j] == pair;
                assert(pairs@[j] == pair);
                lemma_same_reads(start.gates@, graph.gates@, pair.0);
            }
        }
    }
    rewritten
}

/// Rewrites every gate that a zero operand turns into the identity, and counts the slots
/// rewritten.
///
/// Such a gate's result is already carried by another wire, so its readers are pointed at that
/// wire. Zeros travel, so the sweeps repeat until one changes nothing. The rewritten graph accepts
/// exactly the assignments the first one did, with the same value on every slot.
pub fn zero_propagation(graph: &mut GateGraph, force_committed: &WireSet) -> (r: usize)
    requires
        old(graph).wf(),
        old(graph).constant(Word(0)) matches Some(zero) ==> count_fits(
            old(graph),
            zero,
            wires_in(*force_committed),
        ),
    ensures
        final(graph).wf(),
        old(graph).constant(Word(0)) matches Some(zero) ==> exists|graphs: Seq<GateGraph>| #[trigger]
            propagated(
                old(graph),
                final(graph),
                zero,
                wires_in(*force_committed),
                graphs,
                r as int,
            ),
        old(graph).constant(Word(0)) matches Some(zero) && nothing_left(
            old(graph),
            zero,
            wires_in(*force_committed),
        ) ==> r == 0,
        same_shape(old(graph), final(graph)),
        keeps_values(old(graph), final(graph)),
        keeps_values(final(graph), old(graph)),
        r == 0 ==> forall|g: int|
            0 <= g < old(graph).gates.len() ==> (#[trigger] final(graph).gates[g]).inputs@ == old(graph).gates[g].inputs@,
        old(graph).constant(Word(0)) is None ==> r == 0 && *final(graph) == *old(graph),
        old(graph).constant(Word(0)) matches Some(zero) ==> nothing_left(
            final(graph),
            zero,
            wires_in(*force_committed),
        ),
{
    let ghost start = *graph;
    let ghost fc = wires_in(*force_committed);
    proof {
        assert(keeps_values(&start, graph));
    }
    let zero = match graph.find_constant(Word::zero()) {
        Some(zero) => zero,
        None => {
            return 0;
        },
    };
    let mut total: usize = 0;
    let ghost mut graphs: Seq<GateGraph> = Seq::empty();
    loop
        invariant
            graph.wf(),
            sweeps_from(&start, graphs.push(*graph), zero, fc),
            total == total_slots(graphs, zero, fc),
            count_fits(&start, zero, fc),
            nothing_left(&start, zero, fc) ==> total == 0,
            nothing_left(&start, zero, fc) ==> nothing_left(graph, zero, fc),
            same_shape(&start, graph),
            keeps_values(&start, graph),
            keeps_values(graph, &start),
            zero_in_pool(graph, zero),
            fc == wires_in(*force_committed),
            total == 0 ==> forall|g: int|
                0 <= g < start.gates.len() ==> (#[trigger] graph.gates[g]).inputs@
                    == start.gates[g].inputs@,
        ensures
            graph.wf(),
            same_shape(&start, graph),
            keeps_values(&start, graph),
            keeps_values(graph, &start),
            total == 0 ==> forall|g: int|
                0 <= g < start.gates.len() ==> (#[trigger] graph.gates[g]).inputs@
                    == start.gates[g].inputs@,
            nothing_left(graph, zero, fc),
            nothing_left(&start, zero, fc) ==> total == 0,
            propagated(&start, graph, zero, fc, graphs, total as int),
        decreases graph_weight(graph.gates@),
    {
        let ghost mid = *graph;
        let ghost before = graphs;
        proof {
            let now = before.push(mid);
            assert(now.drop_last() =~= before);
            assert(sweeps_from(&start, now, zero, fc));
        }
        let rewritten = sweep_once(graph, zero, force_committed);
        proof {
            graphs = before.push(mid);
            let (now, next) = (graphs, graphs.push(*graph));
            assert forall|k: int| 0 <= k < next.len() - 1 implies #[trigger] sweep_leads(
                next,
                k,
                zero,
                fc,
            ) by {
                assert(next[k] == now[k]);
                if k < now.len() - 1 {
                    assert(next[k + 1] == now[k + 1]);
                    assert(sweep_leads(now, k, zero, fc));
                }
            }
            assert(next[0] == now[0]);
            lemma_keeps_values_trans(&start, &mid, graph);
            lemma_same_shape_back(&start, &mid);
            lemma_same_shape_back(&mid, graph);
            lemma_keeps_values_trans(graph, &mid, &start);
        }
        total = total + rewritten;
        if rewritten == 0 {
            break;
        }
    }
    total
}

proof fn lemma_same_shape_back(a: &GateGraph, b: &GateGraph)
    requires
        same_shape(a, b),
    ensures
        same_shape(b, a),
{
    assert forall|g: int| #![trigger a.gates[g]] 0 <= g < b.gates.len() implies a.gates[g].body
        == b.gates[g].body && a.gates[g].outputs@ == b.gates[g].outputs@ && a.gates[g].imms@
        == b.gates[g].imms@ && a.gates[g].inputs.len() == b.gates[g].inputs.len() by {
        assert(b.gates[g].body == a.gates[g].body);
    }
}

/// A slot's wire number falls with every move.
proof fn lemma_moves_descend(
    graph: &GateGraph,
    zero: Wire,
    force_committed: Set<u32>,
    pairs: Seq<(Wire, Wire)>,
    w: Wire,
)
    requires
        graph.wf(),
        zero_in_pool(graph, zero),
        all_forwarded(graph, zero, force_committed, pairs),
    ensures
        moved_wire(w, pairs).0 + wire_moves(w, pairs) <= w.0,
    decreases pairs.len(),
{
    if pairs.len() > 0 {
        let init = pairs.drop_last();
        assert forall|k: int| 0 <= k < init.len() implies some_forwards(
            graph,
            zero,
            force_committed,
            #[trigger] init[k],
        ) by {
            assert(init[k] == pairs[k]);
        }
        lemma_moves_descend(graph, zero, force_committed, init, w);
        let last = pairs[pairs.len() - 1];
        let g = choose|g: int| forwarded(graph, zero, force_committed, g, last);
        lemma_pairs_descend(graph, zero, force_committed, g, last);
    }
}

proof fn lemma_list_moves_descend(
    graph: &GateGraph,
    zero: Wire,
    force_committed: Set<u32>,
    pairs: Seq<(Wire, Wire)>,
    inputs: Seq<Wire>,
    held: Seq<Wire>,
)
    requires
        graph.wf(),
        zero_in_pool(graph, zero),
        all_forwarded(graph, zero, force_committed, pairs),
        held.len() == inputs.len(),
        forall|i: int|
            0 <= i < inputs.len() ==> #[trigger] held[i] == moved_wire(inputs[i], pairs),
    ensures
        list_weight(held) + list_moves(inputs, pairs) <= list_weight(inputs),
    decreases inputs.len(),
{
    if inputs.len() > 0 {
        lemma_list_moves_descend(
            graph,
            zero,
            force_committed,
            pairs,
            inputs.drop_last(),
            held.drop_last(),
        );
        lemma_moves_descend(graph, zero, force_committed, pairs, inputs.last());
        assert(held[held.len() - 1] == moved_wire(inputs[inputs.len() - 1], pairs));
    }
}

proof fn lemma_graph_moves_descend(
    graph: &GateGraph,
    zero: Wire,
    force_committed: Set<u32>,
    pairs: Seq<(Wire, Wire)>,
    start: Seq<GateData>,
    held: Seq<GateData>,
)
    requires
        graph.wf(),
        zero_in_pool(graph, zero),
        all_forwarded(graph, zero, force_committed, pairs),
        held.len() == start.len(),
        forall|g: int|
            0 <= g < start.len() ==> (#[trigger] held[g]).inputs.len() == start[g].inputs.len(),
        forall|g: int, i: int|
            0 <= g < start.len() && 0 <= i < start[g].inputs.len() ==> (
            #[trigger] held[g].inputs@[i]) == moved_wire(start[g].inputs@[i], pairs),
    ensures
        graph_weight(held) + graph_moves(start, pairs) <= graph_weight(start),
    decreases start.len(),
{
    if start.len() > 0 {
        let n = start.len() - 1;
        let (p, q) = (start.drop_last(), held.drop_last());
        assert forall|g: int| 0 <= g < p.len() implies (#[trigger] q[g]).inputs.len()
            == p[g].inputs.len() by {
            assert(q[g] == held[g]);
        }
        assert forall|g: int, i: int|
            0 <= g < p.len() && 0 <= i < p[g].inputs.len() implies (#[trigger] q[g].inputs@[i])
            == moved_wire(p[g].inputs@[i], pairs) by {
            assert(q[g] == held[g]);
            assert(held[g].inputs@[i] == moved_wire(start[g].inputs@[i], pairs));
        }
        lemma_graph_moves_descend(graph, zero, force_committed, pairs, p, q);
        assert(held[n].inputs.len() == start[n].inputs.len());
        assert forall|i: int| 0 <= i < start[n].inputs.len() implies #[trigger] held[n].inputs@[i]
            == moved_wire(start[n].inputs@[i], pairs) by {}
        lemma_list_moves_descend(
            graph,
            zero,
            force_committed,
            pairs,
            start[n].inputs@,
            held[n].inputs@,
        );
    }
}

/// The pairs gates forward are forwarded.
proof fn lemma_forward_pairs(
    graph: &GateGraph,
    zero: Wire,
    force_committed: Set<u32>,
    n: int,
)
    requires
        0 <= n <= graph.gates.len(),
    ensures
        all_forwarded(
            graph,
            zero,
            force_committed,
            forward_pairs(graph.gates@.take(n), zero, force_committed),
        ),
    decreases n,
{
    if n > 0 {
        lemma_forward_pairs(graph, zero, force_committed, n - 1);
        let gates = graph.gates@.take(n);
        assert(gates.drop_last() =~= graph.gates@.take(n - 1));
        let init = forward_pairs(gates.drop_last(), zero, force_committed);
        let pairs = forward_pairs(gates, zero, force_committed);
        assert forall|k: int| 0 <= k < pairs.len() implies some_forwards(
            graph,
            zero,
            force_committed,
            #[trigger] pairs[k],
        ) by {
            if k < init.len() {
                assert(pairs[k] == init[k]);
            } else {
                assert(forwarded(graph, zero, force_committed, n - 1, pairs[k]));
            }
        }
    }
}

/// Every rewritten slot gets a lower wire, so that no more are rewritten than the wire numbers of
/// all slots add up to; where that sum is an index, the count is one.
pub proof fn rewrites_fit(graph: &GateGraph, zero: Wire, force_committed: Set<u32>)
    requires
        graph.wf(),
        zero_in_pool(graph, zero),
        graph_weight(graph.gates@) <= usize::MAX,
    ensures
        count_fits(graph, zero, force_committed),
{
    assert forall|graphs: Seq<GateGraph>| #[trigger]
        sweeps_from(graph, graphs, zero, force_committed) implies total_slots(
        graphs,
        zero,
        force_committed,
    ) <= usize::MAX by {
        lemma_total_descends(graph, zero, force_committed, graphs);
    }
}

proof fn lemma_total_descends(
    graph: &GateGraph,
    zero: Wire,
    force_committed: Set<u32>,
    graphs: Seq<GateGraph>,
)
    requires
        graph.wf(),
        zero_in_pool(graph, zero),
        sweeps_from(graph, graphs, zero, force_committed),
    ensures
        total_slots(graphs, zero, force_committed) <= graph_weight(graph.gates@),
        graphs.last().wf(),
        zero_in_pool(&graphs.last(), zero),
        total_slots(graphs.drop_last(), zero, force_committed) + graph_weight(
            graphs.last().gates@,
        ) <= graph_weight(graph.gates@),
    decreases graphs.len(),
{
    let init = graphs.drop_last();
    let n = graphs.len() - 1;
    let last = graphs[n];
    if n > 0 {
        assert forall|k: int| 0 <= k < init.len() - 1 implies #[trigger] sweep_leads(
            init,
            k,
            zero,
            force_committed,
        ) by {
            assert(sweep_leads(graphs, k, zero, force_committed));
            assert(init[k] == graphs[k] && init[k + 1] == graphs[k + 1]);
        }
        lemma_total_descends(graph, zero, force_committed, init);
        let prev = graphs[n - 1];
        assert(init.last() == prev);
        assert(sweep_leads(graphs, n - 1, zero, force_committed));
        lemma_sweep_descends(&prev, &last, zero, force_committed);
    } else {
        assert(init =~= Seq::<GateGraph>::empty());
        assert(total_slots(init, zero, force_committed) == 0);
    }
    assert(graphs.last() == last);
    assert(total_slots(graphs, zero, force_committed) == total_slots(init, zero, force_committed)
        + sweep_slots(&last, zero, force_committed));
    let pairs = forward_pairs(last.gates@, zero, force_committed);
    lemma_forward_pairs(&last, zero, force_committed, last.gates.len() as int);
    assert(last.gates@.take(last.gates.len() as int) =~= last.gates@);
    lemma_graph_moves_at_most(&last, zero, force_committed, pairs, last.gates@);
}

/// A sweep takes at least as much weight off as it rewrites slots.
proof fn lemma_sweep_descends(
    a: &GateGraph,
    b: &GateGraph,
    zero: Wire,
    force_committed: Set<u32>,
)
    requires
        a.wf(),
        zero_in_pool(a, zero),
        slots_moved(a, b, forward_pairs(a.gates@, zero, force_committed)),
    ensures
        b.wf(),
        zero_in_pool(b, zero),
        sweep_slots(a, zero, force_committed) + graph_weight(b.gates@) <= graph_weight(a.gates@),
{
    let pairs = forward_pairs(a.gates@, zero, force_committed);
    lemma_forward_pairs(a, zero, force_committed, a.gates.len() as int);
    assert(a.gates@.take(a.gates.len() as int) =~= a.gates@);
    lemma_moved_wf(a, b, zero, force_committed, pairs);
    assert forall|g: int| 0 <= g < a.gates@.len() implies (#[trigger] b.gates@[g]).inputs.len()
        == a.gates@[g].inputs.len() by {
        assert(b.gates[g].body == a.gates[g].body);
    }
    assert forall|g: int, i: int|
        0 <= g < a.gates@.len() && 0 <= i < a.gates@[g].inputs.len() implies (
    #[trigger] b.gates@[g].inputs@[i]) == moved_wire(a.gates@[g].inputs@[i], pairs) by {
        assert(b.gates[g].inputs@[i] == moved_wire(a.gates[g].inputs@[i], pairs));
    }
    lemma_graph_moves_descend(a, zero, force_committed, pairs, a.gates@, b.gates@);
}

/// The slots of a list move no more often than its weight.
proof fn lemma_list_moves_at_most(
    graph: &GateGraph,
    zero: Wire,
    force_committed: Set<u32>,
    pairs: Seq<(Wire, Wire)>,
    inputs: Seq<Wire>,
)
    requires
        graph.wf(),
        zero_in_pool(graph, zero),
        all_forwarded(graph, zero, force_committed, pairs),
    ensures
        list_moves(inputs, pairs) <= list_weight(inputs),
    decreases inputs.len(),
{
    if inputs.len() > 0 {
        lemma_list_moves_at_most(graph, zero, force_committed, pairs, inputs.drop_last());
        lemma_moves_descend(graph, zero, force_committed, pairs, inputs.last());
    }
}

proof fn lemma_graph_moves_at_most(
    graph: &GateGraph,
    zero: Wire,
    force_committed: Set<u32>,
    pairs: Seq<(Wire, Wire)>,
    gates: Seq<GateData>,
)
    requires
        graph.wf(),
        zero_in_pool(graph, zero),
        all_forwarded(graph, zero, force_committed, pairs),
    ensures
        graph_moves(gates, pairs) <= graph_weight(gates),
    decreases gates.len(),
{
    if gates.len() > 0 {
        lemma_graph_moves_at_most(graph, zero, force_committed, pairs, gates.drop_last());
        lemma_list_moves_at_most(graph, zero, force_committed, pairs, gates.last().inputs@);
    }
}

/// Zero propagation never changes what a circuit accepts: an assignment satisfies the rewritten
/// graph exactly when it satisfies the first one.
pub proof fn rewriting_accepts_the_same(
    a: &GateGraph,
    b: &GateGraph,
    vals: spec_fn(Wire) -> Word,
)
    requires
        same_shape(a, b),
        keeps_values(a, b),
        keeps_values(b, a),
    ensures
        a.holds(vals) <==> b.holds(vals),
{
    lemma_same_shape_back(a, b);
    if a.holds(vals) {
        lemma_same_values_hold(a, b, vals);
    }
    if b.holds(vals) {
        lemma_same_values_hold(b, a, vals);
    }
}

} // verus!
