//! Emitting single operations, and what a grown graph says of the one it grew from.

use vstd::arithmetic::power2::lemma2_to64;
use crate::constraint_system::ShiftVariant;
use crate::frontend::graph::{GateBody, GateData, GateGraph, Opcode, gate_holds};
use crate::frontend::wire_set::Wire;
use crate::math::subset::{bits_value, index_bit, lemma_bit64_is_index_bit, lemma_bits_value};
use crate::word::Word;
use vstd::prelude::*;

verus! {

/// Two assignments that agree on the first wires.
pub open spec fn agree(a: spec_fn(Wire) -> Word, b: spec_fn(Wire) -> Word, n: int) -> bool {
    forall|w: Wire| w.0 < n ==> #[trigger] a(w) == b(w)
}

/// A graph that grew without constraining anything that was there.
///
/// What satisfies the grown graph satisfies the first one, and what satisfies the first one can be
/// continued on the new wires to satisfy the grown one.
pub open spec fn conservative(a: &GateGraph, b: &GateGraph) -> bool {
    &&& b.wf()
    &&& a.n_wires <= b.n_wires
    &&& forall|vals: spec_fn(Wire) -> Word| #[trigger] b.holds(vals) ==> a.holds(vals)
    &&& forall|vals: spec_fn(Wire) -> Word|
        a.holds(vals) ==> #[trigger] continued(a, b, vals)
}

/// An assignment continues on a grown graph.
pub open spec fn continued(a: &GateGraph, b: &GateGraph, vals: spec_fn(Wire) -> Word) -> bool {
    exists|more: spec_fn(Wire) -> Word| agree(vals, more, a.n_wires as int) && #[trigger] b.holds(more)
}

/// A graph has one gate more, and the gates it had.
pub open spec fn gate_added(a: &GateGraph, b: &GateGraph, opcode: Opcode, inputs: Seq<Wire>) -> bool {
    &&& b.gates.len() == a.gates.len() + 1
    &&& forall|g: int| 0 <= g < a.gates.len() ==> #[trigger] b.gates[g] == a.gates[g]
    &&& b.gates[a.gates.len() as int].body == GateBody::Op(opcode)
    &&& b.gates[a.gates.len() as int].inputs@ == inputs
}

/// Every gate a graph has over another is an exclusive-or.
pub open spec fn only_sums_added(a: &GateGraph, b: &GateGraph) -> bool {
    &&& a.gates.len() <= b.gates.len()
    &&& forall|g: int| 0 <= g < a.gates.len() ==> #[trigger] b.gates[g] == a.gates[g]
    &&& forall|g: int|
        a.gates.len() <= g < b.gates.len() ==> (#[trigger] b.gates[g]).body == GateBody::Op(
            Opcode::Bxor,
        )
}

/// A graph has grown conservatively from itself.
pub proof fn lemma_conservative_same(a: &GateGraph)
    requires
        a.wf(),
    ensures
        conservative(a, a),
{
    assert forall|vals: spec_fn(Wire) -> Word| a.holds(vals) implies #[trigger] continued(
        a,
        a,
        vals,
    ) by {
        assert(agree(vals, vals, a.n_wires as int));
    }
}

/// Conservative growth composes.
pub proof fn lemma_conservative_trans(a: &GateGraph, b: &GateGraph, c: &GateGraph)
    requires
        conservative(a, b),
        conservative(b, c),
    ensures
        conservative(a, c),
{
    assert forall|vals: spec_fn(Wire) -> Word| a.holds(vals) implies #[trigger] continued(
        a,
        c,
        vals,
    ) by {
        assert(continued(a, b, vals));
        let mid = choose|more: spec_fn(Wire) -> Word|
            agree(vals, more, a.n_wires as int) && #[trigger] b.holds(more);
        assert(continued(b, c, mid));
        let end = choose|more: spec_fn(Wire) -> Word|
            agree(mid, more, b.n_wires as int) && #[trigger] c.holds(more);
        assert forall|w: Wire| w.0 < a.n_wires implies #[trigger] vals(w) == end(w) by {
            assert(vals(w) == mid(w));
        }
        assert(agree(vals, end, a.n_wires as int) && c.holds(end));
    }
    assert forall|vals: spec_fn(Wire) -> Word| #[trigger] c.holds(vals) implies a.holds(vals) by {
        assert(b.holds(vals));
    }
}

/// Whether a gate is satisfied depends on the values of its own wires.
proof fn lemma_gate_agrees(
    gate: &GateData,
    a: spec_fn(Wire) -> Word,
    b: spec_fn(Wire) -> Word,
)
    requires
        forall|i: int| 0 <= i < gate.inputs@.len() ==> a(#[trigger] gate.inputs@[i]) == b(gate.inputs@[i]),
        forall|o: int|
            0 <= o < gate.outputs@.len() ==> a(#[trigger] gate.outputs@[o]) == b(gate.outputs@[o]),
        gate_holds(gate, a),
    ensures
        gate_holds(gate, b),
{
    let (x, z) = (gate.inputs@, gate.outputs@);
    if x.len() > 0 {
        assert(a(x[0]) == b(x[0]));
    }
    if x.len() > 1 {
        assert(a(x[1]) == b(x[1]));
    }
    if x.len() > 2 {
        assert(a(x[2]) == b(x[2]));
    }
    if z.len() > 0 {
        assert(a(z[0]) == b(z[0]));
    }
    if z.len() > 1 {
        assert(a(z[1]) == b(z[1]));
    }
    if gate.body == GateBody::Op(Opcode::Shift) && x.len() == 1 && z.len() == 1 && gate.imms@.len()
        == 2 {
        assert forall|k: int| 0 <= k < 64 implies #[trigger] b(z[0]).bit(k) == b(x[0]).bit(
            ShiftVariant::at(gate.imms@[0] as int).source(k, gate.imms@[1] as int),
        ) by {
            assert(a(z[0]).bit(k) == a(x[0]).bit(
                ShiftVariant::at(gate.imms@[0] as int).source(k, gate.imms@[1] as int),
            ));
        }
    }
}

/// Whether a graph is satisfied depends on the values of its own wires.
pub proof fn lemma_graph_agrees(
    graph: &GateGraph,
    a: spec_fn(Wire) -> Word,
    b: spec_fn(Wire) -> Word,
)
    requires
        graph.wf(),
        agree(a, b, graph.n_wires as int),
        graph.holds(a),
    ensures
        graph.holds(b),
{
    assert forall|c: int| 0 <= c < graph.const_pool.len() implies b(
        (#[trigger] graph.const_pool[c]).1,
    ) == graph.const_pool[c].0 by {
        assert(a(graph.const_pool[c].1) == graph.const_pool[c].0);
    }
    assert forall|g: int| 0 <= g < graph.gates.len() implies gate_holds(
        #[trigger] &graph.gates[g],
        b,
    ) by {
        assert(gate_holds(&graph.gates[g], a));
        let gate = graph.gates[g];
        assert forall|i: int| 0 <= i < gate.inputs@.len() implies a(#[trigger] gate.inputs@[i])
            == b(gate.inputs@[i]) by {
            assert(graph.gates[g].inputs[i].0 < graph.n_wires);
        }
        assert forall|o: int| 0 <= o < gate.outputs@.len() implies a(#[trigger] gate.outputs@[o])
            == b(gate.outputs@[o]) by {
            assert(graph.gates[g].outputs[o].0 < graph.n_wires);
        }
        lemma_gate_agrees(&gate, a, b);
    }
}

/// A word shifted, as a value.
pub open spec fn shifted_word(variant: ShiftVariant, amount: int, word: Word) -> Word {
    Word(bits_value(|k: int| word.bit(variant.source(k, amount)), 64) as u64)
}

/// The bits of a shifted word.
pub proof fn lemma_shifted_word(variant: ShiftVariant, amount: int, word: Word)
    ensures
        forall|k: int|
            0 <= k < 64 ==> #[trigger] shifted_word(variant, amount, word).bit(k) == word.bit(
                variant.source(k, amount),
            ),
{
    let f = |k: int| word.bit(variant.source(k, amount));
    lemma2_to64();
    lemma_bits_value(f, 64);
    let v = bits_value(f, 64) as u64;
    assert forall|k: int| 0 <= k < 64 implies #[trigger] shifted_word(
        variant,
        amount,
        word,
    ).bit(k) == word.bit(variant.source(k, amount)) by {
        lemma_bit64_is_index_bit(v, k);
        assert(index_bit(bits_value(f, 64), k) == f(k));
    }
}

/// What a shift gate says of one bit.
proof fn lemma_shift_gate(gate: &GateData, vals: spec_fn(Wire) -> Word, k: int)
    requires
        gate.body == GateBody::Op(Opcode::Shift),
        gate.inputs@.len() == 1,
        gate.outputs@.len() == 1,
        gate.imms@.len() == 2,
        gate_holds(gate, vals),
        0 <= k < 64,
    ensures
        vals(gate.outputs@[0]).bit(k) == vals(gate.inputs@[0]).bit(
            ShiftVariant::at(gate.imms@[0] as int).source(k, gate.imms@[1] as int),
        ),
{
    let (x, z) = (gate.inputs@, gate.outputs@);
    assert(x.len() == 1 && z.len() == 1 && gate.imms@.len() == 2);
    assert(forall|j: int| 0 <= j < 64 ==> #[trigger] vals(z[0]).bit(j) == vals(x[0]).bit(
        ShiftVariant::at(gate.imms@[0] as int).source(j, gate.imms@[1] as int),
    ));
    assert(vals(z[0]).bit(k) == vals(x[0]).bit(
        ShiftVariant::at(gate.imms@[0] as int).source(k, gate.imms@[1] as int),
    ));
}

/// A graph with one gate more.
pub open spec fn one_gate_more(a: &GateGraph, b: &GateGraph) -> bool {
    &&& b.const_pool == a.const_pool
    &&& b.gates.len() == a.gates.len() + 1
    &&& forall|g: int| 0 <= g < a.gates.len() ==> #[trigger] b.gates[g] == a.gates[g]
}

/// What a graph with one gate more says.
pub proof fn lemma_one_gate_more(a: &GateGraph, b: &GateGraph, vals: spec_fn(Wire) -> Word)
    requires
        one_gate_more(a, b),
    ensures
        b.holds(vals) <==> a.holds(vals) && gate_holds(&b.gates[a.gates.len() as int], vals),
{
    let n = a.gates.len() as int;
    if b.holds(vals) {
        assert forall|g: int| 0 <= g < a.gates.len() implies gate_holds(
            #[trigger] &a.gates[g],
            vals,
        ) by {
            assert(gate_holds(&b.gates[g], vals));
        }
        assert(gate_holds(&b.gates[n], vals));
    }
    if a.holds(vals) && gate_holds(&b.gates[n], vals) {
        assert forall|g: int| 0 <= g < b.gates.len() implies gate_holds(
            #[trigger] &b.gates[g],
            vals,
        ) by {
            if g < n {
                assert(gate_holds(&a.gates[g], vals));
            }
        }
    }
}

/// A gate whose only output is a new wire constrains nothing that was there.
proof fn lemma_fresh_output(
    a: &GateGraph,
    b: &GateGraph,
    f: spec_fn(spec_fn(Wire) -> Word) -> Word,
)
    requires
        a.wf(),
        b.wf(),
        one_gate_more(a, b),
        b.n_wires == a.n_wires + 1,
        forall|vals: spec_fn(Wire) -> Word|
            #![trigger f(vals)]
            gate_holds(
                &b.gates[a.gates.len() as int],
                |w: Wire|
                    if w.0 == a.n_wires {
                        f(vals)
                    } else {
                        vals(w)
                    },
            ),
    ensures
        conservative(a, b),
{
    assert forall|vals: spec_fn(Wire) -> Word| #[trigger] b.holds(vals) implies a.holds(vals) by {
        lemma_one_gate_more(a, b, vals);
    }
    assert forall|vals: spec_fn(Wire) -> Word| a.holds(vals) implies #[trigger] continued(
        a,
        b,
        vals,
    ) by {
        let more = |w: Wire|
            if w.0 == a.n_wires {
                f(vals)
            } else {
                vals(w)
            };
        assert(agree(vals, more, a.n_wires as int));
        lemma_graph_agrees(a, vals, more);
        lemma_one_gate_more(a, b, more);
    }
}

impl GateGraph {
    /// One word shifted by a constant amount.
    pub fn shift(&mut self, x: Wire, variant: ShiftVariant, amount: u32) -> (r: Wire)
        requires
            old(self).wf(),
            old(self).n_wires < u32::MAX - 1,
            x.0 < old(self).n_wires,
            amount < 64,
        ensures
            conservative(old(self), final(self)),
            r.0 == old(self).n_wires,
            final(self).n_wires == old(self).n_wires + 1,
            forall|vals: spec_fn(Wire) -> Word| #[trigger]
                final(self).holds(vals) ==> forall|k: int|
                    0 <= k < 64 ==> #[trigger] vals(r).bit(k) == vals(x).bit(
                        variant.source(k, amount as int),
                    ),
    {
        let mut inputs: Vec<Wire> = Vec::new();
        inputs.push(x);
        let mut imms: Vec<u32> = Vec::new();
        imms.push(variant.to_index() as u32);
        imms.push(amount);
        let outputs = self.emit_gate(GateBody::Op(Opcode::Shift), inputs, 1, imms);
        let r = outputs[0];
        proof {
            let gate = self.gates[old(self).gates.len() as int];
            assert(ShiftVariant::at(gate.imms@[0] as int) == variant);
            let f = |vals: spec_fn(Wire) -> Word| shifted_word(variant, amount as int, vals(x));
            assert forall|vals: spec_fn(Wire) -> Word| #![trigger f(vals)] gate_holds(
                &gate,
                |w: Wire|
                    if w.0 == old(self).n_wires {
                        f(vals)
                    } else {
                        vals(w)
                    },
            ) by {
                lemma_shifted_word(variant, amount as int, vals(x));
            }
            lemma_fresh_output(old(self), self, f);
            assert forall|vals: spec_fn(Wire) -> Word| #[trigger] self.holds(
                vals,
            ) implies forall|k: int|
                0 <= k < 64 ==> #[trigger] vals(r).bit(k) == vals(x).bit(
                    variant.source(k, amount as int),
                ) by {
                lemma_one_gate_more(old(self), self, vals);
                assert(gate_holds(&gate, vals));
                assert(gate.inputs@ =~= seq![x] && gate.outputs@ =~= seq![r]);
                assert(gate.imms@.len() == 2 && gate.imms@[1] == amount);
                assert(gate.body == GateBody::Op(Opcode::Shift));
                assert forall|k: int| 0 <= k < 64 implies #[trigger] vals(r).bit(k) == vals(x).bit(
                    variant.source(k, amount as int),
                ) by {
                    lemma_shift_gate(&gate, vals, k);
                }
            }
        }
        r
    }

    /// The exclusive-or of two words.
    pub fn bxor(&mut self, x: Wire, y: Wire) -> (r: Wire)
        requires
            old(self).wf(),
            old(self).n_wires < u32::MAX - 1,
            x.0 < old(self).n_wires,
            y.0 < old(self).n_wires,
        ensures
            conservative(old(self), final(self)),
            r.0 == old(self).n_wires,
            final(self).n_wires == old(self).n_wires + 1,
            gate_added(old(self), final(self), Opcode::Bxor, seq![x, y]),
            forall|vals: spec_fn(Wire) -> Word| #[trigger]
                final(self).holds(vals) ==> vals(r).0 == vals(x).0 ^ vals(y).0,
    {
        let mut inputs: Vec<Wire> = Vec::new();
        inputs.push(x);
        inputs.push(y);
        assert(inputs@ =~= seq![x, y]);
        let outputs = self.emit_gate(GateBody::Op(Opcode::Bxor), inputs, 1, Vec::new());
        let r = outputs[0];
        proof {
            let gate = self.gates[old(self).gates.len() as int];
            let f = |vals: spec_fn(Wire) -> Word| Word(vals(x).0 ^ vals(y).0);
            lemma_fresh_output(old(self), self, f);
            assert forall|vals: spec_fn(Wire) -> Word| #[trigger] self.holds(vals) implies vals(r).0
                == vals(x).0 ^ vals(y).0 by {
                lemma_one_gate_more(old(self), self, vals);
                assert(gate_holds(&gate, vals));
            }
        }
        r
    }

    /// The conjunction of two words.
    pub fn band(&mut self, x: Wire, y: Wire) -> (r: Wire)
        requires
            old(self).wf(),
            old(self).n_wires < u32::MAX - 1,
            x.0 < old(self).n_wires,
            y.0 < old(self).n_wires,
        ensures
            conservative(old(self), final(self)),
            r.0 == old(self).n_wires,
            final(self).n_wires == old(self).n_wires + 1,
            gate_added(old(self), final(self), Opcode::Band, seq![x, y]),
            forall|vals: spec_fn(Wire) -> Word| #[trigger]
                final(self).holds(vals) ==> vals(r).0 == vals(x).0 & vals(y).0,
    {
        let mut inputs: Vec<Wire> = Vec::new();
        inputs.push(x);
        inputs.push(y);
        assert(inputs@ =~= seq![x, y]);
        let outputs = self.emit_gate(GateBody::Op(Opcode::Band), inputs, 1, Vec::new());
        let r = outputs[0];
        proof {
            let gate = self.gates[old(self).gates.len() as int];
            let f = |vals: spec_fn(Wire) -> Word| Word(vals(x).0 & vals(y).0);
            lemma_fresh_output(old(self), self, f);
            assert forall|vals: spec_fn(Wire) -> Word| #[trigger] self.holds(vals) implies vals(r).0
                == vals(x).0 & vals(y).0 by {
                lemma_one_gate_more(old(self), self, vals);
                assert(gate_holds(&gate, vals));
            }
        }
        r
    }

    /// One of two words, the first where the top bit of the condition is set.
    pub fn select(&mut self, cond: Wire, x: Wire, y: Wire) -> (r: Wire)
        requires
            old(self).wf(),
            old(self).n_wires < u32::MAX - 1,
            cond.0 < old(self).n_wires,
            x.0 < old(self).n_wires,
            y.0 < old(self).n_wires,
        ensures
            conservative(old(self), final(self)),
            r.0 == old(self).n_wires,
            final(self).n_wires == old(self).n_wires + 1,
            forall|vals: spec_fn(Wire) -> Word| #[trigger]
                final(self).holds(vals) ==> vals(r) == if vals(cond).bit(63) {
                    vals(x)
                } else {
                    vals(y)
                },
    {
        let mut inputs: Vec<Wire> = Vec::new();
        inputs.push(cond);
        inputs.push(x);
        inputs.push(y);
        let outputs = self.emit_gate(GateBody::Op(Opcode::Select), inputs, 1, Vec::new());
        let r = outputs[0];
        proof {
            let gate = self.gates[old(self).gates.len() as int];
            let f = |vals: spec_fn(Wire) -> Word|
                if vals(cond).bit(63) {
                    vals(x)
                } else {
                    vals(y)
                };
            lemma_fresh_output(old(self), self, f);
            assert forall|vals: spec_fn(Wire) -> Word| #[trigger] self.holds(vals) implies vals(r)
                == if vals(cond).bit(63) {
                vals(x)
            } else {
                vals(y)
            } by {
                lemma_one_gate_more(old(self), self, vals);
                assert(gate_holds(&gate, vals));
            }
        }
        r
    }

    /// The wire of a constant.
    pub fn constant_wire(&mut self, word: Word) -> (r: Wire)
        requires
            old(self).wf(),
            old(self).n_wires < u32::MAX - 1,
        ensures
            conservative(old(self), final(self)),
            r.0 < final(self).n_wires,
            final(self).n_wires <= old(self).n_wires + 1,
            final(self).gates == old(self).gates,
            forall|vals: spec_fn(Wire) -> Word| #[trigger]
                final(self).holds(vals) ==> vals(r) == word,
    {
        let r = self.add_constant(word);
        proof {
            let c = choose|c: int|
                0 <= c < self.const_pool.len() && self.const_pool@[c] == (word, r);
            assert(self.const_pool[c].1.0 < self.n_wires);
            assert forall|vals: spec_fn(Wire) -> Word| #[trigger] self.holds(vals) implies vals(r)
                == word by {
                assert(vals(self.const_pool[c].1) == self.const_pool[c].0);
            }
            if old(self).constant(word) is Some {
                lemma_conservative_same(old(self));
            } else {
                lemma_new_constant(old(self), self, word);
            }
        }
        r
    }

    /// States that two words are the same.
    pub fn assert_eq(&mut self, x: Wire, y: Wire)
        requires
            old(self).wf(),
            x.0 < old(self).n_wires,
            y.0 < old(self).n_wires,
        ensures
            final(self).wf(),
            final(self).n_wires == old(self).n_wires,
            final(self).const_pool == old(self).const_pool,
            gate_added(old(self), final(self), Opcode::AssertEq, seq![x, y]),
            forall|vals: spec_fn(Wire) -> Word| #[trigger]
                final(self).holds(vals) <==> old(self).holds(vals) && vals(x) == vals(y),
    {
        let mut inputs: Vec<Wire> = Vec::new();
        inputs.push(x);
        inputs.push(y);
        assert(inputs@ =~= seq![x, y]);
        let _ = self.emit_gate(GateBody::Op(Opcode::AssertEq), inputs, 0, Vec::new());
        proof {
            assert forall|vals: spec_fn(Wire) -> Word| #[trigger] self.holds(vals) <==> old(self).holds(vals) && vals(x) == vals(y) by {
                lemma_one_gate_more(old(self), self, vals);
            }
        }
    }

    /// States that a word is zero.
    pub fn assert_zero(&mut self, x: Wire)
        requires
            old(self).wf(),
            x.0 < old(self).n_wires,
        ensures
            final(self).wf(),
            final(self).n_wires == old(self).n_wires,
            final(self).const_pool == old(self).const_pool,
            gate_added(old(self), final(self), Opcode::AssertZero, seq![x]),
            forall|vals: spec_fn(Wire) -> Word| #[trigger]
                final(self).holds(vals) <==> old(self).holds(vals) && vals(x) == Word(0),
    {
        let mut inputs: Vec<Wire> = Vec::new();
        inputs.push(x);
        assert(inputs@ =~= seq![x]);
        let _ = self.emit_gate(GateBody::Op(Opcode::AssertZero), inputs, 0, Vec::new());
        proof {
            assert forall|vals: spec_fn(Wire) -> Word| #[trigger] self.holds(vals) <==> old(self).holds(vals) && vals(x) == Word(0) by {
                lemma_one_gate_more(old(self), self, vals);
            }
        }
    }

    /// A wire that nothing constrains.
    pub fn free_wire(&mut self) -> (r: Wire)
        requires
            old(self).wf(),
            old(self).n_wires < u32::MAX - 1,
        ensures
            conservative(old(self), final(self)),
            r.0 == old(self).n_wires,
            final(self).n_wires == old(self).n_wires + 1,
            final(self).gates == old(self).gates,
            final(self).const_pool == old(self).const_pool,
            forall|vals: spec_fn(Wire) -> Word| #[trigger]
                final(self).holds(vals) <==> old(self).holds(vals),
    {
        let r = self.add_wire();
        proof {
            assert forall|vals: spec_fn(Wire) -> Word| old(self).holds(
                vals,
            ) implies #[trigger] continued(old(self), self, vals) by {
                assert(agree(vals, vals, old(self).n_wires as int));
                assert(self.holds(vals));
            }
        }
        r
    }
}

/// A new constant constrains nothing that was there.
proof fn lemma_new_constant(a: &GateGraph, b: &GateGraph, word: Word)
    requires
        a.wf(),
        b.wf(),
        b.gates == a.gates,
        b.n_wires == a.n_wires + 1,
        b.const_pool@ == a.const_pool@.push((word, Wire(a.n_wires))),
    ensures
        conservative(a, b),
{
    assert forall|vals: spec_fn(Wire) -> Word| #[trigger] b.holds(vals) implies a.holds(vals) by {
        assert forall|c: int| 0 <= c < a.const_pool.len() implies vals(
            (#[trigger] a.const_pool[c]).1,
        ) == a.const_pool[c].0 by {
            assert(b.const_pool[c] == a.const_pool[c]);
            assert(vals(b.const_pool[c].1) == b.const_pool[c].0);
        }
        assert forall|g: int| 0 <= g < a.gates.len() implies gate_holds(
            #[trigger] &a.gates[g],
            vals,
        ) by {
            assert(gate_holds(&b.gates[g], vals));
        }
    }
    assert forall|vals: spec_fn(Wire) -> Word| a.holds(vals) implies #[trigger] continued(
        a,
        b,
        vals,
    ) by {
        let more = |w: Wire|
            if w.0 == a.n_wires {
                word
            } else {
                vals(w)
            };
        assert(agree(vals, more, a.n_wires as int));
        lemma_graph_agrees(a, vals, more);
        assert forall|c: int| 0 <= c < b.const_pool.len() implies more(
            (#[trigger] b.const_pool[c]).1,
        ) == b.const_pool[c].0 by {
            if c < a.const_pool.len() {
                assert(b.const_pool[c] == a.const_pool[c]);
                assert(more(a.const_pool[c].1) == a.const_pool[c].0);
            }
        }
        assert forall|g: int| 0 <= g < b.gates.len() implies gate_holds(
            #[trigger] &b.gates[g],
            more,
        ) by {
            assert(gate_holds(&a.gates[g], more));
        }
        assert(b.holds(more));
    }
}

} // verus!
