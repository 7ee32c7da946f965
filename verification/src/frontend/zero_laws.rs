//! How often zero propagation rewrites a slot does not depend on how it is run.

use crate::frontend::graph::{GateData, GateGraph};
use crate::frontend::wire_set::Wire;
use crate::frontend::zero_fold::{
    forward_pairs, graph_moves, list_moves, moved_wire, propagated, same_shape, slots_moved,
    sweep_leads, sweep_slots, sweeps_from, total_slots, wire_moves, zero_pairs,
};
use vstd::prelude::*;

verus! {

/// Two graphs with the same gates and the same wires in every slot.
pub open spec fn same_slots(a: &GateGraph, b: &GateGraph) -> bool {
    &&& same_shape(a, b)
    &&& forall|g: int|
        0 <= g < a.gates.len() ==> (#[trigger] b.gates[g]).inputs@ == a.gates[g].inputs@
}

/// Graphs with the same slots forward the same pairs and move the same slots.
proof fn lemma_same_sweep(
    a: Seq<GateData>,
    b: Seq<GateData>,
    zero: Wire,
    force_committed: Set<u32>,
    pairs: Seq<(Wire, Wire)>,
)
    requires
        a.len() == b.len(),
        forall|g: int|
            0 <= g < a.len() ==> (#[trigger] b[g]).inputs@ == a[g].inputs@ && b[g].body == a[g].body
                && b[g].outputs@ == a[g].outputs@,
    ensures
        forward_pairs(a, zero, force_committed) == forward_pairs(b, zero, force_committed),
        graph_moves(a, pairs) == graph_moves(b, pairs),
    decreases a.len(),
{
    if a.len() > 0 {
        let (p, q) = (a.drop_last(), b.drop_last());
        assert forall|g: int| 0 <= g < p.len() implies (#[trigger] q[g]).inputs@ == p[g].inputs@
            && q[g].body == p[g].body && q[g].outputs@ == p[g].outputs@ by {
            assert(q[g] == b[g]);
        }
        lemma_same_sweep(p, q, zero, force_committed, pairs);
        let n = a.len() - 1;
        assert(b[n].inputs@ == a[n].inputs@);
        assert(zero_pairs(&a[n], zero, force_committed) == zero_pairs(
            &b[n],
            zero,
            force_committed,
        ));
    }
}

/// Sweeping graphs with the same slots rewrites as many and leaves the same slots.
proof fn lemma_same_step(
    a: &GateGraph,
    b: &GateGraph,
    c: &GateGraph,
    d: &GateGraph,
    zero: Wire,
    force_committed: Set<u32>,
)
    requires
        same_slots(a, b),
        slots_moved(a, c, forward_pairs(a.gates@, zero, force_committed)),
        slots_moved(b, d, forward_pairs(b.gates@, zero, force_committed)),
    ensures
        sweep_slots(a, zero, force_committed) == sweep_slots(b, zero, force_committed),
        same_slots(c, d),
{
    let pairs = forward_pairs(a.gates@, zero, force_committed);
    assert forall|g: int| 0 <= g < a.gates@.len() implies (#[trigger] b.gates@[g]).inputs@
        == a.gates@[g].inputs@ && b.gates@[g].body == a.gates@[g].body && b.gates@[g].outputs@
        == a.gates@[g].outputs@ by {
        assert(b.gates[g].inputs@ == a.gates[g].inputs@);
    }
    lemma_same_sweep(a.gates@, b.gates@, zero, force_committed, pairs);
    assert forall|g: int| #![trigger d.gates[g]] 0 <= g < c.gates.len() implies d.gates[g].body
        == c.gates[g].body && d.gates[g].outputs@ == c.gates[g].outputs@ && d.gates[g].imms@
        == c.gates[g].imms@ && d.gates[g].inputs@ == c.gates[g].inputs@ by {
        assert(b.gates[g].inputs@ == a.gates[g].inputs@);
        assert(c.gates[g].body == a.gates[g].body);
        assert(d.gates[g].body == b.gates[g].body);
        assert forall|i: int| 0 <= i < c.gates[g].inputs@.len() implies d.gates[g].inputs@[i]
            == c.gates[g].inputs@[i] by {
            assert(c.gates[g].inputs@[i] == moved_wire(a.gates[g].inputs@[i], pairs));
            assert(d.gates[g].inputs@[i] == moved_wire(b.gates[g].inputs@[i], pairs));
        }
        assert(d.gates[g].inputs@ =~= c.gates[g].inputs@);
    }
}

/// A wire that does not move stays.
proof fn lemma_unmoved(w: Wire, pairs: Seq<(Wire, Wire)>)
    requires
        wire_moves(w, pairs) == 0,
    ensures
        moved_wire(w, pairs) == w,
    decreases pairs.len(),
{
    if pairs.len() > 0 {
        lemma_unmoved(w, pairs.drop_last());
    }
}

proof fn lemma_list_unmoved(inputs: Seq<Wire>, pairs: Seq<(Wire, Wire)>, i: int)
    requires
        list_moves(inputs, pairs) == 0,
        0 <= i < inputs.len(),
    ensures
        moved_wire(inputs[i], pairs) == inputs[i],
    decreases inputs.len(),
{
    if i == inputs.len() - 1 {
        lemma_unmoved(inputs[i], pairs);
    } else {
        lemma_list_unmoved(inputs.drop_last(), pairs, i);
    }
}

proof fn lemma_graph_unmoved(gates: Seq<GateData>, pairs: Seq<(Wire, Wire)>, g: int, i: int)
    requires
        graph_moves(gates, pairs) == 0,
        0 <= g < gates.len(),
        0 <= i < gates[g].inputs.len(),
    ensures
        moved_wire(gates[g].inputs@[i], pairs) == gates[g].inputs@[i],
    decreases gates.len(),
{
    if g == gates.len() - 1 {
        lemma_list_unmoved(gates[g].inputs@, pairs, i);
    } else {
        lemma_graph_unmoved(gates.drop_last(), pairs, g, i);
    }
}

/// A sweep that rewrites nothing leaves every slot as it was.
proof fn lemma_idle_sweep(a: &GateGraph, b: &GateGraph, zero: Wire, force_committed: Set<u32>)
    requires
        slots_moved(a, b, forward_pairs(a.gates@, zero, force_committed)),
        sweep_slots(a, zero, force_committed) == 0,
    ensures
        same_slots(a, b),
{
    let pairs = forward_pairs(a.gates@, zero, force_committed);
    assert forall|g: int| 0 <= g < a.gates.len() implies (#[trigger] b.gates[g]).inputs@
        == a.gates[g].inputs@ by {
        assert(b.gates[g].body == a.gates[g].body);
        assert forall|i: int| 0 <= i < a.gates[g].inputs@.len() implies b.gates[g].inputs@[i]
            == a.gates[g].inputs@[i] by {
            assert(b.gates[g].inputs@[i] == moved_wire(a.gates[g].inputs@[i], pairs));
            lemma_graph_unmoved(a.gates@, pairs, g, i);
        }
        assert(b.gates[g].inputs@ =~= a.gates[g].inputs@);
    }
}

/// Runs of sweeps from one graph agree as far as both go.
proof fn lemma_runs_agree(
    start: &GateGraph,
    zero: Wire,
    force_committed: Set<u32>,
    p: Seq<GateGraph>,
    q: Seq<GateGraph>,
    n: int,
)
    requires
        sweeps_from(start, p, zero, force_committed),
        sweeps_from(start, q, zero, force_committed),
        0 <= n < p.len(),
        n < q.len(),
    ensures
        same_slots(&p[n], &q[n]),
        total_slots(p.take(n), zero, force_committed) == total_slots(
            q.take(n),
            zero,
            force_committed,
        ),
    decreases n,
{
    if n > 0 {
        lemma_runs_agree(start, zero, force_committed, p, q, n - 1);
        assert(sweep_leads(p, n - 1, zero, force_committed));
        assert(sweep_leads(q, n - 1, zero, force_committed));
        lemma_same_step(&p[n - 1], &q[n - 1], &p[n], &q[n], zero, force_committed);
        assert(p.take(n).drop_last() =~= p.take(n - 1));
        assert(q.take(n).drop_last() =~= q.take(n - 1));
        assert(p.take(n).last() == p[n - 1]);
        assert(q.take(n).last() == q[n - 1]);
    } else {
        assert(p.take(0) =~= Seq::<GateGraph>::empty());
        assert(q.take(0) =~= Seq::<GateGraph>::empty());
    }
}

/// Once a sweep rewrites nothing, no later one does.
proof fn lemma_idle_runs(
    start: &GateGraph,
    zero: Wire,
    force_committed: Set<u32>,
    p: Seq<GateGraph>,
    m: int,
    n: int,
)
    requires
        sweeps_from(start, p, zero, force_committed),
        0 <= m <= n < p.len(),
        sweep_slots(&p[m], zero, force_committed) == 0,
    ensures
        same_slots(&p[m], &p[n]),
        sweep_slots(&p[n], zero, force_committed) == 0,
        total_slots(p.take(n), zero, force_committed) == total_slots(
            p.take(m),
            zero,
            force_committed,
        ),
    decreases n - m,
{
    if m < n {
        lemma_idle_runs(start, zero, force_committed, p, m, n - 1);
        assert(sweep_leads(p, n - 1, zero, force_committed));
        lemma_idle_sweep(&p[n - 1], &p[n], zero, force_committed);
        lemma_joined_slots(&p[m], &p[n - 1], &p[n]);
        lemma_same_count(&p[n - 1], &p[n], zero, force_committed);
        assert(p.take(n).drop_last() =~= p.take(n - 1));
        assert(p.take(n).last() == p[n - 1]);
    }
}

proof fn lemma_joined_slots(a: &GateGraph, b: &GateGraph, c: &GateGraph)
    requires
        same_slots(a, b),
        same_slots(b, c),
    ensures
        same_slots(a, c),
{
    assert forall|g: int| #![trigger c.gates[g]] 0 <= g < a.gates.len() implies c.gates[g].body
        == a.gates[g].body && c.gates[g].outputs@ == a.gates[g].outputs@ && c.gates[g].imms@
        == a.gates[g].imms@ && c.gates[g].inputs@ == a.gates[g].inputs@ by {
        assert(b.gates[g].body == a.gates[g].body);
        assert(b.gates[g].inputs@ == a.gates[g].inputs@);
    }
}

proof fn lemma_same_count(a: &GateGraph, b: &GateGraph, zero: Wire, force_committed: Set<u32>)
    requires
        same_slots(a, b),
    ensures
        sweep_slots(a, zero, force_committed) == sweep_slots(b, zero, force_committed),
{
    assert forall|g: int| 0 <= g < a.gates@.len() implies (#[trigger] b.gates@[g]).inputs@
        == a.gates@[g].inputs@ && b.gates@[g].body == a.gates@[g].body && b.gates@[g].outputs@
        == a.gates@[g].outputs@ by {
        assert(b.gates[g].inputs@ == a.gates[g].inputs@);
    }
    lemma_same_sweep(
        a.gates@,
        b.gates@,
        zero,
        force_committed,
        forward_pairs(a.gates@, zero, force_committed),
    );
}

/// A graph determines what zero propagation makes of it: whatever sweeps lead to an end, the slots
/// hold the same wires there, and as many were rewritten on the way.
pub proof fn propagation_is_determined(
    start: &GateGraph,
    a: &GateGraph,
    b: &GateGraph,
    zero: Wire,
    force_committed: Set<u32>,
    p: Seq<GateGraph>,
    q: Seq<GateGraph>,
    m: int,
    n: int,
)
    requires
        propagated(start, a, zero, force_committed, p, m),
        propagated(start, b, zero, force_committed, q, n),
    ensures
        m == n,
        same_slots(a, b),
{
    if p.len() <= q.len() {
        lemma_shorter_run(start, a, b, zero, force_committed, p, q);
    } else {
        lemma_shorter_run(start, b, a, zero, force_committed, q, p);
        lemma_turned_slots(b, a);
    }
}

proof fn lemma_turned_slots(a: &GateGraph, b: &GateGraph)
    requires
        same_slots(a, b),
    ensures
        same_slots(b, a),
{
    assert forall|g: int| #![trigger a.gates[g]] 0 <= g < b.gates.len() implies a.gates[g].body
        == b.gates[g].body && a.gates[g].outputs@ == b.gates[g].outputs@ && a.gates[g].imms@
        == b.gates[g].imms@ && a.gates[g].inputs@ == b.gates[g].inputs@ by {
        assert(b.gates[g].body == a.gates[g].body);
        assert(b.gates[g].inputs@ == a.gates[g].inputs@);
    }
}

proof fn lemma_shorter_run(
    start: &GateGraph,
    a: &GateGraph,
    b: &GateGraph,
    zero: Wire,
    force_committed: Set<u32>,
    p: Seq<GateGraph>,
    q: Seq<GateGraph>,
)
    requires
        1 <= p.len() <= q.len(),
        sweeps_from(start, p.push(*a), zero, force_committed),
        sweeps_from(start, q.push(*b), zero, force_committed),
        sweep_slots(&p.last(), zero, force_committed) == 0,
    ensures
        total_slots(p, zero, force_committed) == total_slots(q, zero, force_committed),
        same_slots(a, b),
{
    let (r, s) = (p.push(*a), q.push(*b));
    let (m, n) = (p.len() as int, q.len() as int);
    lemma_runs_agree(start, zero, force_committed, r, s, m);
    lemma_runs_agree(start, zero, force_committed, r, s, m - 1);
    lemma_same_count(&r[m - 1], &s[m - 1], zero, force_committed);
    assert(r[m - 1] == p.last());
    lemma_idle_runs(start, zero, force_committed, s, m - 1, m);
    lemma_idle_runs(start, zero, force_committed, s, m, n);
    assert(r.take(m) =~= p);
    assert(s.take(n) =~= q);
    assert(r[m] == *a);
    assert(s[n] == *b);
    lemma_joined_slots(a, &s[m], b);
}

} // verus!
