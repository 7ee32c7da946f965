//! Byte order within a word.

use crate::bits::{lemma_bit64_and, lemma_bit64_xor};
use crate::constraint_system::ShiftVariant;
use crate::frontend::graph::GateGraph;
use crate::frontend::ops::{conservative, lemma_conservative_trans};
use crate::frontend::wire_set::Wire;
use crate::word::Word;
use vstd::prelude::*;

verus! {

/// The bit that bit `k` reads when the bytes of each 32-bit half trade places end to end.
pub open spec fn byte_swapped(k: int) -> int {
    32 * (k / 32) + 8 * (3 - (k % 32) / 8) + k % 8
}

/// The bits of the masks that pick every other byte.
proof fn lemma_masks(k: u64)
    by (bit_vector)
    requires
        k < 64,
    ensures
        ((0x00ff00ff00ff00ffu64 >> k) & 1 == 1) == ((k / 8) % 2 == 0),
        ((0xff00ff00ff00ff00u64 >> k) & 1 == 1) == ((k / 8) % 2 == 1),
{
}

/// Where a bit comes from when halves rotate by two bytes and then neighbouring bytes trade places.
proof fn lemma_sources(k: int)
    requires
        0 <= k < 64,
    ensures
        ({
            let m = ShiftVariant::Rotr32.source(k, 16);
            &&& 0 <= m < 64
            &&& (m / 8) % 2 == 0 ==> ShiftVariant::Srl32.source(m, 8) == byte_swapped(k)
            &&& (m / 8) % 2 == 1 ==> ShiftVariant::Sll32.source(m, 8) == byte_swapped(k)
        }),
{
    let m = ShiftVariant::Rotr32.source(k, 16);
    assert(m == 32 * (k / 32) + (k % 32 + 16) % 32);
}

/// The word with the bytes of each 32-bit half in the opposite order.
pub fn swap_bytes_32(graph: &mut GateGraph, x: Wire) -> (r: Wire)
    requires
        old(graph).wf(),
        old(graph).n_wires < u32::MAX - 9,
        x.0 < old(graph).n_wires,
    ensures
        conservative(old(graph), final(graph)),
        final(graph).n_wires <= old(graph).n_wires + 8,
        r.0 < final(graph).n_wires,
        forall|vals: spec_fn(Wire) -> Word, k: int|
            #![trigger final(graph).holds(vals), vals(r).bit(k)]
            final(graph).holds(vals) && 0 <= k < 64 ==> vals(r).bit(k) == vals(x).bit(
                byte_swapped(k),
            ),
{
    let low_mask = graph.constant_wire(Word(0x00ff00ff00ff00ff));
    let ghost g1 = *graph;
    let high_mask = graph.constant_wire(Word(0xff00ff00ff00ff00));
    let ghost g2 = *graph;
    let down = graph.shift(x, ShiftVariant::Srl32, 8);
    let ghost g3 = *graph;
    let low = graph.band(down, low_mask);
    let ghost g4 = *graph;
    let up = graph.shift(x, ShiftVariant::Sll32, 8);
    let ghost g5 = *graph;
    let high = graph.band(up, high_mask);
    let ghost g6 = *graph;
    let pairs = graph.bxor(low, high);
    let ghost g7 = *graph;
    let r = graph.shift(pairs, ShiftVariant::Rotr32, 16);
    proof {
        lemma_conservative_trans(old(graph), &g1, &g2);
        lemma_conservative_trans(old(graph), &g2, &g3);
        lemma_conservative_trans(old(graph), &g3, &g4);
        lemma_conservative_trans(old(graph), &g4, &g5);
        lemma_conservative_trans(old(graph), &g5, &g6);
        lemma_conservative_trans(old(graph), &g6, &g7);
        lemma_conservative_trans(old(graph), &g7, graph);
        assert forall|vals: spec_fn(Wire) -> Word, k: int|
            #![trigger graph.holds(vals), vals(r).bit(k)]
            graph.holds(vals) && 0 <= k < 64 implies vals(r).bit(k) == vals(x).bit(
            byte_swapped(k),
        ) by {
            assert(g7.holds(vals));
            assert(g6.holds(vals));
            assert(g5.holds(vals));
            assert(g4.holds(vals));
            assert(g3.holds(vals));
            assert(g2.holds(vals));
            assert(g1.holds(vals));
            let m = ShiftVariant::Rotr32.source(k, 16);
            assert(vals(r).bit(k) == vals(pairs).bit(m));
            lemma_sources(k);
            lemma_bit64_xor(vals(low).0, vals(high).0, m);
            lemma_bit64_and(vals(down).0, 0x00ff00ff00ff00ff, m);
            lemma_bit64_and(vals(up).0, 0xff00ff00ff00ff00, m);
            lemma_masks(m as u64);
            assert(vals(down).bit(m) == vals(x).bit(ShiftVariant::Srl32.source(m, 8)));
            assert(vals(up).bit(m) == vals(x).bit(ShiftVariant::Sll32.source(m, 8)));
        }
    }
    r
}

} // verus!
