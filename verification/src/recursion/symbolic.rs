//! Words and field elements that are either known while a circuit is built or carried by wires.

use vstd::arithmetic::power2::{lemma2_to64, lemma_pow2_pos, lemma_pow2_unfold, pow2};
use crate::algebra::group::{AdditiveGroup, lemma_nil_plus};
use crate::algebra::sum::sum;
use crate::bits::lemma_halves;
use crate::constraint_system::ShiftVariant;
use crate::field::ghash::BinaryField128bGhash;
use crate::frontend::graph::GateGraph;
use crate::frontend::ops::{
    conservative, lemma_conservative_same, lemma_conservative_trans, only_sums_added,
};
use crate::frontend::wire_set::Wire;
use crate::math::index::{div_up, lemma_div_mod, lemma_split_index};
use crate::math::subset::{index_bit, lemma_bit64_is_index_bit};
use crate::word::Word;
use vstd::prelude::*;

verus! {

/// A word: known, or on a wire.
#[derive(Clone, Copy, Debug, PartialEq, Eq, Structural)]
pub enum SymbolicWord {
    Constant(Word),
    Wire(Wire),
}

/// A field element: known, or its two halves on wires.
#[derive(Clone, Copy, Debug, PartialEq, Eq, Structural)]
pub enum SymbolicElem {
    Constant(BinaryField128bGhash),
    Wires { lo: Wire, hi: Wire },
}

/// The element with the given halves.
pub open spec fn elem_of(lo: Word, hi: Word) -> BinaryField128bGhash {
    BinaryField128bGhash((lo.0 as u128) | ((hi.0 as u128) << 64))
}

/// Halves add on their own.
proof fn lemma_elem_xor(a: u64, b: u64, c: u64, d: u64)
    by (bit_vector)
    ensures
        (((a ^ c) as u128) | (((b ^ d) as u128) << 64)) == ((a as u128) | ((b as u128) << 64)) ^ ((
        c as u128) | ((d as u128) << 64)),
        (0u64 as u128) | ((0u64 as u128) << 64) == 0,
{
}

impl SymbolicWord {
    /// The word under an assignment.
    pub open spec fn value(self, vals: spec_fn(Wire) -> Word) -> Word {
        match self {
            SymbolicWord::Constant(word) => word,
            SymbolicWord::Wire(wire) => vals(wire),
        }
    }

    /// The wire is one of the first.
    pub open spec fn inside(self, n: int) -> bool {
        self matches SymbolicWord::Wire(wire) ==> wire.0 < n
    }

    /// A wire that carries the word.
    pub fn to_wire(self, graph: &mut GateGraph) -> (r: Wire)
        requires
            old(graph).wf(),
            old(graph).n_wires < u32::MAX - 1,
            self.inside(old(graph).n_wires as int),
        ensures
            conservative(old(graph), final(graph)),
            final(graph).n_wires <= old(graph).n_wires + 1,
            final(graph).gates == old(graph).gates,
            self matches SymbolicWord::Wire(wire) ==> r == wire && *final(graph) == *old(graph),
            r.0 < final(graph).n_wires,
            forall|vals: spec_fn(Wire) -> Word| #[trigger]
                final(graph).holds(vals) ==> vals(r) == self.value(vals),
    {
        match self {
            SymbolicWord::Constant(word) => graph.constant_wire(word),
            SymbolicWord::Wire(wire) => {
                proof {
                    lemma_conservative_same(old(graph));
                }
                wire
            },
        }
    }
}

impl SymbolicElem {
    /// The element under an assignment.
    pub open spec fn value(self, vals: spec_fn(Wire) -> Word) -> BinaryField128bGhash {
        match self {
            SymbolicElem::Constant(elem) => elem,
            SymbolicElem::Wires { lo, hi } => elem_of(vals(lo), vals(hi)),
        }
    }

    /// The wires are among the first.
    pub open spec fn inside(self, n: int) -> bool {
        self matches SymbolicElem::Wires { lo, hi } ==> lo.0 < n && hi.0 < n
    }

    /// Zero.
    pub fn zero() -> (r: Self)
        ensures
            r == SymbolicElem::Constant(BinaryField128bGhash(0)),
    {
        SymbolicElem::Constant(BinaryField128bGhash(0))
    }

    /// Wires that carry the element's halves.
    pub fn to_wires(self, graph: &mut GateGraph) -> (r: (Wire, Wire))
        requires
            old(graph).wf(),
            old(graph).n_wires < u32::MAX - 2,
            self.inside(old(graph).n_wires as int),
        ensures
            conservative(old(graph), final(graph)),
            final(graph).n_wires <= old(graph).n_wires + 2,
            final(graph).gates == old(graph).gates,
            r.0.0 < final(graph).n_wires,
            r.1.0 < final(graph).n_wires,
            forall|vals: spec_fn(Wire) -> Word| #[trigger]
                final(graph).holds(vals) ==> elem_of(vals(r.0), vals(r.1)) == self.value(vals),
    {
        match self {
            SymbolicElem::Constant(elem) => {
                let lo = graph.constant_wire(Word(elem.0 as u64));
                let ghost mid = *graph;
                let hi = graph.constant_wire(Word((elem.0 >> 64) as u64));
                proof {
                    lemma_conservative_trans(old(graph), &mid, graph);
                    lemma_halves(elem.0);
                    assert forall|vals: spec_fn(Wire) -> Word| #[trigger] graph.holds(
                        vals,
                    ) implies elem_of(vals(lo), vals(hi)) == self.value(vals) by {
                        assert(mid.holds(vals));
                    }
                }
                (lo, hi)
            },
            SymbolicElem::Wires { lo, hi } => {
                proof {
                    lemma_conservative_same(old(graph));
                }
                (lo, hi)
            },
        }
    }

    /// The sum of two elements.
    pub fn plus(self, other: Self, graph: &mut GateGraph) -> (r: Self)
        requires
            old(graph).wf(),
            old(graph).n_wires < u32::MAX - 6,
            self.inside(old(graph).n_wires as int),
            other.inside(old(graph).n_wires as int),
        ensures
            conservative(old(graph), final(graph)),
            final(graph).n_wires <= old(graph).n_wires + 6,
            r.inside(final(graph).n_wires as int),
            only_sums_added(old(graph), final(graph)),
            final(graph).gates.len() <= old(graph).gates.len() + 2,
            self is Constant && other is Constant ==> r is Constant && *final(graph) == *old(graph),
            self == SymbolicElem::Constant(BinaryField128bGhash(0)) ==> r == other
                && *final(graph) == *old(graph),
            forall|vals: spec_fn(Wire) -> Word| #[trigger]
                final(graph).holds(vals) ==> r.value(vals) == AdditiveGroup::plus(
                    self.value(vals),
                    other.value(vals),
                ),
    {
        if let SymbolicElem::Constant(a) = self {
            if let SymbolicElem::Constant(b) = other {
                proof {
                    lemma_conservative_same(old(graph));
                }
                assert(0u128 ^ b.0 == b.0) by {
                    BinaryField128bGhash::plus_comm(BinaryField128bGhash(0), b);
                    BinaryField128bGhash::plus_nil(b);
                }
                return SymbolicElem::Constant(BinaryField128bGhash(a.0 ^ b.0));
            }
            // Nothing is added to nothing.
            if a.0 == 0 {
                proof {
                    lemma_conservative_same(old(graph));
                    assert forall|vals: spec_fn(Wire) -> Word| #[trigger] graph.holds(
                        vals,
                    ) implies other.value(vals) == AdditiveGroup::plus(
                        self.value(vals),
                        other.value(vals),
                    ) by {
                        lemma_nil_plus(other.value(vals));
                    }
                }
                return other;
            }
        }
        let (a_lo, a_hi) = self.to_wires(graph);
        let ghost g1 = *graph;
        let (b_lo, b_hi) = other.to_wires(graph);
        let ghost g2 = *graph;
        let lo = graph.bxor(a_lo, b_lo);
        let ghost g3 = *graph;
        let hi = graph.bxor(a_hi, b_hi);
        proof {
            lemma_conservative_trans(old(graph), &g1, &g2);
            lemma_conservative_trans(old(graph), &g2, &g3);
            lemma_conservative_trans(old(graph), &g3, graph);
            assert forall|vals: spec_fn(Wire) -> Word| #[trigger] graph.holds(vals) implies elem_of(
                vals(lo),
                vals(hi),
            ) == AdditiveGroup::plus(self.value(vals), other.value(vals)) by {
                assert(g3.holds(vals));
                assert(g2.holds(vals));
                assert(g1.holds(vals));
                lemma_elem_xor(vals(a_lo).0, vals(a_hi).0, vals(b_lo).0, vals(b_hi).0);
            }
        }
        SymbolicElem::Wires { lo, hi }
    }
}

/// The sum of the elements a word's bits select, under an assignment.
pub open spec fn subset_value(
    elems: Seq<SymbolicElem>,
    n: int,
    word: Word,
    vals: spec_fn(Wire) -> Word,
) -> BinaryField128bGhash {
    sum(n, |b: int| crate::algebra::field::select(word.bit(b), elems[b].value(vals)))
}

/// The exclusive-ors that adding up what a word selects takes: two for each element after the first.
pub open spec fn sums_needed(word: Word, n: int) -> int {
    if selected(word, n) == 0 {
        0
    } else {
        2 * (selected(word, n) - 1)
    }
}

/// How many of the first elements a word's bits select.
pub open spec fn selected(word: Word, n: int) -> int
    decreases n,
{
    if n <= 0 {
        0
    } else {
        selected(word, n - 1) + if word.bit(n - 1) {
            1int
        } else {
            0
        }
    }
}

/// The element kept where a bit of a word is set, zero where it is clear.
fn keep_or_drop(
    elem: SymbolicElem,
    word: Wire,
    bit: usize,
    graph: &mut GateGraph,
) -> (r: SymbolicElem)
    requires
        old(graph).wf(),
        old(graph).n_wires < u32::MAX - 8,
        elem.inside(old(graph).n_wires as int),
        word.0 < old(graph).n_wires,
        bit < 64,
    ensures
        conservative(old(graph), final(graph)),
        final(graph).n_wires <= old(graph).n_wires + 7,
        r.inside(final(graph).n_wires as int),
        forall|vals: spec_fn(Wire) -> Word| #[trigger]
            final(graph).holds(vals) ==> r.value(vals) == crate::algebra::field::select(
                vals(word).bit(bit as int),
                elem.value(vals),
            ),
{
    // Move the bit into the most significant position, where a selection reads it.
    let sel = graph.shift(word, ShiftVariant::Sll, (63 - bit) as u32);
    let ghost g1 = *graph;
    let (lo, hi) = elem.to_wires(graph);
    let ghost g2 = *graph;
    let zero = graph.constant_wire(Word(0));
    let ghost g3 = *graph;
    let kept_lo = graph.select(sel, lo, zero);
    let ghost g4 = *graph;
    let kept_hi = graph.select(sel, hi, zero);
    proof {
        lemma_conservative_trans(old(graph), &g1, &g2);
        lemma_conservative_trans(old(graph), &g2, &g3);
        lemma_conservative_trans(old(graph), &g3, &g4);
        lemma_conservative_trans(old(graph), &g4, graph);
        let r = SymbolicElem::Wires { lo: kept_lo, hi: kept_hi };
        assert forall|vals: spec_fn(Wire) -> Word| #[trigger] graph.holds(vals) implies r.value(
            vals,
        ) == crate::algebra::field::select(vals(word).bit(bit as int), elem.value(vals)) by {
            assert(g4.holds(vals));
            assert(g3.holds(vals));
            assert(g2.holds(vals));
            assert(g1.holds(vals));
            assert(vals(sel).bit(63) == vals(word).bit(
                ShiftVariant::Sll.source(63, (63 - bit) as int),
            ));
            assert(ShiftVariant::Sll.source(63, (63 - bit) as int) == bit) by {
                assert(63int / 64 == 0 && 63int % 64 == 63);
                assert((63 - bit) as int % 64 == 63 - bit);
            }
            lemma_elem_xor(0, 0, 0, 0);
        }
    }
    SymbolicElem::Wires { lo: kept_lo, hi: kept_hi }
}

/// The sum of the elements a word's bits select.
///
/// A word known while the circuit is built decides the selection there, at no cost.
pub fn subset_sum(elems: &[SymbolicElem], word: SymbolicWord, graph: &mut GateGraph) -> (r:
    SymbolicElem)
    requires
        elems.len() <= 64,
        old(graph).wf(),
        old(graph).n_wires < u32::MAX - 2 - 13 * elems.len(),
        word.inside(old(graph).n_wires as int),
        forall|i: int|
            0 <= i < elems.len() ==> (#[trigger] elems[i]).inside(old(graph).n_wires as int),
    ensures
        conservative(old(graph), final(graph)),
        final(graph).n_wires <= old(graph).n_wires + 1 + 13 * elems.len(),
        word matches SymbolicWord::Constant(value) ==> only_sums_added(old(graph), final(graph))
            && final(graph).gates.len() <= old(graph).gates.len() + sums_needed(
            value,
            elems.len() as int,
        ),
        word is Constant && (forall|i: int|
            0 <= i < elems.len() ==> (#[trigger] elems[i]) is Constant) ==> *final(graph) == *old(graph),
        r.inside(final(graph).n_wires as int),
        forall|vals: spec_fn(Wire) -> Word| #[trigger]
            final(graph).holds(vals) ==> r.value(vals) == subset_value(
                elems@,
                elems.len() as int,
                word.value(vals),
                vals,
            ),
{
    let mut acc = SymbolicElem::zero();
    let mut wire: Wire = Wire(0);
    let mut known: bool = true;
    if let SymbolicWord::Wire(w) = word {
        wire = w;
        known = false;
    }
    proof {
        lemma_conservative_same(old(graph));
    }
    let mut b: usize = 0;
    while b < elems.len()
        invariant
            b <= elems.len() <= 64,
            known <==> word is Constant,
            !known ==> word == SymbolicWord::Wire(wire),
            conservative(old(graph), graph),
            graph.n_wires <= old(graph).n_wires + 13 * b,
            old(graph).n_wires < u32::MAX - 2 - 13 * elems.len(),
            word.inside(old(graph).n_wires as int),
            forall|i: int|
                0 <= i < elems.len() ==> (#[trigger] elems[i]).inside(old(graph).n_wires as int),
            acc.inside(graph.n_wires as int),
            known ==> only_sums_added(old(graph), graph),
            word matches SymbolicWord::Constant(value) ==> 0 <= selected(value, b as int)
                && graph.gates.len() <= old(graph).gates.len() + sums_needed(value, b as int) && (
            selected(value, b as int) == 0 ==> acc == SymbolicElem::Constant(
                BinaryField128bGhash(0),
            )),
            known && (forall|i: int| 0 <= i < elems.len() ==> (#[trigger] elems[i]) is Constant)
                ==> *graph == *old(graph) && acc is Constant,
            forall|vals: spec_fn(Wire) -> Word| #[trigger]
                graph.holds(vals) ==> acc.value(vals) == subset_value(
                    elems@,
                    b as int,
                    word.value(vals),
                    vals,
                ),
        decreases elems.len() - b,
    {
        let ghost before = *graph;
        let ghost held = acc;
        assert(elems[b as int].inside(old(graph).n_wires as int));
        if let SymbolicWord::Constant(value) = word {
            if (value.0 >> (b as u64)) & 1 == 1 {
                acc = acc.plus(elems[b], graph);
                proof {
                    assert(value.bit(b as int));
                    lemma_conservative_trans(old(graph), &before, graph);
                    if forall|i: int| 0 <= i < elems.len() ==> (#[trigger] elems[i]) is Constant {
                        assert(elems[b as int] is Constant);
                    }
                    assert forall|vals: spec_fn(Wire) -> Word| #[trigger] graph.holds(
                        vals,
                    ) implies acc.value(vals) == subset_value(elems@, b + 1, word.value(vals), vals) by {
                        assert(before.holds(vals));
                    }
                }
            } else {
                proof {
                    assert(!value.bit(b as int));
                    assert forall|vals: spec_fn(Wire) -> Word| #[trigger] graph.holds(
                        vals,
                    ) implies acc.value(vals) == subset_value(elems@, b + 1, word.value(vals), vals) by {
                        BinaryField128bGhash::plus_nil(acc.value(vals));
                    }
                }
            }
        } else {
            let term = keep_or_drop(elems[b], wire, b, graph);
            let ghost mid = *graph;
            acc = acc.plus(term, graph);
            proof {
                lemma_conservative_trans(old(graph), &before, &mid);
                lemma_conservative_trans(old(graph), &mid, graph);
                assert forall|vals: spec_fn(Wire) -> Word| #[trigger] graph.holds(
                    vals,
                ) implies acc.value(vals) == subset_value(elems@, b + 1, word.value(vals), vals) by {
                    assert(mid.holds(vals));
                    assert(before.holds(vals));
                }
            }
        }
        b = b + 1;
    }
    acc
}

/// The place a level reads in the one before it, in terms of the whole list.
proof fn lemma_halved_place(x: int, b: int, i: int)
    requires
        0 <= x,
        0 <= b,
    ensures
        ({
            let e: int = if index_bit(x, b) {
                1
            } else {
                0
            };
            (2 * i + e) * (pow2(b as nat) as int) + x % (pow2(b as nat) as int) == i * (pow2(
                (b + 1) as nat,
            ) as int) + x % (pow2((b + 1) as nat) as int)
        }),
{
    let m = pow2(b as nat) as int;
    lemma_pow2_unfold((b + 1) as nat);
    lemma_mod_double(x, b);
    assert((2 * i) * m == i * (2 * m)) by (nonlinear_arith);
    assert((2 * i + 1) * m == i * (2 * m) + m) by (nonlinear_arith);
}

/// A remainder gains one bit with each doubling of the modulus.
proof fn lemma_mod_double(x: int, b: int)
    requires
        0 <= x,
        0 <= b,
    ensures
        x % (pow2((b + 1) as nat) as int) == x % (pow2(b as nat) as int) + if index_bit(x, b) {
            pow2(b as nat) as int
        } else {
            0
        },
{
    let m = pow2(b as nat) as int;
    lemma_pow2_pos(b as nat);
    lemma_pow2_unfold((b + 1) as nat);
    let q = x / m;
    let t = x % m;
    lemma_split_index(x, m);
    lemma_split_index(q, 2);
    let h = q / 2;
    let e = q % 2;
    assert(x == h * (2 * m) + (e * m + t)) by (nonlinear_arith)
        requires
            x == q * m + t,
            q == h * 2 + e,
    ;
    assert(0 <= e * m + t < 2 * m) by (nonlinear_arith)
        requires
            0 <= e < 2,
            0 <= t < m,
    ;
    lemma_div_mod(h, 2 * m, e * m + t);
    if e == 1 {
        assert(e * m == m) by (nonlinear_arith)
            requires
                e == 1,
        ;
    } else {
        assert(e * m == 0) by (nonlinear_arith)
            requires
                e == 0,
        ;
    }
}

/// The pairs of wires at one level of a multiplexer carry the elements the low bits pick.
pub open spec fn level_holds(
    level: Seq<(Wire, Wire)>,
    elems: Seq<SymbolicElem>,
    b: int,
    word: Word,
    vals: spec_fn(Wire) -> Word,
) -> bool {
    forall|i: int|
        0 <= i < level.len() ==> elem_of(
            vals((#[trigger] level[i]).0),
            vals(level[i].1),
        ) == elems[i * pow2(b as nat) as int + word.0 as int % (pow2(b as nat) as int)].value(vals)
}

/// One level of a multiplexer: neighbours are joined by one bit of the index.
fn mux_level(
    level: &Vec<(Wire, Wire)>,
    word: Wire,
    b: usize,
    graph: &mut GateGraph,
) -> (r: Vec<(Wire, Wire)>)
    requires
        old(graph).wf(),
        b < 64,
        level.len() % 2 == 0,
        old(graph).n_wires + level.len() < u32::MAX - 2,
        word.0 < old(graph).n_wires,
        forall|i: int|
            0 <= i < level.len() ==> (#[trigger] level[i]).0.0 < old(graph).n_wires && level[i].1.0
                < old(graph).n_wires,
    ensures
        conservative(old(graph), final(graph)),
        final(graph).n_wires <= old(graph).n_wires + 1 + level.len(),
        r.len() == level.len() / 2,
        forall|i: int|
            0 <= i < r.len() ==> (#[trigger] r[i]).0.0 < final(graph).n_wires && r[i].1.0 < final(graph).n_wires,
        forall|vals: spec_fn(Wire) -> Word, i: int|
            #![trigger final(graph).holds(vals), r[i]]
            final(graph).holds(vals) && 0 <= i < r.len() ==> elem_of(
                vals(r[i].0),
                vals(r[i].1),
            ) == if vals(word).bit(b as int) {
                elem_of(vals(level[2 * i + 1].0), vals(level[2 * i + 1].1))
            } else {
                elem_of(vals(level[2 * i].0), vals(level[2 * i].1))
            },
{
    let sel = graph.shift(word, ShiftVariant::Sll, (63 - b) as u32);
    let ghost g1 = *graph;
    proof {
        lemma_conservative_same(&g1);
        assert forall|vals: spec_fn(Wire) -> Word| #[trigger] g1.holds(vals) implies vals(sel).bit(
            63,
        ) == vals(word).bit(b as int) by {
            assert(vals(sel).bit(63) == vals(word).bit(
                ShiftVariant::Sll.source(63, (63 - b) as int),
            ));
            assert(63int / 64 == 0 && 63int % 64 == 63);
            assert((63 - b) as int % 64 == 63 - b);
        }
    }
    let n: usize = level.len() / 2;
    let mut r: Vec<(Wire, Wire)> = Vec::new();
    let mut i: usize = 0;
    while i < n
        invariant
            i <= n,
            n == level.len() / 2,
            level.len() % 2 == 0,
            r.len() == i,
            sel.0 < g1.n_wires,
            g1.n_wires == old(graph).n_wires + 1,
            conservative(old(graph), &g1),
            conservative(&g1, graph),
            graph.n_wires <= g1.n_wires + 2 * i,
            old(graph).n_wires + level.len() < u32::MAX - 2,
            forall|i: int|
                0 <= i < level.len() ==> (#[trigger] level[i]).0.0 < old(graph).n_wires
                    && level[i].1.0 < old(graph).n_wires,
            forall|k: int|
                0 <= k < i ==> (#[trigger] r[k]).0.0 < graph.n_wires && r[k].1.0 < graph.n_wires,
            forall|vals: spec_fn(Wire) -> Word| #[trigger]
                g1.holds(vals) ==> vals(sel).bit(63) == vals(word).bit(b as int),
            forall|vals: spec_fn(Wire) -> Word, k: int|
                #![trigger graph.holds(vals), r[k]]
                graph.holds(vals) && 0 <= k < i ==> elem_of(vals(r[k].0), vals(r[k].1)) == if vals(
                    word,
                ).bit(b as int) {
                    elem_of(vals(level[2 * k + 1].0), vals(level[2 * k + 1].1))
                } else {
                    elem_of(vals(level[2 * k].0), vals(level[2 * k].1))
                },
        decreases n - i,
    {
        let ghost before = *graph;
        let ghost held = r@;
        let even = level[2 * i];
        let odd = level[2 * i + 1];
        assert(level[2 * i as int] == even && level[2 * i as int + 1] == odd);
        let lo = graph.select(sel, odd.0, even.0);
        let ghost mid = *graph;
        let hi = graph.select(sel, odd.1, even.1);
        r.push((lo, hi));
        proof {
            lemma_conservative_trans(&g1, &before, &mid);
            lemma_conservative_trans(&g1, &mid, graph);
            assert forall|vals: spec_fn(Wire) -> Word, k: int|
                #![trigger graph.holds(vals), r[k]]
                graph.holds(vals) && 0 <= k < i + 1 implies elem_of(vals(r[k].0), vals(r[k].1))
                == if vals(word).bit(b as int) {
                elem_of(vals(level[2 * k + 1].0), vals(level[2 * k + 1].1))
            } else {
                elem_of(vals(level[2 * k].0), vals(level[2 * k].1))
            } by {
                assert(mid.holds(vals));
                assert(before.holds(vals));
                assert(g1.holds(vals));
                if k < i {
                    assert(r[k] == held[k]);
                }
            }
        }
        i = i + 1;
    }
    proof {
        lemma_conservative_trans(old(graph), &g1, graph);
    }
    r
}

/// The element a word indexes, read from as many low bits as the list needs.
///
/// An index known while the circuit is built picks its element there, at no cost.
pub fn select_elem(elems: &[SymbolicElem], word: SymbolicWord, graph: &mut GateGraph) -> (r:
    SymbolicElem)
    requires
        exists|k: nat| k < 32 && elems.len() == #[trigger] pow2(k),
        old(graph).wf(),
        old(graph).n_wires < u32::MAX - 64 - 4 * elems.len(),
        word.inside(old(graph).n_wires as int),
        forall|i: int|
            0 <= i < elems.len() ==> (#[trigger] elems[i]).inside(old(graph).n_wires as int),
    ensures
        conservative(old(graph), final(graph)),
        word matches SymbolicWord::Constant(value) ==> *final(graph) == *old(graph) && r
            == elems[value.0 as int % elems.len() as int],
        r.inside(final(graph).n_wires as int),
        forall|vals: spec_fn(Wire) -> Word| #[trigger]
            final(graph).holds(vals) ==> r.value(vals) == elems[word.value(vals).0 as int
                % elems.len() as int].value(vals),
{
    let ghost log = choose|k: nat| k < 32 && elems.len() == #[trigger] pow2(k);
    let wire = match word {
        SymbolicWord::Constant(value) => {
            proof {
                lemma_conservative_same(old(graph));
                lemma_pow2_pos(log);
            }
            let n: u64 = elems.len() as u64;
            let index: usize = (value.0 % n) as usize;
            assert(elems[index as int].inside(graph.n_wires as int));
            return elems[index];
        },
        SymbolicWord::Wire(wire) => wire,
    };
    let mut level: Vec<(Wire, Wire)> = Vec::new();
    let mut i: usize = 0;
    proof {
        lemma_conservative_same(old(graph));
    }
    while i < elems.len()
        invariant
            i <= elems.len(),
            level.len() == i,
            conservative(old(graph), graph),
            graph.n_wires <= old(graph).n_wires + 2 * i,
            old(graph).n_wires < u32::MAX - 64 - 4 * elems.len(),
            forall|i: int|
                0 <= i < elems.len() ==> (#[trigger] elems[i]).inside(old(graph).n_wires as int),
            forall|k: int|
                0 <= k < i ==> (#[trigger] level[k]).0.0 < graph.n_wires && level[k].1.0
                    < graph.n_wires,
            forall|vals: spec_fn(Wire) -> Word, k: int|
                #![trigger graph.holds(vals), level[k]]
                graph.holds(vals) && 0 <= k < i ==> elem_of(vals(level[k].0), vals(level[k].1))
                    == elems[k].value(vals),
        decreases elems.len() - i,
    {
        let ghost before = *graph;
        let ghost held = level@;
        assert(elems[i as int].inside(old(graph).n_wires as int));
        let pair = elems[i].to_wires(graph);
        level.push(pair);
        proof {
            lemma_conservative_trans(old(graph), &before, graph);
            assert forall|vals: spec_fn(Wire) -> Word, k: int|
                #![trigger graph.holds(vals), level[k]]
                graph.holds(vals) && 0 <= k < i + 1 implies elem_of(
                vals(level[k].0),
                vals(level[k].1),
            ) == elems[k].value(vals) by {
                assert(before.holds(vals));
                if k < i {
                    assert(level[k] == held[k]);
                }
            }
        }
        i = i + 1;
    }
    let ghost base = graph.n_wires;
    let mut b: usize = 0;
    proof {
        lemma2_to64();
        assert forall|vals: spec_fn(Wire) -> Word| #[trigger] graph.holds(
            vals,
        ) implies level_holds(level@, elems@, 0, vals(wire), vals) by {
            assert forall|i: int| 0 <= i < level@.len() implies elem_of(
                vals((#[trigger] level@[i]).0),
                vals(level@[i].1),
            ) == elems@[i * pow2(0) as int + vals(wire).0 as int % (pow2(0) as int)].value(vals) by {
                assert(level[i] == level@[i]);
            }
        }
    }
    while level.len() > 1
        invariant
            log < 32,
            b <= log,
            elems.len() == pow2(log),
            level.len() == pow2((log - b) as nat),
            wire.0 < old(graph).n_wires,
            conservative(old(graph), graph),
            base <= old(graph).n_wires + 2 * elems.len(),
            old(graph).n_wires < u32::MAX - 64 - 4 * elems.len(),
            graph.n_wires + 2 * level.len() <= base + 2 * elems.len() + b,
            forall|k: int|
                0 <= k < level.len() ==> (#[trigger] level[k]).0.0 < graph.n_wires && level[k].1.0
                    < graph.n_wires,
            forall|vals: spec_fn(Wire) -> Word| #[trigger]
                graph.holds(vals) ==> level_holds(level@, elems@, b as int, vals(wire), vals),
        decreases level.len(),
    {
        let ghost before = *graph;
        proof {
            lemma2_to64();
            if b == log {
                assert(level.len() == 1);
            }
            lemma_pow2_unfold((log - b) as nat);
            lemma_pow2_pos((log - b - 1) as nat);
        }
        let next = mux_level(&level, wire, b, graph);
        proof {
            lemma_conservative_trans(old(graph), &before, graph);
            assert forall|vals: spec_fn(Wire) -> Word| #[trigger] graph.holds(
                vals,
            ) implies level_holds(next@, elems@, b + 1, vals(wire), vals) by {
                assert(before.holds(vals));
                let x = vals(wire).0 as int;
                let m = pow2(b as nat) as int;
                lemma_bit64_is_index_bit(vals(wire).0, b as int);
                assert forall|i: int| 0 <= i < next@.len() implies elem_of(
                    vals((#[trigger] next@[i]).0),
                    vals(next@[i].1),
                ) == elems@[i * pow2((b + 1) as nat) as int + x % (pow2(
                    (b + 1) as nat,
                ) as int)].value(vals) by {
                    assert(next[i] == next@[i]);
                    let e: int = if vals(wire).bit(b as int) {
                        1
                    } else {
                        0
                    };
                    let j = 2 * i + e;
                    assert(level@[j] == level[j]);
                    assert(elem_of(vals(level@[j].0), vals(level@[j].1)) == elems@[j * m + x
                        % m].value(vals));
                    lemma_halved_place(x, b as int, i);
                }
            }
        }
        level = next;
        b = b + 1;
    }
    let (lo, hi) = level[0];
    proof {
        lemma2_to64();
        lemma_log_of_one((log - b) as nat);
        assert forall|vals: spec_fn(Wire) -> Word| #[trigger] graph.holds(vals) implies elem_of(
            vals(lo),
            vals(hi),
        ) == elems[vals(wire).0 as int % elems.len() as int].value(vals) by {
            assert(level_holds(level@, elems@, b as int, vals(wire), vals));
            assert(level@[0] == (lo, hi));
            assert(0 * pow2(b as nat) as int == 0) by (nonlinear_arith);
        }
    }
    SymbolicElem::Wires { lo, hi }
}

/// Only the zeroth power is one.
proof fn lemma_log_of_one(k: nat)
    requires
        pow2(k) <= 1,
    ensures
        k == 0,
{
    if k > 0 {
        lemma_pow2_unfold(k);
        lemma_pow2_pos((k - 1) as nat);
    }
}

/// Words packed into elements, two an element; a trailing odd word takes the low half.
pub open spec fn packed_value(words: Seq<SymbolicWord>, i: int, vals: spec_fn(Wire) -> Word) ->
    BinaryField128bGhash {
    elem_of(
        words[2 * i].value(vals),
        if 2 * i + 1 < words.len() {
            words[2 * i + 1].value(vals)
        } else {
            Word(0)
        },
    )
}

/// Packs words into elements.
pub fn pack_words(words: &[SymbolicWord], graph: &mut GateGraph) -> (r: Vec<SymbolicElem>)
    requires
        old(graph).wf(),
        old(graph).n_wires + words.len() < u32::MAX - 3,
        forall|i: int|
            0 <= i < words.len() ==> (#[trigger] words[i]).inside(old(graph).n_wires as int),
    ensures
        conservative(old(graph), final(graph)),
        final(graph).n_wires <= old(graph).n_wires + words.len() + 1,
        final(graph).gates == old(graph).gates,
        r.len() == div_up(words.len() as int, 2),
        forall|i: int| 0 <= i < r.len() ==> (#[trigger] r[i]).inside(final(graph).n_wires as int),
        forall|vals: spec_fn(Wire) -> Word, i: int|
            #![trigger final(graph).holds(vals), r[i]]
            final(graph).holds(vals) && 0 <= i < r.len() ==> r[i].value(vals) == packed_value(
                words@,
                i,
                vals,
            ),
{
    let mut r: Vec<SymbolicElem> = Vec::new();
    let mut at: usize = 0;
    proof {
        lemma_conservative_same(old(graph));
    }
    while at < words.len()
        invariant
            at <= words.len(),
            at % 2 == 0 || at == words.len(),
            r.len() == div_up(at as int, 2),
            conservative(old(graph), graph),
            graph.n_wires <= old(graph).n_wires + at + at % 2,
            graph.gates == old(graph).gates,
            old(graph).n_wires + words.len() < u32::MAX - 3,
            forall|i: int|
                0 <= i < words.len() ==> (#[trigger] words[i]).inside(old(graph).n_wires as int),
            forall|i: int| 0 <= i < r.len() ==> (#[trigger] r[i]).inside(graph.n_wires as int),
            forall|vals: spec_fn(Wire) -> Word, i: int|
                #![trigger graph.holds(vals), r[i]]
                graph.holds(vals) && 0 <= i < r.len() ==> r[i].value(vals) == packed_value(
                    words@,
                    i,
                    vals,
                ),
        decreases words.len() - at,
    {
        let ghost before = *graph;
        let ghost held = r@;
        assert(words[at as int].inside(old(graph).n_wires as int));
        let lo = words[at].to_wire(graph);
        let ghost mid = *graph;
        let odd = at + 1 == words.len();
        let hi = if odd {
            graph.constant_wire(Word(0))
        } else {
            assert(words[at as int + 1].inside(old(graph).n_wires as int));
            words[at + 1].to_wire(graph)
        };
        r.push(SymbolicElem::Wires { lo, hi });
        proof {
            lemma_conservative_trans(old(graph), &before, &mid);
            lemma_conservative_trans(old(graph), &mid, graph);
            assert forall|vals: spec_fn(Wire) -> Word, i: int|
                #![trigger graph.holds(vals), r[i]]
                graph.holds(vals) && 0 <= i < r.len() implies r[i].value(vals) == packed_value(
                words@,
                i,
                vals,
            ) by {
                assert(mid.holds(vals));
                assert(before.holds(vals));
                if i < held.len() {
                    assert(r[i] == held[i]);
                } else {
                    assert(2 * i == at);
                }
            }
            assert forall|i: int| 0 <= i < r.len() implies (#[trigger] r[i]).inside(
                graph.n_wires as int,
            ) by {
                if i < held.len() {
                    assert(r[i] == held[i]);
                }
            }
        }
        at = if odd {
            at + 1
        } else {
            at + 2
        };
    }
    r
}

} // verus!
