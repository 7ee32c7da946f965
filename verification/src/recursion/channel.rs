//! The channel that turns a verifier's run into a circuit.
//!
//! What the protocol computes on words becomes gates. The challenger and the Merkle checks are
//! gadgets of their own: the recording names each one, in order, with the wires it relates.

use vstd::arithmetic::power2::{lemma2_to64, lemma_pow2_pos, pow2};
use vstd::bits::{lemma_u64_low_bits_mask_is_mod, lemma_u64_shl_is_mul};
use crate::circuits::builder::wire_range;
use crate::circuits::bytes::{byte_swapped, swap_bytes_32};
use crate::field::ghash::BinaryField128bGhash;
use crate::frontend::graph::{GateBody, GateData, GateGraph, Opcode};
use crate::frontend::ops::{
    agree, conservative, continued, lemma_conservative_same, lemma_conservative_trans,
    lemma_graph_agrees, only_sums_added,
};
use crate::frontend::wire_set::Wire;
use crate::math::index::{ceil_log2, div_up, lemma_ceil_log2, log2_ceil_usize, pow2_usize};
use crate::recursion::laws::{absorbed_words_are_the_element, absorbs_value_of};
use crate::recursion::symbolic::{
    SymbolicElem, SymbolicWord, packed_value, select_elem, subset_value, sums_needed,
};
use crate::sumcheck::channel::ChannelError;
use crate::word::Word;
use vstd::prelude::*;

verus! {

/// The wires of one digest.
pub type Digest = [Wire; 4];

/// The wires of one field element, the low half first.
pub type Element = [Wire; 2];

/// What an input wire was allocated for.
#[derive(Clone, Copy, Debug, PartialEq, Eq, Structural)]
pub enum InputKind {
    RecvOne,
    ObserveOne,
    ObserveWords,
    MerkleRoot,
    MerkleLayer,
    Opening,
    MerkleBranch,
    CommittedVector,
}

/// A wire the witness must supply.
#[derive(Clone, Copy, Debug, PartialEq, Eq, Structural)]
pub struct Input {
    pub kind: InputKind,
    pub wire: Wire,
}

/// A gadget of the recorded circuit.
#[derive(Debug)]
pub enum Gadget {
    /// The challenger absorbs words.
    Absorb { words: Vec<Wire> },
    /// The challenger yields an element.
    SampleElement { element: Element },
    /// The challenger yields four bytes, which are masked to a word below a power of two.
    SampleBits { bits: usize, draw: Wire, wire: Wire },
    /// One layer of a Merkle tree folds to its root.
    Layer { check: usize, root: Digest, layer: Vec<Digest> },
    /// A leaf hashes and climbs to the entry of a layer that its index addresses.
    Opening {
        check: usize,
        layer_check: usize,
        index: Wire,
        leaf: Vec<Element>,
        layer_depth: usize,
        tree_depth: usize,
        branch: Vec<Digest>,
    },
    /// A whole vector rebuilds a Merkle tree with the given root.
    Vector { check: usize, root: Digest, data: Vec<Element>, leaf_size: usize },
}

/// The width a draw of so many bits is masked to: a draw has four bytes, whatever is asked for.
pub open spec fn drawn_width(bits: usize) -> nat {
    if bits < 32 {
        bits as nat
    } else {
        32
    }
}

impl Gadget {
    /// The word a gadget yields lies below the power of two that it was asked for.
    pub open spec fn bounded(&self, vals: spec_fn(Wire) -> Word) -> bool {
        match self {
            Gadget::SampleBits { bits, wire, .. } => vals(*wire).0 < pow2(drawn_width(*bits)),
            _ => true,
        }
    }
}

/// What a failing assertion is called.
#[derive(Clone, Copy, Debug, PartialEq, Eq, Structural)]
pub enum AssertionName {
    /// The low half of an element that must be zero.
    ZeroLow { number: usize },
    /// The high half of an element that must be zero.
    ZeroHigh { number: usize },
    /// A word that must equal its public wire.
    BindPublic { number: usize },
}

/// An assertion among the gates, with its name.
#[derive(Clone, Copy, Debug, PartialEq, Eq, Structural)]
pub struct NamedAssertion {
    pub name: AssertionName,
    /// Its place among the gates.
    pub gate: usize,
}

/// A Merkle commitment received by the channel.
///
/// The root is wires, since the prover supplies it. The shape is fixed by the protocol.
#[derive(Clone, Copy, Debug)]
pub struct Commitment {
    /// The commitment root.
    pub root: Digest,
    /// Field elements in each leaf.
    pub leaf_size: usize,
    /// Base-2 logarithm of the number of leaves.
    pub depth: usize,
}

/// A recorded circuit and what a witness for it needs.
pub struct Recorded {
    /// The gates.
    pub circuit: GateGraph,
    /// The gadgets in order.
    pub gadgets: Vec<Gadget>,
    /// The public wires in order.
    pub public: Vec<Wire>,
    /// The wires the witness must supply, in the order the verifier reached them.
    pub inputs: Vec<Input>,
    /// The names of the assertions among the gates.
    pub assertions: Vec<NamedAssertion>,
}

/// A channel that records a verifier's run as a circuit.
pub struct Binius64BuilderChannel {
    pub graph: GateGraph,
    pub gadgets: Vec<Gadget>,
    pub public: Vec<Wire>,
    pub inputs: Vec<Input>,
    pub assertions: Vec<NamedAssertion>,
    /// Elements asserted to be zero so far.
    pub n_assertions: usize,
    /// Merkle checks recorded so far.
    pub n_merkle_checks: usize,
    /// Words bound to public wires so far.
    pub n_public: usize,
}

/// Wires that are new: each lies in a range, above the one before it.
pub open spec fn fresh_inputs(inputs: Seq<Input>, first: int, end: int) -> bool {
    &&& forall|k: int| 0 <= k < inputs.len() ==> first <= (#[trigger] inputs[k]).wire.0 < end
    &&& forall|j: int, k: int|
        #![trigger inputs[j], inputs[k]]
        0 <= j < k < inputs.len() ==> inputs[j].wire.0 < inputs[k].wire.0
}

/// The assertions that bind words to public wires, numbered on from those before.
pub open spec fn bound_assertions(number: int, gate: int, n: int) -> Seq<NamedAssertion> {
    Seq::new(
        n as nat,
        |i: int|
            NamedAssertion {
                name: AssertionName::BindPublic { number: (number + i) as usize },
                gate: (gate + i) as usize,
            },
    )
}

/// The inputs that digests occupy.
pub open spec fn digest_inputs(kind: InputKind, digests: Seq<Digest>) -> Seq<Input> {
    Seq::new(4 * digests.len(), |k: int| Input { kind, wire: digests[k / 4]@[k % 4] })
}

/// The inputs that elements occupy.
pub open spec fn element_inputs(kind: InputKind, elements: Seq<Element>) -> Seq<Input> {
    Seq::new(2 * elements.len(), |k: int| Input { kind, wire: elements[k / 2]@[k % 2] })
}

/// The element on a pair of wires.
pub open spec fn lifted_element(element: Element) -> SymbolicElem {
    SymbolicElem::Wires { lo: element[0], hi: element[1] }
}

/// The elements on pairs of wires.
pub open spec fn lifted_all(elements: Seq<Element>) -> Seq<SymbolicElem> {
    Seq::new(elements.len(), |i: int| lifted_element(elements[i]))
}

/// The inputs that opened leaves and their branches occupy.
pub open spec fn opening_inputs(gadgets: Seq<Gadget>) -> Seq<Input>
    decreases gadgets.len(),
{
    if gadgets.len() == 0 {
        Seq::empty()
    } else {
        opening_inputs(gadgets.drop_last()) + match gadgets.last() {
            Gadget::Opening { leaf, branch, .. } => element_inputs(InputKind::Opening, leaf@)
                + digest_inputs(InputKind::MerkleBranch, branch@),
            _ => Seq::empty(),
        }
    }
}

/// The elements that opened leaves hold.
pub open spec fn opening_values(gadgets: Seq<Gadget>) -> Seq<SymbolicElem>
    decreases gadgets.len(),
{
    if gadgets.len() == 0 {
        Seq::empty()
    } else {
        opening_values(gadgets.drop_last()) + match gadgets.last() {
            Gadget::Opening { leaf, .. } => lifted_all(leaf@),
            _ => Seq::empty(),
        }
    }
}

/// The layer at which climbs stop: as many entries as queries, but never below the leaves.
pub open spec fn verify_layer_depth(n_queries: nat, tree_depth: nat) -> nat {
    if ceil_log2(n_queries) <= tree_depth {
        ceil_log2(n_queries)
    } else {
        tree_depth
    }
}

/// The layer at which climbs stop.
pub fn optimal_verify_layer(n_queries: usize, tree_depth: usize) -> (r: usize)
    ensures
        r == verify_layer_depth(n_queries as nat, tree_depth as nat),
{
    let log = log2_ceil_usize(n_queries);
    proof {
        lemma_ceil_log2(n_queries as nat, log as nat);
    }
    if log <= tree_depth {
        log
    } else {
        tree_depth
    }
}

impl Binius64BuilderChannel {
    /// The graph is well formed.
    pub open spec fn wf(&self) -> bool {
        self.graph.wf()
    }

    /// Room for more wires.
    pub open spec fn room(&self, n: int) -> bool {
        self.graph.n_wires + n < u32::MAX - 16
    }

    /// Everything but the wires, the inputs and the gadgets is as before.
    pub open spec fn keeps(&self, before: &Self) -> bool {
        &&& self.public == before.public
        &&& self.assertions == before.assertions
        &&& self.n_assertions == before.n_assertions
        &&& self.n_public == before.n_public
    }

    /// A channel over a circuit that holds the all-one constant and nothing else.
    pub fn new() -> (r: Self)
        ensures
            r.wf(),
            r.graph.n_wires == 1,
            r.graph.const_pool@ == seq![(Word(0xffff_ffff_ffff_ffff), Wire(0))],
            r.graph.gates.len() == 0,
            r.gadgets.len() == 0,
            r.public.len() == 0,
            r.inputs.len() == 0,
            r.assertions.len() == 0,
            r.n_assertions == 0,
            r.n_merkle_checks == 0,
            r.n_public == 0,
    {
        Binius64BuilderChannel {
            graph: GateGraph::new(),
            gadgets: Vec::new(),
            public: Vec::new(),
            inputs: Vec::new(),
            assertions: Vec::new(),
            n_assertions: 0,
            n_merkle_checks: 0,
            n_public: 0,
        }
    }

    /// Allocates an input wire.
    fn input_wire(&mut self, kind: InputKind) -> (r: Wire)
        requires
            old(self).wf(),
            old(self).room(1),
        ensures
            conservative(&old(self).graph, &final(self).graph),
            final(self).graph.n_wires == old(self).graph.n_wires + 1,
            r.0 == old(self).graph.n_wires,
            final(self).graph.gates == old(self).graph.gates,
            final(self).keeps(old(self)),
            final(self).gadgets == old(self).gadgets,
            final(self).n_merkle_checks == old(self).n_merkle_checks,
            final(self).inputs@ == old(self).inputs@.push(Input { kind, wire: r }),
    {
        let wire = self.graph.free_wire();
        self.inputs.push(Input { kind, wire });
        wire
    }

    /// Allocates the wires one element occupies.
    fn input_element(&mut self, kind: InputKind) -> (r: Element)
        requires
            old(self).wf(),
            old(self).room(2),
        ensures
            conservative(&old(self).graph, &final(self).graph),
            final(self).graph.n_wires == old(self).graph.n_wires + 2,
            r[0].0 == old(self).graph.n_wires,
            r[1].0 == old(self).graph.n_wires + 1,
            final(self).graph.gates == old(self).graph.gates,
            final(self).keeps(old(self)),
            final(self).gadgets == old(self).gadgets,
            final(self).n_merkle_checks == old(self).n_merkle_checks,
            final(self).inputs@ == old(self).inputs@ + element_inputs(kind, seq![r]),
    {
        let lo = self.input_wire(kind);
        let ghost mid = self.graph;
        let hi = self.input_wire(kind);
        let r = [lo, hi];
        proof {
            lemma_conservative_trans(&old(self).graph, &mid, &self.graph);
            assert(self.inputs@ =~= old(self).inputs@ + element_inputs(kind, seq![r]));
        }
        r
    }

    /// Allocates the wires one digest occupies.
    fn input_digest(&mut self, kind: InputKind) -> (r: Digest)
        requires
            old(self).wf(),
            old(self).room(4),
        ensures
            conservative(&old(self).graph, &final(self).graph),
            final(self).graph.n_wires == old(self).graph.n_wires + 4,
            forall|j: int| 0 <= j < 4 ==> (#[trigger] r[j]).0 == old(self).graph.n_wires + j,
            final(self).graph.gates == old(self).graph.gates,
            final(self).keeps(old(self)),
            final(self).gadgets == old(self).gadgets,
            final(self).n_merkle_checks == old(self).n_merkle_checks,
            final(self).inputs@ == old(self).inputs@ + digest_inputs(kind, seq![r]),
    {
        let a = self.input_wire(kind);
        let ghost g1 = self.graph;
        let b = self.input_wire(kind);
        let ghost g2 = self.graph;
        let c = self.input_wire(kind);
        let ghost g3 = self.graph;
        let d = self.input_wire(kind);
        let r = [a, b, c, d];
        proof {
            lemma_conservative_trans(&old(self).graph, &g1, &g2);
            lemma_conservative_trans(&old(self).graph, &g2, &g3);
            lemma_conservative_trans(&old(self).graph, &g3, &self.graph);
            assert(self.inputs@ =~= old(self).inputs@ + digest_inputs(kind, seq![r]));
        }
        r
    }

    /// Allocates the wires of several elements.
    fn input_elements(&mut self, kind: InputKind, n: usize) -> (r: Vec<Element>)
        requires
            old(self).wf(),
            old(self).room(2 * n),
        ensures
            conservative(&old(self).graph, &final(self).graph),
            final(self).graph.n_wires == old(self).graph.n_wires + 2 * n,
            r.len() == n,
            forall|i: int, j: int|
                #![trigger r[i][j]]
                0 <= i < n && 0 <= j < 2 ==> r[i][j].0 == old(self).graph.n_wires + 2 * i + j,
            final(self).graph.gates == old(self).graph.gates,
            final(self).keeps(old(self)),
            final(self).gadgets == old(self).gadgets,
            final(self).n_merkle_checks == old(self).n_merkle_checks,
            final(self).inputs@ == old(self).inputs@ + element_inputs(kind, r@),
    {
        let mut r: Vec<Element> = Vec::new();
        let mut i: usize = 0;
        proof {
            lemma_conservative_same(&old(self).graph);
            assert(self.inputs@ =~= old(self).inputs@ + element_inputs(kind, r@));
        }
        while i < n
            invariant
                i <= n,
                old(self).room(2 * n),
                conservative(&old(self).graph, &self.graph),
                self.graph.n_wires == old(self).graph.n_wires + 2 * i,
                r.len() == i,
                forall|k: int, j: int|
                    #![trigger r[k][j]]
                    0 <= k < i && 0 <= j < 2 ==> r[k][j].0 == old(self).graph.n_wires + 2 * k + j,
                self.graph.gates == old(self).graph.gates,
                self.keeps(old(self)),
                self.gadgets == old(self).gadgets,
                self.n_merkle_checks == old(self).n_merkle_checks,
                self.inputs@ == old(self).inputs@ + element_inputs(kind, r@),
            decreases n - i,
        {
            let ghost before = self.graph;
            let ghost held = r@;
            let element = self.input_element(kind);
            r.push(element);
            proof {
                lemma_conservative_trans(&old(self).graph, &before, &self.graph);
                assert(element_inputs(kind, held) + element_inputs(kind, seq![element])
                    =~= element_inputs(kind, r@));
                assert(self.inputs@ =~= old(self).inputs@ + element_inputs(kind, r@));
            }
            i = i + 1;
        }
        r
    }

    /// Allocates the wires of several digests.
    fn input_digests(&mut self, kind: InputKind, n: usize) -> (r: Vec<Digest>)
        requires
            old(self).wf(),
            old(self).room(4 * n),
        ensures
            conservative(&old(self).graph, &final(self).graph),
            final(self).graph.n_wires == old(self).graph.n_wires + 4 * n,
            r.len() == n,
            forall|i: int, j: int|
                #![trigger r[i][j]]
                0 <= i < n && 0 <= j < 4 ==> r[i][j].0 == old(self).graph.n_wires + 4 * i + j,
            final(self).graph.gates == old(self).graph.gates,
            final(self).keeps(old(self)),
            final(self).gadgets == old(self).gadgets,
            final(self).n_merkle_checks == old(self).n_merkle_checks,
            final(self).inputs@ == old(self).inputs@ + digest_inputs(kind, r@),
    {
        let mut r: Vec<Digest> = Vec::new();
        let mut i: usize = 0;
        proof {
            lemma_conservative_same(&old(self).graph);
            assert(self.inputs@ =~= old(self).inputs@ + digest_inputs(kind, r@));
        }
        while i < n
            invariant
                i <= n,
                old(self).room(4 * n),
                conservative(&old(self).graph, &self.graph),
                self.graph.n_wires == old(self).graph.n_wires + 4 * i,
                r.len() == i,
                forall|k: int, j: int|
                    #![trigger r[k][j]]
                    0 <= k < i && 0 <= j < 4 ==> r[k][j].0 == old(self).graph.n_wires + 4 * k + j,
                self.graph.gates == old(self).graph.gates,
                self.keeps(old(self)),
                self.gadgets == old(self).gadgets,
                self.n_merkle_checks == old(self).n_merkle_checks,
                self.inputs@ == old(self).inputs@ + digest_inputs(kind, r@),
            decreases n - i,
        {
            let ghost before = self.graph;
            let ghost held = r@;
            let digest = self.input_digest(kind);
            r.push(digest);
            proof {
                lemma_conservative_trans(&old(self).graph, &before, &self.graph);
                assert(digest_inputs(kind, held) + digest_inputs(kind, seq![digest])
                    =~= digest_inputs(kind, r@));
                assert(self.inputs@ =~= old(self).inputs@ + digest_inputs(kind, r@));
            }
            i = i + 1;
        }
        r
    }

    /// The number of the next Merkle check.
    fn next_check(&mut self) -> (r: usize)
        requires
            old(self).n_merkle_checks < usize::MAX,
        ensures
            r == old(self).n_merkle_checks,
            final(self).n_merkle_checks == old(self).n_merkle_checks + 1,
            final(self).graph == old(self).graph,
            final(self).keeps(old(self)),
            final(self).gadgets == old(self).gadgets,
            final(self).inputs == old(self).inputs,
    {
        let r = self.n_merkle_checks;
        self.n_merkle_checks = r + 1;
        r
    }

    /// Binds words to fresh public wires and returns those.
    pub fn bind_public(&mut self, words: &[SymbolicWord]) -> (r: Vec<Wire>)
        requires
            old(self).wf(),
            old(self).room(2 * words.len()),
            old(self).n_public + words.len() <= usize::MAX,
            forall|i: int|
                0 <= i < words.len() ==> (#[trigger] words[i]).inside(
                    old(self).graph.n_wires as int,
                ),
        ensures
            conservative(&old(self).graph, &final(self).graph),
            r.len() == words.len(),
            final(self).public@ == old(self).public@ + r@,
            final(self).n_public == old(self).n_public + words.len(),
            final(self).assertions@ == old(self).assertions@ + bound_assertions(
                old(self).n_public as int,
                old(self).graph.gates.len() as int,
                words.len() as int,
            ),
            final(self).graph.gates.len() == old(self).graph.gates.len() + words.len(),
            forall|g: int|
                0 <= g < old(self).graph.gates.len() ==> #[trigger] final(self).graph.gates[g]
                    == old(self).graph.gates[g],
            forall|i: int|
                #![trigger r[i]]
                0 <= i < r.len() ==> binds(
                    final(self).graph.gates[old(self).graph.gates.len() + i],
                    words[i],
                    r[i],
                ),
            final(self).n_assertions == old(self).n_assertions,
            final(self).n_merkle_checks == old(self).n_merkle_checks,
            final(self).inputs == old(self).inputs,
            final(self).gadgets == old(self).gadgets,
            forall|i: int|
                0 <= i < r.len() ==> old(self).graph.n_wires <= (#[trigger] r[i]).0 < final(self).graph.n_wires,
            forall|vals: spec_fn(Wire) -> Word, i: int|
                #![trigger final(self).graph.holds(vals), r[i]]
                final(self).graph.holds(vals) && 0 <= i < r.len() ==> vals(r[i]) == words[i].value(
                    vals,
                ),
    {
        let mut r: Vec<Wire> = Vec::new();
        let mut i: usize = 0;
        proof {
            lemma_conservative_same(&old(self).graph);
            assert(self.public@ =~= old(self).public@ + r@);
            assert(self.assertions@ =~= old(self).assertions@ + bound_assertions(
                old(self).n_public as int,
                old(self).graph.gates.len() as int,
                0,
            ));
        }
        while i < words.len()
            invariant
                i <= words.len(),
                old(self).room(2 * words.len()),
                old(self).n_public + words.len() <= usize::MAX,
                forall|i: int|
                    0 <= i < words.len() ==> (#[trigger] words[i]).inside(
                        old(self).graph.n_wires as int,
                    ),
                conservative(&old(self).graph, &self.graph),
                self.graph.n_wires <= old(self).graph.n_wires + 2 * i,
                r.len() == i,
                self.public@ == old(self).public@ + r@,
                self.n_public == old(self).n_public + i,
                self.assertions@ == old(self).assertions@ + bound_assertions(
                    old(self).n_public as int,
                    old(self).graph.gates.len() as int,
                    i as int,
                ),
                self.graph.gates.len() == old(self).graph.gates.len() + i,
                forall|g: int|
                    0 <= g < old(self).graph.gates.len() ==> #[trigger] self.graph.gates[g]
                        == old(self).graph.gates[g],
                forall|k: int|
                    #![trigger r[k]]
                    0 <= k < i ==> binds(
                        self.graph.gates[old(self).graph.gates.len() + k],
                        words[k],
                        r[k],
                    ),
                self.n_assertions == old(self).n_assertions,
                self.n_merkle_checks == old(self).n_merkle_checks,
                self.inputs == old(self).inputs,
                self.gadgets == old(self).gadgets,
                forall|k: int|
                    0 <= k < i ==> old(self).graph.n_wires <= (#[trigger] r[k]).0
                        < self.graph.n_wires,
                forall|vals: spec_fn(Wire) -> Word, k: int|
                    #![trigger self.graph.holds(vals), r[k]]
                    self.graph.holds(vals) && 0 <= k < i ==> vals(r[k]) == words[k].value(vals),
            decreases words.len() - i,
        {
            let ghost before = self.graph;
            let ghost held = r@;
            assert(words[i as int].inside(old(self).graph.n_wires as int));
            let wire = words[i].to_wire(&mut self.graph);
            let ghost g1 = self.graph;
            let public = self.graph.free_wire();
            let ghost g2 = self.graph;
            self.assertions.push(
                NamedAssertion {
                    name: AssertionName::BindPublic { number: self.n_public },
                    gate: self.graph.gates.len(),
                },
            );
            self.graph.assert_eq(wire, public);
            self.public.push(public);
            self.n_public = self.n_public + 1;
            r.push(public);
            proof {
                lemma_bound_wire(&g1, &g2, &self.graph, wire, public);
                assert(self.assertions@ =~= old(self).assertions@ + bound_assertions(
                    old(self).n_public as int,
                    old(self).graph.gates.len() as int,
                    i + 1,
                ));
                assert forall|k: int| #![trigger r[k]] 0 <= k < i + 1 implies binds(
                    self.graph.gates[old(self).graph.gates.len() + k],
                    words[k],
                    r[k],
                ) by {
                    if k < i {
                        assert(r[k] == held[k]);
                        assert(self.graph.gates[old(self).graph.gates.len() + k]
                            == before.gates[old(self).graph.gates.len() + k]);
                    }
                }
                lemma_conservative_trans(&old(self).graph, &before, &g1);
                lemma_conservative_trans(&old(self).graph, &g1, &self.graph);
                assert(self.public@ =~= old(self).public@ + r@);
                assert forall|vals: spec_fn(Wire) -> Word, k: int|
                    #![trigger self.graph.holds(vals), r[k]]
                    self.graph.holds(vals) && 0 <= k < i + 1 implies vals(r[k]) == words[k].value(
                    vals,
                ) by {
                    assert(g1.holds(vals));
                    assert(before.holds(vals));
                    if k < i {
                        assert(r[k] == held[k]);
                    }
                }
            }
            i = i + 1;
        }
        r
    }

    /// Hands over what was recorded.
    pub fn build(self) -> (r: Recorded)
        ensures
            r.circuit == self.graph,
            r.gadgets == self.gadgets,
            r.public == self.public,
            r.inputs == self.inputs,
            r.assertions == self.assertions,
    {
        Recorded {
            circuit: self.graph,
            gadgets: self.gadgets,
            public: self.public,
            inputs: self.inputs,
            assertions: self.assertions,
        }
    }

    /// Records that the challenger absorbs words.
    fn absorb(&mut self, words: Vec<Wire>)
        ensures
            final(self).gadgets@ == old(self).gadgets@.push(Gadget::Absorb { words }),
            final(self).graph == old(self).graph,
            final(self).inputs == old(self).inputs,
            final(self).n_merkle_checks == old(self).n_merkle_checks,
            final(self).keeps(old(self)),
    {
        self.gadgets.push(Gadget::Absorb { words });
    }

    /// Allocates an element that the challenger absorbs.
    fn absorbed_input(&mut self, kind: InputKind) -> (r: SymbolicElem)
        requires
            old(self).wf(),
            old(self).room(2),
        ensures
            conservative(&old(self).graph, &final(self).graph),
            final(self).graph.gates == old(self).graph.gates,
            final(self).keeps(old(self)),
            final(self).n_merkle_checks == old(self).n_merkle_checks,
            absorbed_element(old(self), final(self), kind, r),
    {
        let element = self.input_element(kind);
        let mut words: Vec<Wire> = Vec::new();
        words.push(element[0]);
        words.push(element[1]);
        self.absorb(words);
        let r = SymbolicElem::Wires { lo: element[0], hi: element[1] };
        proof {
            assert(words@ =~= seq![element[0], element[1]]);
            assert(self.gadgets@.drop_last() =~= old(self).gadgets@);
            assert(element_inputs(kind, seq![element]) =~= seq![
                Input { kind, wire: element[0] },
                Input { kind, wire: element[1] },
            ]);
        }
        r
    }

    /// Receives one element, which the challenger absorbs.
    pub fn recv_one(&mut self) -> (r: Result<SymbolicElem, ChannelError>)
        requires
            old(self).wf(),
            old(self).room(2),
        ensures
            conservative(&old(self).graph, &final(self).graph),
            final(self).graph.gates == old(self).graph.gates,
            final(self).keeps(old(self)),
            final(self).n_merkle_checks == old(self).n_merkle_checks,
            r matches Ok(elem) && absorbed_element(
                old(self),
                final(self),
                InputKind::RecvOne,
                elem,
            ) && absorbs_value_of(final(self).gadgets@.last(), elem),
    {
        let elem = self.absorbed_input(InputKind::RecvOne);
        proof {
            absorbed_words_are_the_element(old(self), self, InputKind::RecvOne, elem);
        }
        Ok(elem)
    }

    /// Observes one value: it enters as wires, so the circuit is not tied to it.
    pub fn observe_one(&mut self, _val: BinaryField128bGhash) -> (r: SymbolicElem)
        requires
            old(self).wf(),
            old(self).room(2),
        ensures
            conservative(&old(self).graph, &final(self).graph),
            final(self).graph.gates == old(self).graph.gates,
            final(self).keeps(old(self)),
            final(self).n_merkle_checks == old(self).n_merkle_checks,
            absorbed_element(old(self), final(self), InputKind::ObserveOne, r),
            absorbs_value_of(final(self).gadgets@.last(), r),
    {
        let elem = self.absorbed_input(InputKind::ObserveOne);
        proof {
            absorbed_words_are_the_element(old(self), self, InputKind::ObserveOne, elem);
        }
        elem
    }

    /// Samples a challenge.
    pub fn sample(&mut self) -> (r: SymbolicElem)
        requires
            old(self).wf(),
            old(self).room(2),
        ensures
            conservative(&old(self).graph, &final(self).graph),
            final(self).graph.gates == old(self).graph.gates,
            final(self).keeps(old(self)),
            final(self).inputs == old(self).inputs,
            final(self).n_merkle_checks == old(self).n_merkle_checks,
            sampled_element(old(self), final(self), r),
    {
        let lo = self.graph.free_wire();
        let ghost mid = self.graph;
        let hi = self.graph.free_wire();
        proof {
            lemma_conservative_trans(&old(self).graph, &mid, &self.graph);
        }
        self.gadgets.push(Gadget::SampleElement { element: [lo, hi] });
        assert(self.gadgets@.drop_last() =~= old(self).gadgets@);
        SymbolicElem::Wires { lo, hi }
    }

    /// Asserts that an element is zero.
    ///
    /// An element known while the circuit is built is decided there. On wires, both halves are
    /// stated to be zero.
    pub fn assert_zero(&mut self, val: SymbolicElem) -> (r: Result<(), ChannelError>)
        requires
            old(self).wf(),
            old(self).n_assertions < usize::MAX,
            val.inside(old(self).graph.n_wires as int),
        ensures
            final(self).wf(),
            final(self).graph.n_wires == old(self).graph.n_wires,
            final(self).gadgets == old(self).gadgets,
            final(self).inputs == old(self).inputs,
            final(self).public == old(self).public,
            final(self).n_public == old(self).n_public,
            final(self).n_merkle_checks == old(self).n_merkle_checks,
            r is Err <==> (val matches SymbolicElem::Constant(c) && c != BinaryField128bGhash(0)),
            r matches Err(e) ==> e == ChannelError::InvalidAssert,
            val is Constant ==> *final(self) == *old(self),
            val matches SymbolicElem::Wires { lo, hi } ==> {
                let number = old(self).n_assertions;
                let gate = old(self).graph.gates.len();
                &&& final(self).n_assertions == number + 1
                &&& final(self).assertions@ == old(self).assertions@ + seq![
                    NamedAssertion { name: AssertionName::ZeroLow { number }, gate },
                    NamedAssertion {
                        name: AssertionName::ZeroHigh { number },
                        gate: (gate + 1) as usize,
                    },
                ]
                &&& final(self).graph.gates.len() == gate + 2
                &&& forall|g: int|
                    0 <= g < gate ==> #[trigger] final(self).graph.gates[g]
                        == old(self).graph.gates[g]
                &&& asserts_zero(final(self).graph.gates[gate as int], lo)
                &&& asserts_zero(final(self).graph.gates[gate + 1], hi)
            },
            r is Ok ==> forall|vals: spec_fn(Wire) -> Word| #[trigger]
                final(self).graph.holds(vals) <==> old(self).graph.holds(vals) && val.value(vals)
                    == BinaryField128bGhash(0),
    {
        match val {
            SymbolicElem::Constant(c) => {
                if c.0 == 0 {
                    Ok(())
                } else {
                    Err(ChannelError::InvalidAssert)
                }
            },
            SymbolicElem::Wires { lo, hi } => {
                let number: usize = self.n_assertions;
                self.n_assertions = number + 1;
                self.assertions.push(
                    NamedAssertion {
                        name: AssertionName::ZeroLow { number },
                        gate: self.graph.gates.len(),
                    },
                );
                self.graph.assert_zero(lo);
                let ghost mid = self.graph;
                self.assertions.push(
                    NamedAssertion {
                        name: AssertionName::ZeroHigh { number },
                        gate: self.graph.gates.len(),
                    },
                );
                self.graph.assert_zero(hi);
                proof {
                    let gate = old(self).graph.gates.len();
                    assert(mid.gates[gate as int] == self.graph.gates[gate as int]);
                    assert(self.assertions@ =~= old(self).assertions@ + seq![
                        NamedAssertion { name: AssertionName::ZeroLow { number }, gate },
                        NamedAssertion {
                            name: AssertionName::ZeroHigh { number },
                            gate: (gate + 1) as usize,
                        },
                    ]);
                    assert forall|vals: spec_fn(Wire) -> Word| #[trigger] self.graph.holds(
                        vals,
                    ) <==> old(self).graph.holds(vals) && val.value(vals) == BinaryField128bGhash(
                        0,
                    ) by {
                        assert(mid.holds(vals) <==> old(self).graph.holds(vals) && vals(lo) == Word(
                            0,
                        ));
                        lemma_zero_halves(vals(lo).0, vals(hi).0);
                    }
                }
                Ok(())
            },
        }
    }

    /// Observes words: they enter as wires, and every challenge after them is bound to them.
    pub fn observe_words(&mut self, words: &[Word]) -> (r: Vec<SymbolicWord>)
        requires
            old(self).wf(),
            old(self).room(words.len() as int),
        ensures
            conservative(&old(self).graph, &final(self).graph),
            final(self).graph.gates == old(self).graph.gates,
            final(self).keeps(old(self)),
            final(self).n_merkle_checks == old(self).n_merkle_checks,
            r.len() == words.len(),
            observed_words(old(self), final(self), r@),
    {
        let ghost first = self.graph.n_wires as int;
        let mut wires: Vec<Wire> = Vec::new();
        let mut r: Vec<SymbolicWord> = Vec::new();
        let mut i: usize = 0;
        proof {
            lemma_conservative_same(&old(self).graph);
            assert(self.inputs@ =~= old(self).inputs@ + observed_inputs(first, 0));
        }
        while i < words.len()
            invariant
                i <= words.len(),
                first == old(self).graph.n_wires,
                old(self).room(words.len() as int),
                conservative(&old(self).graph, &self.graph),
                self.graph.gates == old(self).graph.gates,
                self.keeps(old(self)),
                self.gadgets == old(self).gadgets,
                self.n_merkle_checks == old(self).n_merkle_checks,
                self.graph.n_wires == first + i,
                r.len() == i,
                wires@ == wire_range(first, i as int),
                forall|k: int|
                    0 <= k < i ==> #[trigger] r[k] == SymbolicWord::Wire(
                        Wire((first + k) as u32),
                    ),
                self.inputs@ == old(self).inputs@ + observed_inputs(first, i as int),
            decreases words.len() - i,
        {
            let ghost before = self.graph;
            let wire = self.input_wire(InputKind::ObserveWords);
            wires.push(wire);
            r.push(SymbolicWord::Wire(wire));
            proof {
                lemma_conservative_trans(&old(self).graph, &before, &self.graph);
                assert(wire == Wire((first + i) as u32));
                assert(wires@ =~= wire_range(first, i + 1));
                assert(self.inputs@ =~= old(self).inputs@ + observed_inputs(first, i + 1));
            }
            i = i + 1;
        }
        self.absorb(wires);
        proof {
            assert(self.gadgets@.drop_last() =~= old(self).gadgets@);
            assert(self.inputs@ =~= old(self).inputs@ + Seq::new(
                words.len() as nat,
                |i: int|
                    Input {
                        kind: InputKind::ObserveWords,
                        wire: Wire((old(self).graph.n_wires + i) as u32),
                    },
            ));
        }
        r
    }

    /// The sum of the elements a word's bits select.
    ///
    /// A word known while the circuit is built selects nothing in it: what is left are the
    /// exclusive-ors of the elements it takes, none where it takes one.
    pub fn subset_sum(&mut self, elems: &[SymbolicElem], word: &SymbolicWord) -> (r: SymbolicElem)
        requires
            elems.len() <= 64,
            old(self).wf(),
            old(self).room(13 * elems.len()),
            word.inside(old(self).graph.n_wires as int),
            forall|i: int|
                0 <= i < elems.len() ==> (#[trigger] elems[i]).inside(
                    old(self).graph.n_wires as int,
                ),
        ensures
            conservative(&old(self).graph, &final(self).graph),
            final(self).keeps(old(self)),
            final(self).inputs == old(self).inputs,
            final(self).gadgets == old(self).gadgets,
            final(self).n_merkle_checks == old(self).n_merkle_checks,
            r.inside(final(self).graph.n_wires as int),
            *word matches SymbolicWord::Constant(value) ==> only_sums_added(
                &old(self).graph,
                &final(self).graph,
            ) && final(self).graph.gates.len() <= old(self).graph.gates.len() + sums_needed(
                value,
                elems.len() as int,
            ),
            word is Constant && (forall|i: int|
                0 <= i < elems.len() ==> (#[trigger] elems[i]) is Constant) ==> final(self).graph
                == old(self).graph,
            forall|vals: spec_fn(Wire) -> Word| #[trigger]
                final(self).graph.holds(vals) ==> r.value(vals) == subset_value(
                    elems@,
                    elems.len() as int,
                    word.value(vals),
                    vals,
                ),
    {
        crate::recursion::symbolic::subset_sum(elems, *word, &mut self.graph)
    }

    /// The element a word indexes.
    pub fn select(&mut self, elems: &[SymbolicElem], word: &SymbolicWord) -> (r: SymbolicElem)
        requires
            exists|k: nat| k < 32 && elems.len() == #[trigger] pow2(k),
            old(self).wf(),
            old(self).room(48 + 4 * elems.len()),
            word.inside(old(self).graph.n_wires as int),
            forall|i: int|
                0 <= i < elems.len() ==> (#[trigger] elems[i]).inside(
                    old(self).graph.n_wires as int,
                ),
        ensures
            conservative(&old(self).graph, &final(self).graph),
            final(self).keeps(old(self)),
            final(self).inputs == old(self).inputs,
            final(self).gadgets == old(self).gadgets,
            final(self).n_merkle_checks == old(self).n_merkle_checks,
            r.inside(final(self).graph.n_wires as int),
            *word matches SymbolicWord::Constant(value) ==> final(self).graph == old(self).graph
                && r == elems[value.0 as int % elems.len() as int],
            forall|vals: spec_fn(Wire) -> Word| #[trigger]
                final(self).graph.holds(vals) ==> r.value(vals) == elems[word.value(vals).0 as int
                    % elems.len() as int].value(vals),
    {
        select_elem(elems, *word, &mut self.graph)
    }

    /// Samples a word of so many bits, 32 at most.
    ///
    /// The draw is masked by a gate, so that every assignment that satisfies the circuit puts a
    /// word below the power of two on the result. An index into a list can rest on that.
    pub fn sample_bits(&mut self, bits: usize) -> (r: SymbolicWord)
        requires
            old(self).wf(),
            old(self).room(3),
        ensures
            conservative(&old(self).graph, &final(self).graph),
            final(self).keeps(old(self)),
            final(self).inputs == old(self).inputs,
            final(self).n_merkle_checks == old(self).n_merkle_checks,
            final(self).graph.n_wires <= old(self).graph.n_wires + 3,
            r matches SymbolicWord::Wire(wire) && {
                let draw = Wire(old(self).graph.n_wires);
                &&& old(self).graph.n_wires < wire.0 < final(self).graph.n_wires
                &&& final(self).gadgets@ == old(self).gadgets@.push(
                    Gadget::SampleBits { bits, draw, wire },
                )
                &&& final(self).graph.gates.len() == old(self).graph.gates.len() + 1
                &&& forall|g: int|
                    0 <= g < old(self).graph.gates.len() ==> #[trigger] final(self).graph.gates[g]
                        == old(self).graph.gates[g]
                &&& forall|vals: spec_fn(Wire) -> Word| #[trigger]
                    final(self).graph.holds(vals) ==> vals(wire).0 as int == vals(draw).0 as int
                        % pow2(drawn_width(bits)) as int && final(self).gadgets@.last().bounded(
                        vals,
                    )
            },
    {
        let width: u64 = if bits < 32 {
            bits as u64
        } else {
            32
        };
        proof {
            lemma2_to64();
            lemma_u64_shl_is_mul(1, width);
            lemma_pow2_pos(width as nat);
        }
        let mask: u64 = (1u64 << width) - 1;
        let draw = self.graph.free_wire();
        let ghost g1 = self.graph;
        let low = self.graph.constant_wire(Word(mask));
        let ghost g2 = self.graph;
        let wire = self.graph.band(draw, low);
        self.gadgets.push(Gadget::SampleBits { bits, draw, wire });
        proof {
            lemma_conservative_trans(&old(self).graph, &g1, &g2);
            lemma_conservative_trans(&old(self).graph, &g2, &self.graph);
            let last = self.gadgets@.last();
            assert forall|vals: spec_fn(Wire) -> Word| #[trigger]
                self.graph.holds(vals) implies vals(wire).0 as int == vals(draw).0 as int % pow2(
                drawn_width(bits),
            ) as int && last.bounded(vals) by {
                assert(g2.holds(vals));
                lemma_u64_low_bits_mask_is_mod(vals(draw).0, width as nat);
                vstd::arithmetic::div_mod::lemma_mod_bound(
                    vals(draw).0 as int,
                    pow2(width as nat) as int,
                );
            }
        }
        SymbolicWord::Wire(wire)
    }

    /// Packs words into elements.
    pub fn pack_words(&mut self, words: &[SymbolicWord]) -> (r: Vec<SymbolicElem>)
        requires
            old(self).wf(),
            old(self).room(words.len() as int),
            forall|i: int|
                0 <= i < words.len() ==> (#[trigger] words[i]).inside(
                    old(self).graph.n_wires as int,
                ),
        ensures
            conservative(&old(self).graph, &final(self).graph),
            final(self).keeps(old(self)),
            final(self).inputs == old(self).inputs,
            final(self).gadgets == old(self).gadgets,
            final(self).n_merkle_checks == old(self).n_merkle_checks,
            final(self).graph.gates == old(self).graph.gates,
            r.len() == div_up(words.len() as int, 2),
            forall|i: int|
                0 <= i < r.len() ==> (#[trigger] r[i]).inside(final(self).graph.n_wires as int),
            forall|vals: spec_fn(Wire) -> Word, i: int|
                #![trigger final(self).graph.holds(vals), r[i]]
                final(self).graph.holds(vals) && 0 <= i < r.len() ==> r[i].value(vals)
                    == packed_value(words@, i, vals),
    {
        crate::recursion::symbolic::pack_words(words, &mut self.graph)
    }

    /// Receives a commitment's root, which the challenger absorbs byte by byte.
    ///
    /// The root's wires hold big-endian words, and the challenger takes little-endian ones, so the
    /// bytes of each half are reversed on the way.
    pub fn recv_merkle_commitment(&mut self, leaf_size: usize, depth: usize) -> (r: Result<
        Commitment,
        ChannelError,
    >)
        requires
            old(self).wf(),
            old(self).room(40),
        ensures
            conservative(&old(self).graph, &final(self).graph),
            final(self).keeps(old(self)),
            final(self).n_merkle_checks == old(self).n_merkle_checks,
            r matches Ok(commitment) && commitment.leaf_size == leaf_size && commitment.depth == depth
                && received_root(old(self), final(self), &commitment),
    {
        let root = self.input_digest(InputKind::MerkleRoot);
        let ghost start = self.graph;
        let mut words: Vec<Wire> = Vec::new();
        let mut i: usize = 0;
        proof {
            lemma_conservative_same(&start);
        }
        while i < 4
            invariant
                i <= 4,
                words.len() == i,
                conservative(&start, &self.graph),
                start.n_wires == old(self).graph.n_wires + 4,
                old(self).room(40),
                self.graph.n_wires <= start.n_wires + 8 * i,
                forall|j: int| 0 <= j < 4 ==> (#[trigger] root[j]).0 == old(self).graph.n_wires + j,
                self.keeps(old(self)),
                self.gadgets == old(self).gadgets,
                self.n_merkle_checks == old(self).n_merkle_checks,
                self.inputs@ == old(self).inputs@ + digest_inputs(
                    InputKind::MerkleRoot,
                    seq![root],
                ),
                forall|vals: spec_fn(Wire) -> Word, j: int, k: int|
                    #![trigger self.graph.holds(vals), vals(words[j]).bit(k)]
                    self.graph.holds(vals) && 0 <= j < i && 0 <= k < 64 ==> vals(words[j]).bit(k)
                        == vals(root[j]).bit(byte_swapped(k)),
            decreases 4 - i,
        {
            let ghost before = self.graph;
            let ghost held = words@;
            assert(root[i as int].0 < start.n_wires);
            let word = swap_bytes_32(&mut self.graph, root[i]);
            words.push(word);
            proof {
                lemma_conservative_trans(&start, &before, &self.graph);
                assert forall|vals: spec_fn(Wire) -> Word, j: int, k: int|
                    #![trigger self.graph.holds(vals), vals(words[j]).bit(k)]
                    self.graph.holds(vals) && 0 <= j < i + 1 && 0 <= k < 64 implies vals(
                    words[j],
                ).bit(k) == vals(root[j]).bit(byte_swapped(k)) by {
                    assert(before.holds(vals));
                    if j < i {
                        assert(words[j] == held[j]);
                        assert(vals(held[j]).bit(k) == vals(words[j]).bit(k));
                    } else {
                        assert(vals(word).bit(k) == vals(words[j]).bit(k));
                    }
                }
            }
            i = i + 1;
        }
        proof {
            lemma_conservative_trans(&old(self).graph, &start, &self.graph);
        }
        self.absorb(words);
        assert(self.gadgets@.drop_last() =~= old(self).gadgets@);
        Ok(Commitment { root, leaf_size, depth })
    }

    /// Opens a commitment at every index and returns the elements the opened leaves hold.
    ///
    /// One layer is folded to the root once. Every query then climbs from its own leaf up to the
    /// entry of that layer that its index addresses.
    pub fn recv_openings(&mut self, commitment: &Commitment, indices: &[SymbolicWord]) -> (r: Result<
        Vec<SymbolicElem>,
        ChannelError,
    >)
        requires
            old(self).wf(),
            old(self).room(opening_wires(commitment, indices.len() as int)),
            old(self).n_merkle_checks + 1 + indices.len() <= usize::MAX,
            forall|i: int|
                0 <= i < indices.len() ==> (#[trigger] indices[i]).inside(
                    old(self).graph.n_wires as int,
                ),
        ensures
            conservative(&old(self).graph, &final(self).graph),
            final(self).keeps(old(self)),
            final(self).n_merkle_checks == old(self).n_merkle_checks + 1 + indices.len(),
            final(self).graph.gates == old(self).graph.gates,
            r matches Ok(values) && received_openings(
                old(self),
                final(self),
                commitment,
                indices@,
                values@,
            ),
    {
        let tree_depth = commitment.depth;
        // Both sides stop climbing at the same level.
        let layer_depth = optimal_verify_layer(indices.len(), tree_depth);
        proof {
            lemma_room_products(
                indices.len() as int,
                2 * commitment.leaf_size + 4 * (tree_depth - layer_depth) + 1,
            );
        }
        // One internal layer, folded to the root once and then shared by every climb below.
        let n_entries: usize = pow2_usize(layer_depth);
        let layer = self.input_digests(InputKind::MerkleLayer, n_entries);
        let layer_check = self.next_check();
        let ghost layer_seq = layer@;
        let ghost start = *self;
        self.gadgets.push(Gadget::Layer { check: layer_check, root: commitment.root, layer });
        let ghost with_layer = self.gadgets@;
        let ghost n = old(self).gadgets.len() as int;
        let mut values: Vec<SymbolicElem> = Vec::new();
        let mut q: usize = 0;
        let ghost each = 2 * commitment.leaf_size + 4 * (tree_depth - layer_depth) + 1;
        proof {
            lemma_conservative_same(&start.graph);
            assert(with_layer.take(n) =~= old(self).gadgets@);
            assert(with_layer.skip(n + 1) =~= Seq::<Gadget>::empty());
            assert(self.inputs@ =~= start.inputs@ + opening_inputs(with_layer.skip(n + 1)));
            assert(values@ =~= opening_values(with_layer.skip(n + 1)));
            assert(0 * each == 0) by (nonlinear_arith);
        }
        while q < indices.len()
            invariant
                q <= indices.len(),
                tree_depth == commitment.depth,
                layer_depth == verify_layer_depth(indices.len() as nat, tree_depth as nat),
                each == 2 * commitment.leaf_size + 4 * (tree_depth - layer_depth) + 1,
                n == old(self).gadgets.len(),
                layer_check == old(self).n_merkle_checks,
                with_layer.len() == n + 1,
                start.graph.n_wires == old(self).graph.n_wires + 4 * pow2(layer_depth as nat),
                old(self).room(4 * pow2(layer_depth as nat) + indices.len() * each),
                layer_depth <= tree_depth,
                self.graph.gates == old(self).graph.gates,
                fresh_inputs(
                    opening_inputs(self.gadgets@.skip(n + 1)),
                    start.graph.n_wires as int,
                    self.graph.n_wires as int,
                ),
                old(self).n_merkle_checks + 1 + indices.len() <= usize::MAX,
                conservative(&old(self).graph, &start.graph),
                conservative(&start.graph, &self.graph),
                self.graph.n_wires <= start.graph.n_wires + q * each,
                self.keeps(old(self)),
                self.n_merkle_checks == old(self).n_merkle_checks + 1 + q,
                forall|i: int|
                    0 <= i < indices.len() ==> (#[trigger] indices[i]).inside(
                        old(self).graph.n_wires as int,
                    ),
                self.gadgets.len() == n + 1 + q,
                self.gadgets@.take(n + 1) == with_layer,
                forall|k: int|
                    0 <= k < q ==> is_opening(
                        #[trigger] self.gadgets@.skip(n + 1)[k],
                        layer_check + 1 + k,
                        layer_check as int,
                        commitment,
                        layer_depth as nat,
                    ),
                forall|vals: spec_fn(Wire) -> Word, k: int|
                    #![trigger self.graph.holds(vals), self.gadgets@.skip(n + 1)[k]]
                    self.graph.holds(vals) && 0 <= k < q ==> vals(
                        opened_index(self.gadgets@.skip(n + 1)[k]),
                    ) == indices[k].value(vals),
                self.inputs@ == start.inputs@ + opening_inputs(self.gadgets@.skip(n + 1)),
                values@ == opening_values(self.gadgets@.skip(n + 1)),
            decreases indices.len() - q,
        {
            let ghost before = *self;
            let ghost held = self.gadgets@.skip(n + 1);
            proof {
                assert((q + 1) * each == q * each + each) by (nonlinear_arith);
                assert((q + 1) * each <= indices.len() * each) by (nonlinear_arith)
                    requires
                        q < indices.len(),
                        0 <= each,
                ;
                assert(0 <= q * each) by (nonlinear_arith)
                    requires
                        0 <= each,
                ;
                assert(indices[q as int].inside(old(self).graph.n_wires as int));
            }
            let leaf = self.input_elements(InputKind::Opening, commitment.leaf_size);
            let ghost g1 = self.graph;
            let ghost opened = leaf@;
            let branch = self.input_digests(InputKind::MerkleBranch, tree_depth - layer_depth);
            let ghost g2 = self.graph;
            let ghost climbed = branch@;
            let check = self.next_check();
            let index = indices[q].to_wire(&mut self.graph);
            append_lifted(&mut values, &leaf);
            let ghost gadget = Gadget::Opening {
                check,
                layer_check,
                index,
                leaf,
                layer_depth,
                tree_depth,
                branch,
            };
            self.gadgets.push(
                Gadget::Opening {
                    check,
                    layer_check,
                    index,
                    leaf,
                    layer_depth,
                    tree_depth,
                    branch,
                },
            );
            proof {
                lemma_conservative_trans(&start.graph, &before.graph, &g1);
                lemma_conservative_trans(&start.graph, &g1, &g2);
                lemma_conservative_trans(&start.graph, &g2, &self.graph);
                let added = self.gadgets@.skip(n + 1);
                assert(added =~= held.push(gadget));
                assert(added.drop_last() =~= held);
                assert(self.gadgets@.take(n + 1) =~= with_layer);
                assert(self.inputs@ =~= start.inputs@ + opening_inputs(added));
                assert(values@ =~= opening_values(added));
                let a = element_inputs(InputKind::Opening, opened);
                let b = digest_inputs(InputKind::MerkleBranch, climbed);
                lemma_fresh_elements(InputKind::Opening, opened, before.graph.n_wires as int);
                lemma_fresh_digests(InputKind::MerkleBranch, climbed, g1.n_wires as int);
                lemma_fresh_join(
                    a,
                    b,
                    before.graph.n_wires as int,
                    g1.n_wires as int,
                    g2.n_wires as int,
                );
                lemma_fresh_join(
                    opening_inputs(held),
                    a + b,
                    start.graph.n_wires as int,
                    before.graph.n_wires as int,
                    g2.n_wires as int,
                );
                assert(opening_inputs(added) =~= opening_inputs(held) + (a + b));
                assert forall|k: int| 0 <= k < q + 1 implies is_opening(
                    #[trigger] added[k],
                    layer_check + 1 + k,
                    layer_check as int,
                    commitment,
                    layer_depth as nat,
                ) by {
                    if k < q {
                        assert(added[k] == held[k]);
                    }
                }
                assert forall|vals: spec_fn(Wire) -> Word, k: int|
                    #![trigger self.graph.holds(vals), added[k]]
                    self.graph.holds(vals) && 0 <= k < q + 1 implies vals(opened_index(added[k]))
                    == indices[k].value(vals) by {
                    assert(g2.holds(vals));
                    assert(g1.holds(vals));
                    assert(before.graph.holds(vals));
                    if k < q {
                        assert(added[k] == held[k]);
                    }
                }
            }
            q = q + 1;
        }
        proof {
            lemma_conservative_trans(&old(self).graph, &start.graph, &self.graph);
            let last = self.gadgets@;
            assert(last.take(n) =~= last.take(n + 1).take(n));
            assert(last[n] == last.take(n + 1)[n]);
            lemma_fresh_digests(InputKind::MerkleLayer, layer_seq, old(self).graph.n_wires as int);
            lemma_fresh_join(
                digest_inputs(InputKind::MerkleLayer, layer_seq),
                opening_inputs(last.skip(n + 1)),
                old(self).graph.n_wires as int,
                start.graph.n_wires as int,
                self.graph.n_wires as int,
            );
        }
        Ok(values)
    }

    /// Receives a whole committed vector, checked by rebuilding its tree.
    pub fn recv_committed_vector(&mut self, commitment: &Commitment) -> (r: Result<
        Vec<SymbolicElem>,
        ChannelError,
    >)
        requires
            old(self).wf(),
            old(self).room(2 * (commitment.leaf_size * pow2(commitment.depth as nat))),
            pow2(commitment.depth as nat) <= usize::MAX,
            commitment.leaf_size * pow2(commitment.depth as nat) <= usize::MAX,
            old(self).n_merkle_checks < usize::MAX,
        ensures
            conservative(&old(self).graph, &final(self).graph),
            final(self).keeps(old(self)),
            final(self).n_merkle_checks == old(self).n_merkle_checks + 1,
            final(self).graph.gates == old(self).graph.gates,
            r matches Ok(values) && received_vector(old(self), final(self), commitment, values@),
    {
        let n_leaves: usize = pow2_usize(commitment.depth);
        let len: usize = commitment.leaf_size * n_leaves;
        let data = self.input_elements(InputKind::CommittedVector, len);
        let check = self.next_check();
        let mut values: Vec<SymbolicElem> = Vec::new();
        append_lifted(&mut values, &data);
        assert(values@ =~= lifted_all(data@));
        self.gadgets.push(
            Gadget::Vector { check, root: commitment.root, data, leaf_size: commitment.leaf_size },
        );
        assert(self.gadgets@.drop_last() =~= old(self).gadgets@);
        Ok(values)
    }
}

impl Default for Binius64BuilderChannel {
    fn default() -> (r: Self)
        ensures
            r.wf(),
            r.graph.n_wires == 1,
            r.graph.const_pool@ == seq![(Word(0xffff_ffff_ffff_ffff), Wire(0))],
            r.graph.gates.len() == 0,
            r.gadgets.len() == 0,
            r.public.len() == 0,
            r.inputs.len() == 0,
            r.assertions.len() == 0,
            r.n_assertions == 0,
            r.n_merkle_checks == 0,
            r.n_public == 0,
    {
        Binius64BuilderChannel::new()
    }
}

/// A sampled word stays bounded however the circuit grows.
pub proof fn sampled_words_stay_bounded(
    before: &Binius64BuilderChannel,
    after: &Binius64BuilderChannel,
    gadget: Gadget,
)
    requires
        conservative(&before.graph, &after.graph),
        forall|vals: spec_fn(Wire) -> Word| #[trigger]
            before.graph.holds(vals) ==> gadget.bounded(vals),
    ensures
        forall|vals: spec_fn(Wire) -> Word| #[trigger]
            after.graph.holds(vals) ==> gadget.bounded(vals),
{
    assert forall|vals: spec_fn(Wire) -> Word| #[trigger]
        after.graph.holds(vals) implies gadget.bounded(vals) by {
        assert(before.graph.holds(vals));
    }
}

/// An element was sampled from the challenger.
pub open spec fn sampled_element(
    before: &Binius64BuilderChannel,
    after: &Binius64BuilderChannel,
    r: SymbolicElem,
) -> bool {
    &&& after.graph.n_wires == before.graph.n_wires + 2
    &&& after.gadgets.len() == before.gadgets.len() + 1
    &&& after.gadgets@.drop_last() == before.gadgets@
    &&& after.gadgets@.last() matches Gadget::SampleElement { element }
    &&& r == lifted_element(element)
    &&& element[0].0 == before.graph.n_wires
    &&& element[1].0 == before.graph.n_wires + 1
}

/// Words were allocated as inputs and absorbed.
pub open spec fn observed_words(
    before: &Binius64BuilderChannel,
    after: &Binius64BuilderChannel,
    r: Seq<SymbolicWord>,
) -> bool {
    let first = before.graph.n_wires;
    &&& after.graph.n_wires == first + r.len()
    &&& forall|i: int|
        0 <= i < r.len() ==> #[trigger] r[i] == SymbolicWord::Wire(Wire((first + i) as u32))
    &&& after.inputs@ == before.inputs@ + Seq::new(
        r.len(),
        |i: int| Input { kind: InputKind::ObserveWords, wire: Wire((first + i) as u32) },
    )
    &&& after.gadgets.len() == before.gadgets.len() + 1
    &&& after.gadgets@.drop_last() == before.gadgets@
    &&& after.gadgets@.last() matches Gadget::Absorb { words }
    &&& words@ == wire_range(first as int, r.len() as int)
}

/// A root was allocated as inputs and absorbed, the bytes of each half reversed.
pub open spec fn received_root(
    before: &Binius64BuilderChannel,
    after: &Binius64BuilderChannel,
    commitment: &Commitment,
) -> bool {
    &&& forall|j: int|
        0 <= j < 4 ==> #[trigger] commitment.root[j] == Wire((before.graph.n_wires + j) as u32)
    &&& after.inputs@ == before.inputs@ + digest_inputs(
        InputKind::MerkleRoot,
        seq![commitment.root],
    )
    &&& after.gadgets.len() == before.gadgets.len() + 1
    &&& after.gadgets@.drop_last() == before.gadgets@
    &&& after.gadgets@.last() matches Gadget::Absorb { words }
    &&& words.len() == 4
    &&& forall|vals: spec_fn(Wire) -> Word, i: int, k: int|
        #![trigger after.graph.holds(vals), vals(words[i]).bit(k)]
        after.graph.holds(vals) && 0 <= i < 4 && 0 <= k < 64 ==> vals(words[i]).bit(k) == vals(
            commitment.root[i],
        ).bit(byte_swapped(k))
}

/// A commitment was opened at indices.
pub open spec fn received_openings(
    before: &Binius64BuilderChannel,
    after: &Binius64BuilderChannel,
    commitment: &Commitment,
    indices: Seq<SymbolicWord>,
    values: Seq<SymbolicElem>,
) -> bool {
    let n = before.gadgets.len() as int;
    let depth = verify_layer_depth(indices.len() as nat, commitment.depth as nat);
    let added = after.gadgets@.skip(n + 1);
    let first = before.graph.n_wires as int;
    &&& after.gadgets.len() == n + 1 + indices.len()
    &&& after.gadgets@.take(n) == before.gadgets@
    &&& after.gadgets@[n] matches Gadget::Layer { check, root, layer }
    &&& check == before.n_merkle_checks
    &&& root == commitment.root
    &&& layer.len() == pow2(depth)
    &&& forall|i: int, j: int|
        #![trigger layer[i][j]]
        0 <= i < layer.len() && 0 <= j < 4 ==> layer[i][j] == Wire(
            (first + 4 * i + j) as u32,
        )
    &&& forall|q: int|
        0 <= q < indices.len() ==> is_opening(
            #[trigger] added[q],
            check + 1 + q,
            check as int,
            commitment,
            depth,
        )
    &&& forall|vals: spec_fn(Wire) -> Word, q: int|
        #![trigger after.graph.holds(vals), added[q]]
        after.graph.holds(vals) && 0 <= q < indices.len() ==> vals(
            opened_index(added[q]),
        ) == indices[q].value(vals)
    &&& after.inputs@ == before.inputs@ + digest_inputs(
        InputKind::MerkleLayer,
        layer@,
    ) + opening_inputs(added)
    &&& fresh_inputs(
        digest_inputs(InputKind::MerkleLayer, layer@) + opening_inputs(added),
        first,
        after.graph.n_wires as int,
    )
    &&& values == opening_values(added)
}

/// A whole committed vector was received.
pub open spec fn received_vector(
    before: &Binius64BuilderChannel,
    after: &Binius64BuilderChannel,
    commitment: &Commitment,
    values: Seq<SymbolicElem>,
) -> bool {
    &&& after.gadgets.len() == before.gadgets.len() + 1
    &&& after.gadgets@.drop_last() == before.gadgets@
    &&& after.gadgets@.last() matches Gadget::Vector { check, root, data, leaf_size }
    &&& check == before.n_merkle_checks
    &&& root == commitment.root
    &&& leaf_size == commitment.leaf_size
    &&& data.len() == commitment.leaf_size * pow2(commitment.depth as nat)
    &&& forall|i: int, j: int|
        #![trigger data[i][j]]
        0 <= i < data.len() && 0 <= j < 2 ==> data[i][j] == Wire(
            (before.graph.n_wires + 2 * i + j) as u32,
        )
    &&& after.inputs@ == before.inputs@ + element_inputs(InputKind::CommittedVector, data@)
    &&& values == lifted_all(data@)
}

/// An element was allocated as an input and absorbed.
pub open spec fn absorbed_element(
    before: &Binius64BuilderChannel,
    after: &Binius64BuilderChannel,
    kind: InputKind,
    elem: SymbolicElem,
) -> bool {
    let lo = Wire(before.graph.n_wires);
    let hi = Wire((before.graph.n_wires + 1) as u32);
    &&& elem == SymbolicElem::Wires { lo, hi }
    &&& after.graph.n_wires == before.graph.n_wires + 2
    &&& after.inputs@ == before.inputs@ + seq![
        Input { kind, wire: lo },
        Input { kind, wire: hi },
    ]
    &&& after.gadgets.len() == before.gadgets.len() + 1
    &&& after.gadgets@.drop_last() == before.gadgets@
    &&& after.gadgets@.last() matches Gadget::Absorb { words }
    &&& words@ == seq![lo, hi]
}

/// The inputs that observed words occupy.
pub open spec fn observed_inputs(first: int, n: int) -> Seq<Input> {
    Seq::new(
        n as nat,
        |i: int| Input { kind: InputKind::ObserveWords, wire: Wire((first + i) as u32) },
    )
}

/// The index wire of an opening.
pub open spec fn opened_index(gadget: Gadget) -> Wire {
    match gadget {
        Gadget::Opening { index, .. } => index,
        _ => Wire(0),
    }
}

/// The wires that the openings of a commitment take: a layer, and for each query a leaf, a branch
/// and an index.
pub open spec fn opening_wires(commitment: &Commitment, n: int) -> int {
    let depth = verify_layer_depth(n as nat, commitment.depth as nat);
    4 * pow2(depth) + n * (2 * commitment.leaf_size + 4 * (commitment.depth - depth) + 1)
}

/// A gate that binds a word to a public wire.
pub open spec fn binds(gate: GateData, word: SymbolicWord, public: Wire) -> bool {
    &&& gate.body == GateBody::Op(Opcode::AssertEq)
    &&& gate.inputs.len() == 2
    &&& word matches SymbolicWord::Wire(wire) ==> gate.inputs[0] == wire
    &&& gate.inputs[1] == public
}

/// A gate that asserts a wire to be zero.
pub open spec fn asserts_zero(gate: GateData, wire: Wire) -> bool {
    gate.body == GateBody::Op(Opcode::AssertZero) && gate.inputs@ == seq![wire]
}

/// An opening of a commitment against a layer.
pub open spec fn is_opening(
    gadget: Gadget,
    number: int,
    layer_number: int,
    commitment: &Commitment,
    depth: nat,
) -> bool {
    gadget matches Gadget::Opening {
        check,
        layer_check,
        index,
        leaf,
        layer_depth,
        tree_depth,
        branch,
    } && check == number && layer_check == layer_number && leaf.len() == commitment.leaf_size
        && layer_depth == depth && tree_depth == commitment.depth && branch.len()
        == commitment.depth - depth
}

/// Appends elements lifted from their wires.
fn append_lifted(r: &mut Vec<SymbolicElem>, elements: &Vec<Element>)
    ensures
        final(r)@ == old(r)@ + lifted_all(elements@),
{
    let ghost before = r@;
    let mut i: usize = 0;
    assert(before + lifted_all(elements@.take(0)) =~= before);
    while i < elements.len()
        invariant
            i <= elements.len(),
            r@ == before + lifted_all(elements@.take(i as int)),
        decreases elements.len() - i,
    {
        let element = elements[i];
        r.push(SymbolicElem::Wires { lo: element[0], hi: element[1] });
        assert(r@ =~= before + lifted_all(elements@.take(i + 1)));
        i = i + 1;
    }
    assert(elements@.take(i as int) =~= elements@);
}

/// A fresh wire bound to another constrains nothing that was there.
proof fn lemma_bound_wire(a: &GateGraph, b: &GateGraph, c: &GateGraph, wire: Wire, public: Wire)
    requires
        a.wf(),
        c.wf(),
        wire.0 < a.n_wires,
        public.0 == a.n_wires,
        b.n_wires == a.n_wires + 1,
        c.n_wires == b.n_wires,
        forall|vals: spec_fn(Wire) -> Word| #[trigger] b.holds(vals) <==> a.holds(vals),
        forall|vals: spec_fn(Wire) -> Word| #[trigger]
            c.holds(vals) <==> b.holds(vals) && vals(wire) == vals(public),
    ensures
        conservative(a, c),
        forall|vals: spec_fn(Wire) -> Word| #[trigger]
            c.holds(vals) ==> a.holds(vals) && vals(wire) == vals(public),
{
    assert forall|vals: spec_fn(Wire) -> Word| #[trigger] c.holds(vals) implies a.holds(vals)
        && vals(wire) == vals(public) by {
        assert(b.holds(vals));
    }
    assert forall|vals: spec_fn(Wire) -> Word| a.holds(vals) implies #[trigger] continued(
        a,
        c,
        vals,
    ) by {
        let more = |w: Wire|
            if w == public {
                vals(wire)
            } else {
                vals(w)
            };
        assert(agree(vals, more, a.n_wires as int));
        lemma_graph_agrees(a, vals, more);
        assert(b.holds(more));
        assert(c.holds(more));
    }
}

/// An element is zero when both halves are.
proof fn lemma_zero_halves(lo: u64, hi: u64)
    ensures
        ((lo as u128) | ((hi as u128) << 64)) == 0 <==> lo == 0 && hi == 0,
{
    assert(((lo as u128) | ((hi as u128) << 64)) == 0 <==> lo == 0 && hi == 0) by (bit_vector);
}

/// Elements on consecutive wires are fresh.
proof fn lemma_fresh_elements(kind: InputKind, elements: Seq<Element>, first: int)
    requires
        forall|i: int, j: int|
            #![trigger elements[i][j]]
            0 <= i < elements.len() && 0 <= j < 2 ==> elements[i][j].0 == first + 2 * i + j,
    ensures
        fresh_inputs(element_inputs(kind, elements), first, first + 2 * elements.len()),
{
    let inputs = element_inputs(kind, elements);
    assert forall|k: int| 0 <= k < inputs.len() implies (#[trigger] inputs[k]).wire.0 == first
        + k by {
        assert(elements[k / 2][k % 2].0 == first + 2 * (k / 2) + k % 2);
    }
}

/// Digests on consecutive wires are fresh.
proof fn lemma_fresh_digests(kind: InputKind, digests: Seq<Digest>, first: int)
    requires
        forall|i: int, j: int|
            #![trigger digests[i][j]]
            0 <= i < digests.len() && 0 <= j < 4 ==> digests[i][j].0 == first + 4 * i + j,
    ensures
        fresh_inputs(digest_inputs(kind, digests), first, first + 4 * digests.len()),
{
    let inputs = digest_inputs(kind, digests);
    assert forall|k: int| 0 <= k < inputs.len() implies (#[trigger] inputs[k]).wire.0 == first
        + k by {
        assert(digests[k / 4][k % 4].0 == first + 4 * (k / 4) + k % 4);
    }
}

/// Wires above fresh ones are fresh beside them.
proof fn lemma_fresh_join(a: Seq<Input>, b: Seq<Input>, first: int, mid: int, end: int)
    requires
        first <= mid <= end,
        fresh_inputs(a, first, mid),
        fresh_inputs(b, mid, end),
    ensures
        fresh_inputs(a + b, first, end),
{
}

/// A product of lengths is not negative.
proof fn lemma_room_products(n: int, each: int)
    requires
        0 <= n,
        0 <= each,
    ensures
        0 <= n * each,
{
    assert(0 <= n * each) by (nonlinear_arith)
        requires
            0 <= n,
            0 <= each,
    ;
}

} // verus!
