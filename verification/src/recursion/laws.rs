//! What a recorded run means for the values on its wires.

use vstd::arithmetic::power2::{lemma_pow2_strictly_increases, pow2};
use crate::algebra::field::lemma_select_plus;
use crate::algebra::group::AdditiveGroup;
use crate::algebra::sum::{lemma_sum_ext, lemma_sum_plus, lemma_sum_single};
use crate::bits::{bit64, lemma_bit64_xor};
use crate::circuits::bytes::byte_swapped;
use crate::field::ghash::BinaryField128bGhash;
use crate::frontend::wire_set::Wire;
use crate::math::index::{ceil_log2, lemma_ceil_log2_exists};
use crate::recursion::channel::{
    Binius64BuilderChannel, Commitment, Digest, Element, Gadget, Input, InputKind, absorbed_element,
    digest_inputs, element_inputs, is_opening, lifted_all, lifted_element, observed_words,
    opened_index, opening_values, received_openings, received_root, received_vector,
    sampled_element, verify_layer_depth,
};
use crate::recursion::symbolic::{SymbolicElem, SymbolicWord, packed_value, subset_value};
use crate::word::Word;
use vstd::prelude::*;

verus! {

/// Whether a gadget absorbs two words that are, whatever the wires carry, an element's value.
pub open spec fn absorbs_value_of(gadget: Gadget, elem: SymbolicElem) -> bool {
    &&& gadget matches Gadget::Absorb { words }
    &&& words.len() == 2
    &&& forall|vals: spec_fn(Wire) -> Word| #[trigger]
        elem.value(vals).0 == vals(words[0]).0 + 0x1_0000_0000_0000_0000 * vals(words[1]).0
}

/// Halves joined by bits are joined by their places.
proof fn lemma_joined(lo: u64, hi: u64)
    by (bit_vector)
    ensures
        (lo as u128) | ((hi as u128) << 64) == lo + 0x1_0000_0000_0000_0000 * hi,
{
}

/// What the challenger absorbs for an element is the element: whatever the wires carry, the
/// absorbed words, read from the lowest, are the value that the protocol goes on with.
pub proof fn absorbed_words_are_the_element(
    before: &Binius64BuilderChannel,
    after: &Binius64BuilderChannel,
    kind: InputKind,
    elem: SymbolicElem,
)
    requires
        absorbed_element(before, after, kind, elem),
    ensures
        after.gadgets@.last() matches Gadget::Absorb { words } && words.len() == 2 && forall|
            vals: spec_fn(Wire) -> Word,
        | #[trigger]
            elem.value(vals).0 == vals(words[0]).0 + 0x1_0000_0000_0000_0000 * vals(words[1]).0,
{
    assert forall|vals: spec_fn(Wire) -> Word| after.gadgets@.last() matches Gadget::Absorb {
        words,
    } && #[trigger] elem.value(vals).0 == vals(words[0]).0 + 0x1_0000_0000_0000_0000 * vals(
        words[1],
    ).0 by {
        let lo = vals(Wire(before.graph.n_wires));
        let hi = vals(Wire((before.graph.n_wires + 1) as u32));
        lemma_joined(lo.0, hi.0);
    }
}

/// Two assignments under which the challenger absorbs the same words agree on the element, and two
/// under which it absorbs different words do not.
pub proof fn absorbed_words_determine_the_element(
    before: &Binius64BuilderChannel,
    after: &Binius64BuilderChannel,
    kind: InputKind,
    elem: SymbolicElem,
    vals: spec_fn(Wire) -> Word,
    others: spec_fn(Wire) -> Word,
)
    requires
        absorbed_element(before, after, kind, elem),
    ensures
        after.gadgets@.last() matches Gadget::Absorb { words } && (elem.value(vals) == elem.value(
            others,
        ) <==> forall|i: int|
            0 <= i < words.len() ==> #[trigger] vals(words[i]) == others(words[i])),
{
    absorbed_words_are_the_element(before, after, kind, elem);
    let words = after.gadgets@.last()->words;
    let (a, b) = (elem.value(vals), elem.value(others));
    assert(a.0 == vals(words[0]).0 + 0x1_0000_0000_0000_0000 * vals(words[1]).0);
    assert(b.0 == others(words[0]).0 + 0x1_0000_0000_0000_0000 * others(words[1]).0);
    if a == b {
        assert forall|i: int| 0 <= i < words.len() implies #[trigger] vals(words[i]) == others(
            words[i],
        ) by {
            assert(vals(words[0]).0 == others(words[0]).0);
            assert(i == 0 || i == 1);
        }
    } else if forall|i: int|
        0 <= i < words.len() ==> #[trigger] vals(words[i]) == others(words[i]) {
        assert(vals(words[0]) == others(words[0]));
        assert(vals(words[1]) == others(words[1]));
    }
}

/// The wires of an absorbed element are the ones the witness must supply for it, and none that was
/// there before.
pub proof fn absorbed_elements_are_new_inputs(
    before: &Binius64BuilderChannel,
    after: &Binius64BuilderChannel,
    kind: InputKind,
    elem: SymbolicElem,
)
    requires
        before.graph.n_wires + 1 <= u32::MAX,
        absorbed_element(before, after, kind, elem),
    ensures
        elem matches SymbolicElem::Wires { lo, hi } && before.graph.n_wires <= lo.0
            < after.graph.n_wires && before.graph.n_wires <= hi.0 < after.graph.n_wires && lo != hi
            && after.inputs.len() == before.inputs.len() + 2 && after.inputs[before.inputs.len() as int]
            == (Input { kind, wire: lo }) && after.inputs[before.inputs.len() + 1] == (Input {
            kind,
            wire: hi,
        }),
{
}

/// What the challenger absorbs for observed words is the words themselves, in their order.
pub proof fn absorbed_words_are_the_observed_ones(
    before: &Binius64BuilderChannel,
    after: &Binius64BuilderChannel,
    r: Seq<SymbolicWord>,
)
    requires
        observed_words(before, after, r),
    ensures
        after.gadgets@.last() matches Gadget::Absorb { words } && words.len() == r.len() && forall|
            vals: spec_fn(Wire) -> Word,
            i: int,
        |
            #![trigger r[i].value(vals)]
            0 <= i < r.len() ==> r[i].value(vals) == vals(words[i]),
{
}

/// A sampled element is the one the challenger yields, its low word first.
pub proof fn sampled_elements_are_what_the_challenger_yields(
    before: &Binius64BuilderChannel,
    after: &Binius64BuilderChannel,
    r: SymbolicElem,
)
    requires
        sampled_element(before, after, r),
    ensures
        after.gadgets@.last() matches Gadget::SampleElement { element } && forall|
            vals: spec_fn(Wire) -> Word,
        | #[trigger]
            r.value(vals).0 == vals(element[0]).0 + 0x1_0000_0000_0000_0000 * vals(element[1]).0,
{
    let element = after.gadgets@.last()->SampleElement_element;
    assert forall|vals: spec_fn(Wire) -> Word| #[trigger]
        r.value(vals).0 == vals(element[0]).0 + 0x1_0000_0000_0000_0000 * vals(element[1]).0 by {
        lemma_joined(vals(element[0]).0, vals(element[1]).0);
    }
}

/// A received root is absorbed byte by byte: byte `4 h + j` of an absorbed word is byte `4 h + 3 -
/// j` of the root's word.
pub proof fn absorbed_roots_are_big_endian(
    before: &Binius64BuilderChannel,
    after: &Binius64BuilderChannel,
    commitment: &Commitment,
    vals: spec_fn(Wire) -> Word,
    i: int,
    h: int,
    j: int,
    b: int,
)
    requires
        received_root(before, after, commitment),
        after.graph.holds(vals),
        0 <= i < 4,
        0 <= h < 2,
        0 <= j < 4,
        0 <= b < 8,
    ensures
        after.gadgets@.last() matches Gadget::Absorb { words } && words.len() == 4 && vals(
            words[i],
        ).bit(8 * (4 * h + j) + b) == vals(commitment.root[i]).bit(8 * (4 * h + 3 - j) + b),
{
    let words = after.gadgets@.last()->words;
    let k = 8 * (4 * h + j) + b;
    assert(vals(words[i]).bit(k) == vals(commitment.root[i]).bit(byte_swapped(k)));
    assert(k / 32 == h);
    assert(k % 32 == 8 * j + b);
    assert(k % 8 == b);
    assert((8 * j + b) / 8 == j);
}

/// Elements on pairs of wires are their low and high words.
pub proof fn lifted_elements_are_their_words(
    elements: Seq<Element>,
    i: int,
    vals: spec_fn(Wire) -> Word,
)
    requires
        0 <= i < elements.len(),
    ensures
        lifted_all(elements).len() == elements.len(),
        lifted_all(elements)[i].value(vals).0 == vals(elements[i][0]).0 + 0x1_0000_0000_0000_0000
            * vals(elements[i][1]).0,
{
    lemma_joined(vals(elements[i][0]).0, vals(elements[i][1]).0);
}

/// Element `e` of a received vector is on the words of entry `e` of the tree that its root commits
/// to.
pub proof fn received_vectors_are_the_committed_data(
    before: &Binius64BuilderChannel,
    after: &Binius64BuilderChannel,
    commitment: &Commitment,
    values: Seq<SymbolicElem>,
    e: int,
    vals: spec_fn(Wire) -> Word,
)
    requires
        received_vector(before, after, commitment, values),
        0 <= e < commitment.leaf_size * pow2(commitment.depth as nat),
    ensures
        values.len() == commitment.leaf_size * pow2(commitment.depth as nat),
        after.gadgets@.last() matches Gadget::Vector { data, root, .. } && root == commitment.root
            && values[e].value(vals).0 == vals(data[e][0]).0 + 0x1_0000_0000_0000_0000 * vals(
            data[e][1],
        ).0,
{
    let data = after.gadgets@.last()->data;
    lifted_elements_are_their_words(data@, e, vals);
}

/// The elements of openings, leaf after leaf.
proof fn lemma_opening_values(gadgets: Seq<Gadget>, size: nat, q: int, e: int)
    requires
        forall|k: int|
            0 <= k < gadgets.len() ==> ((#[trigger] gadgets[k]) matches Gadget::Opening { leaf, .. }
                && leaf.len() == size),
        0 <= q < gadgets.len(),
        0 <= e < size,
    ensures
        opening_values(gadgets).len() == gadgets.len() * size,
        0 <= q * size + e < gadgets.len() * size,
        gadgets[q] matches Gadget::Opening { leaf, .. } && opening_values(gadgets)[q * size + e]
            == lifted_element(leaf[e]),
    decreases gadgets.len(),
{
    let n = gadgets.len() as int;
    let init = gadgets.drop_last();
    assert(gadgets[n - 1] matches Gadget::Opening { leaf, .. } && leaf.len() == size);
    assert(n * size == (n - 1) * size + size) by (nonlinear_arith);
    assert(0 <= q * size) by (nonlinear_arith)
        requires
            q >= 0,
            size >= 0,
    ;
    assert forall|k: int| 0 <= k < init.len() implies ((#[trigger] init[k]) matches Gadget::Opening {
        leaf,
        ..
    } && leaf.len() == size) by {
        assert(init[k] == gadgets[k]);
    }
    if q < n - 1 {
        lemma_opening_values(init, size, q, e);
        assert(init[q] == gadgets[q]);
    } else if n > 1 {
        lemma_opening_values(init, size, 0, e);
    } else {
        assert(opening_values(init).len() == 0);
        assert((n - 1) * size == 0) by (nonlinear_arith)
            requires
                n == 1,
        ;
    }
}

/// Element `e` of the leaf at query `q` is on the words of entry `e` of the leaf that climbs to the
/// root from that query's index.
pub proof fn received_openings_are_the_leaves(
    before: &Binius64BuilderChannel,
    after: &Binius64BuilderChannel,
    commitment: &Commitment,
    indices: Seq<SymbolicWord>,
    values: Seq<SymbolicElem>,
    q: int,
    e: int,
    vals: spec_fn(Wire) -> Word,
)
    requires
        received_openings(before, after, commitment, indices, values),
        after.graph.holds(vals),
        0 <= q < indices.len(),
        0 <= e < commitment.leaf_size,
    ensures
        values.len() == indices.len() * commitment.leaf_size,
        ({
            &&& after.gadgets[before.gadgets.len() as int] matches Gadget::Layer { check, root, .. }
            &&& root == commitment.root
            &&& after.gadgets[before.gadgets.len() + 1 + q] matches Gadget::Opening {
                layer_check,
                index,
                leaf,
                ..
            }
            &&& layer_check == check
            &&& vals(index) == indices[q].value(vals)
            &&& values[q * commitment.leaf_size + e].value(vals).0 == vals(leaf[e][0]).0
                + 0x1_0000_0000_0000_0000 * vals(leaf[e][1]).0
        }),
{
    let n = before.gadgets.len() as int;
    let added = after.gadgets@.skip(n + 1);
    assert(added[q] == after.gadgets@[n + 1 + q]);
    let check = after.gadgets@[n]->Layer_check;
    let depth = verify_layer_depth(indices.len() as nat, commitment.depth as nat);
    assert forall|k: int| 0 <= k < added.len() implies ((#[trigger] added[k]) matches Gadget::Opening {
        leaf,
        ..
    } && leaf.len() == commitment.leaf_size) by {
        assert(is_opening(added[k], check + 1 + k, check as int, commitment, depth));
    }
    assert(is_opening(added[q], check + 1 + q, check as int, commitment, depth));
    lemma_opening_values(added, commitment.leaf_size as nat, q, e);
    let leaf = added[q]->leaf;
    assert(vals(opened_index(added[q])) == indices[q].value(vals));
    lemma_joined(vals(leaf[e][0]).0, vals(leaf[e][1]).0);
}

/// Climbs stop where there is an entry for each query and not many more, or at the leaves.
pub proof fn climbs_stop_where_queries_have_entries(n_queries: nat, tree_depth: nat)
    ensures
        ({
            let depth = verify_layer_depth(n_queries, tree_depth);
            &&& depth <= tree_depth
            &&& n_queries <= pow2(depth) || depth == tree_depth
            &&& depth == 0 || pow2((depth - 1) as nat) < n_queries
        }),
{
    lemma_ceil_log2_exists(n_queries);
    let log = ceil_log2(n_queries);
    if log > tree_depth && tree_depth > 0 {
        lemma_pow2_strictly_increases((tree_depth - 1) as nat, (log - 1) as nat);
    }
}

/// An element packed from words has word `2 i` in its low half and word `2 i + 1` in its high half;
/// an odd last word stands alone.
pub proof fn packed_elements_hold_two_words(
    words: Seq<SymbolicWord>,
    i: int,
    vals: spec_fn(Wire) -> Word,
)
    requires
        0 <= 2 * i < words.len(),
    ensures
        2 * i + 1 < words.len() ==> packed_value(words, i, vals).0 == words[2 * i].value(vals).0
            + 0x1_0000_0000_0000_0000 * words[2 * i + 1].value(vals).0,
        2 * i + 1 == words.len() ==> packed_value(words, i, vals).0 == words[2 * i].value(vals).0,
{
    lemma_joined(words[2 * i].value(vals).0, 0);
    if 2 * i + 1 < words.len() {
        lemma_joined(words[2 * i].value(vals).0, words[2 * i + 1].value(vals).0);
    }
}

/// The wires of elements are supplied element by element, the low word first; those of digests
/// digest by digest, in the order of their words.
pub proof fn inputs_follow_their_values(
    kind: InputKind,
    elements: Seq<Element>,
    digests: Seq<Digest>,
    e: int,
    h: int,
    d: int,
    j: int,
)
    requires
        0 <= e < elements.len(),
        0 <= h < 2,
        0 <= d < digests.len(),
        0 <= j < 4,
    ensures
        element_inputs(kind, elements).len() == 2 * elements.len(),
        element_inputs(kind, elements)[2 * e + h] == (Input { kind, wire: elements[e]@[h] }),
        digest_inputs(kind, digests).len() == 4 * digests.len(),
        digest_inputs(kind, digests)[4 * d + j] == (Input { kind, wire: digests[d]@[j] }),
{
    assert((2 * e + h) / 2 == e && (2 * e + h) % 2 == h);
    assert((4 * d + j) / 4 == d && (4 * d + j) % 4 == j);
}

/// Selections add up: what two words select, each an element at most once, sums to what their
/// exclusive-or selects, and a word with one bit set selects the element at that bit.
pub proof fn selections_add_up(
    elems: Seq<SymbolicElem>,
    a: u64,
    b: u64,
    k: int,
    vals: spec_fn(Wire) -> Word,
)
    requires
        elems.len() <= 64,
        0 <= k < elems.len(),
    ensures
        subset_value(elems, elems.len() as int, Word(a ^ b), vals) == AdditiveGroup::plus(
            subset_value(elems, elems.len() as int, Word(a), vals),
            subset_value(elems, elems.len() as int, Word(b), vals),
        ),
        (forall|i: int| 0 <= i < elems.len() ==> #[trigger] bit64(a, i) == (i == k))
            ==> subset_value(elems, elems.len() as int, Word(a), vals) == elems[k].value(vals),
{
    let n = elems.len() as int;
    let f = |i: int| crate::algebra::field::select(Word(a).bit(i), elems[i].value(vals));
    let g = |i: int| crate::algebra::field::select(Word(b).bit(i), elems[i].value(vals));
    let h = |i: int| crate::algebra::field::select(Word(a ^ b).bit(i), elems[i].value(vals));
    let both = |i: int| AdditiveGroup::plus(f(i), g(i));
    assert forall|i: int| 0 <= i < n implies #[trigger] h(i) == both(i) by {
        lemma_bit64_xor(a, b, i);
        lemma_select_plus(bit64(a, i), bit64(b, i), elems[i].value(vals));
    }
    lemma_sum_ext(n, h, both);
    lemma_sum_plus(n, f, g);
    if forall|i: int| 0 <= i < n ==> #[trigger] bit64(a, i) == (i == k) {
        assert forall|i: int| 0 <= i < n && i != k implies #[trigger] f(i)
            == BinaryField128bGhash::nil() by {
            assert(bit64(a, i) == (i == k));
        }
        assert(bit64(a, k) == (k == k));
        lemma_sum_single(n, f, k);
    }
}

} // verus!
