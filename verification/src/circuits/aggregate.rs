//! Aggregation of hash-based signatures on a common message.
//!
//! Each signer has an independent tree, so a public key is a root and a public parameter, and both
//! are per signer. All signers sign the same message at the same epoch.
//!
//! The same aggregate is built two ways over one set of wires: [`circuit_xmss_multisig`] states
//! every signer's check inline, and [`circuit_xmss_multisig_chip`] states it once as a chip and
//! calls that chip per signer.

use crate::circuits::builder::{
    Chip, CircuitBuilder, EmbeddedChip, RegisteredChip, Verification, chip_accepts,
    embedded_accepts, values_of, wire_range,
};
use crate::frontend::wire_set::Wire;
use crate::word::Word;
use vstd::prelude::*;

verus! {

/// The sizes of a signature scheme, in words and counts of digests.
#[derive(Clone, Copy, Debug, PartialEq, Eq, Structural)]
pub struct XmssShape {
    pub public_param_wires: usize,
    pub digest_wires: usize,
    pub message_wires: usize,
    pub randomness_wires: usize,
    pub n_chains: usize,
    pub path_len: usize,
}

impl XmssShape {
    /// The words of a public key.
    pub open spec fn key_words(self) -> int {
        self.public_param_wires + self.digest_wires
    }

    /// The words of a signature.
    pub open spec fn signature_words(self) -> int {
        self.randomness_wires + self.n_chains * self.digest_wires + self.path_len
            * self.digest_wires
    }

    /// The words of one signer.
    pub open spec fn signer_words(self) -> int {
        self.key_words() + self.signature_words()
    }

    /// The words every signer shares: the message and the epoch.
    pub open spec fn common_words(self) -> int {
        self.message_wires + 1
    }
}

/// One signature's wires.
#[derive(Debug)]
pub struct XmssSignatureWires {
    pub randomness: Vec<Wire>,
    pub chain_tips: Vec<Vec<Wire>>,
    pub merkle_path: Vec<Vec<Wire>>,
}

/// One signer's public key and signature wires.
#[derive(Debug)]
pub struct SignerWires {
    pub public_param: Vec<Wire>,
    pub merkle_root: Vec<Wire>,
    pub signature: XmssSignatureWires,
}

/// The wires an aggregate occupies.
///
/// The message, the epoch and every signer's public key are public; the signatures are private.
#[derive(Debug)]
pub struct MultiSigWires {
    pub message: Vec<Wire>,
    pub epoch: Wire,
    pub signers: Vec<SignerWires>,
}

/// A list of lists end to end.
pub open spec fn end_to_end<T>(rows: Seq<Vec<T>>) -> Seq<T>
    decreases rows.len(),
{
    if rows.len() == 0 {
        Seq::empty()
    } else {
        end_to_end(rows.drop_last()) + rows.last()@
    }
}

impl XmssSignatureWires {
    /// The words of a signature in order.
    pub open spec fn words(&self) -> Seq<Wire> {
        self.randomness@ + end_to_end(self.chain_tips@) + end_to_end(self.merkle_path@)
    }
}

impl SignerWires {
    /// The words of a public key in order.
    pub open spec fn key(&self) -> Seq<Wire> {
        self.public_param@ + self.merkle_root@
    }

    /// The words of a signer in the order they are allocated.
    pub open spec fn words(&self) -> Seq<Wire> {
        self.key() + self.signature.words()
    }
}

/// The words one check relates, in the order a chip takes them.
pub open spec fn call_words(signer: &SignerWires, message: Seq<Wire>, epoch: Wire) -> Seq<Wire> {
    signer.key() + message + seq![epoch] + signer.signature.words()
}

/// The public keys of signers in order.
pub open spec fn signer_keys(signers: Seq<SignerWires>) -> Seq<Wire>
    decreases signers.len(),
{
    if signers.len() == 0 {
        Seq::empty()
    } else {
        signer_keys(signers.drop_last()) + signers.last().key()
    }
}

/// The signatures of signers in order.
pub open spec fn signer_signatures(signers: Seq<SignerWires>) -> Seq<Wire>
    decreases signers.len(),
{
    if signers.len() == 0 {
        Seq::empty()
    } else {
        signer_signatures(signers.drop_last()) + signers.last().signature.words()
    }
}

/// All words of signers in the order they are allocated.
pub open spec fn signer_words(signers: Seq<SignerWires>) -> Seq<Wire>
    decreases signers.len(),
{
    if signers.len() == 0 {
        Seq::empty()
    } else {
        signer_words(signers.drop_last()) + signers.last().words()
    }
}

impl MultiSigWires {
    /// All words in the order they are allocated.
    pub open spec fn words(&self) -> Seq<Wire> {
        self.message@ + seq![self.epoch] + signer_words(self.signers@)
    }
}

/// Allocates lists of words.
fn add_rows(builder: &mut CircuitBuilder, n: usize, len: usize, public: bool) -> (r: Vec<Vec<Wire>>)
    requires
        old(builder).n_wires + n * len <= u32::MAX,
    ensures
        final(builder).grown_by(old(builder), n * len),
        r.len() == n,
        forall|i: int| 0 <= i < n ==> (#[trigger] r[i]).len() == len,
        end_to_end(r@) == wire_range(old(builder).n_wires as int, n * len),
        final(builder).inout@ == if public {
            old(builder).inout@ + end_to_end(r@)
        } else {
            old(builder).inout@
        },
        final(builder).witness@ == if public {
            old(builder).witness@
        } else {
            old(builder).witness@ + end_to_end(r@)
        },
{
    let ghost start = *builder;
    let mut r: Vec<Vec<Wire>> = Vec::new();
    let mut i: usize = 0;
    proof {
        assert(start.inout@ + end_to_end(r@) =~= start.inout@);
        assert(start.witness@ + end_to_end(r@) =~= start.witness@);
        assert(end_to_end(r@) =~= wire_range(start.n_wires as int, 0 * len));
    }
    while i < n
        invariant
            i <= n,
            start.n_wires + n * len <= u32::MAX,
            builder.grown_by(&start, i * len),
            r.len() == i,
            forall|k: int| 0 <= k < i ==> (#[trigger] r[k]).len() == len,
            end_to_end(r@) == wire_range(start.n_wires as int, i * len),
            builder.inout@ == if public {
                start.inout@ + end_to_end(r@)
            } else {
                start.inout@
            },
            builder.witness@ == if public {
                start.witness@
            } else {
                start.witness@ + end_to_end(r@)
            },
        decreases n - i,
    {
        proof {
            assert((i + 1) * len == i * len + len) by (nonlinear_arith);
            assert((i + 1) * len <= n * len) by (nonlinear_arith)
                requires
                    i < n,
            ;
            assert(0 <= i * len) by (nonlinear_arith);
        }
        let ghost before = r@;
        let row = builder.add_words(len, public);
        r.push(row);
        proof {
            assert(r@.drop_last() =~= before);
            assert(end_to_end(r@) =~= wire_range(start.n_wires as int, (i + 1) * len));
            assert(start.inout@ + end_to_end(before) + row@ =~= start.inout@ + end_to_end(r@));
            assert(start.witness@ + end_to_end(before) + row@ =~= start.witness@ + end_to_end(r@));
        }
        i = i + 1;
    }
    r
}

impl XmssSignatureWires {
    /// Allocates a signature's words.
    pub fn new_words(builder: &mut CircuitBuilder, shape: XmssShape, public: bool) -> (r: Self)
        requires
            old(builder).n_wires + shape.signature_words() <= u32::MAX,
        ensures
            final(builder).grown_by(old(builder), shape.signature_words()),
            r.randomness.len() == shape.randomness_wires,
            r.chain_tips.len() == shape.n_chains,
            forall|i: int|
                0 <= i < shape.n_chains ==> (#[trigger] r.chain_tips[i]).len()
                    == shape.digest_wires,
            r.merkle_path.len() == shape.path_len,
            forall|i: int|
                0 <= i < shape.path_len ==> (#[trigger] r.merkle_path[i]).len()
                    == shape.digest_wires,
            r.words() == wire_range(old(builder).n_wires as int, shape.signature_words()),
            final(builder).inout@ == if public {
                old(builder).inout@ + r.words()
            } else {
                old(builder).inout@
            },
            final(builder).witness@ == if public {
                old(builder).witness@
            } else {
                old(builder).witness@ + r.words()
            },
    {
        proof {
            assert(0 <= shape.n_chains * shape.digest_wires) by (nonlinear_arith);
            assert(0 <= shape.path_len * shape.digest_wires) by (nonlinear_arith);
        }
        let randomness = builder.add_words(shape.randomness_wires, public);
        let chain_tips = add_rows(builder, shape.n_chains, shape.digest_wires, public);
        let merkle_path = add_rows(builder, shape.path_len, shape.digest_wires, public);
        let r = XmssSignatureWires { randomness, chain_tips, merkle_path };
        proof {
            assert(r.words() =~= wire_range(
                old(builder).n_wires as int,
                shape.signature_words(),
            ));
            let (a, b, c) = (randomness@, end_to_end(chain_tips@), end_to_end(merkle_path@));
            assert(old(builder).inout@ + a + b + c =~= old(builder).inout@ + r.words());
            assert(old(builder).witness@ + a + b + c =~= old(builder).witness@ + r.words());
        }
        r
    }
}

impl SignerWires {
    /// Whether the lists have the sizes of a shape.
    pub open spec fn fits(&self, shape: XmssShape) -> bool {
        &&& self.public_param.len() == shape.public_param_wires
        &&& self.merkle_root.len() == shape.digest_wires
        &&& self.signature.randomness.len() == shape.randomness_wires
        &&& self.signature.chain_tips.len() == shape.n_chains
        &&& forall|i: int|
            0 <= i < shape.n_chains ==> (#[trigger] self.signature.chain_tips[i]).len()
                == shape.digest_wires
        &&& self.signature.merkle_path.len() == shape.path_len
        &&& forall|i: int|
            0 <= i < shape.path_len ==> (#[trigger] self.signature.merkle_path[i]).len()
                == shape.digest_wires
    }
}

impl MultiSigWires {
    /// Allocates the wires for `num_signers` signers.
    pub fn new(builder: &mut CircuitBuilder, shape: XmssShape, num_signers: usize) -> (r: Self)
        requires
            old(builder).n_wires + shape.common_words() + num_signers * shape.signer_words()
                <= u32::MAX,
        ensures
            final(builder).grown_by(
                old(builder),
                shape.common_words() + num_signers * shape.signer_words(),
            ),
            r.message.len() == shape.message_wires,
            r.signers.len() == num_signers,
            forall|i: int| 0 <= i < num_signers ==> (#[trigger] r.signers[i]).fits(shape),
            r.words() == wire_range(
                old(builder).n_wires as int,
                shape.common_words() + num_signers * shape.signer_words(),
            ),
            final(builder).inout@ == old(builder).inout@ + r.message@ + seq![r.epoch]
                + signer_keys(r.signers@),
            final(builder).witness@ == old(builder).witness@ + signer_signatures(r.signers@),
    {
        let ghost start = *builder;
        proof {
            assert(0 <= shape.n_chains * shape.digest_wires) by (nonlinear_arith);
            assert(0 <= shape.path_len * shape.digest_wires) by (nonlinear_arith);
            assert(0 <= num_signers * shape.signer_words()) by (nonlinear_arith)
                requires
                    0 <= shape.signer_words(),
            ;
        }
        let message = builder.add_words(shape.message_wires, true);
        let epochs = builder.add_words(1, true);
        let epoch = epochs[0];
        proof {
            assert(epochs@ =~= seq![epoch]);
        }
        let ghost public = start.inout@ + message@ + seq![epoch];
        let ghost first = start.n_wires + shape.common_words();
        let mut signers: Vec<SignerWires> = Vec::new();
        let mut i: usize = 0;
        proof {
            assert(public + signer_keys(signers@) =~= public);
            assert(start.witness@ + signer_signatures(signers@) =~= start.witness@);
            assert(signer_words(signers@) =~= wire_range(first, 0 * shape.signer_words()));
        }
        while i < num_signers
            invariant
                i <= num_signers,
                0 <= shape.signature_words(),
                first == start.n_wires + shape.common_words(),
                first + num_signers * shape.signer_words() <= u32::MAX,
                builder.grown_by(&start, shape.common_words() + i * shape.signer_words()),
                signers.len() == i,
                forall|k: int| 0 <= k < i ==> (#[trigger] signers[k]).fits(shape),
                signer_words(signers@) == wire_range(first, i * shape.signer_words()),
                builder.inout@ == public + signer_keys(signers@),
                builder.witness@ == start.witness@ + signer_signatures(signers@),
            decreases num_signers - i,
        {
            let ghost w = shape.signer_words();
            proof {
                assert((i + 1) * w == i * w + w) by (nonlinear_arith);
                assert((i + 1) * w <= num_signers * w) by (nonlinear_arith)
                    requires
                        i < num_signers,
                        0 <= w,
                ;
                assert(0 <= i * w) by (nonlinear_arith)
                    requires
                        0 <= w,
                ;
            }
            let ghost before = signers@;
            let ghost inout = builder.inout@;
            let ghost witness = builder.witness@;
            let public_param = builder.add_words(shape.public_param_wires, true);
            let merkle_root = builder.add_words(shape.digest_wires, true);
            let signature = XmssSignatureWires::new_words(builder, shape, false);
            let signer = SignerWires { public_param, merkle_root, signature };
            proof {
                assert(signer.words() =~= wire_range(first + i * w, w));
                assert(inout + public_param@ + merkle_root@ =~= inout + signer.key());
            }
            signers.push(signer);
            proof {
                assert(signers@.drop_last() =~= before);
                assert(signers@.last() == signer);
                assert(signer_words(signers@) =~= wire_range(first, (i + 1) * w));
                assert(public + signer_keys(before) + signer.key() =~= public + signer_keys(
                    signers@,
                ));
                assert(start.witness@ + signer_signatures(before) + signer.signature.words()
                    =~= start.witness@ + signer_signatures(signers@));
            }
            i = i + 1;
        }
        let r = MultiSigWires { message, epoch, signers };
        proof {
            assert(r.words() =~= wire_range(
                start.n_wires as int,
                shape.common_words() + num_signers * shape.signer_words(),
            ));
        }
        r
    }
}

/// Appends a list.
pub(crate) fn append<T: Copy>(r: &mut Vec<T>, list: &Vec<T>)
    ensures
        final(r)@ == old(r)@ + list@,
{
    let ghost before = r@;
    let mut i: usize = 0;
    assert(before + list@.take(0) =~= before);
    while i < list.len()
        invariant
            i <= list.len(),
            r@ == before + list@.take(i as int),
        decreases list.len() - i,
    {
        r.push(list[i]);
        assert(list@.take(i + 1) =~= list@.take(i as int).push(list@[i as int]));
        assert(r@ =~= before + list@.take(i + 1));
        i = i + 1;
    }
    assert(list@.take(i as int) =~= list@);
}

/// Appends lists end to end.
pub(crate) fn append_rows<T: Copy>(r: &mut Vec<T>, rows: &Vec<Vec<T>>)
    ensures
        final(r)@ == old(r)@ + end_to_end(rows@),
{
    let ghost before = r@;
    let mut i: usize = 0;
    assert(rows@.take(0) =~= Seq::<Vec<T>>::empty());
    assert(before + end_to_end(rows@.take(0)) =~= before);
    while i < rows.len()
        invariant
            i <= rows.len(),
            r@ == before + end_to_end(rows@.take(i as int)),
        decreases rows.len() - i,
    {
        append(r, &rows[i]);
        assert(rows@.take(i + 1).drop_last() =~= rows@.take(i as int));
        assert(r@ =~= before + end_to_end(rows@.take(i + 1)));
        i = i + 1;
    }
    assert(rows@.take(i as int) =~= rows@);
}

/// The words one call to the chip passes, in the chip's order.
fn chip_call_words(signer: &SignerWires, message: &Vec<Wire>, epoch: Wire) -> (r: Vec<Wire>)
    ensures
        r@ == call_words(signer, message@, epoch),
{
    let mut r: Vec<Wire> = Vec::new();
    append(&mut r, &signer.public_param);
    append(&mut r, &signer.merkle_root);
    append(&mut r, message);
    r.push(epoch);
    append(&mut r, &signer.signature.randomness);
    append_rows(&mut r, &signer.signature.chain_tips);
    append_rows(&mut r, &signer.signature.merkle_path);
    assert(r@ =~= call_words(signer, message@, epoch));
    r
}

/// The calls a list of signers makes.
pub open spec fn calls_of(wires: &MultiSigWires) -> Seq<Seq<Wire>> {
    Seq::new(
        wires.signers.len() as nat,
        |i: int| call_words(&wires.signers[i], wires.message@, wires.epoch),
    )
}

/// Verifies every signer's signature on the common message at the common epoch.
///
/// Sharing one epoch wire across the signers is what makes the epoch common.
pub fn circuit_xmss_multisig(builder: &mut CircuitBuilder, wires: &MultiSigWires)
    ensures
        final(builder).n_wires == old(builder).n_wires,
        final(builder).inout == old(builder).inout,
        final(builder).witness == old(builder).witness,
        final(builder).chips == old(builder).chips,
        final(builder).calls == old(builder).calls,
        final(builder).registered == old(builder).registered,
        final(builder).verifications.len() == old(builder).verifications.len()
            + wires.signers.len(),
        forall|i: int|
            0 <= i < old(builder).verifications.len() ==> #[trigger] final(builder).verifications[i]
                == old(builder).verifications[i],
        forall|i: int|
            #![trigger calls_of(wires)[i]]
            0 <= i < wires.signers.len() ==> final(builder).verifications[old(builder).verifications.len() + i].words@ == calls_of(wires)[i],
        forall|v: int|
            old(builder).verifications.len() <= v < final(builder).verifications.len() ==> (
            #[trigger] final(builder).verifications[v]).signer == Some(
                (v - old(builder).verifications.len()) as usize,
            ),
{
    let ghost start = *builder;
    let mut i: usize = 0;
    while i < wires.signers.len()
        invariant
            i <= wires.signers.len(),
            builder.n_wires == start.n_wires,
            builder.inout == start.inout,
            builder.witness == start.witness,
            builder.chips == start.chips,
            builder.calls == start.calls,
            builder.registered == start.registered,
            builder.verifications.len() == start.verifications.len() + i,
            forall|k: int|
                0 <= k < start.verifications.len() ==> #[trigger] builder.verifications[k]
                    == start.verifications[k],
            forall|k: int|
                #![trigger calls_of(wires)[k]]
                0 <= k < i ==> builder.verifications[start.verifications.len() + k].words@
                    == calls_of(wires)[k],
            forall|v: int|
                start.verifications.len() <= v < builder.verifications.len() ==> (
                #[trigger] builder.verifications[v]).signer == Some(
                    (v - start.verifications.len()) as usize,
                ),
        decreases wires.signers.len() - i,
    {
        let words = chip_call_words(&wires.signers[i], &wires.message, wires.epoch);
        builder.verify_signature(i, words);
        i = i + 1;
    }
}

/// One check as a system of its own for a caller to embed.
///
/// Every word the check relates is public, in the order of a call. The paired compressions inside
/// it are calls to a chip of its own, so that embedding the system brings in two chips.
fn xmss_verify_chip(shape: XmssShape) -> (r: Chip)
    requires
        shape.common_words() + shape.signer_words() <= u32::MAX,
    ensures
        is_signature_chip(&r, shape),
{
    proof {
        assert(0 <= shape.n_chains * shape.digest_wires) by (nonlinear_arith);
        assert(0 <= shape.path_len * shape.digest_wires) by (nonlinear_arith);
    }
    let mut builder = CircuitBuilder::new();
    builder.register_chip(RegisteredChip::Blake3Compress2x);
    // The public words are ordered by creation, so allocating in the order of a call is what makes
    // the interface that order.
    let public_param = builder.add_words(shape.public_param_wires, true);
    let merkle_root = builder.add_words(shape.digest_wires, true);
    let message = builder.add_words(shape.message_wires, true);
    let epochs = builder.add_words(1, true);
    let epoch = epochs[0];
    let signature = XmssSignatureWires::new_words(&mut builder, shape, true);
    let signer = SignerWires { public_param, merkle_root, signature };
    let words = chip_call_words(&signer, &message, epoch);
    proof {
        assert(epochs@ =~= seq![epoch]);
        assert(builder.inout@ =~= words@);
        assert(words@ =~= wire_range(0, shape.common_words() + shape.signer_words()));
    }
    assert(builder.registered@ =~= seq![RegisteredChip::Blake3Compress2x]);
    Chip {
        inout: builder.inout,
        verification: Verification { signer: None, words },
        registered: builder.registered,
    }
}

/// [`circuit_xmss_multisig`] with each signer's check dispatched to a chip.
pub fn circuit_xmss_multisig_chip(
    builder: &mut CircuitBuilder,
    shape: XmssShape,
    wires: &MultiSigWires,
)
    requires
        shape.common_words() + shape.signer_words() <= u32::MAX,
        wires.message.len() == shape.message_wires,
        forall|i: int| 0 <= i < wires.signers.len() ==> (#[trigger] wires.signers[i]).fits(shape),
    ensures
        final(builder).n_wires == old(builder).n_wires,
        final(builder).inout == old(builder).inout,
        final(builder).witness == old(builder).witness,
        final(builder).verifications == old(builder).verifications,
        final(builder).registered == old(builder).registered,
        final(builder).chips.len() == old(builder).chips.len() + 2,
        forall|c: int|
            0 <= c < old(builder).chips.len() ==> #[trigger] final(builder).chips[c] == old(builder).chips[c],
        embeds_signature_chip(final(builder).chips@, old(builder).chips.len() as int, shape),
        final(builder).calls.len() == old(builder).calls.len() + wires.signers.len(),
        forall|i: int|
            0 <= i < old(builder).calls.len() ==> #[trigger] final(builder).calls[i] == old(builder).calls[i],
        forall|i: int|
            #![trigger calls_of(wires)[i]]
            0 <= i < wires.signers.len() ==> final(builder).calls[old(builder).calls.len()
                + i].words@ == calls_of(wires)[i],
        forall|c: int|
            old(builder).calls.len() <= c < final(builder).calls.len() ==> (
            #[trigger] final(builder).calls[c]).chip == old(builder).chips.len(),
{
    let ghost start = *builder;
    let chip = builder.add_chip(xmss_verify_chip(shape));
    proof {
        let at = start.chips.len() as int;
        assert(builder.chips[at] is Main);
        assert(builder.chips[at + 1] is Nested);
    }
    let mut i: usize = 0;
    while i < wires.signers.len()
        invariant
            i <= wires.signers.len(),
            builder.n_wires == start.n_wires,
            builder.inout == start.inout,
            builder.witness == start.witness,
            builder.verifications == start.verifications,
            chip == start.chips.len(),
            builder.registered == start.registered,
            builder.chips.len() == start.chips.len() + 2,
            forall|c: int|
                0 <= c < start.chips.len() ==> #[trigger] builder.chips[c] == start.chips[c],
            embeds_signature_chip(builder.chips@, chip as int, shape),
            0 <= shape.common_words() + shape.signer_words(),
            wires.message.len() == shape.message_wires,
            forall|i: int|
                0 <= i < wires.signers.len() ==> (#[trigger] wires.signers[i]).fits(shape),
            builder.calls.len() == start.calls.len() + i,
            forall|k: int|
                0 <= k < start.calls.len() ==> #[trigger] builder.calls[k] == start.calls[k],
            forall|k: int|
                #![trigger calls_of(wires)[k]]
                0 <= k < i ==> builder.calls[start.calls.len() + k].words@ == calls_of(wires)[k],
            forall|c: int|
                start.calls.len() <= c < builder.calls.len() ==> (
                #[trigger] builder.calls[c]).chip == chip,
        decreases wires.signers.len() - i,
    {
        proof {
            assert(wires.signers[i as int].fits(shape));
            lemma_call_len(&wires.signers[i as int], wires.message@, wires.epoch, shape);
        }
        let words = chip_call_words(&wires.signers[i], &wires.message, wires.epoch);
        builder.call_chip(chip, words);
        i = i + 1;
    }
}

/// A chip that checks one signature over its public words.
pub open spec fn is_signature_chip(chip: &Chip, shape: XmssShape) -> bool {
    &&& chip.inout@ == wire_range(0, shape.common_words() + shape.signer_words())
    &&& chip.verification.signer is None
    &&& chip.verification.words@ == chip.inout@
    &&& chip.registered@ == seq![RegisteredChip::Blake3Compress2x]
}

/// Two chips at a place: one that checks a signature, and the paired compression that it calls.
pub open spec fn embeds_signature_chip(
    chips: Seq<EmbeddedChip>,
    at: int,
    shape: XmssShape,
) -> bool {
    &&& chips[at] matches EmbeddedChip::Main(chip)
    &&& is_signature_chip(&chip, shape)
    &&& chips[at + 1] == (EmbeddedChip::Nested {
        chip: RegisteredChip::Blake3Compress2x,
        caller: at as usize,
    })
}

/// The length of equally long lists end to end.
proof fn lemma_flat_len(rows: Seq<Vec<Wire>>, len: int)
    requires
        forall|i: int| 0 <= i < rows.len() ==> (#[trigger] rows[i]).len() == len,
    ensures
        end_to_end(rows).len() == rows.len() * len,
    decreases rows.len(),
{
    if rows.len() > 0 {
        let init = rows.drop_last();
        assert forall|i: int| 0 <= i < init.len() implies (#[trigger] init[i]).len() == len by {
            assert(init[i] == rows[i]);
        }
        lemma_flat_len(init, len);
        assert(rows[rows.len() - 1].len() == len);
        assert((rows.len() - 1) * len + len == rows.len() * len) by (nonlinear_arith);
    } else {
        assert(0 * len == 0) by (nonlinear_arith);
    }
}

/// The number of words of a call.
proof fn lemma_call_len(signer: &SignerWires, message: Seq<Wire>, epoch: Wire, shape: XmssShape)
    requires
        signer.fits(shape),
        message.len() == shape.message_wires,
    ensures
        call_words(signer, message, epoch).len() == shape.common_words() + shape.signer_words(),
{
    lemma_flat_len(signer.signature.chain_tips@, shape.digest_wires as int);
    lemma_flat_len(signer.signature.merkle_path@, shape.digest_wires as int);
}

/// A signature chip accepts the operands that are valid signatures, and no others.
pub proof fn chip_accepts_valid_signatures(
    chip: &Chip,
    shape: XmssShape,
    operands: Seq<Word>,
    valid: spec_fn(Seq<Word>) -> bool,
)
    requires
        is_signature_chip(chip, shape),
        0 <= shape.common_words() + shape.signer_words() <= u32::MAX,
        operands.len() == shape.common_words() + shape.signer_words(),
    ensures
        chip_accepts(chip, operands, valid) <==> valid(operands),
{
    if valid(operands) {
        let inner = |w: Wire| operands[w.0 as int];
        assert(values_of(chip.inout@, inner) =~= operands);
    }
}

/// The two aggregates accept the same values: whatever counts as a valid signature, values on the
/// wires satisfy the inline circuit exactly when they satisfy the one that dispatches to a chip.
pub proof fn aggregates_agree(
    inline: &CircuitBuilder,
    dispatched: &CircuitBuilder,
    shape: XmssShape,
    wires: &MultiSigWires,
    valid: spec_fn(Seq<Word>) -> bool,
    vals: spec_fn(Wire) -> Word,
)
    requires
        0 <= shape.common_words() + shape.signer_words() <= u32::MAX,
        wires.message.len() == shape.message_wires,
        forall|i: int| 0 <= i < wires.signers.len() ==> (#[trigger] wires.signers[i]).fits(shape),
        inline.calls.len() == 0,
        inline.verifications.len() == wires.signers.len(),
        forall|i: int|
            #![trigger calls_of(wires)[i]]
            0 <= i < wires.signers.len() ==> inline.verifications[i].words@ == calls_of(wires)[i],
        dispatched.verifications.len() == 0,
        dispatched.chips.len() == 2,
        embeds_signature_chip(dispatched.chips@, 0, shape),
        dispatched.calls.len() == wires.signers.len(),
        forall|i: int|
            #![trigger calls_of(wires)[i]]
            0 <= i < wires.signers.len() ==> dispatched.calls[i].words@ == calls_of(wires)[i],
        forall|c: int|
            0 <= c < dispatched.calls.len() ==> (#[trigger] dispatched.calls[c]).chip == 0,
    ensures
        inline.holds(valid, vals) <==> dispatched.holds(valid, vals),
{
    assert forall|i: int| 0 <= i < wires.signers.len() implies embedded_accepts(
        &dispatched.chips[(#[trigger] dispatched.calls[i]).chip as int],
        values_of(dispatched.calls[i].words@, vals),
        valid,
    ) == valid(values_of(inline.verifications[i].words@, vals)) by {
        assert(dispatched.calls[i].words@ == calls_of(wires)[i]);
        assert(wires.signers[i].fits(shape));
        lemma_call_len(&wires.signers[i], wires.message@, wires.epoch, shape);
        chip_accepts_valid_signatures(
            &dispatched.chips[0]->Main_0,
            shape,
            values_of(dispatched.calls[i].words@, vals),
            valid,
        );
    }
    if inline.holds(valid, vals) {
        assert forall|c: int| 0 <= c < dispatched.calls.len() implies embedded_accepts(
            &dispatched.chips[(#[trigger] dispatched.calls[c]).chip as int],
            values_of(dispatched.calls[c].words@, vals),
            valid,
        ) by {
            assert(valid(values_of(inline.verifications[c].words@, vals)));
        }
    }
    if dispatched.holds(valid, vals) {
        assert forall|v: int| 0 <= v < inline.verifications.len() implies valid(
            values_of((#[trigger] inline.verifications[v]).words@, vals),
        ) by {
            assert(embedded_accepts(
                &dispatched.chips[dispatched.calls[v].chip as int],
                values_of(dispatched.calls[v].words@, vals),
                valid,
            ));
        }
    }
}

/// One bad signature fails the aggregate, inline and through the chip alike.
pub proof fn one_bad_signature_fails(
    inline: &CircuitBuilder,
    dispatched: &CircuitBuilder,
    shape: XmssShape,
    wires: &MultiSigWires,
    valid: spec_fn(Seq<Word>) -> bool,
    vals: spec_fn(Wire) -> Word,
    bad: int,
)
    requires
        0 <= shape.common_words() + shape.signer_words() <= u32::MAX,
        wires.message.len() == shape.message_wires,
        forall|i: int| 0 <= i < wires.signers.len() ==> (#[trigger] wires.signers[i]).fits(shape),
        inline.calls.len() == 0,
        inline.verifications.len() == wires.signers.len(),
        forall|i: int|
            #![trigger calls_of(wires)[i]]
            0 <= i < wires.signers.len() ==> inline.verifications[i].words@ == calls_of(wires)[i],
        dispatched.verifications.len() == 0,
        dispatched.chips.len() == 2,
        embeds_signature_chip(dispatched.chips@, 0, shape),
        dispatched.calls.len() == wires.signers.len(),
        forall|i: int|
            #![trigger calls_of(wires)[i]]
            0 <= i < wires.signers.len() ==> dispatched.calls[i].words@ == calls_of(wires)[i],
        forall|c: int|
            0 <= c < dispatched.calls.len() ==> (#[trigger] dispatched.calls[c]).chip == 0,
        0 <= bad < wires.signers.len(),
        !valid(values_of(calls_of(wires)[bad], vals)),
    ensures
        !inline.holds(valid, vals),
        !dispatched.holds(valid, vals),
{
    assert(inline.verifications[bad].words@ == calls_of(wires)[bad]);
    aggregates_agree(inline, dispatched, shape, wires, valid, vals);
}

} // verus!
