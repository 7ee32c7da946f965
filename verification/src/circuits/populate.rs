//! Filling the wires of an aggregate from bytes.

use crate::circuits::aggregate::{
    MultiSigWires, SignerWires, append, append_rows, end_to_end, signer_words,
};
use crate::circuits::builder::wire_range;
use crate::circuits::fields::{fields_hold, populating_keeps_every_field};
use crate::frontend::wire_set::Wire;
use crate::utils::rand::{lemma_pow256_grows, pow256};
use crate::word::Word;
use vstd::prelude::*;

verus! {

/// The values on a circuit's wires.
#[derive(Debug)]
pub struct WitnessFiller {
    pub values: Vec<Word>,
}

/// One signer's public key.
#[derive(Debug)]
pub struct XmssPublicKey {
    pub public_param: Vec<u8>,
    pub merkle_root: Vec<u8>,
}

/// One signature.
#[derive(Debug)]
pub struct XmssSignature {
    pub randomness: Vec<u8>,
    pub chain_tips: Vec<Vec<u8>>,
    pub merkle_path: Vec<Vec<u8>>,
}

/// A byte of a list, zero past its end.
pub open spec fn byte_at(bytes: Seq<u8>, i: int) -> int {
    if 0 <= i < bytes.len() {
        bytes[i] as int
    } else {
        0
    }
}

/// `n` bytes read as a number, the least significant first.
pub open spec fn le_value(bytes: Seq<u8>, start: int, n: nat) -> int
    decreases n,
{
    if n == 0 {
        0
    } else {
        byte_at(bytes, start) + 256 * le_value(bytes, start + 1, (n - 1) as nat)
    }
}

/// Bytes packed into words, eight a word, padded with zeros.
pub open spec fn packed_words(bytes: Seq<u8>, n: int) -> Seq<Word> {
    Seq::new(n as nat, |j: int| Word(le_value(bytes, 8 * j, 8) as u64))
}

proof fn lemma_le_value_range(bytes: Seq<u8>, start: int, n: nat)
    ensures
        0 <= le_value(bytes, start, n) < pow256(n),
    decreases n,
{
    if n > 0 {
        lemma_le_value_range(bytes, start + 1, (n - 1) as nat);
    }
}

/// Packs bytes into words.
pub fn pack_bytes_le(bytes: &Vec<u8>, n: usize) -> (r: Vec<Word>)
    requires
        bytes.len() <= 8 * n,
        8 * n <= usize::MAX,
    ensures
        r@ == packed_words(bytes@, n as int),
{
    let mut r: Vec<Word> = Vec::new();
    let mut j: usize = 0;
    while j < n
        invariant
            j <= n,
            8 * n <= usize::MAX,
            r.len() == j,
            forall|k: int| 0 <= k < j ==> #[trigger] r[k] == packed_words(bytes@, n as int)[k],
        decreases n - j,
    {
        let mut word: u64 = 0;
        let mut b: usize = 8;
        while b > 0
            invariant
                b <= 8,
                j < n,
                8 * n <= usize::MAX,
                word == le_value(bytes@, 8 * j + b, (8 - b) as nat),
            decreases b,
        {
            b = b - 1;
            let at: usize = 8 * j + b;
            let byte: u8 = if at < bytes.len() {
                bytes[at]
            } else {
                0
            };
            proof {
                lemma_le_value_range(bytes@, 8 * j + b + 1, (7 - b) as nat);
                lemma_pow256_small();
                lemma_pow256_grows((7 - b) as nat, 7);
            }
            word = (byte as u64) + 256 * word;
        }
        proof {
            assert(8 * j + 0 == 8 * j);
        }
        r.push(Word(word));
        j = j + 1;
    }
    assert(r@ =~= packed_words(bytes@, n as int));
    r
}

proof fn lemma_pow256_small()
    ensures
        256 * pow256(7) == 0x1_0000_0000_0000_0000,
{
    reveal_with_fuel(pow256, 9);
}

/// The words lists of bytes pack into, end to end, each as wide as its wires.
pub open spec fn row_values(rows: Seq<Vec<Wire>>, bytes: Seq<Vec<u8>>) -> Seq<Word>
    decreases rows.len(),
{
    if rows.len() == 0 {
        Seq::empty()
    } else {
        row_values(rows.drop_last(), bytes) + packed_words(
            bytes[rows.len() - 1]@,
            rows.last().len() as int,
        )
    }
}

/// The words of one signer.
pub open spec fn signer_values(
    wires: &SignerWires,
    key: &XmssPublicKey,
    signature: &XmssSignature,
) -> Seq<Word> {
    packed_words(key.public_param@, wires.public_param.len() as int) + packed_words(
        key.merkle_root@,
        wires.merkle_root.len() as int,
    ) + (packed_words(signature.randomness@, wires.signature.randomness.len() as int) + row_values(
        wires.signature.chain_tips@,
        signature.chain_tips@,
    ) + row_values(wires.signature.merkle_path@, signature.merkle_path@))
}

/// The words of all signers.
pub open spec fn all_signer_values(
    signers: Seq<SignerWires>,
    signatures: Seq<(XmssPublicKey, XmssSignature)>,
) -> Seq<Word>
    decreases signers.len(),
{
    if signers.len() == 0 {
        Seq::empty()
    } else {
        all_signer_values(signers.drop_last(), signatures) + signer_values(
            &signers.last(),
            &signatures[signers.len() - 1].0,
            &signatures[signers.len() - 1].1,
        )
    }
}

/// The words of an aggregate, in the order its wires are allocated.
pub open spec fn aggregate_values(
    wires: &MultiSigWires,
    message: Seq<u8>,
    epoch: u32,
    signatures: Seq<(XmssPublicKey, XmssSignature)>,
) -> Seq<Word> {
    packed_words(message, wires.message.len() as int) + seq![Word(epoch as u64)]
        + all_signer_values(wires.signers@, signatures)
}

/// The values that populating leaves: on each wire of an aggregate, the word at the last place
/// where the wire comes.
pub open spec fn populated(
    wires: &MultiSigWires,
    values: Seq<Word>,
    message: Seq<u8>,
    epoch: u32,
    signatures: Seq<(XmssPublicKey, XmssSignature)>,
) -> bool {
    forall|k: int|
        #![trigger wires.words()[k]]
        0 <= k < wires.words().len() && last_at(wires.words(), k) ==> values[wires.words()[k].0 as int]
            == aggregate_values(wires, message, epoch, signatures)[k]
}

/// Lists of bytes fit lists of wires.
pub open spec fn rows_fit(rows: Seq<Vec<Wire>>, bytes: Seq<Vec<u8>>) -> bool {
    &&& rows.len() == bytes.len()
    &&& forall|i: int|
        #![trigger rows[i]]
        0 <= i < rows.len() ==> bytes[i].len() <= 8 * rows[i].len() && 8 * rows[i].len()
            <= usize::MAX
}

/// A key and a signature fit a signer's wires.
pub open spec fn signer_fits(
    wires: &SignerWires,
    key: &XmssPublicKey,
    signature: &XmssSignature,
) -> bool {
    &&& key.public_param.len() <= 8 * wires.public_param.len() <= usize::MAX
    &&& key.merkle_root.len() <= 8 * wires.merkle_root.len() <= usize::MAX
    &&& signature.randomness.len() <= 8 * wires.signature.randomness.len() <= usize::MAX
    &&& rows_fit(wires.signature.chain_tips@, signature.chain_tips@)
    &&& rows_fit(wires.signature.merkle_path@, signature.merkle_path@)
}

/// A wire of a list does not come again after a place.
pub open spec fn last_at(wires: Seq<Wire>, k: int) -> bool {
    forall|j: int| k < j < wires.len() ==> #[trigger] wires[j] != wires[k]
}

/// Wires allocated one after the other come once each, so that populating leaves on every one of
/// them the word that is its own.
pub proof fn allocated_wires_come_once(first: int, n: int)
    requires
        0 <= first,
        0 <= n,
        first + n <= u32::MAX,
    ensures
        forall|k: int| 0 <= k < n ==> #[trigger] last_at(wire_range(first, n), k),
{
    assert forall|k: int| 0 <= k < n implies #[trigger] last_at(wire_range(first, n), k) by {
        assert(wire_range(first, n)[k].0 == first + k);
    }
}

/// Appends what lists of bytes pack into.
fn append_packed(r: &mut Vec<Word>, rows: &Vec<Vec<Wire>>, bytes: &Vec<Vec<u8>>)
    requires
        rows_fit(rows@, bytes@),
    ensures
        final(r)@ == old(r)@ + row_values(rows@, bytes@),
{
    let ghost before = r@;
    let mut i: usize = 0;
    assert(rows@.take(0) =~= Seq::<Vec<Wire>>::empty());
    assert(before + row_values(rows@.take(0), bytes@) =~= before);
    while i < rows.len()
        invariant
            i <= rows.len(),
            rows_fit(rows@, bytes@),
            r@ == before + row_values(rows@.take(i as int), bytes@),
        decreases rows.len() - i,
    {
        assert(bytes@[i as int].len() <= 8 * rows@[i as int].len());
        let words = pack_bytes_le(&bytes[i], rows[i].len());
        append(r, &words);
        assert(rows@.take(i + 1).drop_last() =~= rows@.take(i as int));
        assert(r@ =~= before + row_values(rows@.take(i + 1), bytes@));
        i = i + 1;
    }
    assert(rows@.take(i as int) =~= rows@);
}

/// Appends one signer's wires.
fn append_signer_wires(r: &mut Vec<Wire>, signer: &SignerWires)
    ensures
        final(r)@ == old(r)@ + signer.words(),
{
    append(r, &signer.public_param);
    append(r, &signer.merkle_root);
    append(r, &signer.signature.randomness);
    append_rows(r, &signer.signature.chain_tips);
    append_rows(r, &signer.signature.merkle_path);
    assert(r@ =~= old(r)@ + signer.words());
}

/// Appends one signer's words.
fn append_signer_values(
    r: &mut Vec<Word>,
    wires: &SignerWires,
    key: &XmssPublicKey,
    signature: &XmssSignature,
)
    requires
        signer_fits(wires, key, signature),
    ensures
        final(r)@ == old(r)@ + signer_values(wires, key, signature),
{
    append(r, &pack_bytes_le(&key.public_param, wires.public_param.len()));
    append(r, &pack_bytes_le(&key.merkle_root, wires.merkle_root.len()));
    append(r, &pack_bytes_le(&signature.randomness, wires.signature.randomness.len()));
    append_packed(r, &wires.signature.chain_tips, &signature.chain_tips);
    append_packed(r, &wires.signature.merkle_path, &signature.merkle_path);
    assert(r@ =~= old(r)@ + signer_values(wires, key, signature));
}

/// Lists of bytes pack into as many words as there are wires.
pub proof fn lemma_row_values_len(rows: Seq<Vec<Wire>>, bytes: Seq<Vec<u8>>)
    ensures
        row_values(rows, bytes).len() == end_to_end(rows).len(),
    decreases rows.len(),
{
    if rows.len() > 0 {
        lemma_row_values_len(rows.drop_last(), bytes);
    }
}

/// Signers have as many words as wires.
pub proof fn lemma_signer_values_len(
    signers: Seq<SignerWires>,
    signatures: Seq<(XmssPublicKey, XmssSignature)>,
)
    ensures
        all_signer_values(signers, signatures).len() == signer_words(signers).len(),
    decreases signers.len(),
{
    if signers.len() > 0 {
        lemma_signer_values_len(signers.drop_last(), signatures);
        let wires = signers.last();
        let signature = signatures[signers.len() - 1].1;
        lemma_row_values_len(wires.signature.chain_tips@, signature.chain_tips@);
        lemma_row_values_len(wires.signature.merkle_path@, signature.merkle_path@);
    }
}

impl MultiSigWires {
    /// Fills every wire from a message, an epoch and one key-and-signature pair per signer.
    ///
    /// A wire that comes more than once keeps the last word written to it.
    pub fn populate(
        &self,
        w: &mut WitnessFiller,
        message: &Vec<u8>,
        epoch: u32,
        signatures: &Vec<(XmssPublicKey, XmssSignature)>,
    )
        requires
            signatures.len() == self.signers.len(),
            message.len() <= 8 * self.message.len() <= usize::MAX,
            forall|i: int|
                #![trigger self.signers[i]]
                0 <= i < self.signers.len() ==> signer_fits(
                    &self.signers[i],
                    &signatures[i].0,
                    &signatures[i].1,
                ),
            forall|k: int|
                0 <= k < self.words().len() ==> (#[trigger] self.words()[k]).0 < old(w).values.len(),
        ensures
            final(w).values.len() == old(w).values.len(),
            populated(self, final(w).values@, message@, epoch, signatures@),
            (forall|k: int| 0 <= k < self.words().len() ==> #[trigger] last_at(self.words(), k))
                ==> fields_hold(self, final(w).values@, message@, epoch, signatures@),
            forall|i: int|
                0 <= i < old(w).values.len() && (forall|k: int|
                    0 <= k < self.words().len() ==> (#[trigger] self.words()[k]).0 != i)
                    ==> #[trigger] final(w).values[i] == old(w).values[i],
    {
        let mut wires: Vec<Wire> = Vec::new();
        let mut words: Vec<Word> = pack_bytes_le(message, self.message.len());
        append(&mut wires, &self.message);
        wires.push(self.epoch);
        words.push(Word::from_u64(epoch as u64));
        let ghost first = self.message@ + seq![self.epoch];
        let ghost lead = packed_words(message@, self.message.len() as int) + seq![
            Word(epoch as u64),
        ];
        let mut i: usize = 0;
        proof {
            assert(self.signers@.take(0) =~= Seq::<SignerWires>::empty());
            assert(wires@ =~= first + signer_words(self.signers@.take(0)));
            assert(words@ =~= lead + all_signer_values(self.signers@.take(0), signatures@));
        }
        while i < self.signers.len()
            invariant
                i <= self.signers.len(),
                signatures.len() == self.signers.len(),
                forall|i: int|
                    #![trigger self.signers[i]]
                    0 <= i < self.signers.len() ==> signer_fits(
                        &self.signers[i],
                        &signatures[i].0,
                        &signatures[i].1,
                    ),
                wires@ == first + signer_words(self.signers@.take(i as int)),
                words@ == lead + all_signer_values(self.signers@.take(i as int), signatures@),
            decreases self.signers.len() - i,
        {
            append_signer_wires(&mut wires, &self.signers[i]);
            let pair = &signatures[i];
            assert(signer_fits(
                &self.signers[i as int],
                &signatures[i as int].0,
                &signatures[i as int].1,
            ));
            append_signer_values(&mut words, &self.signers[i], &pair.0, &pair.1);
            proof {
                assert(self.signers@.take(i + 1).drop_last() =~= self.signers@.take(i as int));
                assert(wires@ =~= first + signer_words(self.signers@.take(i + 1)));
                assert(words@ =~= lead + all_signer_values(self.signers@.take(i + 1), signatures@));
            }
            i = i + 1;
        }
        proof {
            assert(self.signers@.take(i as int) =~= self.signers@);
            lemma_signer_values_len(self.signers@, signatures@);
            assert(wires@ == self.words());
            assert(words@ == aggregate_values(self, message@, epoch, signatures@));
        }
        let ghost values = w.values@;
        let mut k: usize = 0;
        while k < wires.len()
            invariant
                k <= wires.len(),
                wires.len() == words.len(),
                w.values.len() == old(w).values.len(),
                values == old(w).values@,
                forall|j: int| 0 <= j < wires.len() ==> (#[trigger] wires@[j]).0 < w.values.len(),
                w.values@ == written(values, wires@, words@, k as nat),
            decreases wires.len() - k,
        {
            let at: usize = wires[k].0 as usize;
            assert(wires@[k as int].0 < w.values.len());
            w.values.set(at, words[k]);
            k = k + 1;
        }
        proof {
            let n = wires@.len();
            assert forall|k: int|
                #![trigger self.words()[k]]
                0 <= k < self.words().len() && last_at(
                    self.words(),
                    k,
                ) implies w.values[self.words()[k].0 as int] == aggregate_values(
                self,
                message@,
                epoch,
                signatures@,
            )[k] by {
                lemma_written_last(values, wires@, words@, n, k);
            }
            if forall|k: int| 0 <= k < self.words().len() ==> #[trigger] last_at(self.words(), k) {
                populating_keeps_every_field(self, w.values@, message@, epoch, signatures@);
            }
            assert forall|i: int|
                0 <= i < old(w).values.len() && (forall|k: int|
                    0 <= k < self.words().len() ==> (#[trigger] self.words()[k]).0
                        != i) implies #[trigger] w.values[i] == old(w).values[i] by {
                lemma_unwritten(values, wires@, words@, n, i);
            }
        }
    }
}

/// Values after the first words of a list were written to their wires, in order.
spec fn written(values: Seq<Word>, wires: Seq<Wire>, words: Seq<Word>, n: nat) -> Seq<Word>
    decreases n,
{
    if n == 0 {
        values
    } else {
        written(values, wires, words, (n - 1) as nat).update(
            wires[n - 1].0 as int,
            words[n - 1],
        )
    }
}

proof fn lemma_written_len(values: Seq<Word>, wires: Seq<Wire>, words: Seq<Word>, n: nat)
    requires
        n <= wires.len(),
        forall|k: int| 0 <= k < wires.len() ==> (#[trigger] wires[k]).0 < values.len(),
    ensures
        written(values, wires, words, n).len() == values.len(),
    decreases n,
{
    if n > 0 {
        lemma_written_len(values, wires, words, (n - 1) as nat);
        assert(wires[n - 1].0 < values.len());
    }
}

/// What is written to a wire last stays there.
proof fn lemma_written_last(
    values: Seq<Word>,
    wires: Seq<Wire>,
    words: Seq<Word>,
    n: nat,
    k: int,
)
    requires
        0 <= k < n,
        n <= wires.len(),
        forall|k: int| 0 <= k < wires.len() ==> (#[trigger] wires[k]).0 < values.len(),
        last_at(wires, k),
    ensures
        written(values, wires, words, n)[wires[k].0 as int] == words[k],
    decreases n,
{
    lemma_written_len(values, wires, words, (n - 1) as nat);
    assert(wires[n - 1].0 < values.len());
    if k < n - 1 {
        lemma_written_last(values, wires, words, (n - 1) as nat, k);
        assert(wires[n - 1] != wires[k]);
    }
}

/// Nothing changes where nothing is written.
proof fn lemma_unwritten(
    values: Seq<Word>,
    wires: Seq<Wire>,
    words: Seq<Word>,
    n: nat,
    i: int,
)
    requires
        0 <= i < values.len(),
        n <= wires.len(),
        forall|k: int| 0 <= k < wires.len() ==> (#[trigger] wires[k]).0 < values.len(),
        forall|k: int| 0 <= k < wires.len() ==> (#[trigger] wires[k]).0 != i,
    ensures
        written(values, wires, words, n)[i] == values[i],
    decreases n,
{
    if n > 0 {
        lemma_unwritten(values, wires, words, (n - 1) as nat, i);
        lemma_written_len(values, wires, words, (n - 1) as nat);
        assert(wires[n - 1].0 < values.len());
        assert(wires[n - 1].0 != i);
    }
}

} // verus!
