//! What the wires of an aggregate carry, field by field.

use crate::circuits::aggregate::{MultiSigWires, SignerWires, end_to_end, signer_words};
use crate::circuits::builder::wire_range;
use crate::circuits::populate::{
    XmssPublicKey, XmssSignature, aggregate_values, all_signer_values, allocated_wires_come_once,
    last_at, lemma_row_values_len, lemma_signer_values_len, packed_words, populated, row_values,
    signer_values,
};
use crate::frontend::wire_set::Wire;
use crate::word::Word;
use vstd::prelude::*;

verus! {

/// Whether the bytes of the words on wires are given bytes, the lowest of each word first, and
/// zeros after them.
pub open spec fn holds_bytes(values: Seq<Word>, wires: Seq<Wire>, bytes: Seq<u8>) -> bool {
    forall|j: int, b: u64|
        #![trigger wires[j], first_bit(b)]
        0 <= j < wires.len() && b < 8 ==> (values[wires[j].0 as int].0 >> first_bit(b)) & 0xff == if 8
            * j + b < bytes.len() {
            bytes[8 * j + b]
        } else {
            0
        }
}

/// The first bit of byte `b`.
pub open spec fn first_bit(b: u64) -> u64 {
    (8 * b) as u64
}

/// Whether the wires of an aggregate carry a message, an epoch, and each signer's key and
/// signature.
pub open spec fn fields_hold(
    wires: &MultiSigWires,
    values: Seq<Word>,
    message: Seq<u8>,
    epoch: u32,
    signatures: Seq<(XmssPublicKey, XmssSignature)>,
) -> bool {
    &&& holds_bytes(values, wires.message@, message)
    &&& values[wires.epoch.0 as int].0 == epoch
    &&& forall|i: int|
        0 <= i < wires.signers.len() ==> holds_bytes(
            values,
            (#[trigger] wires.signers[i]).public_param@,
            signatures[i].0.public_param@,
        )
    &&& forall|i: int|
        0 <= i < wires.signers.len() ==> holds_bytes(
            values,
            (#[trigger] wires.signers[i]).merkle_root@,
            signatures[i].0.merkle_root@,
        )
    &&& forall|i: int|
        0 <= i < wires.signers.len() ==> holds_bytes(
            values,
            (#[trigger] wires.signers[i]).signature.randomness@,
            signatures[i].1.randomness@,
        )
    &&& forall|i: int, c: int|
        #![trigger wires.signers[i].signature.chain_tips[c]]
        0 <= i < wires.signers.len() && 0 <= c < wires.signers[i].signature.chain_tips.len()
            ==> holds_bytes(
            values,
            wires.signers[i].signature.chain_tips[c]@,
            signatures[i].1.chain_tips[c]@,
        )
    &&& forall|i: int, p: int|
        #![trigger wires.signers[i].signature.merkle_path[p]]
        0 <= i < wires.signers.len() && 0 <= p < wires.signers[i].signature.merkle_path.len()
            ==> holds_bytes(
            values,
            wires.signers[i].signature.merkle_path[p]@,
            signatures[i].1.merkle_path[p]@,
        )
}

/// The bytes of a word are its digits in base 256.
proof fn lemma_digits(
    w: u64,
    b0: u8,
    b1: u8,
    b2: u8,
    b3: u8,
    b4: u8,
    b5: u8,
    b6: u8,
    b7: u8,
)
    by (bit_vector)
    requires
        w == b0 + 0x100 * b1 + 0x1_0000 * b2 + 0x100_0000 * b3 + 0x1_0000_0000 * b4
            + 0x100_0000_0000 * b5 + 0x1_0000_0000_0000 * b6 + 0x100_0000_0000_0000 * b7,
    ensures
        (w >> 0) & 0xff == b0,
        (w >> 8) & 0xff == b1,
        (w >> 16) & 0xff == b2,
        (w >> 24) & 0xff == b3,
        (w >> 32) & 0xff == b4,
        (w >> 40) & 0xff == b5,
        (w >> 48) & 0xff == b6,
        (w >> 56) & 0xff == b7,
{
}

/// A byte of a list, zero past its end.
spec fn byte_or_zero(bytes: Seq<u8>, i: int) -> u8 {
    if 0 <= i < bytes.len() {
        bytes[i]
    } else {
        0
    }
}

/// Eight bytes read as a number.
proof fn lemma_eight_bytes(bytes: Seq<u8>, start: int)
    ensures
        crate::circuits::populate::le_value(bytes, start, 8) == byte_or_zero(bytes, start) + 0x100 * byte_or_zero(
            bytes,
            start + 1,
        ) + 0x1_0000 * byte_or_zero(bytes, start + 2) + 0x100_0000 * byte_or_zero(bytes, start + 3)
            + 0x1_0000_0000 * byte_or_zero(bytes, start + 4) + 0x100_0000_0000 * byte_or_zero(
            bytes,
            start + 5,
        ) + 0x1_0000_0000_0000 * byte_or_zero(bytes, start + 6) + 0x100_0000_0000_0000
            * byte_or_zero(bytes, start + 7),
{
    reveal_with_fuel(crate::circuits::populate::le_value, 9);
    assert(start + 1 + 1 == start + 2);
}

/// Unpacking a packed word gives back its bytes.
proof fn lemma_packed_byte(bytes: Seq<u8>, n: int, j: int, b: u64)
    requires
        0 <= j < n,
        b < 8,
    ensures
        (packed_words(bytes, n)[j].0 >> first_bit(b)) & 0xff == byte_or_zero(bytes, 8 * j + b),
{
    let s = 8 * j;
    lemma_eight_bytes(bytes, s);
    lemma_digits(
        packed_words(bytes, n)[j].0,
        byte_or_zero(bytes, s),
        byte_or_zero(bytes, s + 1),
        byte_or_zero(bytes, s + 2),
        byte_or_zero(bytes, s + 3),
        byte_or_zero(bytes, s + 4),
        byte_or_zero(bytes, s + 5),
        byte_or_zero(bytes, s + 6),
        byte_or_zero(bytes, s + 7),
    );
    assert(b == 0 || b == 1 || b == 2 || b == 3 || b == 4 || b == 5 || b == 6 || b == 7);
}

/// Whether wires carry words, one each.
spec fn carries(values: Seq<Word>, wires: Seq<Wire>, words: Seq<Word>) -> bool {
    &&& wires.len() == words.len()
    &&& forall|k: int| 0 <= k < wires.len() ==> values[(#[trigger] wires[k]).0 as int] == words[k]
}

/// Two lists of wires carry what their parts do.
proof fn lemma_carries_parts(
    values: Seq<Word>,
    a: Seq<Wire>,
    b: Seq<Wire>,
    x: Seq<Word>,
    y: Seq<Word>,
)
    requires
        carries(values, a + b, x + y),
        a.len() == x.len(),
    ensures
        carries(values, a, x),
        carries(values, b, y),
{
    assert forall|k: int| 0 <= k < a.len() implies values[(#[trigger] a[k]).0 as int] == x[k] by {
        assert((a + b)[k] == a[k]);
    }
    assert forall|k: int| 0 <= k < b.len() implies values[(#[trigger] b[k]).0 as int] == y[k] by {
        assert((a + b)[a.len() + k] == b[k]);
    }
}

/// Wires that carry packed bytes hold those bytes.
proof fn lemma_carries_bytes(values: Seq<Word>, wires: Seq<Wire>, bytes: Seq<u8>)
    requires
        carries(values, wires, packed_words(bytes, wires.len() as int)),
    ensures
        holds_bytes(values, wires, bytes),
{
    assert forall|j: int, b: u64|
        #![trigger wires[j], first_bit(b)]
        0 <= j < wires.len() && b < 8 implies (values[wires[j].0 as int].0 >> first_bit(b)) & 0xff
        == if 8 * j + b < bytes.len() {
        bytes[8 * j + b]
    } else {
        0
    } by {
        lemma_packed_byte(bytes, wires.len() as int, j, b);
    }
}

/// Rows of wires that carry rows of packed bytes hold each its own.
proof fn lemma_carries_rows(
    values: Seq<Word>,
    rows: Seq<Vec<Wire>>,
    bytes: Seq<Vec<u8>>,
    c: int,
)
    requires
        carries(values, end_to_end(rows), row_values(rows, bytes)),
        0 <= c < rows.len(),
    ensures
        holds_bytes(values, rows[c]@, bytes[c]@),
    decreases rows.len(),
{
    let init = rows.drop_last();
    lemma_row_values_len(init, bytes);
    lemma_carries_parts(
        values,
        end_to_end(init),
        rows.last()@,
        row_values(init, bytes),
        packed_words(bytes[rows.len() - 1]@, rows.last().len() as int),
    );
    if c == rows.len() - 1 {
        lemma_carries_bytes(values, rows[c]@, bytes[c]@);
    } else {
        lemma_carries_rows(values, init, bytes, c);
        assert(init[c] == rows[c]);
    }
}

/// The wires of all signers carry the words of each.
proof fn lemma_carries_signer(
    values: Seq<Word>,
    signers: Seq<SignerWires>,
    signatures: Seq<(XmssPublicKey, XmssSignature)>,
    i: int,
)
    requires
        carries(values, signer_words(signers), all_signer_values(signers, signatures)),
        0 <= i < signers.len(),
    ensures
        carries(
            values,
            signers[i].words(),
            signer_values(&signers[i], &signatures[i].0, &signatures[i].1),
        ),
    decreases signers.len(),
{
    let init = signers.drop_last();
    let last = signers.len() - 1;
    lemma_signer_values_len(init, signatures);
    lemma_carries_parts(
        values,
        signer_words(init),
        signers[last].words(),
        all_signer_values(init, signatures),
        signer_values(&signers[last], &signatures[last].0, &signatures[last].1),
    );
    if i < last {
        lemma_carries_signer(values, init, signatures, i);
        assert(init[i] == signers[i]);
    }
}

/// The wires of one signer carry each field on its own.
proof fn lemma_carries_fields(
    values: Seq<Word>,
    wires: &SignerWires,
    key: &XmssPublicKey,
    signature: &XmssSignature,
)
    requires
        carries(values, wires.words(), signer_values(wires, key, signature)),
    ensures
        holds_bytes(values, wires.public_param@, key.public_param@),
        holds_bytes(values, wires.merkle_root@, key.merkle_root@),
        holds_bytes(values, wires.signature.randomness@, signature.randomness@),
        carries(
            values,
            end_to_end(wires.signature.chain_tips@),
            row_values(wires.signature.chain_tips@, signature.chain_tips@),
        ),
        carries(
            values,
            end_to_end(wires.signature.merkle_path@),
            row_values(wires.signature.merkle_path@, signature.merkle_path@),
        ),
{
    let a = packed_words(key.public_param@, wires.public_param.len() as int);
    let b = packed_words(key.merkle_root@, wires.merkle_root.len() as int);
    let c = packed_words(signature.randomness@, wires.signature.randomness.len() as int);
    let d = row_values(wires.signature.chain_tips@, signature.chain_tips@);
    let e = row_values(wires.signature.merkle_path@, signature.merkle_path@);
    let tips = end_to_end(wires.signature.chain_tips@);
    let path = end_to_end(wires.signature.merkle_path@);
    let random = wires.signature.randomness@;
    lemma_row_values_len(wires.signature.chain_tips@, signature.chain_tips@);
    lemma_carries_parts(values, wires.key(), wires.signature.words(), a + b, c + d + e);
    lemma_carries_parts(values, wires.public_param@, wires.merkle_root@, a, b);
    lemma_carries_parts(values, random + tips, path, c + d, e);
    lemma_carries_parts(values, random, tips, c, d);
    lemma_carries_bytes(values, wires.public_param@, key.public_param@);
    lemma_carries_bytes(values, wires.merkle_root@, key.merkle_root@);
    lemma_carries_bytes(values, random, signature.randomness@);
}

/// After populating wires that come once each, such as freshly allocated ones, every field is on
/// its own wires: the bytes of the words on the message's wires are the message, and those on each
/// signer's wires are its public parameter, its root, its randomness, and each of its chain tips
/// and path entries, with zeros after them; the epoch's wire carries the epoch.
pub proof fn populating_keeps_every_field(
    wires: &MultiSigWires,
    values: Seq<Word>,
    message: Seq<u8>,
    epoch: u32,
    signatures: Seq<(XmssPublicKey, XmssSignature)>,
)
    requires
        populated(wires, values, message, epoch, signatures),
        forall|k: int| 0 <= k < wires.words().len() ==> #[trigger] last_at(wires.words(), k),
    ensures
        holds_bytes(values, wires.message@, message),
        values[wires.epoch.0 as int].0 == epoch,
        forall|i: int|
            0 <= i < wires.signers.len() ==> holds_bytes(
                values,
                (#[trigger] wires.signers[i]).public_param@,
                signatures[i].0.public_param@,
            ),
        forall|i: int|
            0 <= i < wires.signers.len() ==> holds_bytes(
                values,
                (#[trigger] wires.signers[i]).merkle_root@,
                signatures[i].0.merkle_root@,
            ),
        forall|i: int|
            0 <= i < wires.signers.len() ==> holds_bytes(
                values,
                (#[trigger] wires.signers[i]).signature.randomness@,
                signatures[i].1.randomness@,
            ),
        forall|i: int, c: int|
            #![trigger wires.signers[i].signature.chain_tips[c]]
            0 <= i < wires.signers.len() && 0 <= c < wires.signers[i].signature.chain_tips.len()
                ==> holds_bytes(
                values,
                wires.signers[i].signature.chain_tips[c]@,
                signatures[i].1.chain_tips[c]@,
            ),
        forall|i: int, p: int|
            #![trigger wires.signers[i].signature.merkle_path[p]]
            0 <= i < wires.signers.len() && 0 <= p < wires.signers[i].signature.merkle_path.len()
                ==> holds_bytes(
                values,
                wires.signers[i].signature.merkle_path[p]@,
                signatures[i].1.merkle_path[p]@,
            ),
{
    let all = aggregate_values(wires, message, epoch, signatures);
    let packed = packed_words(message, wires.message.len() as int);
    let rest = all_signer_values(wires.signers@, signatures);
    lemma_signer_values_len(wires.signers@, signatures);
    assert forall|k: int| 0 <= k < wires.words().len() implies values[(
    #[trigger] wires.words()[k]).0 as int] == all[k] by {
        assert(last_at(wires.words(), k));
    }
    assert(carries(values, wires.words(), all));
    lemma_carries_parts(
        values,
        wires.message@ + seq![wires.epoch],
        signer_words(wires.signers@),
        packed + seq![Word(epoch as u64)],
        rest,
    );
    lemma_carries_parts(
        values,
        wires.message@,
        seq![wires.epoch],
        packed,
        seq![Word(epoch as u64)],
    );
    lemma_carries_bytes(values, wires.message@, message);
    assert(values[seq![wires.epoch][0].0 as int] == seq![Word(epoch as u64)][0]);
    assert forall|i: int| 0 <= i < wires.signers.len() implies single_lists_hold(
        values,
        #[trigger] &wires.signers[i],
        &signatures[i].0,
        &signatures[i].1,
    ) by {
        lemma_carries_signer(values, wires.signers@, signatures, i);
        lemma_carries_fields(values, &wires.signers[i], &signatures[i].0, &signatures[i].1);
    }
    assert forall|i: int, c: int|
        #![trigger wires.signers[i].signature.chain_tips[c]]
        0 <= i < wires.signers.len() && 0 <= c
            < wires.signers[i].signature.chain_tips.len() implies holds_bytes(
        values,
        wires.signers[i].signature.chain_tips[c]@,
        signatures[i].1.chain_tips[c]@,
    ) by {
        lemma_carries_signer(values, wires.signers@, signatures, i);
        lemma_carries_fields(values, &wires.signers[i], &signatures[i].0, &signatures[i].1);
        lemma_carries_rows(
            values,
            wires.signers[i].signature.chain_tips@,
            signatures[i].1.chain_tips@,
            c,
        );
    }
    assert forall|i: int, p: int|
        #![trigger wires.signers[i].signature.merkle_path[p]]
        0 <= i < wires.signers.len() && 0 <= p
            < wires.signers[i].signature.merkle_path.len() implies holds_bytes(
        values,
        wires.signers[i].signature.merkle_path[p]@,
        signatures[i].1.merkle_path[p]@,
    ) by {
        lemma_carries_signer(values, wires.signers@, signatures, i);
        lemma_carries_fields(values, &wires.signers[i], &signatures[i].0, &signatures[i].1);
        lemma_carries_rows(
            values,
            wires.signers[i].signature.merkle_path@,
            signatures[i].1.merkle_path@,
            p,
        );
    }
}

/// Whether a signer's wires of one list each hold the bytes of their fields.
spec fn single_lists_hold(
    values: Seq<Word>,
    wires: &SignerWires,
    key: &XmssPublicKey,
    signature: &XmssSignature,
) -> bool {
    &&& holds_bytes(values, wires.public_param@, key.public_param@)
    &&& holds_bytes(values, wires.merkle_root@, key.merkle_root@)
    &&& holds_bytes(values, wires.signature.randomness@, signature.randomness@)
}

/// Freshly allocated wires come once each, so populating them leaves every field on its own wires.
pub proof fn fresh_wires_keep_every_field(
    wires: &MultiSigWires,
    first: int,
    n: int,
    values: Seq<Word>,
    message: Seq<u8>,
    epoch: u32,
    signatures: Seq<(XmssPublicKey, XmssSignature)>,
)
    requires
        0 <= first,
        0 <= n,
        first + n <= u32::MAX,
        wires.words() == wire_range(first, n),
        populated(wires, values, message, epoch, signatures),
    ensures
        fields_hold(wires, values, message, epoch, signatures),
{
    allocated_wires_come_once(first, n);
    populating_keeps_every_field(wires, values, message, epoch, signatures);
}

} // verus!
