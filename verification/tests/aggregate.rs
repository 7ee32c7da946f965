use binius64::circuits::aggregate::{
    circuit_xmss_multisig, circuit_xmss_multisig_chip, MultiSigWires, SignerWires, XmssShape,
};
use binius64::circuits::builder::{Chip, CircuitBuilder, EmbeddedChip, RegisteredChip};
use binius64::circuits::populate::{
    pack_bytes_le, WitnessFiller, XmssPublicKey, XmssSignature,
};
use binius64::frontend::wire_set::Wire;
use binius64::word::Word;

const SHAPE: XmssShape = XmssShape {
    public_param_wires: 2,
    digest_wires: 3,
    message_wires: 4,
    randomness_wires: 1,
    n_chains: 2,
    path_len: 5,
};

/// The chip at a place that a circuit calls.
fn main_chip(builder: &CircuitBuilder, at: usize) -> &Chip {
    match &builder.chips[at] {
        EmbeddedChip::Main(chip) => chip,
        EmbeddedChip::Nested { .. } => panic!("a call takes a main chip"),
    }
}

/// The words one check relates, in order.
fn call_words(signer: &SignerWires, message: &[Wire], epoch: Wire) -> Vec<Wire> {
    let mut words = signer.public_param.clone();
    words.extend(&signer.merkle_root);
    words.extend(message);
    words.push(epoch);
    words.extend(&signer.signature.randomness);
    words.extend(signer.signature.chain_tips.iter().flatten());
    words.extend(signer.signature.merkle_path.iter().flatten());
    words
}

#[test]
fn wires_are_allocated_in_order() {
    let mut builder = CircuitBuilder::new();
    let wires = MultiSigWires::new(&mut builder, SHAPE, 3);
    // Four message words and an epoch, then two and three and one and six and fifteen a signer.
    assert_eq!(builder.n_wires, 5 + 3 * 27);
    assert_eq!(builder.inout.len(), 5 + 3 * 5);
    assert_eq!(builder.witness.len(), 3 * 22);
    assert_eq!(wires.message, [0, 1, 2, 3].map(Wire));
    assert_eq!(wires.epoch, Wire(4));
    assert_eq!(wires.signers[1].public_param, [32, 33].map(Wire));
    assert_eq!(
        wires.signers[0].signature.chain_tips,
        vec![[11, 12, 13].map(Wire).to_vec(), [14, 15, 16].map(Wire).to_vec()]
    );
    assert_eq!(wires.signers[0].signature.merkle_path.len(), 5);
}

#[test]
fn both_aggregates_relate_the_same_words() {
    let mut builder = CircuitBuilder::new();
    let wires = MultiSigWires::new(&mut builder, SHAPE, 2);
    let expected: Vec<Vec<Wire>> = wires
        .signers
        .iter()
        .map(|s| call_words(s, &wires.message, wires.epoch))
        .collect();

    circuit_xmss_multisig(&mut builder, &wires);
    let inline: Vec<Vec<Wire>> = builder
        .verifications
        .iter()
        .map(|v| v.words.clone())
        .collect();
    assert_eq!(inline, expected);
    // Each check stands in a part of the circuit that is named after its signer.
    let names: Vec<Option<usize>> = builder.verifications.iter().map(|v| v.signer).collect();
    assert_eq!(names, vec![Some(0), Some(1)]);

    circuit_xmss_multisig_chip(&mut builder, SHAPE, &wires);
    // The check brings the paired compression that it calls.
    assert_eq!(builder.chips.len(), 2);
    assert!(matches!(
        builder.chips[1],
        EmbeddedChip::Nested {
            chip: RegisteredChip::Blake3Compress2x,
            caller: 0
        }
    ));
    let calls: Vec<Vec<Wire>> = builder.calls.iter().map(|c| c.words.clone()).collect();
    assert_eq!(calls, expected);
    assert!(builder.calls.iter().all(|c| c.chip == 0));

    // The chip's interface is in the order its calls pass.
    let chip = main_chip(&builder, 0);
    assert_eq!(chip.registered, vec![RegisteredChip::Blake3Compress2x]);
    assert_eq!(chip.inout, (0..32).map(Wire).collect::<Vec<_>>());
    assert_eq!(chip.verification.words, chip.inout);
}

/// Whether values satisfy the checks, for a stand-in notion of a valid signature.
fn holds(builder: &CircuitBuilder, values: &[Word], valid: impl Fn(&[Word]) -> bool) -> bool {
    let read = |words: &[Wire]| -> Vec<Word> { words.iter().map(|w| values[w.0 as usize]).collect() };
    let inline = builder.verifications.iter().all(|v| valid(&read(&v.words)));
    let called = builder.calls.iter().all(|c| {
        let chip = main_chip(builder, c.chip);
        let operands = read(&c.words);
        let mut inner = vec![Word(0); chip.inout.len()];
        for (wire, word) in chip.inout.iter().zip(&operands) {
            inner[wire.0 as usize] = *word;
        }
        let seen: Vec<Word> = chip
            .verification
            .words
            .iter()
            .map(|w| inner[w.0 as usize])
            .collect();
        valid(&seen)
    });
    inline && called
}

fn signature(tag: u8, message: &[u8]) -> (XmssPublicKey, XmssSignature) {
    let digest = |i: u8| vec![tag.wrapping_add(i); 24];
    let mut randomness = vec![tag];
    randomness.push(message[0]);
    (
        XmssPublicKey {
            public_param: vec![tag; 16],
            merkle_root: digest(1),
        },
        XmssSignature {
            randomness,
            chain_tips: vec![digest(2), digest(3)],
            merkle_path: (0..5).map(|i| digest(4 + i)).collect(),
        },
    )
}

/// A stand-in for a valid signature: its randomness names the message's first byte.
fn stand_in(words: &[Word]) -> bool {
    let message_first = words[5].0 & 0xff;
    (words[10].0 >> 8) & 0xff == message_first && words[11].0 & 0xff == (words[0].0 & 0xff) + 2
}

fn run(message: &[u8], signatures: &Vec<(XmssPublicKey, XmssSignature)>, chip: bool) -> bool {
    let mut builder = CircuitBuilder::new();
    let wires = MultiSigWires::new(&mut builder, SHAPE, signatures.len());
    if chip {
        circuit_xmss_multisig_chip(&mut builder, SHAPE, &wires);
    } else {
        circuit_xmss_multisig(&mut builder, &wires);
    }
    let mut w = WitnessFiller {
        values: vec![Word(0); builder.n_wires as usize],
    };
    wires.populate(&mut w, &message.to_vec(), 42, signatures);
    assert_eq!(w.values[wires.epoch.0 as usize], Word(42));
    holds(&builder, &w.values, stand_in)
}

#[test]
fn signers_verify_together_and_one_bad_one_fails_them_all() {
    let message = [9u8; 32];
    let good = || vec![signature(1, &message), signature(20, &message)];
    for chip in [false, true] {
        assert!(run(&message, &good(), chip));

        let mut tampered = good();
        tampered[1].1.chain_tips[0][0] ^= 0xFF;
        assert!(!run(&message, &tampered, chip));

        let mut other = good();
        other[0] = signature(1, &[8u8; 32]);
        assert!(!run(&message, &other, chip));
    }
}

#[test]
fn bytes_pack_into_words() {
    let bytes = vec![1, 2, 3, 4, 5, 6, 7, 8, 9];
    assert_eq!(
        pack_bytes_le(&bytes, 3),
        vec![Word(0x0807_0605_0403_0201), Word(9), Word(0)]
    );
}

#[test]
fn populating_fills_every_wire_and_no_other() {
    let mut builder = CircuitBuilder::new();
    builder.add_words(2, false);
    let wires = MultiSigWires::new(&mut builder, SHAPE, 1);
    let mut w = WitnessFiller {
        values: vec![Word(7); builder.n_wires as usize + 1],
    };
    let message = vec![0xabu8; 32];
    wires.populate(&mut w, &message, 5, &vec![signature(3, &message)]);
    assert_eq!(w.values[0], Word(7));
    assert_eq!(w.values[1], Word(7));
    assert_eq!(w.values[2], Word(0xabab_abab_abab_abab));
    assert_eq!(w.values[6], Word(5));
    assert_eq!(w.values[7], Word(0x0303_0303_0303_0303));
    assert_eq!(*w.values.last().unwrap(), Word(7));
}

#[test]
fn a_second_aggregate_embeds_its_own_chips() {
    let mut builder = CircuitBuilder::new();
    let wires = MultiSigWires::new(&mut builder, SHAPE, 1);
    circuit_xmss_multisig_chip(&mut builder, SHAPE, &wires);
    circuit_xmss_multisig_chip(&mut builder, SHAPE, &wires);
    assert_eq!(builder.chips.len(), 4);
    assert!(matches!(
        builder.chips[3],
        EmbeddedChip::Nested { caller: 2, .. }
    ));
    let called: Vec<usize> = builder.calls.iter().map(|c| c.chip).collect();
    assert_eq!(called, vec![0, 2]);
}

#[test]
fn populating_takes_wires_in_any_order_and_keeps_the_last_word() {
    let mut builder = CircuitBuilder::new();
    let mut wires = MultiSigWires::new(&mut builder, SHAPE, 1);
    let message = vec![0xabu8; 32];

    // The message's wires in the opposite order.
    wires.message.reverse();
    let mut w = WitnessFiller {
        values: vec![Word(0); builder.n_wires as usize],
    };
    let mut bytes = message.clone();
    bytes[0] = 1;
    wires.populate(&mut w, &bytes, 5, &vec![signature(3, &message)]);
    assert_eq!(w.values[3], Word(0xabab_abab_abab_ab01));
    assert_eq!(w.values[0], Word(0xabab_abab_abab_abab));

    // The epoch's wire is one of the message's: the epoch is written after it.
    wires.epoch = wires.message[0];
    wires.populate(&mut w, &bytes, 5, &vec![signature(3, &message)]);
    assert_eq!(w.values[3], Word(5));
}
