use binius64::algebra::field::FieldOps;
use binius64::circuits::bytes::swap_bytes_32;
use binius64::field::ghash::BinaryField128bGhash;
use binius64::frontend::graph::{eval_gate, GateBody, GateGraph, Opcode};
use binius64::frontend::wire_set::Wire;
use binius64::recursion::channel::{
    optimal_verify_layer, AssertionName, Binius64BuilderChannel, Gadget, Input, InputKind,
    NamedAssertion,
};
use binius64::recursion::symbolic::{SymbolicElem, SymbolicWord};
use binius64::sumcheck::channel::ChannelError;
use binius64::word::Word;

type B128 = BinaryField128bGhash;

/// Evaluates the gates on given values; false where an assertion fails.
fn evaluate(graph: &GateGraph, values: &mut Vec<Word>) -> bool {
    values.resize(graph.n_wires as usize, Word(0));
    for (word, wire) in &graph.const_pool {
        values[wire.0 as usize] = *word;
    }
    let mut ok = true;
    for gate in &graph.gates {
        let inputs: Vec<Word> = gate.inputs.iter().map(|w| values[w.0 as usize]).collect();
        if let GateBody::Op(opcode) = gate.body {
            match opcode {
                Opcode::AssertEq => ok &= inputs[0] == inputs[1],
                Opcode::AssertZero => ok &= inputs[0] == Word(0),
                _ => {
                    let results = eval_gate(opcode, &inputs, &gate.imms);
                    for (wire, value) in gate.outputs.iter().zip(results) {
                        values[wire.0 as usize] = value;
                    }
                }
            }
        }
    }
    ok
}

fn value(elem: SymbolicElem, values: &[Word]) -> B128 {
    match elem {
        SymbolicElem::Constant(c) => c,
        SymbolicElem::Wires { lo, hi } => BinaryField128bGhash(
            values[lo.0 as usize].0 as u128 | (values[hi.0 as usize].0 as u128) << 64,
        ),
    }
}

fn fill(values: &mut Vec<Word>, elem: SymbolicElem, of: B128) {
    if let SymbolicElem::Wires { lo, hi } = elem {
        let top = lo.0.max(hi.0) as usize;
        if values.len() <= top {
            values.resize(top + 1, Word(0));
        }
        values[lo.0 as usize] = Word(of.0 as u64);
        values[hi.0 as usize] = Word((of.0 >> 64) as u64);
    }
}

fn fill_word(values: &mut Vec<Word>, word: SymbolicWord, of: Word) {
    if let SymbolicWord::Wire(wire) = word {
        if values.len() <= wire.0 as usize {
            values.resize(wire.0 as usize + 1, Word(0));
        }
        values[wire.0 as usize] = of;
    }
}

#[test]
fn received_and_observed_values_are_inputs_the_challenger_absorbs() {
    let mut channel = Binius64BuilderChannel::new();
    let first = channel.recv_one().unwrap();
    channel.observe_one(B128::one());
    let words = channel.observe_words(&[Word(1), Word(2), Word(3)]);
    assert_eq!(words.len(), 3);

    let recorded = channel.build();
    let kinds: Vec<InputKind> = recorded.inputs.iter().map(|i| i.kind).collect();
    assert_eq!(
        kinds,
        vec![
            InputKind::RecvOne,
            InputKind::RecvOne,
            InputKind::ObserveOne,
            InputKind::ObserveOne,
            InputKind::ObserveWords,
            InputKind::ObserveWords,
            InputKind::ObserveWords,
        ]
    );
    let absorbed: Vec<usize> = recorded
        .gadgets
        .iter()
        .map(|g| match g {
            Gadget::Absorb { words } => words.len(),
            _ => panic!("only absorbing was asked for"),
        })
        .collect();
    assert_eq!(absorbed, vec![2, 2, 3]);
    assert_eq!(
        first,
        SymbolicElem::Wires {
            lo: recorded.inputs[0].wire,
            hi: recorded.inputs[1].wire
        }
    );
}

#[test]
fn samples_are_drawn_in_order_and_record_no_input() {
    let mut channel = Binius64BuilderChannel::default();
    let one = channel.sample();
    let bits = channel.sample_bits(11);
    let two = channel.sample();
    assert_ne!(one, two);
    let recorded = channel.build();
    assert!(
        recorded.inputs.is_empty(),
        "a derived index records nothing for a replay to fill"
    );
    assert!(matches!(recorded.gadgets[0], Gadget::SampleElement { .. }));
    match &recorded.gadgets[1] {
        Gadget::SampleBits { bits: n, draw, wire } => {
            assert_eq!(*n, 11);
            assert_ne!(draw, wire);
            assert_eq!(bits, SymbolicWord::Wire(*wire));
        }
        _ => panic!("the second draw is of bits"),
    }
    assert!(matches!(recorded.gadgets[2], Gadget::SampleElement { .. }));
}

#[test]
fn a_sampled_index_fits_its_width() {
    // Widths where the mask drops bits, one that needs no mask, and one that clamps to 32.
    let widths = [0usize, 1, 3, 7, 8, 11, 16, 31, 32, 33];
    let mut channel = Binius64BuilderChannel::new();
    let sampled: Vec<SymbolicWord> = widths.iter().map(|&bits| channel.sample_bits(bits)).collect();
    let recorded = channel.build();
    assert!(recorded.inputs.is_empty());

    for seen in [Word(0x8765_4321), Word(u64::MAX)] {
        let mut values = Vec::new();
        for gadget in &recorded.gadgets {
            if let Gadget::SampleBits { draw, .. } = gadget {
                fill_word(&mut values, SymbolicWord::Wire(*draw), seen);
            }
        }
        assert!(evaluate(&recorded.circuit, &mut values));
        for (&bits, word) in widths.iter().zip(&sampled) {
            let SymbolicWord::Wire(wire) = word else {
                panic!("a sampled index is on a wire");
            };
            let mask = (1u64 << bits.min(32)) - 1;
            assert_eq!(values[wire.0 as usize], Word(seen.0 & mask), "{bits} bits");
        }
    }
}

#[test]
fn a_known_element_is_decided_while_the_circuit_is_built() {
    let mut channel = Binius64BuilderChannel::new();
    assert_eq!(
        channel.assert_zero(SymbolicElem::Constant(B128::zero())),
        Ok(())
    );
    assert_eq!(
        channel.assert_zero(SymbolicElem::Constant(B128::one())),
        Err(ChannelError::InvalidAssert)
    );
    assert_eq!(channel.n_assertions, 0);

    let elem = channel.recv_one().unwrap();
    assert_eq!(channel.assert_zero(elem), Ok(()));
    assert_eq!(channel.n_assertions, 1);
    let graph = channel.build().circuit;
    let mut values = Vec::new();
    assert!(evaluate(&graph, &mut values));
    fill(&mut values, elem, BinaryField128bGhash(1 << 64));
    assert!(!evaluate(&graph, &mut values));
}

#[test]
fn a_public_input_that_disagrees_is_rejected() {
    let mut channel = Binius64BuilderChannel::new();
    let mut words = channel.observe_words(&[Word(0); 2]);
    words.push(SymbolicWord::Constant(Word(5)));
    let public = channel.bind_public(&words);
    assert_eq!(public.len(), 3);
    assert_eq!(channel.n_public, 3);
    let recorded = channel.build();
    assert_eq!(recorded.public, public);

    let mut values = Vec::new();
    fill_word(&mut values, words[0], Word(10));
    fill_word(&mut values, words[1], Word(20));
    for (wire, word) in public.iter().zip([10, 20, 5]) {
        fill_word(&mut values, SymbolicWord::Wire(*wire), Word(word));
    }
    assert!(evaluate(&recorded.circuit, &mut values));
    values[public[1].0 as usize] = Word(21);
    assert!(!evaluate(&recorded.circuit, &mut values));
}

#[test]
fn assertions_carry_their_names() {
    let mut channel = Binius64BuilderChannel::new();
    let first = channel.recv_one().unwrap();
    let second = channel.recv_one().unwrap();
    let words = channel.observe_words(&[Word(0); 3]);
    channel.assert_zero(first).unwrap();
    let mut public = channel.bind_public(&words[..2]);
    // An element decided while the circuit is built takes no number.
    channel.assert_zero(SymbolicElem::Constant(B128::zero())).unwrap();
    channel.assert_zero(second).unwrap();
    public.extend(channel.bind_public(&words[2..]));

    let recorded = channel.build();
    let names: Vec<AssertionName> = recorded.assertions.iter().map(|a| a.name).collect();
    assert_eq!(
        names,
        vec![
            AssertionName::ZeroLow { number: 0 },
            AssertionName::ZeroHigh { number: 0 },
            AssertionName::BindPublic { number: 0 },
            AssertionName::BindPublic { number: 1 },
            AssertionName::ZeroLow { number: 1 },
            AssertionName::ZeroHigh { number: 1 },
            AssertionName::BindPublic { number: 2 },
        ]
    );
    // Each name stands at the assertion it is for.
    for NamedAssertion { name, gate } in &recorded.assertions {
        let gate = &recorded.circuit.gates[*gate];
        match name {
            AssertionName::ZeroLow { number } | AssertionName::ZeroHigh { number } => {
                assert_eq!(gate.body, GateBody::Op(Opcode::AssertZero));
                let SymbolicElem::Wires { lo, hi } = [first, second][*number] else {
                    panic!("received elements are on wires");
                };
                let low = matches!(name, AssertionName::ZeroLow { .. });
                assert_eq!(gate.inputs, vec![if low { lo } else { hi }]);
            }
            AssertionName::BindPublic { number } => {
                assert_eq!(gate.body, GateBody::Op(Opcode::AssertEq));
                assert_eq!(SymbolicWord::Wire(gate.inputs[0]), words[*number]);
                assert_eq!(gate.inputs[1], public[*number]);
            }
        }
    }
}

#[test]
fn a_known_word_adds_no_selection() {
    let mut channel = Binius64BuilderChannel::new();
    let elems: Vec<SymbolicElem> = (0..4).map(|_| channel.recv_one().unwrap()).collect();
    let known = SymbolicWord::Constant(Word(0b1010));

    assert_eq!(channel.select(&elems, &known), elems[2]);
    assert_eq!(channel.graph.gates.len(), 0);

    // One element taken is handed back, and two are added half by half.
    let one = channel.subset_sum(&elems, &SymbolicWord::Constant(Word(0b0100)));
    assert_eq!(one, elems[2]);
    assert_eq!(channel.graph.gates.len(), 0);
    channel.subset_sum(&elems, &known);
    let bodies: Vec<GateBody> = channel.graph.gates.iter().map(|g| g.body).collect();
    assert_eq!(bodies, vec![GateBody::Op(Opcode::Bxor); 2]);

    let wires = channel.observe_words(&[Word(0); 3]);
    channel.pack_words(&wires);
    assert_eq!(channel.graph.gates.len(), 2);
}

#[test]
fn a_words_bits_select_what_is_summed() {
    let mut channel = Binius64BuilderChannel::new();
    let elems: Vec<SymbolicElem> = vec![
        channel.recv_one().unwrap(),
        SymbolicElem::Constant(BinaryField128bGhash(0x700)),
        channel.recv_one().unwrap(),
    ];
    let word = channel.observe_words(&[Word(0)])[0];
    let on_wires = channel.subset_sum(&elems, &word);
    let known = channel.subset_sum(&elems, &SymbolicWord::Constant(Word(0b110)));
    let graph = channel.build().circuit;

    let mut values = Vec::new();
    fill(&mut values, elems[0], BinaryField128bGhash(1 << 100));
    fill(&mut values, elems[2], BinaryField128bGhash(3));
    for bits in 0..8u64 {
        fill_word(&mut values, word, Word(bits | 1 << 40));
        assert!(evaluate(&graph, &mut values));
        let mut want = 0;
        for (i, term) in [1u128 << 100, 0x700, 3].into_iter().enumerate() {
            if (bits >> i) & 1 == 1 {
                want ^= term;
            }
        }
        assert_eq!(value(on_wires, &values).0, want);
        assert_eq!(value(known, &values).0, 0x703);
    }
}

#[test]
fn an_index_selects_one_element() {
    let mut channel = Binius64BuilderChannel::new();
    let elems: Vec<SymbolicElem> = (0..8u128)
        .map(|i| SymbolicElem::Constant(BinaryField128bGhash(i * i + 1 << 60)))
        .collect();
    let word = channel.observe_words(&[Word(0)])[0];
    let on_wires = channel.select(&elems, &word);
    let known = channel.select(&elems, &SymbolicWord::Constant(Word(6)));
    assert_eq!(known, elems[6]);
    let single = channel.select(&elems[..1], &word);
    let graph = channel.build().circuit;

    let mut values = Vec::new();
    for i in 0..8u64 {
        fill_word(&mut values, word, Word(i + 8 * 1000));
        assert!(evaluate(&graph, &mut values));
        assert_eq!(
            SymbolicElem::Constant(value(on_wires, &values)),
            elems[i as usize]
        );
        assert_eq!(SymbolicElem::Constant(value(single, &values)), elems[0]);
    }
}

#[test]
fn words_pack_low_half_first() {
    let mut channel = Binius64BuilderChannel::new();
    let words = vec![
        SymbolicWord::Constant(Word(1)),
        SymbolicWord::Constant(Word(2)),
        SymbolicWord::Constant(Word(3)),
    ];
    let packed = channel.pack_words(&words);
    assert_eq!(packed.len(), 2);
    let graph = channel.build().circuit;
    let mut values = Vec::new();
    assert!(evaluate(&graph, &mut values));
    assert_eq!(value(packed[0], &values).0, 1 | 2 << 64);
    assert_eq!(value(packed[1], &values).0, 3);
}

#[test]
fn a_root_is_absorbed_with_its_bytes_reversed() {
    let mut channel = Binius64BuilderChannel::new();
    let commitment = channel.recv_merkle_commitment(4, 3).unwrap();
    assert_eq!((commitment.leaf_size, commitment.depth), (4, 3));
    // The constant comes first, and then the root's own wires.
    assert_eq!(commitment.root, [1, 2, 3, 4].map(Wire));
    let recorded = channel.build();
    assert_eq!(
        recorded.inputs,
        commitment
            .root
            .map(|wire| Input {
                kind: InputKind::MerkleRoot,
                wire
            })
            .to_vec()
    );
    let words = match &recorded.gadgets[0] {
        Gadget::Absorb { words } => words.clone(),
        _ => panic!("a root is absorbed"),
    };
    let mut values = Vec::new();
    for wire in commitment.root {
        fill_word(
            &mut values,
            SymbolicWord::Wire(wire),
            Word(0x0102_0304_0506_0708),
        );
    }
    assert!(evaluate(&recorded.circuit, &mut values));
    for word in words {
        assert_eq!(values[word.0 as usize], Word(0x0403_0201_0807_0605));
    }
}

#[test]
fn bytes_swap_within_each_half() {
    let mut graph = GateGraph::new();
    let x = graph.add_wire();
    let y = swap_bytes_32(&mut graph, x);
    let z = swap_bytes_32(&mut graph, y);
    let mut values = Vec::new();
    fill_word(
        &mut values,
        SymbolicWord::Wire(x),
        Word(0xdead_beef_0011_2233),
    );
    assert!(evaluate(&graph, &mut values));
    assert_eq!(values[y.0 as usize], Word(0xefbe_adde_3322_1100));
    assert_eq!(values[z.0 as usize], Word(0xdead_beef_0011_2233));
}

#[test]
fn openings_share_one_layer() {
    let mut channel = Binius64BuilderChannel::new();
    let commitment = channel.recv_merkle_commitment(2, 5).unwrap();
    let indices = vec![
        channel.sample_bits(5),
        channel.sample_bits(5),
        SymbolicWord::Constant(Word(9)),
    ];
    let before = channel.gadgets.len();
    let n_inputs = channel.inputs.len();
    let n_wires = channel.graph.n_wires;
    let values = channel.recv_openings(&commitment, &indices).unwrap();
    assert_eq!(values.len(), 6);
    assert_eq!(channel.n_merkle_checks, 4);

    // Three queries stop at the layer of four entries, two levels down.
    match &channel.gadgets[before] {
        Gadget::Layer { check, root, layer } => {
            assert_eq!(*check, 0);
            assert_eq!(*root, commitment.root);
            assert_eq!(layer.len(), 4);
        }
        _ => panic!("a layer comes first"),
    }
    for (q, gadget) in channel.gadgets[before + 1..].iter().enumerate() {
        match gadget {
            Gadget::Opening {
                check,
                layer_check,
                leaf,
                layer_depth,
                tree_depth,
                branch,
                ..
            } => {
                assert_eq!((*check, *layer_check), (q + 1, 0));
                assert_eq!((*layer_depth, *tree_depth), (2, 5));
                assert_eq!(branch.len(), 3);
                for (e, element) in leaf.iter().enumerate() {
                    assert_eq!(
                        values[2 * q + e],
                        SymbolicElem::Wires {
                            lo: element[0],
                            hi: element[1]
                        }
                    );
                }
            }
            _ => panic!("openings follow"),
        }
    }
    // Sixteen wires of the layer, then four of a leaf and twelve of a branch each.
    let kinds: Vec<InputKind> = channel.inputs[n_inputs..].iter().map(|i| i.kind).collect();
    let mut expected = vec![InputKind::MerkleLayer; 16];
    for _ in 0..3 {
        expected.extend([InputKind::Opening; 4]);
        expected.extend([InputKind::MerkleBranch; 12]);
    }
    assert_eq!(kinds, expected);

    // Every one of them is new, and none comes twice.
    let wires: Vec<u32> = channel.inputs[n_inputs..].iter().map(|i| i.wire.0).collect();
    assert!(wires[0] >= n_wires);
    assert!(wires.windows(2).all(|w| w[0] < w[1]));
    assert_eq!(wires[..16], (n_wires..n_wires + 16).collect::<Vec<_>>()[..]);
}

#[test]
fn a_deep_tree_can_be_opened() {
    // A tree too deep for all of its digests to have wires.
    let mut channel = Binius64BuilderChannel::new();
    let commitment = channel.recv_merkle_commitment(1, 40).unwrap();
    let index = channel.sample_bits(40);
    assert_eq!(channel.recv_openings(&commitment, &[index]).unwrap().len(), 1);
    match channel.gadgets.last().unwrap() {
        Gadget::Opening { branch, .. } => assert_eq!(branch.len(), 40),
        _ => panic!("the opening comes last"),
    }
}

#[test]
fn a_committed_vector_rebuilds_its_tree() {
    let mut channel = Binius64BuilderChannel::new();
    let commitment = channel.recv_merkle_commitment(3, 2).unwrap();
    let n_wires = channel.graph.n_wires;
    let values = channel.recv_committed_vector(&commitment).unwrap();
    assert_eq!(values.len(), 12);
    for (i, value) in values.iter().enumerate() {
        let lo = n_wires + 2 * i as u32;
        assert_eq!(
            *value,
            SymbolicElem::Wires {
                lo: Wire(lo),
                hi: Wire(lo + 1)
            }
        );
    }
    match channel.gadgets.last().unwrap() {
        Gadget::Vector {
            check,
            root,
            data,
            leaf_size,
        } => {
            assert_eq!(*check, 0);
            assert_eq!(*root, commitment.root);
            assert_eq!(data.len(), 12);
            assert_eq!(*leaf_size, 3);
        }
        _ => panic!("the vector is checked last"),
    }
    assert_eq!(
        channel.inputs.last().unwrap().kind,
        InputKind::CommittedVector
    );
}

#[test]
fn climbs_stop_at_as_many_entries_as_queries() {
    assert_eq!(optimal_verify_layer(0, 5), 0);
    assert_eq!(optimal_verify_layer(1, 5), 0);
    assert_eq!(optimal_verify_layer(3, 5), 2);
    assert_eq!(optimal_verify_layer(4, 5), 2);
    assert_eq!(optimal_verify_layer(100, 5), 5);
}

#[test]
fn a_wire_is_its_number() {
    assert_eq!(Wire(3), Wire(3));
    assert_ne!(Wire(3), Wire(4));
}
