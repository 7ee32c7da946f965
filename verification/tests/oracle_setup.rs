use binius64::algebra::field::{Field, FieldOps};
use binius64::field::ghash::BinaryField128bGhash;
use binius64::iop::oracle_setup::{DummyElem, OracleSetupChannel, OracleSpec};
use binius64::word::Word;

type F = BinaryField128bGhash;

#[test]
fn received_oracles_are_recorded_in_order() {
    let mut channel = OracleSetupChannel::new(true);
    channel.recv_oracle(5, true).unwrap();
    channel.recv_oracle(7, false).unwrap();
    assert_eq!(
        channel.oracle_specs(),
        &[
            OracleSpec {
                log_msg_len: 5,
                is_zk: true
            },
            OracleSpec {
                log_msg_len: 7,
                is_zk: false
            },
        ]
    );
    assert!(channel.remaining_oracle_specs().is_empty());
    assert_eq!(channel.into_oracle_specs().len(), 2);
}

#[test]
fn a_protocol_that_hides_nothing_marks_no_oracle() {
    let mut channel = OracleSetupChannel::default();
    channel.recv_oracle(5, true).unwrap();
    assert!(!channel.oracle_specs()[0].is_zk);
}

#[test]
fn everything_else_is_a_dummy() {
    let mut channel = OracleSetupChannel::new(false);
    assert!(channel.recv_one::<F>().is_ok());
    assert_eq!(channel.recv_many::<F>(3).unwrap().len(), 3);
    assert_eq!(channel.recv_array::<F, 2>().unwrap().len(), 2);
    assert_eq!(channel.observe_many(&[F::one(); 4]).len(), 4);
    let elem = channel.sample::<F>();
    assert!(channel.assert_zero(elem).is_ok());
    channel.observe_one(F::one());
    assert_eq!(channel.observe_words(&[Word(3), Word(4)]), vec![Word(3), Word(4)]);
    assert_eq!(channel.sample_bits(9), Word::zero());
    channel.subset_sum(&[elem], &Word(1));
    channel.select(&[elem], &Word(0));
    assert!(channel
        .verify_oracle_relation((), |x: u8| x, elem)
        .is_ok());
    assert!(channel.oracle_specs().is_empty());
}

#[test]
fn words_pack_two_an_element() {
    let mut channel = OracleSetupChannel::new(false);
    assert_eq!(channel.pack_words::<F>(&[Word(0); 4]).len(), 2);
    assert_eq!(channel.pack_words::<F>(&[Word(0); 5]).len(), 3);
    assert_eq!(channel.pack_words::<F>(&[]).len(), 0);
}

#[test]
fn dummy_arithmetic_does_nothing() {
    let a = DummyElem::<F>::zero();
    let b = DummyElem::<F>::one();
    let _ = a.add(b).mul(a).square().invert_or_zero();
    let wide = DummyElem::<F>::wide_add(DummyElem::<F>::wide_mul(a, b), DummyElem::<F>::wide_zero());
    let _ = DummyElem::<F>::reduce(wide);
}
