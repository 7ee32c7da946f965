use binius64::utils::parallel::{once, repeat_n};
use binius64::utils::parallel_slice::ParallelSlice;
use binius64::utils::rand::{index_seed, par_rand};
use binius64::utils::serialization::{
    ByteReader, DeserializeBytes, SerializationError, SerializeBytes,
};
use rand::rngs::StdRng;
use rand::{Rng, SeedableRng};

#[test]
fn an_index_is_folded_into_the_seed() {
    let base = [0xffu8; 12];
    let seed = index_seed(&base, 0x0102_0304);
    assert_eq!(seed[..5], [0xfb, 0xfc, 0xfd, 0xfe, 0xff]);
    // The tail past an index is kept.
    assert_eq!(seed[8..], [0xff; 4]);
    // A short seed takes the low bytes alone.
    assert_eq!(index_seed(&[0, 0], 0x0001_0203), vec![3, 2]);
    assert_eq!(index_seed(&base, 0), base.to_vec());
}

#[test]
fn indices_have_seeds_of_their_own() {
    let base = [7u8; 32];
    let seeds: Vec<Vec<u8>> = (0..300).map(|i| index_seed(&base, i)).collect();
    for i in 0..seeds.len() {
        for j in 0..i {
            assert_ne!(seeds[i], seeds[j]);
        }
    }
}

#[test]
fn values_are_made_from_the_seed_of_their_index() {
    let mut rng = StdRng::seed_from_u64(5);
    let mut base = [0u8; 32];
    rng.fill_bytes(&mut base);

    let generate = |seed: Vec<u8>| {
        let mut bytes = [0u8; 32];
        bytes.copy_from_slice(&seed);
        StdRng::from_seed(bytes).next_u64()
    };
    let values = par_rand(10, &base, generate);
    assert_eq!(values.len(), 10);
    for (i, &value) in values.iter().enumerate() {
        let mut seed = base;
        for (byte, index_byte) in seed.iter_mut().zip((i as u64).to_le_bytes()) {
            *byte ^= index_byte;
        }
        assert_eq!(value, StdRng::from_seed(seed).next_u64());
    }
    assert!(par_rand(0, &base, generate).is_empty());
}

#[test]
fn single_items_are_repeated() {
    assert_eq!(once(7u8).items, vec![7]);
    assert_eq!(
        repeat_n(String::from("a"), 3).items,
        vec!["a".to_string(); 3]
    );
    assert!(repeat_n(1u8, 0).items.is_empty());
}

#[test]
fn chunks_cover_a_slice() {
    let data = [0u8, 1, 2, 3, 4, 5, 6];
    assert_eq!(
        data.par_chunks(3).items,
        vec![&[0u8, 1, 2][..], &[3, 4, 5], &[6]]
    );
    assert_eq!(
        data.par_rchunks(3).items,
        vec![&[4u8, 5, 6][..], &[1, 2, 3], &[0]]
    );
    assert_eq!(
        data.par_rchunks_exact(3).items,
        vec![&[4u8, 5, 6][..], &[1, 2, 3]]
    );
    let exact = data.par_chunks_exact(3);
    assert_eq!(exact.chunks, vec![&[0u8, 1, 2][..], &[3, 4, 5]]);
    assert_eq!(exact.remainder(), &[6]);
    assert_eq!(data.par_windows(6).items.len(), 2);
    assert_eq!(data.par_windows(6).items[1], &data[1..]);
    assert!(data.par_windows(8).items.is_empty());
    let even = [1u8, 2];
    assert_eq!(even.par_chunks(2).items.len(), 1);
    assert!(even.par_chunks_exact(2).remainder().is_empty());
}

#[test]
fn a_slice_splits_at_what_a_predicate_picks() {
    let data = [1u8, 0, 2, 3, 0, 0];
    let zero = |x: &u8| *x == 0;
    assert_eq!(
        data.par_split(zero).items,
        data.split(|x| *x == 0).collect::<Vec<_>>()
    );
    assert_eq!(
        data.par_split_inclusive(zero).items,
        data.split_inclusive(|x| *x == 0).collect::<Vec<_>>()
    );
    let empty: [u8; 0] = [];
    assert_eq!(empty.par_split(zero).items.len(), 1);
    assert!(empty.par_split_inclusive(zero).items.is_empty());
    let runs = [1u8, 1, 2, 3, 3, 3];
    assert_eq!(
        runs.par_chunk_by(|a: &u8, b: &u8| a == b).items,
        vec![&[1u8, 1][..], &[2], &[3, 3, 3]]
    );
    assert!(empty
        .par_chunk_by(|a: &u8, b: &u8| a == b)
        .items
        .is_empty());
}

#[test]
fn numbers_are_written_least_significant_byte_first() {
    let mut buf = Vec::new();
    0x0102_0304u32.serialize(&mut buf).unwrap();
    assert_eq!(buf, vec![4, 3, 2, 1]);
    vec![5u8, 6].serialize(&mut buf).unwrap();
    assert_eq!(buf[4..], [2, 0, 0, 0, 5, 6]);

    let mut reader = ByteReader::new(&buf);
    assert_eq!(u32::deserialize(&mut reader).unwrap(), 0x0102_0304);
    assert_eq!(Vec::<u8>::deserialize(&mut reader).unwrap(), vec![5, 6]);
    assert!(matches!(
        u8::deserialize(&mut reader),
        Err(SerializationError::NotEnoughBytes)
    ));
}
