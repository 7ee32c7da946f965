use binius64::hash::sha256::{
    compress256_x4, sha256_x4, ByteOrder, ParallelSha256Compression, ParallelSha256Digest,
    Sha256Compression, Sha256HashSuite, Sha256LeafHash,
};
use rand::rngs::StdRng;
use rand::{Rng, SeedableRng};
use sha2::{Digest, Sha256};

#[test]
fn test_parallel_sha256_compression_matches_adaptor() {
    let mut rng = StdRng::seed_from_u64(0);

    // Node counts crossing every regime of the grouping: tail only, one full group, a full group
    // plus a tail, and several full groups.
    for n_nodes in [1usize, 2, 3, 4, 5, 7, 8, 64] {
        let inputs: Vec<[u8; 32]> = (0..2 * n_nodes)
            .map(|_| {
                let mut digest = [0u8; 32];
                rng.fill_bytes(&mut digest);
                digest
            })
            .collect();

        let grouped = ParallelSha256Compression::default();
        let got = grouped.parallel_compress(&inputs);

        let single = Sha256Compression::default();
        let want: Vec<[u8; 32]> = inputs
            .chunks(2)
            .map(|pair| single.compress([pair[0], pair[1]]))
            .collect();

        assert_eq!(got.len(), n_nodes);
        for (i, (got_i, want_i)) in got.iter().zip(&want).enumerate() {
            assert_eq!(got_i, want_i, "mismatch at node {i} of {n_nodes}");
        }
    }
}

#[test]
fn test_parallel_sha256_matches_serial() {
    let mut rng = StdRng::seed_from_u64(0);
    // Leaf lengths are 16, 32, 48 (one block) and 64 (more than one).
    for n_items_per_input in [1usize, 2, 3, 4] {
        for n_leaves in [4usize, 48, 50] {
            let leaves: Vec<Vec<u128>> = (0..n_leaves)
                .map(|_| {
                    (0..n_items_per_input)
                        .map(|_| (rng.next_u64() as u128) << 64 | rng.next_u64() as u128)
                        .collect()
                })
                .collect();

            let digest = ParallelSha256Digest::new();
            let results = digest.digest_with_const_len(n_items_per_input, &leaves);

            assert_eq!(results.len(), n_leaves);
            for (result, leaf) in results.iter().zip(&leaves) {
                let mut bytes = Vec::new();
                for &item in leaf {
                    bytes.extend_from_slice(&item.to_le_bytes());
                }
                assert_eq!(result[..], Sha256::digest(&bytes)[..]);
            }
        }
    }
}

#[test]
fn leaves_of_any_length_are_hashed() {
    let digest = ParallelSha256Digest::new();
    let leaves: Vec<Vec<u128>> = vec![vec![], vec![1], vec![1, 2, 3, 4, 5]];
    let results = digest.digest(&leaves);
    for (result, leaf) in results.iter().zip(&leaves) {
        let mut bytes = Vec::new();
        for &item in leaf {
            bytes.extend_from_slice(&item.to_le_bytes());
        }
        assert_eq!(result[..], Sha256::digest(&bytes)[..]);
    }
}

#[test]
fn leaves_of_items_of_any_size_are_hashed() {
    let leaves: Vec<Vec<Vec<u8>>> = vec![vec![vec![7, 8, 9], vec![]], vec![]];
    let results = ParallelSha256Digest::new().digest(&leaves);
    let bytes = [3u8, 0, 0, 0, 7, 8, 9, 0, 0, 0, 0];
    assert_eq!(results[0][..], Sha256::digest(bytes)[..]);
    assert_eq!(results[1][..], Sha256::digest(b"")[..]);
    assert_eq!(results[0], Sha256LeafHash::digest(&bytes));
    let _ = Sha256HashSuite::default();
}

#[test]
fn the_digest_of_the_empty_message_is_the_known_one() {
    let empty: [Vec<u8>; 4] = [vec![], vec![], vec![], vec![]];
    let digests = sha256_x4(&empty);
    assert_eq!(
        digests[0][..8],
        [0xe3, 0xb0, 0xc4, 0x42, 0x98, 0xfc, 0x1c, 0x14]
    );
    let abc: [Vec<u8>; 4] = [
        b"abc".to_vec(),
        b"bca".to_vec(),
        b"cab".to_vec(),
        b"abc".to_vec(),
    ];
    let digests = sha256_x4(&abc);
    assert_eq!(
        digests[3][..8],
        [0xba, 0x78, 0x16, 0xbf, 0x8f, 0x01, 0xcf, 0xea]
    );
    assert_eq!(digests[0], digests[3]);
}

#[test]
fn four_long_messages_hash_at_once() {
    let message = |n: usize, k: usize| (0..n).map(|i| (7 * i + k) as u8).collect::<Vec<u8>>();
    // Lengths around the points where the padding takes another block.
    for n in [55usize, 56, 63, 64, 119, 120, 200] {
        let inputs = [message(n, 0), message(n, 1), message(n, 2), message(n, 3)];
        let digests = sha256_x4(&inputs);
        for (digest, input) in digests.iter().zip(&inputs) {
            assert_eq!(digest[..], Sha256::digest(input)[..], "length {n}");
        }
    }
}

#[test]
fn four_blocks_compress_each_on_their_own() {
    let mut states = [[1u32, 2, 3, 4, 5, 6, 7, 8]; 4];
    let mut blocks = [[0u8; 64]; 4];
    blocks[1][0] = 1;
    compress256_x4(&mut states, &blocks);
    assert_eq!(states[0], states[2]);
    assert_ne!(states[0], states[1]);
    assert_ne!(states[0], [1u32, 2, 3, 4, 5, 6, 7, 8]);
}

#[test]
fn a_compression_starts_from_the_digest_of_its_tag() {
    // The initial state is read from the digest's bytes as they lie in memory.
    let digest = Sha256::digest(b"BINIUS SHA-256 COMPRESS");
    let state = Sha256Compression::default().initial_state;
    let mut bytes = Vec::new();
    for word in state {
        bytes.extend_from_slice(&word.to_ne_bytes());
    }
    assert_eq!(bytes[..], digest[..]);
}

#[test]
fn the_byte_order_is_the_machines() {
    assert_eq!(
        ByteOrder::of_bytes(0x0102_0304, [4, 3, 2, 1]),
        Some(ByteOrder::Little)
    );
    assert_eq!(
        ByteOrder::of_bytes(0x0102_0304, [1, 2, 3, 4]),
        Some(ByteOrder::Big)
    );
    assert_eq!(ByteOrder::of_bytes(0x0102_0304, [2, 1, 4, 3]), None);
    let order = ByteOrder::native();
    assert_eq!(
        ByteOrder::of_bytes(0x0a0b_0c0d, 0x0a0b_0c0du32.to_ne_bytes()),
        Some(order)
    );
}
