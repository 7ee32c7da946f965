//! Blocks whose chaining values are known.

use crate::hash::blake3_neon::{
    compressed, initial_state, mixed, permuted_schedule, rotated, round_of, rounds_of, schedule,
    wadd,
};
use vstd::prelude::*;

verus! {

/// Four words, four times over.
type Quads = (
    (u32, u32, u32, u32),
    (u32, u32, u32, u32),
    (u32, u32, u32, u32),
    (u32, u32, u32, u32),
);

/// Whether a sequence is sixteen given words.
spec fn is_words(v: Seq<u32>, w: Quads) -> bool {
    &&& v.len() == 16
    &&& v[0] == w.0.0 && v[1] == w.0.1 && v[2] == w.0.2 && v[3] == w.0.3
    &&& v[4] == w.1.0 && v[5] == w.1.1 && v[6] == w.1.2 && v[7] == w.1.3
    &&& v[8] == w.2.0 && v[9] == w.2.1 && v[10] == w.2.2 && v[11] == w.2.3
    &&& v[12] == w.3.0 && v[13] == w.3.1 && v[14] == w.3.2 && v[15] == w.3.3
}

/// Whether the state before a round, and its message schedule, are given words.
#[verifier::opaque]
spec fn reached(v: Seq<u32>, m: Seq<u32>, r: nat, state: Quads, words: Quads) -> bool {
    is_words(rounds_of(v, m, r), state) && is_words(schedule(m, r), words)
}

/// The eight words that one mixing step assigns: those of the first half, then of the second.
#[verifier::opaque]
spec fn steps(
    a: u32,
    b: u32,
    c: u32,
    d: u32,
    x: u32,
    y: u32,
    a1: u32,
    b1: u32,
    c1: u32,
    d1: u32,
    a2: u32,
    b2: u32,
    c2: u32,
    d2: u32,
) -> bool {
    &&& wadd(wadd(a, b), x) == a1
    &&& rotated(d ^ a1, 16) == d1
    &&& wadd(c, d1) == c1
    &&& rotated(b ^ c1, 12) == b1
    &&& wadd(wadd(a1, b1), y) == a2
    &&& rotated(d1 ^ a2, 8) == d2
    &&& wadd(c1, d2) == c2
    &&& rotated(b1 ^ c2, 7) == b2
}

/// A mixing step gives the last four of the words it assigns, and keeps the others.
proof fn lemma_mixed(
    v: Seq<u32>,
    at: (int, int, int, int),
    words: (u32, u32),
    first: (u32, u32, u32, u32),
    second: (u32, u32, u32, u32),
)
    requires
        v.len() == 16,
        0 <= at.0 < at.1 < 16,
        0 <= at.2 < 16,
        0 <= at.3 < 16,
        at.0 != at.2,
        at.0 != at.3,
        at.1 != at.2,
        at.1 != at.3,
        at.2 != at.3,
        steps(
            v[at.0], v[at.1], v[at.2], v[at.3], words.0, words.1,
            first.0, first.1, first.2, first.3,
            second.0, second.1, second.2, second.3,
        ),
    ensures
        mixed(v, at.0, at.1, at.2, at.3, words.0, words.1) == v.update(at.0, second.0).update(
            at.1,
            second.1,
        ).update(at.2, second.2).update(at.3, second.3),
{
    reveal(steps);
    let r = mixed(v, at.0, at.1, at.2, at.3, words.0, words.1);
    assert(r =~= v.update(at.0, second.0).update(at.1, second.1).update(at.2, second.2).update(
        at.3,
        second.3,
    ));
}

/// A round is four columns and then four diagonals, each one mixing step.
#[verifier::spinoff_prover]
#[verifier::rlimit(60)]
proof fn lemma_round(
    v: Seq<u32>,
    m: Seq<u32>,
    from: Quads,
    words: Quads,
    column_first: Quads,
    column_second: Quads,
    diagonal_first: Quads,
    diagonal_second: Quads,
)
    requires
        is_words(v, from),
        is_words(m, words),
        steps(
            from.0.0, from.1.0, from.2.0, from.3.0, words.0.0, words.0.1,
            column_first.0.0, column_first.0.1, column_first.0.2, column_first.0.3,
            column_second.0.0, column_second.0.1, column_second.0.2, column_second.0.3,
        ),
        steps(
            from.0.1, from.1.1, from.2.1, from.3.1, words.0.2, words.0.3,
            column_first.1.0, column_first.1.1, column_first.1.2, column_first.1.3,
            column_second.1.0, column_second.1.1, column_second.1.2, column_second.1.3,
        ),
        steps(
            from.0.2, from.1.2, from.2.2, from.3.2, words.1.0, words.1.1,
            column_first.2.0, column_first.2.1, column_first.2.2, column_first.2.3,
            column_second.2.0, column_second.2.1, column_second.2.2, column_second.2.3,
        ),
        steps(
            from.0.3, from.1.3, from.2.3, from.3.3, words.1.2, words.1.3,
            column_first.3.0, column_first.3.1, column_first.3.2, column_first.3.3,
            column_second.3.0, column_second.3.1, column_second.3.2, column_second.3.3,
        ),
        steps(
            column_second.0.0, column_second.1.1, column_second.2.2, column_second.3.3,
            words.2.0, words.2.1,
            diagonal_first.0.0, diagonal_first.0.1, diagonal_first.0.2, diagonal_first.0.3,
            diagonal_second.0.0, diagonal_second.0.1, diagonal_second.0.2, diagonal_second.0.3,
        ),
        steps(
            column_second.1.0, column_second.2.1, column_second.3.2, column_second.0.3,
            words.2.2, words.2.3,
            diagonal_first.1.0, diagonal_first.1.1, diagonal_first.1.2, diagonal_first.1.3,
            diagonal_second.1.0, diagonal_second.1.1, diagonal_second.1.2, diagonal_second.1.3,
        ),
        steps(
            column_second.2.0, column_second.3.1, column_second.0.2, column_second.1.3,
            words.3.0, words.3.1,
            diagonal_first.2.0, diagonal_first.2.1, diagonal_first.2.2, diagonal_first.2.3,
            diagonal_second.2.0, diagonal_second.2.1, diagonal_second.2.2, diagonal_second.2.3,
        ),
        steps(
            column_second.3.0, column_second.0.1, column_second.1.2, column_second.2.3,
            words.3.2, words.3.3,
            diagonal_first.3.0, diagonal_first.3.1, diagonal_first.3.2, diagonal_first.3.3,
            diagonal_second.3.0, diagonal_second.3.1, diagonal_second.3.2, diagonal_second.3.3,
        ),
    ensures
        is_words(
            round_of(v, m),
            (
                (diagonal_second.0.0, diagonal_second.1.0, diagonal_second.2.0, diagonal_second.3.0),
                (diagonal_second.3.1, diagonal_second.0.1, diagonal_second.1.1, diagonal_second.2.1),
                (diagonal_second.2.2, diagonal_second.3.2, diagonal_second.0.2, diagonal_second.1.2),
                (diagonal_second.1.3, diagonal_second.2.3, diagonal_second.3.3, diagonal_second.0.3),
            ),
        ),
{
    lemma_mixed(
        v,
        (0, 4, 8, 12),
        (m[0], m[1]),
        column_first.0,
        column_second.0,
    );
    let v1 = v.update(0, column_second.0.0).update(4, column_second.0.1).update(
        8,
        column_second.0.2,
    ).update(12, column_second.0.3);
    lemma_mixed(
        v1,
        (1, 5, 9, 13),
        (m[2], m[3]),
        column_first.1,
        column_second.1,
    );
    let v2 = v1.update(1, column_second.1.0).update(5, column_second.1.1).update(
        9,
        column_second.1.2,
    ).update(13, column_second.1.3);
    lemma_mixed(
        v2,
        (2, 6, 10, 14),
        (m[4], m[5]),
        column_first.2,
        column_second.2,
    );
    let v3 = v2.update(2, column_second.2.0).update(6, column_second.2.1).update(
        10,
        column_second.2.2,
    ).update(14, column_second.2.3);
    lemma_mixed(
        v3,
        (3, 7, 11, 15),
        (m[6], m[7]),
        column_first.3,
        column_second.3,
    );
    let v4 = v3.update(3, column_second.3.0).update(7, column_second.3.1).update(
        11,
        column_second.3.2,
    ).update(15, column_second.3.3);
    lemma_mixed(
        v4,
        (0, 5, 10, 15),
        (m[8], m[9]),
        diagonal_first.0,
        diagonal_second.0,
    );
    let v5 = v4.update(0, diagonal_second.0.0).update(5, diagonal_second.0.1).update(
        10,
        diagonal_second.0.2,
    ).update(15, diagonal_second.0.3);
    lemma_mixed(
        v5,
        (1, 6, 11, 12),
        (m[10], m[11]),
        diagonal_first.1,
        diagonal_second.1,
    );
    let v6 = v5.update(1, diagonal_second.1.0).update(6, diagonal_second.1.1).update(
        11,
        diagonal_second.1.2,
    ).update(12, diagonal_second.1.3);
    lemma_mixed(
        v6,
        (2, 7, 8, 13),
        (m[12], m[13]),
        diagonal_first.2,
        diagonal_second.2,
    );
    let v7 = v6.update(2, diagonal_second.2.0).update(7, diagonal_second.2.1).update(
        8,
        diagonal_second.2.2,
    ).update(13, diagonal_second.2.3);
    lemma_mixed(
        v7,
        (3, 4, 9, 14),
        (m[14], m[15]),
        diagonal_first.3,
        diagonal_second.3,
    );
    let v8 = v7.update(3, diagonal_second.3.0).update(4, diagonal_second.3.1).update(
        9,
        diagonal_second.3.2,
    ).update(14, diagonal_second.3.3);
}

/// Before the first round stand the block's own state and words.
proof fn lemma_start(v: Seq<u32>, m: Seq<u32>, state: Quads, words: Quads)
    requires
        is_words(v, state),
        is_words(m, words),
    ensures
        reached(v, m, 0, state, words),
{
    reveal(reached);
}

/// A chaining value is the two halves of the last state, exclusive-ored.
proof fn lemma_end(
    cv: Seq<u32>,
    m: Seq<u32>,
    counter: u64,
    block_len: u32,
    flags: u32,
    state: Quads,
    words: Quads,
)
    requires
        reached(initial_state(cv, counter, block_len, flags), m, 7, state, words),
    ensures
        compressed(cv, m, counter, block_len, flags) == seq![
            state.0.0 ^ state.2.0,
            state.0.1 ^ state.2.1,
            state.0.2 ^ state.2.2,
            state.0.3 ^ state.2.3,
            state.1.0 ^ state.3.0,
            state.1.1 ^ state.3.1,
            state.1.2 ^ state.3.2,
            state.1.3 ^ state.3.3,
        ],
{
    reveal(reached);
    assert(compressed(cv, m, counter, block_len, flags) =~= seq![
        state.0.0 ^ state.2.0,
        state.0.1 ^ state.2.1,
        state.0.2 ^ state.2.2,
        state.0.3 ^ state.2.3,
        state.1.0 ^ state.3.0,
        state.1.1 ^ state.3.1,
        state.1.2 ^ state.3.2,
        state.1.3 ^ state.3.3,
    ]);
}

/// One more round.
proof fn lemma_next_round(v: Seq<u32>, m: Seq<u32>, r: nat)
    ensures
        rounds_of(v, m, r + 1) == round_of(rounds_of(v, m, r), schedule(m, r)),
        schedule(m, r + 1) == permuted_schedule(schedule(m, r)),
{
}

/// The mixing steps of that block, and the halves of its last state.
proof fn lemma_abc_steps()
    by (bit_vector)
    ensures
        steps(
            0x6a09e667, 0x510e527f, 0x6a09e667, 0x00000000,
            0x00636261, 0x00000000, 0xbb7b9b47, 0x39d545ff,
            0x0551a1e2, 0x9b47bb7b, 0xf550e146, 0x86f6d5f9,
            0x42bfb93c, 0x3d6e175a,
        ),
        steps(
            0xbb67ae85, 0x9b05688c, 0xbb67ae85, 0x00000000,
            0x00000000, 0x00000000, 0x566d1711, 0xc7e497c6,
            0xd27904f2, 0x1711566d, 0x1e51aed7, 0x5896cda4,
            0x8c8245ea, 0xba0940f8,
        ),
        steps(
            0x3c6ef372, 0x1f83d9ab, 0x3c6ef372, 0x00000003,
            0x00000000, 0x00000000, 0x5bf2cd1d, 0x6cf160e9,
            0x098d4f64, 0xcd1e5bf2, 0xc8e42e06, 0x6122c452,
            0xfd9349d9, 0xf405fa75,
        ),
        steps(
            0xa54ff53a, 0x5be0cd19, 0xa54ff53a, 0x0000000b,
            0x00000000, 0x00000000, 0x0130c253, 0xb733c473,
            0x67a7f66a, 0xc2580130, 0xb86486c6, 0x05d223ed,
            0x5e2232f1, 0xf67a3c87,
        ),
        steps(
            0xf550e146, 0x5896cda4, 0xfd9349d9, 0xf67a3c87,
            0x00000000, 0x00000000, 0x4de7aeea, 0x8d2c897c,
            0x90010576, 0x926dbb9d, 0xdb143866, 0x0a0ccdef,
            0x8b4a7ef9, 0xfb497983,
        ),
        steps(
            0x1e51aed7, 0x6122c452, 0x5e2232f1, 0x3d6e175a,
            0x00000000, 0x00000000, 0x7f747329, 0x159a3b7b,
            0xc295750b, 0x6473421a, 0x950eaea4, 0x19283993,
            0x8186f2f7, 0xbef17dec,
        ),
        steps(
            0xc8e42e06, 0x05d223ed, 0x42bfb93c, 0xba0940f8,
            0x00000000, 0x00000000, 0xceb651f3, 0xe1656190,
            0x53cb2dfb, 0x110b74bf, 0xb01bb383, 0xa4e212be,
            0x906c3ec2, 0x3ca110c7,
        ),
        steps(
            0xb86486c6, 0x86f6d5f9, 0x8c8245ea, 0xf405fa75,
            0x00000000, 0x00000000, 0x3f5b5cbf, 0x4b1b5bbc,
            0x334d1148, 0xa6cacb5e, 0x8a76b87b, 0x0e26c52c,
            0x5879cdbb, 0x252cbc73,
        ),
        steps(
            0xdb143866, 0x0e26c52c, 0x906c3ec2, 0xbef17dec,
            0x00000000, 0x00000000, 0xe93afd92, 0x3a11ecc5,
            0x10ea968d, 0x807e57cb, 0x234cea57, 0x1f2f384b,
            0xad8dc94a, 0x9ca332bd,
        ),
        steps(
            0x950eaea4, 0x0a0ccdef, 0x5879cdbb, 0x3ca110c7,
            0x00000000, 0x00000000, 0x9f1b7c93, 0xc9acec2b,
            0xc4ce7175, 0x6c54a3ba, 0x68c868be, 0xd602ffc4,
            0xc8d30e40, 0x04049ccb,
        ),
        steps(
            0xb01bb383, 0x19283993, 0x8b4a7ef9, 0x252cbc73,
            0x00000000, 0x00636261, 0xc943ed16, 0x2fbc5985,
            0xdcb06b68, 0x5165ec6f, 0xf963a8fc, 0x52bfc850,
            0x705871ac, 0x93a80644,
        ),
        steps(
            0x8a76b87b, 0xa4e212be, 0x8186f2f7, 0xfb497983,
            0x00000000, 0x00000000, 0x2f58cb39, 0x5b690a3d,
            0x3441c708, 0xb2bad411, 0x8ac1d576, 0x69802690,
            0x9b7a4209, 0x67387b01,
        ),
        steps(
            0x234cea57, 0xd602ffc4, 0x705871ac, 0x67387b01,
            0x00000000, 0x00000000, 0xf94fea1b, 0xfe7d771e,
            0x01731023, 0x911a9e77, 0xf7cd6139, 0x7963493e,
            0x4fd9e822, 0x4e66d7ff,
        ),
        steps(
            0x68c868be, 0x52bfc850, 0x9b7a4209, 0x9ca332bd,
            0x00000000, 0x00000000, 0xbb88310e, 0x164cd92a,
            0x9f2d6934, 0x03b3272b, 0xd1d50a38, 0x9749662c,
            0xb2ffcf61, 0x13d2662d,
        ),
        steps(
            0xf963a8fc, 0x69802690, 0xad8dc94a, 0x04049ccb,
            0x00000000, 0x00000000, 0x62e3cf8c, 0x6a169551,
            0x00d53031, 0x534766e7, 0xccfa64dd, 0xc4a2c4f0,
            0x3b74ed33, 0x3a9fbd02,
        ),
        steps(
            0x8ac1d576, 0x1f2f384b, 0xc8d30e40, 0x93a80644,
            0x00000000, 0x00000000, 0xa9f10dc1, 0x0d2cb777,
            0xd4584899, 0x0b853a59, 0xb71dc538, 0xde7670ad,
            0x3614e198, 0x61bc98ff,
        ),
        steps(
            0xf7cd6139, 0xde7670ad, 0x3b74ed33, 0x13d2662d,
            0x00000000, 0x00000000, 0xd643d1e6, 0x2692d36c,
            0xf340b2c4, 0xb7cbc591, 0xfcd6a552, 0x91203206,
            0xb68bd024, 0xc34b1d60,
        ),
        steps(
            0xd1d50a38, 0x7963493e, 0x3614e198, 0x3a9fbd02,
            0x00000000, 0x00000000, 0x4b385376, 0xa015dea1,
            0x2489533f, 0xee7471a7, 0xeb4e3217, 0x46e936a6,
            0xd48e8d82, 0xb0053a43,
        ),
        steps(
            0xccfa64dd, 0x9749662c, 0x4fd9e822, 0x61bc98ff,
            0x00000000, 0x00000000, 0x6443cb09, 0x80d34868,
            0xa3cfee21, 0x53f605ff, 0xe5171371, 0xbf64ab0e,
            0x3286cf37, 0x8eb6e116,
        ),
        steps(
            0xb71dc538, 0xc4a2c4f0, 0xb2ffcf61, 0x4e66d7ff,
            0x00000000, 0x00000000, 0x7bc08a28, 0x1f7d475c,
            0x10d70507, 0x5dd735a6, 0x9b3dd184, 0x6e59c151,
            0x339defeb, 0x22c6eae4,
        ),
        steps(
            0xfcd6a552, 0x46e936a6, 0x3286cf37, 0x22c6eae4,
            0x00000000, 0x00000000, 0x43bfdbf8, 0x616254a0,
            0x63a330b0, 0x311c6179, 0xa5223098, 0x4248aa77,
            0x45376f01, 0xe1943e51,
        ),
        steps(
            0xeb4e3217, 0xbf64ab0e, 0x339defeb, 0xc34b1d60,
            0x00000000, 0x00636261, 0xaab2dd25, 0x2ea4c87f,
            0xf3e359e4, 0xc04569f9, 0xd9bb0805, 0x7582b320,
            0xeffd5845, 0xfc19fe61,
        ),
        steps(
            0xe5171371, 0x6e59c151, 0xb68bd024, 0xb0053a43,
            0x00000000, 0x00000000, 0x5370d4c2, 0x2c8cb547,
            0xa50db399, 0xee81e375, 0x7ffd8a09, 0x8a1a270a,
            0x219f3002, 0x7c917c69,
        ),
        steps(
            0x9b3dd184, 0x91203206, 0xd48e8d82, 0x8eb6e116,
            0x00000000, 0x00000000, 0x2c5e038a, 0x26c260b0,
            0xb72b306a, 0xe29ca2e8, 0x5320643a, 0x015e3d1b,
            0x89dced30, 0xd2b1bcc6,
        ),
        steps(
            0xa5223098, 0x015e3d1b, 0x219f3002, 0xfc19fe61,
            0x00000000, 0x00000000, 0xa6806db3, 0x780b42fb,
            0xb5718a9b, 0x93d25a99, 0x1e8bb0ae, 0xfd29eb4c,
            0xecfee485, 0x378d59ea,
        ),
        steps(
            0xd9bb0805, 0x4248aa77, 0x89dced30, 0x7c917c69,
            0x00000000, 0x00000000, 0x1c03b27c, 0x7b515bae,
            0x57f24dc2, 0xce156092, 0x97550e2a, 0x3cd635ab,
            0x104b8e30, 0xb859406e,
        ),
        steps(
            0x7ffd8a09, 0x7582b320, 0x45376f01, 0xd2b1bcc6,
            0x00000000, 0x00000000, 0xf5803d29, 0x512b2a42,
            0xc7269632, 0x81ef2731, 0x46ab676b, 0x60e18de0,
            0x21edda72, 0x5ac74440,
        ),
        steps(
            0x5320643a, 0x8a1a270a, 0xeffd5845, 0xe1943e51,
            0x00000000, 0x00000000, 0xdd3a8b44, 0x3f92f08b,
            0xa51294f3, 0xb5153cae, 0x1ccd7bcf, 0x62725d3b,
            0x06bc6d3a, 0x61a9d847,
        ),
        steps(
            0x1e8bb0ae, 0x3cd635ab, 0x21edda72, 0x61a9d847,
            0x00000000, 0x00636261, 0x5b61e659, 0x0915cda2,
            0x600c153a, 0x3e1e3ac8, 0x64db165c, 0x89fae62f,
            0xf466da66, 0x945ac52c,
        ),
        steps(
            0x97550e2a, 0x60e18de0, 0x06bc6d3a, 0x378d59ea,
            0x00000000, 0x00000000, 0xf8369c0a, 0x115ac7cb,
            0xcc9d3cf5, 0xc5e0cfbb, 0x099163d5, 0xd45466d2,
            0x3b69aea1, 0x6ecc71ac,
        ),
        steps(
            0x46ab676b, 0x62725d3b, 0xecfee485, 0xb859406e,
            0x00000000, 0x00000000, 0xa91dc4a6, 0x8f213b4a,
            0x71c6f5c9, 0x84c81144, 0x383efff0, 0xfb5345af,
            0x2683ecb7, 0xb4bcf6ee,
        ),
        steps(
            0x1ccd7bcf, 0xfd29eb4c, 0x104b8e30, 0x5ac74440,
            0x00000000, 0x00000000, 0x19f7671b, 0xa2cce8f3,
            0x33a6d160, 0x235b4330, 0xbcc4500e, 0x01a11531,
            0x72467073, 0x3e9f9f13,
        ),
        steps(
            0x64db165c, 0x01a11531, 0x2683ecb7, 0x6ecc71ac,
            0x00000000, 0x00000000, 0x667c2b8d, 0x0568105e,
            0x80a4f567, 0x5a2108b0, 0x6be43beb, 0x89bd7d55,
            0xdbd6ba9a, 0x5b31c533,
        ),
        steps(
            0x099163d5, 0x89fae62f, 0x72467073, 0xb4bcf6ee,
            0x00000000, 0x00000000, 0x938c4a04, 0x18ca6ca7,
            0x2f3097a3, 0xbcea2730, 0xac56b6ab, 0x27a51671,
            0xca415434, 0x9b10bc91,
        ),
        steps(
            0x383efff0, 0xd45466d2, 0xf466da66, 0x3e9f9f13,
            0x00000000, 0x00000000, 0x0c9366c2, 0xaa03a6c6,
            0xee380c72, 0xf9d1320c, 0xb6970d88, 0xefb109e8,
            0x728752b1, 0x844f463f,
        ),
        steps(
            0xbcc4500e, 0xfb5345af, 0x3b69aea1, 0x945ac52c,
            0x00000000, 0x00000000, 0xb81795bd, 0xf4170a99,
            0x8bfadaee, 0x50912c4d, 0xac2ea056, 0xc6a7c121,
            0xa7f79a7a, 0x1bfcbf8c,
        ),
        steps(
            0x6be43beb, 0x27a51671, 0x728752b1, 0x1bfcbf8c,
            0x00000000, 0x00000000, 0x9389525c, 0xd5747f2c,
            0x6057db26, 0xedd08875, 0x68fdd188, 0xa71152ee,
            0x5ddd087f, 0xfd852d59,
        ),
        steps(
            0xac56b6ab, 0xefb109e8, 0xa7f79a7a, 0x5b31c533,
            0x00000000, 0x00000000, 0x9c07c093, 0x85842296,
            0xad9861b0, 0x05a0c736, 0x218be329, 0x8492715c,
            0xccbc8cd4, 0x1f242b24,
        ),
        steps(
            0xb6970d88, 0xc6a7c121, 0xdbd6ba9a, 0x9b10bc91,
            0x00636261, 0x00000000, 0x7da2310a, 0x06dafd56,
            0x6972a14c, 0x8d9be6b2, 0x847d2e60, 0x847b4cea,
            0x3b7c8814, 0xd209e6c8,
        ),
        steps(
            0xac2ea056, 0x89bd7d55, 0xca415434, 0x844f463f,
            0x00000000, 0x00000000, 0x35ec1dab, 0x882ac6b7,
            0x25d605d7, 0x5b94b1a3, 0xbe16e462, 0x36df229d,
            0xe7bb882c, 0xc1e58255,
        ),
        steps(
            0x68fdd188, 0x36df229d, 0x3b7c8814, 0x1f242b24,
            0x00000000, 0x00000000, 0x9fdcf425, 0xb912ca12,
            0x1a7e090c, 0xdf0180f8, 0x58efbe37, 0xb0a62e7a,
            0xea05f74a, 0xcf87ee3e,
        ),
        steps(
            0x218be329, 0xa71152ee, 0xe7bb882c, 0xd209e6c8,
            0x00000000, 0x00000000, 0xc89d3617, 0x02e1f8bf,
            0xb89aa2c0, 0xd0df1a94, 0xcb7f2ed6, 0x97f0af74,
            0xfab642f4, 0x421ba034,
        ),
        steps(
            0x847d2e60, 0x8492715c, 0x5ddd087f, 0xc1e58255,
            0x00000000, 0x00000000, 0x090f9fbc, 0x035ff54a,
            0x7bc6d169, 0x1de9c8ea, 0x0c6f9506, 0x18c90f45,
            0x67d857c6, 0xec11865d,
        ),
        steps(
            0xbe16e462, 0x847b4cea, 0xccbc8cd4, 0xfd852d59,
            0x00000000, 0x00000000, 0x4292314c, 0x7016ca90,
            0xe8d24beb, 0x1c15bf17, 0xb2a8fbdc, 0x7f892f87,
            0xb481092f, 0xcbaebd44,
        ),
        steps(
            0x58efbe37, 0x97f0af74, 0x67d857c6, 0xcbaebd44,
            0x00000000, 0x00000000, 0xf0e06dab, 0xc60af373,
            0x38c79314, 0xd0ef3b4e, 0xb6eb611e, 0x3a9e4ec8,
            0x892d976e, 0x5066045a,
        ),
        steps(
            0xcb7f2ed6, 0x18c90f45, 0xb481092f, 0xcf87ee3e,
            0x00636261, 0x00000000, 0xe4aba07c, 0xb1e1a0a3,
            0x02c3345b, 0x4e422b2c, 0x968d411f, 0xcd0efb46,
            0x369c03c5, 0x33d8cf6a,
        ),
        steps(
            0x0c6f9506, 0x7f892f87, 0xea05f74a, 0x421ba034,
            0x00000000, 0x00000000, 0x8bf8c48d, 0xeaa3136e,
            0x4ebfc12d, 0x64b9c9e3, 0x769bd7fb, 0x4b18e5e0,
            0x66d1e34b, 0x1812221e,
        ),
        steps(
            0xb2a8fbdc, 0xb0a62e7a, 0xfab642f4, 0xec11865d,
            0x00000000, 0x00000000, 0x634f2a56, 0xc281667f,
            0xa6c1d252, 0xac0b8f5e, 0x25d090d5, 0x1de19596,
            0x324bad71, 0x8b89db1f,
        ),
        steps(
            0xb6eb611e, 0x1de19596, 0x66d1e34b, 0x33d8cf6a,
            0x00000000, 0x00000000, 0xd4ccf6b4, 0xfc9bd515,
            0xa0b0ca5f, 0x39dee714, 0xd168cbc9, 0x3d0404ab,
            0x7e99808b, 0xdde8b62c,
        ),
        steps(
            0x968d411f, 0x3a9e4ec8, 0x324bad71, 0x1812221e,
            0x00000000, 0x00636261, 0xd12b8fe7, 0x862dadb3,
            0xe04576aa, 0xadf9c939, 0x57bc9ffb, 0x664a2423,
            0xa33fbc00, 0xc2fa4556,
        ),
        steps(
            0x769bd7fb, 0xcd0efb46, 0x892d976e, 0x8b89db1f,
            0x00000000, 0x00000000, 0x43aad341, 0x4d75c82a,
            0x918c5f91, 0x085ec823, 0x91209b6b, 0x9d2ea02b,
            0xda25dde4, 0x48997e53,
        ),
        steps(
            0x25d090d5, 0x4b18e5e0, 0x369c03c5, 0x5066045a,
            0x00000000, 0x00000000, 0x70e976b5, 0x1b4e293c,
            0xa98b2454, 0x72ef208f, 0x8c379ff1, 0x5e678fa8,
            0x2889fd13, 0x7efed8bf,
        ),
        steps(
            0xd168cbc9, 0x664a2423, 0xda25dde4, 0x7efed8bf,
            0x00000000, 0x00000000, 0x37b2efec, 0x31377330,
            0x11792730, 0x3753494c, 0x68ea631c, 0xd4a1df26,
            0x61d8e05a, 0x505fb92a,
        ),
        steps(
            0x57bc9ffb, 0x9d2ea02b, 0x2889fd13, 0xdde8b62c,
            0x00000000, 0x00000000, 0xf4eb4026, 0x63d83ba8,
            0x1e942616, 0xf60a2903, 0x58c37bce, 0x811f35a9,
            0xec42ef68, 0xcdaec952,
        ),
        steps(
            0x91209b6b, 0x5e678fa8, 0x7e99808b, 0xc2fa4556,
            0x00000000, 0x00000000, 0xef882b13, 0x255b2b92,
            0xecdeadfd, 0x6e452d72, 0x14e356a5, 0xd5c204ff,
            0xc4595478, 0xd77aa67b,
        ),
        steps(
            0x8c379ff1, 0x3d0404ab, 0xa33fbc00, 0x48997e53,
            0x00000000, 0x00000000, 0xc93ba49c, 0x909430b3,
            0x7e0f3da2, 0xdacf81a2, 0x59cfd54f, 0x8bf60c1a,
            0x6b923df6, 0xed830054,
        ),
        0x68ea631cu32 ^ 0xc4595478u32 == 0xacb33764,
        0x58c37bceu32 ^ 0x6b923df6u32 == 0x33514638,
        0x14e356a5u32 ^ 0x61d8e05au32 == 0x753bb6ff,
        0x59cfd54fu32 ^ 0xec42ef68u32 == 0xb58d3a27,
        0x8bf60c1au32 ^ 0xcdaec952u32 == 0x4658c548,
        0xd4a1df26u32 ^ 0xd77aa67bu32 == 0x03db795d,
        0x811f35a9u32 ^ 0xed830054u32 == 0x6c9c35fd,
        0xd5c204ffu32 ^ 0x505fb92au32 == 0x859dbdd5,
{
}

/// Round 0 of that block.
#[verifier::spinoff_prover]
proof fn lemma_abc_round_0(v: Seq<u32>, m: Seq<u32>)
    requires
        reached(
            v,
            m,
            0,
            (
                (0x6a09e667, 0xbb67ae85, 0x3c6ef372, 0xa54ff53a),
                (0x510e527f, 0x9b05688c, 0x1f83d9ab, 0x5be0cd19),
                (0x6a09e667, 0xbb67ae85, 0x3c6ef372, 0xa54ff53a),
                (0x00000000, 0x00000000, 0x00000003, 0x0000000b),
            ),
            (
                (0x00636261, 0x00000000, 0x00000000, 0x00000000),
                (0x00000000, 0x00000000, 0x00000000, 0x00000000),
                (0x00000000, 0x00000000, 0x00000000, 0x00000000),
                (0x00000000, 0x00000000, 0x00000000, 0x00000000),
            ),
        ),
    ensures
        reached(
            v,
            m,
            1,
            (
                (0xdb143866, 0x950eaea4, 0xb01bb383, 0x8a76b87b),
                (0x0e26c52c, 0x0a0ccdef, 0x19283993, 0xa4e212be),
                (0x906c3ec2, 0x5879cdbb, 0x8b4a7ef9, 0x8186f2f7),
                (0xbef17dec, 0x3ca110c7, 0x252cbc73, 0xfb497983),
            ),
            (
                (0x00000000, 0x00000000, 0x00000000, 0x00000000),
                (0x00000000, 0x00636261, 0x00000000, 0x00000000),
                (0x00000000, 0x00000000, 0x00000000, 0x00000000),
                (0x00000000, 0x00000000, 0x00000000, 0x00000000),
            ),
        ),
{
    reveal(reached);
    lemma_abc_steps();
    lemma_round(
        rounds_of(v, m, 0),
        schedule(m, 0),
        (
            (0x6a09e667, 0xbb67ae85, 0x3c6ef372, 0xa54ff53a),
            (0x510e527f, 0x9b05688c, 0x1f83d9ab, 0x5be0cd19),
            (0x6a09e667, 0xbb67ae85, 0x3c6ef372, 0xa54ff53a),
            (0x00000000, 0x00000000, 0x00000003, 0x0000000b),
        ),
        (
            (0x00636261, 0x00000000, 0x00000000, 0x00000000),
            (0x00000000, 0x00000000, 0x00000000, 0x00000000),
            (0x00000000, 0x00000000, 0x00000000, 0x00000000),
            (0x00000000, 0x00000000, 0x00000000, 0x00000000),
        ),
        (
            (0xbb7b9b47, 0x39d545ff, 0x0551a1e2, 0x9b47bb7b),
            (0x566d1711, 0xc7e497c6, 0xd27904f2, 0x1711566d),
            (0x5bf2cd1d, 0x6cf160e9, 0x098d4f64, 0xcd1e5bf2),
            (0x0130c253, 0xb733c473, 0x67a7f66a, 0xc2580130),
        ),
        (
            (0xf550e146, 0x86f6d5f9, 0x42bfb93c, 0x3d6e175a),
            (0x1e51aed7, 0x5896cda4, 0x8c8245ea, 0xba0940f8),
            (0xc8e42e06, 0x6122c452, 0xfd9349d9, 0xf405fa75),
            (0xb86486c6, 0x05d223ed, 0x5e2232f1, 0xf67a3c87),
        ),
        (
            (0x4de7aeea, 0x8d2c897c, 0x90010576, 0x926dbb9d),
            (0x7f747329, 0x159a3b7b, 0xc295750b, 0x6473421a),
            (0xceb651f3, 0xe1656190, 0x53cb2dfb, 0x110b74bf),
            (0x3f5b5cbf, 0x4b1b5bbc, 0x334d1148, 0xa6cacb5e),
        ),
        (
            (0xdb143866, 0x0a0ccdef, 0x8b4a7ef9, 0xfb497983),
            (0x950eaea4, 0x19283993, 0x8186f2f7, 0xbef17dec),
            (0xb01bb383, 0xa4e212be, 0x906c3ec2, 0x3ca110c7),
            (0x8a76b87b, 0x0e26c52c, 0x5879cdbb, 0x252cbc73),
        ),
    );
    lemma_next_round(v, m, 0);
}

/// Round 1 of that block.
#[verifier::spinoff_prover]
proof fn lemma_abc_round_1(v: Seq<u32>, m: Seq<u32>)
    requires
        reached(
            v,
            m,
            1,
            (
                (0xdb143866, 0x950eaea4, 0xb01bb383, 0x8a76b87b),
                (0x0e26c52c, 0x0a0ccdef, 0x19283993, 0xa4e212be),
                (0x906c3ec2, 0x5879cdbb, 0x8b4a7ef9, 0x8186f2f7),
                (0xbef17dec, 0x3ca110c7, 0x252cbc73, 0xfb497983),
            ),
            (
                (0x00000000, 0x00000000, 0x00000000, 0x00000000),
                (0x00000000, 0x00636261, 0x00000000, 0x00000000),
                (0x00000000, 0x00000000, 0x00000000, 0x00000000),
                (0x00000000, 0x00000000, 0x00000000, 0x00000000),
            ),
        ),
    ensures
        reached(
            v,
            m,
            2,
            (
                (0xf7cd6139, 0xd1d50a38, 0xccfa64dd, 0xb71dc538),
                (0xde7670ad, 0x7963493e, 0x9749662c, 0xc4a2c4f0),
                (0x3b74ed33, 0x3614e198, 0x4fd9e822, 0xb2ffcf61),
                (0x13d2662d, 0x3a9fbd02, 0x61bc98ff, 0x4e66d7ff),
            ),
            (
                (0x00000000, 0x00000000, 0x00000000, 0x00000000),
                (0x00000000, 0x00000000, 0x00000000, 0x00000000),
                (0x00000000, 0x00000000, 0x00000000, 0x00636261),
                (0x00000000, 0x00000000, 0x00000000, 0x00000000),
            ),
        ),
{
    reveal(reached);
    lemma_abc_steps();
    lemma_round(
        rounds_of(v, m, 1),
        schedule(m, 1),
        (
            (0xdb143866, 0x950eaea4, 0xb01bb383, 0x8a76b87b),
            (0x0e26c52c, 0x0a0ccdef, 0x19283993, 0xa4e212be),
            (0x906c3ec2, 0x5879cdbb, 0x8b4a7ef9, 0x8186f2f7),
            (0xbef17dec, 0x3ca110c7, 0x252cbc73, 0xfb497983),
        ),
        (
            (0x00000000, 0x00000000, 0x00000000, 0x00000000),
            (0x00000000, 0x00636261, 0x00000000, 0x00000000),
            (0x00000000, 0x00000000, 0x00000000, 0x00000000),
            (0x00000000, 0x00000000, 0x00000000, 0x00000000),
        ),
        (
            (0xe93afd92, 0x3a11ecc5, 0x10ea968d, 0x807e57cb),
            (0x9f1b7c93, 0xc9acec2b, 0xc4ce7175, 0x6c54a3ba),
            (0xc943ed16, 0x2fbc5985, 0xdcb06b68, 0x5165ec6f),
            (0x2f58cb39, 0x5b690a3d, 0x3441c708, 0xb2bad411),
        ),
        (
            (0x234cea57, 0x1f2f384b, 0xad8dc94a, 0x9ca332bd),
            (0x68c868be, 0xd602ffc4, 0xc8d30e40, 0x04049ccb),
            (0xf963a8fc, 0x52bfc850, 0x705871ac, 0x93a80644),
            (0x8ac1d576, 0x69802690, 0x9b7a4209, 0x67387b01),
        ),
        (
            (0xf94fea1b, 0xfe7d771e, 0x01731023, 0x911a9e77),
            (0xbb88310e, 0x164cd92a, 0x9f2d6934, 0x03b3272b),
            (0x62e3cf8c, 0x6a169551, 0x00d53031, 0x534766e7),
            (0xa9f10dc1, 0x0d2cb777, 0xd4584899, 0x0b853a59),
        ),
        (
            (0xf7cd6139, 0x7963493e, 0x4fd9e822, 0x4e66d7ff),
            (0xd1d50a38, 0x9749662c, 0xb2ffcf61, 0x13d2662d),
            (0xccfa64dd, 0xc4a2c4f0, 0x3b74ed33, 0x3a9fbd02),
            (0xb71dc538, 0xde7670ad, 0x3614e198, 0x61bc98ff),
        ),
    );
    lemma_next_round(v, m, 1);
}

/// Round 2 of that block.
#[verifier::spinoff_prover]
proof fn lemma_abc_round_2(v: Seq<u32>, m: Seq<u32>)
    requires
        reached(
            v,
            m,
            2,
            (
                (0xf7cd6139, 0xd1d50a38, 0xccfa64dd, 0xb71dc538),
                (0xde7670ad, 0x7963493e, 0x9749662c, 0xc4a2c4f0),
                (0x3b74ed33, 0x3614e198, 0x4fd9e822, 0xb2ffcf61),
                (0x13d2662d, 0x3a9fbd02, 0x61bc98ff, 0x4e66d7ff),
            ),
            (
                (0x00000000, 0x00000000, 0x00000000, 0x00000000),
                (0x00000000, 0x00000000, 0x00000000, 0x00000000),
                (0x00000000, 0x00000000, 0x00000000, 0x00636261),
                (0x00000000, 0x00000000, 0x00000000, 0x00000000),
            ),
        ),
    ensures
        reached(
            v,
            m,
            3,
            (
                (0xa5223098, 0xd9bb0805, 0x7ffd8a09, 0x5320643a),
                (0x015e3d1b, 0x4248aa77, 0x7582b320, 0x8a1a270a),
                (0x219f3002, 0x89dced30, 0x45376f01, 0xeffd5845),
                (0xfc19fe61, 0x7c917c69, 0xd2b1bcc6, 0xe1943e51),
            ),
            (
                (0x00000000, 0x00000000, 0x00000000, 0x00000000),
                (0x00000000, 0x00000000, 0x00000000, 0x00000000),
                (0x00000000, 0x00636261, 0x00000000, 0x00000000),
                (0x00000000, 0x00000000, 0x00000000, 0x00000000),
            ),
        ),
{
    reveal(reached);
    lemma_abc_steps();
    lemma_round(
        rounds_of(v, m, 2),
        schedule(m, 2),
        (
            (0xf7cd6139, 0xd1d50a38, 0xccfa64dd, 0xb71dc538),
            (0xde7670ad, 0x7963493e, 0x9749662c, 0xc4a2c4f0),
            (0x3b74ed33, 0x3614e198, 0x4fd9e822, 0xb2ffcf61),
            (0x13d2662d, 0x3a9fbd02, 0x61bc98ff, 0x4e66d7ff),
        ),
        (
            (0x00000000, 0x00000000, 0x00000000, 0x00000000),
            (0x00000000, 0x00000000, 0x00000000, 0x00000000),
            (0x00000000, 0x00000000, 0x00000000, 0x00636261),
            (0x00000000, 0x00000000, 0x00000000, 0x00000000),
        ),
        (
            (0xd643d1e6, 0x2692d36c, 0xf340b2c4, 0xb7cbc591),
            (0x4b385376, 0xa015dea1, 0x2489533f, 0xee7471a7),
            (0x6443cb09, 0x80d34868, 0xa3cfee21, 0x53f605ff),
            (0x7bc08a28, 0x1f7d475c, 0x10d70507, 0x5dd735a6),
        ),
        (
            (0xfcd6a552, 0x91203206, 0xb68bd024, 0xc34b1d60),
            (0xeb4e3217, 0x46e936a6, 0xd48e8d82, 0xb0053a43),
            (0xe5171371, 0xbf64ab0e, 0x3286cf37, 0x8eb6e116),
            (0x9b3dd184, 0x6e59c151, 0x339defeb, 0x22c6eae4),
        ),
        (
            (0x43bfdbf8, 0x616254a0, 0x63a330b0, 0x311c6179),
            (0xaab2dd25, 0x2ea4c87f, 0xf3e359e4, 0xc04569f9),
            (0x5370d4c2, 0x2c8cb547, 0xa50db399, 0xee81e375),
            (0x2c5e038a, 0x26c260b0, 0xb72b306a, 0xe29ca2e8),
        ),
        (
            (0xa5223098, 0x4248aa77, 0x45376f01, 0xe1943e51),
            (0xd9bb0805, 0x7582b320, 0xeffd5845, 0xfc19fe61),
            (0x7ffd8a09, 0x8a1a270a, 0x219f3002, 0x7c917c69),
            (0x5320643a, 0x015e3d1b, 0x89dced30, 0xd2b1bcc6),
        ),
    );
    lemma_next_round(v, m, 2);
}

/// Round 3 of that block.
#[verifier::spinoff_prover]
proof fn lemma_abc_round_3(v: Seq<u32>, m: Seq<u32>)
    requires
        reached(
            v,
            m,
            3,
            (
                (0xa5223098, 0xd9bb0805, 0x7ffd8a09, 0x5320643a),
                (0x015e3d1b, 0x4248aa77, 0x7582b320, 0x8a1a270a),
                (0x219f3002, 0x89dced30, 0x45376f01, 0xeffd5845),
                (0xfc19fe61, 0x7c917c69, 0xd2b1bcc6, 0xe1943e51),
            ),
            (
                (0x00000000, 0x00000000, 0x00000000, 0x00000000),
                (0x00000000, 0x00000000, 0x00000000, 0x00000000),
                (0x00000000, 0x00636261, 0x00000000, 0x00000000),
                (0x00000000, 0x00000000, 0x00000000, 0x00000000),
            ),
        ),
    ensures
        reached(
            v,
            m,
            4,
            (
                (0x64db165c, 0x099163d5, 0x383efff0, 0xbcc4500e),
                (0x01a11531, 0x89fae62f, 0xd45466d2, 0xfb5345af),
                (0x2683ecb7, 0x72467073, 0xf466da66, 0x3b69aea1),
                (0x6ecc71ac, 0xb4bcf6ee, 0x3e9f9f13, 0x945ac52c),
            ),
            (
                (0x00000000, 0x00000000, 0x00000000, 0x00000000),
                (0x00000000, 0x00000000, 0x00000000, 0x00000000),
                (0x00000000, 0x00000000, 0x00000000, 0x00000000),
                (0x00636261, 0x00000000, 0x00000000, 0x00000000),
            ),
        ),
{
    reveal(reached);
    lemma_abc_steps();
    lemma_round(
        rounds_of(v, m, 3),
        schedule(m, 3),
        (
            (0xa5223098, 0xd9bb0805, 0x7ffd8a09, 0x5320643a),
            (0x015e3d1b, 0x4248aa77, 0x7582b320, 0x8a1a270a),
            (0x219f3002, 0x89dced30, 0x45376f01, 0xeffd5845),
            (0xfc19fe61, 0x7c917c69, 0xd2b1bcc6, 0xe1943e51),
        ),
        (
            (0x00000000, 0x00000000, 0x00000000, 0x00000000),
            (0x00000000, 0x00000000, 0x00000000, 0x00000000),
            (0x00000000, 0x00636261, 0x00000000, 0x00000000),
            (0x00000000, 0x00000000, 0x00000000, 0x00000000),
        ),
        (
            (0xa6806db3, 0x780b42fb, 0xb5718a9b, 0x93d25a99),
            (0x1c03b27c, 0x7b515bae, 0x57f24dc2, 0xce156092),
            (0xf5803d29, 0x512b2a42, 0xc7269632, 0x81ef2731),
            (0xdd3a8b44, 0x3f92f08b, 0xa51294f3, 0xb5153cae),
        ),
        (
            (0x1e8bb0ae, 0xfd29eb4c, 0xecfee485, 0x378d59ea),
            (0x97550e2a, 0x3cd635ab, 0x104b8e30, 0xb859406e),
            (0x46ab676b, 0x60e18de0, 0x21edda72, 0x5ac74440),
            (0x1ccd7bcf, 0x62725d3b, 0x06bc6d3a, 0x61a9d847),
        ),
        (
            (0x5b61e659, 0x0915cda2, 0x600c153a, 0x3e1e3ac8),
            (0xf8369c0a, 0x115ac7cb, 0xcc9d3cf5, 0xc5e0cfbb),
            (0xa91dc4a6, 0x8f213b4a, 0x71c6f5c9, 0x84c81144),
            (0x19f7671b, 0xa2cce8f3, 0x33a6d160, 0x235b4330),
        ),
        (
            (0x64db165c, 0x89fae62f, 0xf466da66, 0x945ac52c),
            (0x099163d5, 0xd45466d2, 0x3b69aea1, 0x6ecc71ac),
            (0x383efff0, 0xfb5345af, 0x2683ecb7, 0xb4bcf6ee),
            (0xbcc4500e, 0x01a11531, 0x72467073, 0x3e9f9f13),
        ),
    );
    lemma_next_round(v, m, 3);
}

/// Round 4 of that block.
#[verifier::spinoff_prover]
proof fn lemma_abc_round_4(v: Seq<u32>, m: Seq<u32>)
    requires
        reached(
            v,
            m,
            4,
            (
                (0x64db165c, 0x099163d5, 0x383efff0, 0xbcc4500e),
                (0x01a11531, 0x89fae62f, 0xd45466d2, 0xfb5345af),
                (0x2683ecb7, 0x72467073, 0xf466da66, 0x3b69aea1),
                (0x6ecc71ac, 0xb4bcf6ee, 0x3e9f9f13, 0x945ac52c),
            ),
            (
                (0x00000000, 0x00000000, 0x00000000, 0x00000000),
                (0x00000000, 0x00000000, 0x00000000, 0x00000000),
                (0x00000000, 0x00000000, 0x00000000, 0x00000000),
                (0x00636261, 0x00000000, 0x00000000, 0x00000000),
            ),
        ),
    ensures
        reached(
            v,
            m,
            5,
            (
                (0x68fdd188, 0x218be329, 0x847d2e60, 0xbe16e462),
                (0x36df229d, 0xa71152ee, 0x8492715c, 0x847b4cea),
                (0x3b7c8814, 0xe7bb882c, 0x5ddd087f, 0xccbc8cd4),
                (0x1f242b24, 0xd209e6c8, 0xc1e58255, 0xfd852d59),
            ),
            (
                (0x00000000, 0x00000000, 0x00000000, 0x00000000),
                (0x00000000, 0x00000000, 0x00000000, 0x00000000),
                (0x00000000, 0x00000000, 0x00636261, 0x00000000),
                (0x00000000, 0x00000000, 0x00000000, 0x00000000),
            ),
        ),
{
    reveal(reached);
    lemma_abc_steps();
    lemma_round(
        rounds_of(v, m, 4),
        schedule(m, 4),
        (
            (0x64db165c, 0x099163d5, 0x383efff0, 0xbcc4500e),
            (0x01a11531, 0x89fae62f, 0xd45466d2, 0xfb5345af),
            (0x2683ecb7, 0x72467073, 0xf466da66, 0x3b69aea1),
            (0x6ecc71ac, 0xb4bcf6ee, 0x3e9f9f13, 0x945ac52c),
        ),
        (
            (0x00000000, 0x00000000, 0x00000000, 0x00000000),
            (0x00000000, 0x00000000, 0x00000000, 0x00000000),
            (0x00000000, 0x00000000, 0x00000000, 0x00000000),
            (0x00636261, 0x00000000, 0x00000000, 0x00000000),
        ),
        (
            (0x667c2b8d, 0x0568105e, 0x80a4f567, 0x5a2108b0),
            (0x938c4a04, 0x18ca6ca7, 0x2f3097a3, 0xbcea2730),
            (0x0c9366c2, 0xaa03a6c6, 0xee380c72, 0xf9d1320c),
            (0xb81795bd, 0xf4170a99, 0x8bfadaee, 0x50912c4d),
        ),
        (
            (0x6be43beb, 0x89bd7d55, 0xdbd6ba9a, 0x5b31c533),
            (0xac56b6ab, 0x27a51671, 0xca415434, 0x9b10bc91),
            (0xb6970d88, 0xefb109e8, 0x728752b1, 0x844f463f),
            (0xac2ea056, 0xc6a7c121, 0xa7f79a7a, 0x1bfcbf8c),
        ),
        (
            (0x9389525c, 0xd5747f2c, 0x6057db26, 0xedd08875),
            (0x9c07c093, 0x85842296, 0xad9861b0, 0x05a0c736),
            (0x7da2310a, 0x06dafd56, 0x6972a14c, 0x8d9be6b2),
            (0x35ec1dab, 0x882ac6b7, 0x25d605d7, 0x5b94b1a3),
        ),
        (
            (0x68fdd188, 0xa71152ee, 0x5ddd087f, 0xfd852d59),
            (0x218be329, 0x8492715c, 0xccbc8cd4, 0x1f242b24),
            (0x847d2e60, 0x847b4cea, 0x3b7c8814, 0xd209e6c8),
            (0xbe16e462, 0x36df229d, 0xe7bb882c, 0xc1e58255),
        ),
    );
    lemma_next_round(v, m, 4);
}

/// Round 5 of that block.
#[verifier::spinoff_prover]
proof fn lemma_abc_round_5(v: Seq<u32>, m: Seq<u32>)
    requires
        reached(
            v,
            m,
            5,
            (
                (0x68fdd188, 0x218be329, 0x847d2e60, 0xbe16e462),
                (0x36df229d, 0xa71152ee, 0x8492715c, 0x847b4cea),
                (0x3b7c8814, 0xe7bb882c, 0x5ddd087f, 0xccbc8cd4),
                (0x1f242b24, 0xd209e6c8, 0xc1e58255, 0xfd852d59),
            ),
            (
                (0x00000000, 0x00000000, 0x00000000, 0x00000000),
                (0x00000000, 0x00000000, 0x00000000, 0x00000000),
                (0x00000000, 0x00000000, 0x00636261, 0x00000000),
                (0x00000000, 0x00000000, 0x00000000, 0x00000000),
            ),
        ),
    ensures
        reached(
            v,
            m,
            6,
            (
                (0xb6eb611e, 0x968d411f, 0x769bd7fb, 0x25d090d5),
                (0x1de19596, 0x3a9e4ec8, 0xcd0efb46, 0x4b18e5e0),
                (0x66d1e34b, 0x324bad71, 0x892d976e, 0x369c03c5),
                (0x33d8cf6a, 0x1812221e, 0x8b89db1f, 0x5066045a),
            ),
            (
                (0x00000000, 0x00000000, 0x00000000, 0x00636261),
                (0x00000000, 0x00000000, 0x00000000, 0x00000000),
                (0x00000000, 0x00000000, 0x00000000, 0x00000000),
                (0x00000000, 0x00000000, 0x00000000, 0x00000000),
            ),
        ),
{
    reveal(reached);
    lemma_abc_steps();
    lemma_round(
        rounds_of(v, m, 5),
        schedule(m, 5),
        (
            (0x68fdd188, 0x218be329, 0x847d2e60, 0xbe16e462),
            (0x36df229d, 0xa71152ee, 0x8492715c, 0x847b4cea),
            (0x3b7c8814, 0xe7bb882c, 0x5ddd087f, 0xccbc8cd4),
            (0x1f242b24, 0xd209e6c8, 0xc1e58255, 0xfd852d59),
        ),
        (
            (0x00000000, 0x00000000, 0x00000000, 0x00000000),
            (0x00000000, 0x00000000, 0x00000000, 0x00000000),
            (0x00000000, 0x00000000, 0x00636261, 0x00000000),
            (0x00000000, 0x00000000, 0x00000000, 0x00000000),
        ),
        (
            (0x9fdcf425, 0xb912ca12, 0x1a7e090c, 0xdf0180f8),
            (0xc89d3617, 0x02e1f8bf, 0xb89aa2c0, 0xd0df1a94),
            (0x090f9fbc, 0x035ff54a, 0x7bc6d169, 0x1de9c8ea),
            (0x4292314c, 0x7016ca90, 0xe8d24beb, 0x1c15bf17),
        ),
        (
            (0x58efbe37, 0xb0a62e7a, 0xea05f74a, 0xcf87ee3e),
            (0xcb7f2ed6, 0x97f0af74, 0xfab642f4, 0x421ba034),
            (0x0c6f9506, 0x18c90f45, 0x67d857c6, 0xec11865d),
            (0xb2a8fbdc, 0x7f892f87, 0xb481092f, 0xcbaebd44),
        ),
        (
            (0xf0e06dab, 0xc60af373, 0x38c79314, 0xd0ef3b4e),
            (0xe4aba07c, 0xb1e1a0a3, 0x02c3345b, 0x4e422b2c),
            (0x8bf8c48d, 0xeaa3136e, 0x4ebfc12d, 0x64b9c9e3),
            (0x634f2a56, 0xc281667f, 0xa6c1d252, 0xac0b8f5e),
        ),
        (
            (0xb6eb611e, 0x3a9e4ec8, 0x892d976e, 0x5066045a),
            (0x968d411f, 0xcd0efb46, 0x369c03c5, 0x33d8cf6a),
            (0x769bd7fb, 0x4b18e5e0, 0x66d1e34b, 0x1812221e),
            (0x25d090d5, 0x1de19596, 0x324bad71, 0x8b89db1f),
        ),
    );
    lemma_next_round(v, m, 5);
}

/// Round 6 of that block.
#[verifier::spinoff_prover]
proof fn lemma_abc_round_6(v: Seq<u32>, m: Seq<u32>)
    requires
        reached(
            v,
            m,
            6,
            (
                (0xb6eb611e, 0x968d411f, 0x769bd7fb, 0x25d090d5),
                (0x1de19596, 0x3a9e4ec8, 0xcd0efb46, 0x4b18e5e0),
                (0x66d1e34b, 0x324bad71, 0x892d976e, 0x369c03c5),
                (0x33d8cf6a, 0x1812221e, 0x8b89db1f, 0x5066045a),
            ),
            (
                (0x00000000, 0x00000000, 0x00000000, 0x00636261),
                (0x00000000, 0x00000000, 0x00000000, 0x00000000),
                (0x00000000, 0x00000000, 0x00000000, 0x00000000),
                (0x00000000, 0x00000000, 0x00000000, 0x00000000),
            ),
        ),
    ensures
        reached(
            v,
            m,
            7,
            (
                (0x68ea631c, 0x58c37bce, 0x14e356a5, 0x59cfd54f),
                (0x8bf60c1a, 0xd4a1df26, 0x811f35a9, 0xd5c204ff),
                (0xc4595478, 0x6b923df6, 0x61d8e05a, 0xec42ef68),
                (0xcdaec952, 0xd77aa67b, 0xed830054, 0x505fb92a),
            ),
            (
                (0x00000000, 0x00000000, 0x00636261, 0x00000000),
                (0x00000000, 0x00000000, 0x00000000, 0x00000000),
                (0x00000000, 0x00000000, 0x00000000, 0x00000000),
                (0x00000000, 0x00000000, 0x00000000, 0x00000000),
            ),
        ),
{
    reveal(reached);
    lemma_abc_steps();
    lemma_round(
        rounds_of(v, m, 6),
        schedule(m, 6),
        (
            (0xb6eb611e, 0x968d411f, 0x769bd7fb, 0x25d090d5),
            (0x1de19596, 0x3a9e4ec8, 0xcd0efb46, 0x4b18e5e0),
            (0x66d1e34b, 0x324bad71, 0x892d976e, 0x369c03c5),
            (0x33d8cf6a, 0x1812221e, 0x8b89db1f, 0x5066045a),
        ),
        (
            (0x00000000, 0x00000000, 0x00000000, 0x00636261),
            (0x00000000, 0x00000000, 0x00000000, 0x00000000),
            (0x00000000, 0x00000000, 0x00000000, 0x00000000),
            (0x00000000, 0x00000000, 0x00000000, 0x00000000),
        ),
        (
            (0xd4ccf6b4, 0xfc9bd515, 0xa0b0ca5f, 0x39dee714),
            (0xd12b8fe7, 0x862dadb3, 0xe04576aa, 0xadf9c939),
            (0x43aad341, 0x4d75c82a, 0x918c5f91, 0x085ec823),
            (0x70e976b5, 0x1b4e293c, 0xa98b2454, 0x72ef208f),
        ),
        (
            (0xd168cbc9, 0x3d0404ab, 0x7e99808b, 0xdde8b62c),
            (0x57bc9ffb, 0x664a2423, 0xa33fbc00, 0xc2fa4556),
            (0x91209b6b, 0x9d2ea02b, 0xda25dde4, 0x48997e53),
            (0x8c379ff1, 0x5e678fa8, 0x2889fd13, 0x7efed8bf),
        ),
        (
            (0x37b2efec, 0x31377330, 0x11792730, 0x3753494c),
            (0xf4eb4026, 0x63d83ba8, 0x1e942616, 0xf60a2903),
            (0xef882b13, 0x255b2b92, 0xecdeadfd, 0x6e452d72),
            (0xc93ba49c, 0x909430b3, 0x7e0f3da2, 0xdacf81a2),
        ),
        (
            (0x68ea631c, 0xd4a1df26, 0x61d8e05a, 0x505fb92a),
            (0x58c37bce, 0x811f35a9, 0xec42ef68, 0xcdaec952),
            (0x14e356a5, 0xd5c204ff, 0xc4595478, 0xd77aa67b),
            (0x59cfd54f, 0x8bf60c1a, 0x6b923df6, 0xed830054),
        ),
    );
    lemma_next_round(v, m, 6);
}

/// The three bytes `abc` are one block, whose chaining value is their BLAKE3 hash.
#[verifier::spinoff_prover]
pub proof fn abc_compresses_to_its_hash(cv: Seq<u32>, m: Seq<u32>)
    requires
        cv.len() == 8,
        cv[0] == 0x6a09e667,
        cv[1] == 0xbb67ae85,
        cv[2] == 0x3c6ef372,
        cv[3] == 0xa54ff53a,
        cv[4] == 0x510e527f,
        cv[5] == 0x9b05688c,
        cv[6] == 0x1f83d9ab,
        cv[7] == 0x5be0cd19,
        m.len() == 16,
        m[0] == 0x00636261,
        forall|w: int| 1 <= w < 16 ==> #[trigger] m[w] == 0,
    ensures
        compressed(cv, m, 0x0, 3, 11) == seq![
            0xacb33764u32, 0x33514638, 0x753bb6ff, 0xb58d3a27,
            0x4658c548, 0x03db795d, 0x6c9c35fd, 0x859dbdd5,
        ],
{
    let v = initial_state(cv, 0x0, 3, 11);
    lemma_start(
        v,
        m,
        (
            (0x6a09e667, 0xbb67ae85, 0x3c6ef372, 0xa54ff53a),
            (0x510e527f, 0x9b05688c, 0x1f83d9ab, 0x5be0cd19),
            (0x6a09e667, 0xbb67ae85, 0x3c6ef372, 0xa54ff53a),
            (0x00000000, 0x00000000, 0x00000003, 0x0000000b),
        ),
        (
            (0x00636261, 0x00000000, 0x00000000, 0x00000000),
            (0x00000000, 0x00000000, 0x00000000, 0x00000000),
            (0x00000000, 0x00000000, 0x00000000, 0x00000000),
            (0x00000000, 0x00000000, 0x00000000, 0x00000000),
        ),
    );
    lemma_abc_round_0(v, m);
    lemma_abc_round_1(v, m);
    lemma_abc_round_2(v, m);
    lemma_abc_round_3(v, m);
    lemma_abc_round_4(v, m);
    lemma_abc_round_5(v, m);
    lemma_abc_round_6(v, m);
    lemma_end(
        cv,
        m,
        0x0,
        3,
        11,
        (
            (0x68ea631c, 0x58c37bce, 0x14e356a5, 0x59cfd54f),
            (0x8bf60c1a, 0xd4a1df26, 0x811f35a9, 0xd5c204ff),
            (0xc4595478, 0x6b923df6, 0x61d8e05a, 0xec42ef68),
            (0xcdaec952, 0xd77aa67b, 0xed830054, 0x505fb92a),
        ),
        (
            (0x00000000, 0x00000000, 0x00636261, 0x00000000),
            (0x00000000, 0x00000000, 0x00000000, 0x00000000),
            (0x00000000, 0x00000000, 0x00000000, 0x00000000),
            (0x00000000, 0x00000000, 0x00000000, 0x00000000),
        ),
    );
    lemma_abc_steps();
}

/// The mixing steps of that block, and the halves of its last state.
proof fn lemma_counted_steps()
    by (bit_vector)
    ensures
        steps(
            0x01234567, 0x00112233, 0x6a09e667, 0x00000007,
            0x03020100, 0x07060504, 0x0436689a, 0x8aed2b7c,
            0xd2a6ea9d, 0x689d0436, 0x9629991a, 0x8cea9168,
            0xffa59f3a, 0x2cfeb49d,
        ),
        steps(
            0x89abcdef, 0x44556677, 0xbb67ae85, 0x00000005,
            0x0b0a0908, 0x0f0e0d0c, 0xd90b3d6e, 0x1e7bc86e,
            0xf8d38790, 0x3d6bd90b, 0x069512e8, 0x6b84e89c,
            0xdc0f865b, 0xe33bfecb,
        ),
        steps(
            0xfedcba98, 0x8899aabb, 0x3c6ef372, 0x00000040,
            0x13121110, 0x17161514, 0x9a887663, 0x7413a0b2,
            0xb2928dfa, 0x76239a88, 0x25b22c29, 0x044feb7e,
            0x53e61fb0, 0xa15391b6,
        ),
        steps(
            0x76543210, 0xccddeeff, 0xa54ff53a, 0x00000001,
            0x1b1a1918, 0x1f1e1d1c, 0x5e4c3a27, 0xd7913abb,
            0xdf765386, 0x3a265e4c, 0x54fb91fe, 0xdc8ce817,
            0x91e53155, 0xb26eddcf,
        ),
        steps(
            0x9629991a, 0x6b84e89c, 0x53e61fb0, 0xb26eddcf,
            0x23222120, 0x27262524, 0x24d0a2d6, 0xef2b97b5,
            0xd2ffb66e, 0x7f1996be, 0x3b225faf, 0x0416d0cb,
            0xe443f237, 0x11443bc9,
        ),
        steps(
            0x069512e8, 0x044feb7e, 0x91e53155, 0x2cfeb49d,
            0x2b2a2928, 0x2f2e2d2c, 0x360f278e, 0x73820b7a,
            0x24f84c46, 0x93131af1, 0xd8bf6034, 0x753383e7,
            0xea43f8c0, 0xc54bac7a,
        ),
        steps(
            0x25b22c29, 0xdc8ce817, 0xffa59f3a, 0xe33bfecb,
            0x33323130, 0x37363534, 0x35714570, 0xd9367ed9,
            0xbb617584, 0xbbbbd64a, 0x45ddf97d, 0xd454d34a,
            0xf35fdbb3, 0x37fe662f,
        ),
        steps(
            0x54fb91fe, 0x8cea9168, 0xdc0f865b, 0xa15391b6,
            0x3b3a3938, 0x3f3e3d3c, 0x1d205c9e, 0x3a625d2d,
            0xa93842ce, 0xcd28bc73, 0x96c0f707, 0x684fecec,
            0x1d942b19, 0x745be84b,
        ),
        steps(
            0x3b225faf, 0x684fecec, 0xf35fdbb3, 0xc54bac7a,
            0x0b0a0908, 0x1b1a1918, 0xae7c55a3, 0xa068576a,
            0xed3946ea, 0xf9d96b37, 0x69fec625, 0xfabf4273,
            0xffc96e97, 0x129027ad,
        ),
        steps(
            0xd8bf6034, 0x0416d0cb, 0x1d942b19, 0x37fe662f,
            0x0f0e0d0c, 0x2b2a2928, 0xebe43e0b, 0x7f871afd,
            0x75b90733, 0x5824dc1a, 0x96958230, 0xd9be0144,
            0xa087b891, 0x2aceb15e,
        ),
        steps(
            0x45ddf97d, 0x753383e7, 0xe443f237, 0x745be84b,
            0x1f1e1d1c, 0x03020100, 0xda2f9a80, 0x34c223c2,
            0x570fa0ab, 0x72cbae74, 0x11f3bf42, 0xfd7361f6,
            0x8d72d8bc, 0x36633811,
        ),
        steps(
            0x96c0f707, 0xd454d34a, 0xea43f8c0, 0x11443bc9,
            0x13121110, 0x37363534, 0x7e27db61, 0xb691eb8b,
            0xcaec6823, 0xe0a86f63, 0x6beffc20, 0x7b71cc88,
            0x0e77afb6, 0x438b4793,
        ),
        steps(
            0x69fec625, 0xd9be0144, 0x8d72d8bc, 0x438b4793,
            0x07060504, 0x2f2e2d2c, 0x4ac2cc6d, 0x341c0cee,
            0x1970e205, 0x8bfe0949, 0xae0d0687, 0xf5a715b3,
            0xe796d514, 0xce25f30f,
        ),
        steps(
            0x96958230, 0xfd7361f6, 0x0e77afb6, 0x129027ad,
            0x33323130, 0x17161514, 0xc73b1556, 0x497bc00e,
            0x41738561, 0x32fbd5ab, 0x27ccea78, 0x5cbbe6f9,
            0x1488bca0, 0xd315373f,
        ),
        steps(
            0x11f3bf42, 0x7b71cc88, 0xffc96e97, 0x2aceb15e,
            0x27262524, 0x3b3a3938, 0xb48bb0ee, 0x0547a0bc,
            0x017a0cdc, 0x01b09e45, 0xf50d8ae2, 0x995852d2,
            0xa96ec9f0, 0xa7f4bd14,
        ),
        steps(
            0x6beffc20, 0xfabf4273, 0xa087b891, 0x36633811,
            0x3f3e3d3c, 0x23222120, 0xa5ed7bcf, 0xe6c1ed90,
            0xe4664c1f, 0x43de938e, 0xafd18a7f, 0x5061276d,
            0xd6525b38, 0xf1ec0f19,
        ),
        steps(
            0xae0d0687, 0x5061276d, 0xa96ec9f0, 0xd315373f,
            0x0f0e0d0c, 0x13121110, 0x0d7c3b00, 0xf34e5cf8,
            0xb5aea859, 0x0c3fde69, 0x13dca908, 0x51cb01ae,
            0x16ce8bd0, 0x611fe377,
        ),
        steps(
            0x27ccea78, 0xf5a715b3, 0xd6525b38, 0xa7f4bd14,
            0x2b2a2928, 0x33323130, 0x489e2953, 0xf119f3d5,
            0x6a9a4aa2, 0x9447ef6a, 0x6cea4e58, 0x2cd91617,
            0x9d92f843, 0x32f8ada1,
        ),
        steps(
            0xf50d8ae2, 0x5cbbe6f9, 0xe796d514, 0xf1ec0f19,
            0x37363534, 0x0b0a0908, 0x88ffa70f, 0x8ded316a,
            0x8fad4e27, 0xa8167913, 0x21f6e181, 0xab5fb43f,
            0x22372ebf, 0x9289e098,
        ),
        steps(
            0xafd18a7f, 0x995852d2, 0x1488bca0, 0xce25f30f,
            0x1f1e1d1c, 0x3b3a3938, 0x6847fa6d, 0x1d084b33,
            0x1deb6302, 0x0962a662, 0xc08a7ed8, 0xd38b7a01,
            0xd8b54bda, 0xbac9e8d8,
        ),
        steps(
            0x13dca908, 0x2cd91617, 0x22372ebf, 0xbac9e8d8,
            0x1b1a1918, 0x17161514, 0x5bcfd837, 0x9d27ffe1,
            0x53270fc5, 0x30efe106, 0x100ded2c, 0x61c0c01c,
            0x7d47f1d1, 0x2a20e20c,
        ),
        steps(
            0x6cea4e58, 0xab5fb43f, 0xd8b54bda, 0x611fe377,
            0x27262524, 0x03020100, 0x3f7027bb, 0xe7636de1,
            0x9d81aa49, 0xc4cc5e6f, 0x29d5969c, 0xe0ec1b53,
            0x916ec411, 0xf3ed19c8,
        ),
        steps(
            0x21f6e181, 0xd38b7a01, 0x16ce8bd0, 0x32f8ada1,
            0x2f2e2d2c, 0x3f3e3d3c, 0x24b088ae, 0x819e856d,
            0x3bdda218, 0x250f1648, 0xe58d4b57, 0x31b40142,
            0x5b9e2475, 0x1fc0825d,
        ),
        steps(
            0xc08a7ed8, 0x51cb01ae, 0x9d92f843, 0x9289e098,
            0x23222120, 0x07060504, 0x3577a1a6, 0x1ef8f1aa,
            0xded1a041, 0x413ea7fe, 0x5b769854, 0x552c2632,
            0x88ebe880, 0xaa1a483f,
        ),
        steps(
            0x100ded2c, 0x552c2632, 0x5b9e2475, 0xf3ed19c8,
            0x2b2a2928, 0x1f1e1d1c, 0x90643c86, 0x1ccd5c0a,
            0x80ec87fe, 0x254e6389, 0xcc4fb5ac, 0xbd7431ab,
            0xa6d589d4, 0x25e901d6,
        ),
        steps(
            0x29d5969c, 0x61c0c01c, 0x88ebe880, 0x1fc0825d,
            0x33323130, 0x27262524, 0xbec887e8, 0x994ef614,
            0x8ea18988, 0x05b5a108, 0x7f3da320, 0x3c5ca5cf,
            0xb71c118a, 0x287a8802,
        ),
        steps(
            0xe58d4b57, 0xe0ec1b53, 0x7d47f1d1, 0xaa1a483f,
            0x3b3a3938, 0x0f0e0d0c, 0x01b39fe2, 0x629b5c98,
            0x55259d7a, 0xd7ddaba9, 0x735d0986, 0x09cca285,
            0x84ca1e1c, 0x2fa480a2,
        ),
        steps(
            0x5b769854, 0x31b40142, 0x916ec411, 0x2a20e20c,
            0x37363534, 0x3f3e3d3c, 0xc460ceca, 0x3138f81b,
            0xbe35b251, 0x2cc6ee40, 0x34d80421, 0x405cea52,
            0x1f4dd13b, 0x61181eea,
        ),
        steps(
            0xcc4fb5ac, 0x3c5ca5cf, 0x84ca1e1c, 0x61181eea,
            0x13121110, 0x03020100, 0x1bbe6c8b, 0xd0dcb773,
            0xf72b98c2, 0x72617aa6, 0xef9d24fe, 0xa73e2a44,
            0x4fc99520, 0x589dfc5e,
        ),
        steps(
            0x7f3da320, 0x09cca285, 0x1f4dd13b, 0x25e901d6,
            0x2f2e2d2c, 0x0b0a0908, 0xb83872d1, 0xd899b99c,
            0x92556f0c, 0x73079dd1, 0x9bdc3575, 0x51df4fe6,
            0x373e4ab4, 0xa4e8dba8,
        ),
        steps(
            0x735d0986, 0x405cea52, 0xa6d589d4, 0x287a8802,
            0x17161514, 0x23222120, 0xcad008ec, 0x62c67988,
            0x27c46c7e, 0x80eee2aa, 0x50b8a394, 0x6e08a576,
            0x6694c2bf, 0x3ed05641,
        ),
        steps(
            0x34d80421, 0xbd7431ab, 0xb71c118a, 0x2fa480a2,
            0x07060504, 0x1b1a1918, 0xf9523ad0, 0x92bccfad,
            0x718ee880, 0xba72d6f6, 0xa7292395, 0xb08c2117,
            0xd4ac4475, 0x631d5bf5,
        ),
        steps(
            0xef9d24fe, 0xb08c2117, 0x6694c2bf, 0xa4e8dba8,
            0x33323130, 0x37363534, 0xd35b7745, 0xb65a30e1,
            0x13823a72, 0xaced77b3, 0xc0ebdd5a, 0xfa9568e3,
            0xfcee411c, 0xe96c06aa,
        ),
        steps(
            0x9bdc3575, 0xa73e2a44, 0xd4ac4475, 0x3ed05641,
            0x27262524, 0x2f2e2d2c, 0x6a4084dd, 0x3410076b,
            0xa7489905, 0xd29c5490, 0xcd7eb974, 0x337ef0f9,
            0x8b687bf2, 0xe41fe2ed,
        ),
        steps(
            0x50b8a394, 0x51df4fe6, 0x4fc99520, 0x631d5bf5,
            0x3f3e3d3c, 0x2b2a2928, 0xe1d630b6, 0x80dead25,
            0xbb0d17eb, 0x6b4382cb, 0x8ddf0703, 0xaa065a32,
            0x83f3b470, 0xc8e69c85,
        ),
        steps(
            0xa7292395, 0x6e08a576, 0x373e4ab4, 0x589dfc5e,
            0x3b3a3938, 0x23222120, 0x506c0243, 0x6d35b53f,
            0x355b53a5, 0xfe1d08f1, 0xe0c3d8a2, 0x95ca9f0e,
            0x887a3275, 0x531eded0,
        ),
        steps(
            0xc0ebdd5a, 0x337ef0f9, 0x83f3b470, 0x531eded0,
            0x1f1e1d1c, 0x0b0a0908, 0x1388eb6f, 0x5ff8acc0,
            0xb9b2f506, 0x35bf4096, 0x7e8ba137, 0x4e0a0d0a,
            0x5afe29e7, 0xa14b34e1,
        ),
        steps(
            0xcd7eb974, 0xaa065a32, 0x887a3275, 0xe96c06aa,
            0x17161514, 0x0f0e0d0c, 0x8e9b28ba, 0x05e1c8cc,
            0xb68a9a6c, 0x2e1067f7, 0xa38afe92, 0x9233f3fb,
            0x1c183505, 0x658d9a99,
        ),
        steps(
            0x8ddf0703, 0x95ca9f0e, 0xfcee411c, 0xe41fe2ed,
            0x03020100, 0x07060504, 0x26aba711, 0xcded7219,
            0x42eb03d0, 0x45fcc2b4, 0xfb9f1e2e, 0x6a20882b,
            0xdda967ac, 0x9abe63dc,
        ),
        steps(
            0xe0c3d8a2, 0xfa9568e3, 0x8b687bf2, 0xc8e69c85,
            0x1b1a1918, 0x13121110, 0xf6735a9d, 0x264ab15d,
            0x5180ba87, 0xc6183e95, 0x2fd01d0a, 0xefae4067,
            0xf16a82aa, 0x9fe9c823,
        ),
        steps(
            0x7e8ba137, 0xefae4067, 0xdda967ac, 0x658d9a99,
            0x27262524, 0x3b3a3938, 0x956006c2, 0x8fe95ab1,
            0x7a055899, 0x9c5bf0ed, 0x60839aab, 0x649dd6d7,
            0xc1023103, 0x46fcd86a,
        ),
        steps(
            0xa38afe92, 0x4e0a0d0a, 0xf16a82aa, 0x9abe63dc,
            0x2f2e2d2c, 0x17161514, 0x20c338c8, 0x02d02753,
            0x4c7f3d27, 0x5b14ba7d, 0x3aa9752f, 0x4b3861bb,
            0x9ee0faf6, 0x5261bdcf,
        ),
        steps(
            0xfb9f1e2e, 0x9233f3fb, 0x5afe29e7, 0x9fe9c823,
            0x23222120, 0x33323130, 0xb0f53349, 0xaf8c45ba,
            0x56685903, 0xfb6a2f1c, 0x93b3aa33, 0x6454baee,
            0x85d13288, 0x2f68d985,
        ),
        steps(
            0x2fd01d0a, 0x6a20882b, 0x1c183505, 0xa14b34e1,
            0x3f3e3d3c, 0x07060504, 0xd92ee271, 0x54198882,
            0xf2a8ad6a, 0xd6907865, 0x344e6ff7, 0x07a32406,
            0x858b8b81, 0x92e2de17,
        ),
        steps(
            0x60839aab, 0x4b3861bb, 0x85d13288, 0x92e2de17,
            0x37363534, 0x0f0e0d0c, 0xe2f2319a, 0x3233e66c,
            0x755ea298, 0xef8d7010, 0x24342512, 0x0294337b,
            0x782a5bed, 0x02cbb955,
        ),
        steps(
            0x3aa9752f, 0x6454baee, 0x858b8b81, 0x46fcd86a,
            0x03020100, 0x2b2a2928, 0xa200311d, 0xa930b57c,
            0x6f03707d, 0xe977e4fc, 0x765b0fc1, 0x280b2450,
            0xaca29d68, 0x3d9f2ceb,
        ),
        steps(
            0x93b3aa33, 0x07a32406, 0xc1023103, 0x5261bdcf,
            0x0b0a0908, 0x1b1a1918, 0xa660d741, 0x1022c320,
            0x2b912504, 0x6a8ef401, 0xd19db379, 0xd768ddf6,
            0xa44c384b, 0x78bb1347,
        ),
        steps(
            0x344e6ff7, 0x649dd6d7, 0x9ee0faf6, 0x2f68d985,
            0x13121110, 0x1f1e1d1c, 0xabfe57de, 0x95b49a1a,
            0x2d3c7f8c, 0x8e5b8496, 0x60d10f14, 0x1a4b3f20,
            0xb02b0a17, 0x82ee8a8b,
        ),
        steps(
            0x24342512, 0x1a4b3f20, 0xa44c384b, 0x3d9f2ceb,
            0x2f2e2d2c, 0x3f3e3d3c, 0x6dad915e, 0x75d784ab,
            0x6201887d, 0xbdb55032, 0x22c35345, 0x5758eef4,
            0xd9a0fe80, 0x779f7603,
        ),
        steps(
            0x765b0fc1, 0x0294337b, 0xb02b0a17, 0x78bb1347,
            0x17161514, 0x03020100, 0x90055850, 0x1aef9d6c,
            0xfb42f2d5, 0x4b17e8be, 0xadf6f6bc, 0x3fc98c9d,
            0xfe29d3f3, 0x02e6e11e,
        ),
        steps(
            0xd19db379, 0x280b2450, 0x782a5bed, 0x82ee8a8b,
            0x07060504, 0x27262524, 0x00aedccd, 0xa7de67bf,
            0xce70de2d, 0x56468240, 0xcfb369b0, 0x4e31a967,
            0xbf0ad418, 0xf099f5eb,
        ),
        steps(
            0x60d10f14, 0xd768ddf6, 0xaca29d68, 0x02cbb955,
            0x23222120, 0x1b1a1918, 0x5b5c0e2a, 0xb09b3492,
            0x6421f6ff, 0xb77f5997, 0x27115bd4, 0x262e52a3,
            0xa7b26501, 0x43906e02,
        ),
        steps(
            0x22c35345, 0x3fc98c9d, 0xbf0ad418, 0x43906e02,
            0x3b3a3938, 0x2b2a2928, 0x9dc7191a, 0xef209ea3,
            0x3623b26f, 0x7718de57, 0xb811e0e5, 0x1c0fa44a,
            0xe8f2bbad, 0xb2cf093e,
        ),
        steps(
            0xadf6f6bc, 0x4e31a967, 0xa7b26501, 0x779f7603,
            0x0b0a0908, 0x33323130, 0x0732a92b, 0xcc9c8eb7,
            0x86dad5ae, 0xdf2870ad, 0x07016912, 0xe1145ce0,
            0x46b2fec7, 0xbfd82919,
        ),
        steps(
            0xcfb369b0, 0x262e52a3, 0xd9a0fe80, 0x02e6e11e,
            0x0f0e0d0c, 0x13121110, 0x04efc95f, 0x62a27cc5,
            0x01e20489, 0x28410609, 0x7aa45734, 0x3ebb2d2a,
            0x3f34e9da, 0x3d52e551,
        ),
        steps(
            0x27115bd4, 0x5758eef4, 0xfe29d3f3, 0xf099f5eb,
            0x1f1e1d1c, 0x37363534, 0x9d8867e4, 0xff0c761a,
            0x90394104, 0x920f6d11, 0xd3cb1332, 0x3098eee7,
            0xb37b0582, 0x2341c47e,
        ),
        0xb811e0e5u32 ^ 0x3f34e9dau32 == 0x8725093f,
        0x07016912u32 ^ 0xb37b0582u32 == 0xb47a6c90,
        0x7aa45734u32 ^ 0xe8f2bbadu32 == 0x9256ec99,
        0xd3cb1332u32 ^ 0x46b2fec7u32 == 0x9579edf5,
        0x3098eee7u32 ^ 0xbfd82919u32 == 0x8f40c7fe,
        0x1c0fa44au32 ^ 0x3d52e551u32 == 0x215d411b,
        0xe1145ce0u32 ^ 0x2341c47eu32 == 0xc255989e,
        0x3ebb2d2au32 ^ 0xb2cf093eu32 == 0x8c742414,
{
}

/// Round 0 of that block.
#[verifier::spinoff_prover]
proof fn lemma_counted_round_0(v: Seq<u32>, m: Seq<u32>)
    requires
        reached(
            v,
            m,
            0,
            (
                (0x01234567, 0x89abcdef, 0xfedcba98, 0x76543210),
                (0x00112233, 0x44556677, 0x8899aabb, 0xccddeeff),
                (0x6a09e667, 0xbb67ae85, 0x3c6ef372, 0xa54ff53a),
                (0x00000007, 0x00000005, 0x00000040, 0x00000001),
            ),
            (
                (0x03020100, 0x07060504, 0x0b0a0908, 0x0f0e0d0c),
                (0x13121110, 0x17161514, 0x1b1a1918, 0x1f1e1d1c),
                (0x23222120, 0x27262524, 0x2b2a2928, 0x2f2e2d2c),
                (0x33323130, 0x37363534, 0x3b3a3938, 0x3f3e3d3c),
            ),
        ),
    ensures
        reached(
            v,
            m,
            1,
            (
                (0x3b225faf, 0xd8bf6034, 0x45ddf97d, 0x96c0f707),
                (0x684fecec, 0x0416d0cb, 0x753383e7, 0xd454d34a),
                (0xf35fdbb3, 0x1d942b19, 0xe443f237, 0xea43f8c0),
                (0xc54bac7a, 0x37fe662f, 0x745be84b, 0x11443bc9),
            ),
            (
                (0x0b0a0908, 0x1b1a1918, 0x0f0e0d0c, 0x2b2a2928),
                (0x1f1e1d1c, 0x03020100, 0x13121110, 0x37363534),
                (0x07060504, 0x2f2e2d2c, 0x33323130, 0x17161514),
                (0x27262524, 0x3b3a3938, 0x3f3e3d3c, 0x23222120),
            ),
        ),
{
    reveal(reached);
    lemma_counted_steps();
    lemma_round(
        rounds_of(v, m, 0),
        schedule(m, 0),
        (
            (0x01234567, 0x89abcdef, 0xfedcba98, 0x76543210),
            (0x00112233, 0x44556677, 0x8899aabb, 0xccddeeff),
            (0x6a09e667, 0xbb67ae85, 0x3c6ef372, 0xa54ff53a),
            (0x00000007, 0x00000005, 0x00000040, 0x00000001),
        ),
        (
            (0x03020100, 0x07060504, 0x0b0a0908, 0x0f0e0d0c),
            (0x13121110, 0x17161514, 0x1b1a1918, 0x1f1e1d1c),
            (0x23222120, 0x27262524, 0x2b2a2928, 0x2f2e2d2c),
            (0x33323130, 0x37363534, 0x3b3a3938, 0x3f3e3d3c),
        ),
        (
            (0x0436689a, 0x8aed2b7c, 0xd2a6ea9d, 0x689d0436),
            (0xd90b3d6e, 0x1e7bc86e, 0xf8d38790, 0x3d6bd90b),
            (0x9a887663, 0x7413a0b2, 0xb2928dfa, 0x76239a88),
            (0x5e4c3a27, 0xd7913abb, 0xdf765386, 0x3a265e4c),
        ),
        (
            (0x9629991a, 0x8cea9168, 0xffa59f3a, 0x2cfeb49d),
            (0x069512e8, 0x6b84e89c, 0xdc0f865b, 0xe33bfecb),
            (0x25b22c29, 0x044feb7e, 0x53e61fb0, 0xa15391b6),
            (0x54fb91fe, 0xdc8ce817, 0x91e53155, 0xb26eddcf),
        ),
        (
            (0x24d0a2d6, 0xef2b97b5, 0xd2ffb66e, 0x7f1996be),
            (0x360f278e, 0x73820b7a, 0x24f84c46, 0x93131af1),
            (0x35714570, 0xd9367ed9, 0xbb617584, 0xbbbbd64a),
            (0x1d205c9e, 0x3a625d2d, 0xa93842ce, 0xcd28bc73),
        ),
        (
            (0x3b225faf, 0x0416d0cb, 0xe443f237, 0x11443bc9),
            (0xd8bf6034, 0x753383e7, 0xea43f8c0, 0xc54bac7a),
            (0x45ddf97d, 0xd454d34a, 0xf35fdbb3, 0x37fe662f),
            (0x96c0f707, 0x684fecec, 0x1d942b19, 0x745be84b),
        ),
    );
    lemma_next_round(v, m, 0);
}

/// Round 1 of that block.
#[verifier::spinoff_prover]
proof fn lemma_counted_round_1(v: Seq<u32>, m: Seq<u32>)
    requires
        reached(
            v,
            m,
            1,
            (
                (0x3b225faf, 0xd8bf6034, 0x45ddf97d, 0x96c0f707),
                (0x684fecec, 0x0416d0cb, 0x753383e7, 0xd454d34a),
                (0xf35fdbb3, 0x1d942b19, 0xe443f237, 0xea43f8c0),
                (0xc54bac7a, 0x37fe662f, 0x745be84b, 0x11443bc9),
            ),
            (
                (0x0b0a0908, 0x1b1a1918, 0x0f0e0d0c, 0x2b2a2928),
                (0x1f1e1d1c, 0x03020100, 0x13121110, 0x37363534),
                (0x07060504, 0x2f2e2d2c, 0x33323130, 0x17161514),
                (0x27262524, 0x3b3a3938, 0x3f3e3d3c, 0x23222120),
            ),
        ),
    ensures
        reached(
            v,
            m,
            2,
            (
                (0xae0d0687, 0x27ccea78, 0xf50d8ae2, 0xafd18a7f),
                (0x5061276d, 0xf5a715b3, 0x5cbbe6f9, 0x995852d2),
                (0xa96ec9f0, 0xd6525b38, 0xe796d514, 0x1488bca0),
                (0xd315373f, 0xa7f4bd14, 0xf1ec0f19, 0xce25f30f),
            ),
            (
                (0x0f0e0d0c, 0x13121110, 0x2b2a2928, 0x33323130),
                (0x37363534, 0x0b0a0908, 0x1f1e1d1c, 0x3b3a3938),
                (0x1b1a1918, 0x17161514, 0x27262524, 0x03020100),
                (0x2f2e2d2c, 0x3f3e3d3c, 0x23222120, 0x07060504),
            ),
        ),
{
    reveal(reached);
    lemma_counted_steps();
    lemma_round(
        rounds_of(v, m, 1),
        schedule(m, 1),
        (
            (0x3b225faf, 0xd8bf6034, 0x45ddf97d, 0x96c0f707),
            (0x684fecec, 0x0416d0cb, 0x753383e7, 0xd454d34a),
            (0xf35fdbb3, 0x1d942b19, 0xe443f237, 0xea43f8c0),
            (0xc54bac7a, 0x37fe662f, 0x745be84b, 0x11443bc9),
        ),
        (
            (0x0b0a0908, 0x1b1a1918, 0x0f0e0d0c, 0x2b2a2928),
            (0x1f1e1d1c, 0x03020100, 0x13121110, 0x37363534),
            (0x07060504, 0x2f2e2d2c, 0x33323130, 0x17161514),
            (0x27262524, 0x3b3a3938, 0x3f3e3d3c, 0x23222120),
        ),
        (
            (0xae7c55a3, 0xa068576a, 0xed3946ea, 0xf9d96b37),
            (0xebe43e0b, 0x7f871afd, 0x75b90733, 0x5824dc1a),
            (0xda2f9a80, 0x34c223c2, 0x570fa0ab, 0x72cbae74),
            (0x7e27db61, 0xb691eb8b, 0xcaec6823, 0xe0a86f63),
        ),
        (
            (0x69fec625, 0xfabf4273, 0xffc96e97, 0x129027ad),
            (0x96958230, 0xd9be0144, 0xa087b891, 0x2aceb15e),
            (0x11f3bf42, 0xfd7361f6, 0x8d72d8bc, 0x36633811),
            (0x6beffc20, 0x7b71cc88, 0x0e77afb6, 0x438b4793),
        ),
        (
            (0x4ac2cc6d, 0x341c0cee, 0x1970e205, 0x8bfe0949),
            (0xc73b1556, 0x497bc00e, 0x41738561, 0x32fbd5ab),
            (0xb48bb0ee, 0x0547a0bc, 0x017a0cdc, 0x01b09e45),
            (0xa5ed7bcf, 0xe6c1ed90, 0xe4664c1f, 0x43de938e),
        ),
        (
            (0xae0d0687, 0xf5a715b3, 0xe796d514, 0xce25f30f),
            (0x27ccea78, 0x5cbbe6f9, 0x1488bca0, 0xd315373f),
            (0xf50d8ae2, 0x995852d2, 0xa96ec9f0, 0xa7f4bd14),
            (0xafd18a7f, 0x5061276d, 0xd6525b38, 0xf1ec0f19),
        ),
    );
    lemma_next_round(v, m, 1);
}

/// Round 2 of that block.
#[verifier::spinoff_prover]
proof fn lemma_counted_round_2(v: Seq<u32>, m: Seq<u32>)
    requires
        reached(
            v,
            m,
            2,
            (
                (0xae0d0687, 0x27ccea78, 0xf50d8ae2, 0xafd18a7f),
                (0x5061276d, 0xf5a715b3, 0x5cbbe6f9, 0x995852d2),
                (0xa96ec9f0, 0xd6525b38, 0xe796d514, 0x1488bca0),
                (0xd315373f, 0xa7f4bd14, 0xf1ec0f19, 0xce25f30f),
            ),
            (
                (0x0f0e0d0c, 0x13121110, 0x2b2a2928, 0x33323130),
                (0x37363534, 0x0b0a0908, 0x1f1e1d1c, 0x3b3a3938),
                (0x1b1a1918, 0x17161514, 0x27262524, 0x03020100),
                (0x2f2e2d2c, 0x3f3e3d3c, 0x23222120, 0x07060504),
            ),
        ),
    ensures
        reached(
            v,
            m,
            3,
            (
                (0x100ded2c, 0x29d5969c, 0xe58d4b57, 0x5b769854),
                (0x552c2632, 0x61c0c01c, 0xe0ec1b53, 0x31b40142),
                (0x5b9e2475, 0x88ebe880, 0x7d47f1d1, 0x916ec411),
                (0xf3ed19c8, 0x1fc0825d, 0xaa1a483f, 0x2a20e20c),
            ),
            (
                (0x2b2a2928, 0x1f1e1d1c, 0x33323130, 0x27262524),
                (0x3b3a3938, 0x0f0e0d0c, 0x37363534, 0x3f3e3d3c),
                (0x13121110, 0x03020100, 0x2f2e2d2c, 0x0b0a0908),
                (0x17161514, 0x23222120, 0x07060504, 0x1b1a1918),
            ),
        ),
{
    reveal(reached);
    lemma_counted_steps();
    lemma_round(
        rounds_of(v, m, 2),
        schedule(m, 2),
        (
            (0xae0d0687, 0x27ccea78, 0xf50d8ae2, 0xafd18a7f),
            (0x5061276d, 0xf5a715b3, 0x5cbbe6f9, 0x995852d2),
            (0xa96ec9f0, 0xd6525b38, 0xe796d514, 0x1488bca0),
            (0xd315373f, 0xa7f4bd14, 0xf1ec0f19, 0xce25f30f),
        ),
        (
            (0x0f0e0d0c, 0x13121110, 0x2b2a2928, 0x33323130),
            (0x37363534, 0x0b0a0908, 0x1f1e1d1c, 0x3b3a3938),
            (0x1b1a1918, 0x17161514, 0x27262524, 0x03020100),
            (0x2f2e2d2c, 0x3f3e3d3c, 0x23222120, 0x07060504),
        ),
        (
            (0x0d7c3b00, 0xf34e5cf8, 0xb5aea859, 0x0c3fde69),
            (0x489e2953, 0xf119f3d5, 0x6a9a4aa2, 0x9447ef6a),
            (0x88ffa70f, 0x8ded316a, 0x8fad4e27, 0xa8167913),
            (0x6847fa6d, 0x1d084b33, 0x1deb6302, 0x0962a662),
        ),
        (
            (0x13dca908, 0x51cb01ae, 0x16ce8bd0, 0x611fe377),
            (0x6cea4e58, 0x2cd91617, 0x9d92f843, 0x32f8ada1),
            (0x21f6e181, 0xab5fb43f, 0x22372ebf, 0x9289e098),
            (0xc08a7ed8, 0xd38b7a01, 0xd8b54bda, 0xbac9e8d8),
        ),
        (
            (0x5bcfd837, 0x9d27ffe1, 0x53270fc5, 0x30efe106),
            (0x3f7027bb, 0xe7636de1, 0x9d81aa49, 0xc4cc5e6f),
            (0x24b088ae, 0x819e856d, 0x3bdda218, 0x250f1648),
            (0x3577a1a6, 0x1ef8f1aa, 0xded1a041, 0x413ea7fe),
        ),
        (
            (0x100ded2c, 0x61c0c01c, 0x7d47f1d1, 0x2a20e20c),
            (0x29d5969c, 0xe0ec1b53, 0x916ec411, 0xf3ed19c8),
            (0xe58d4b57, 0x31b40142, 0x5b9e2475, 0x1fc0825d),
            (0x5b769854, 0x552c2632, 0x88ebe880, 0xaa1a483f),
        ),
    );
    lemma_next_round(v, m, 2);
}

/// Round 3 of that block.
#[verifier::spinoff_prover]
proof fn lemma_counted_round_3(v: Seq<u32>, m: Seq<u32>)
    requires
        reached(
            v,
            m,
            3,
            (
                (0x100ded2c, 0x29d5969c, 0xe58d4b57, 0x5b769854),
                (0x552c2632, 0x61c0c01c, 0xe0ec1b53, 0x31b40142),
                (0x5b9e2475, 0x88ebe880, 0x7d47f1d1, 0x916ec411),
                (0xf3ed19c8, 0x1fc0825d, 0xaa1a483f, 0x2a20e20c),
            ),
            (
                (0x2b2a2928, 0x1f1e1d1c, 0x33323130, 0x27262524),
                (0x3b3a3938, 0x0f0e0d0c, 0x37363534, 0x3f3e3d3c),
                (0x13121110, 0x03020100, 0x2f2e2d2c, 0x0b0a0908),
                (0x17161514, 0x23222120, 0x07060504, 0x1b1a1918),
            ),
        ),
    ensures
        reached(
            v,
            m,
            4,
            (
                (0xef9d24fe, 0x9bdc3575, 0x50b8a394, 0xa7292395),
                (0xb08c2117, 0xa73e2a44, 0x51df4fe6, 0x6e08a576),
                (0x6694c2bf, 0xd4ac4475, 0x4fc99520, 0x373e4ab4),
                (0xa4e8dba8, 0x3ed05641, 0x631d5bf5, 0x589dfc5e),
            ),
            (
                (0x33323130, 0x37363534, 0x27262524, 0x2f2e2d2c),
                (0x3f3e3d3c, 0x2b2a2928, 0x3b3a3938, 0x23222120),
                (0x1f1e1d1c, 0x0b0a0908, 0x17161514, 0x0f0e0d0c),
                (0x03020100, 0x07060504, 0x1b1a1918, 0x13121110),
            ),
        ),
{
    reveal(reached);
    lemma_counted_steps();
    lemma_round(
        rounds_of(v, m, 3),
        schedule(m, 3),
        (
            (0x100ded2c, 0x29d5969c, 0xe58d4b57, 0x5b769854),
            (0x552c2632, 0x61c0c01c, 0xe0ec1b53, 0x31b40142),
            (0x5b9e2475, 0x88ebe880, 0x7d47f1d1, 0x916ec411),
            (0xf3ed19c8, 0x1fc0825d, 0xaa1a483f, 0x2a20e20c),
        ),
        (
            (0x2b2a2928, 0x1f1e1d1c, 0x33323130, 0x27262524),
            (0x3b3a3938, 0x0f0e0d0c, 0x37363534, 0x3f3e3d3c),
            (0x13121110, 0x03020100, 0x2f2e2d2c, 0x0b0a0908),
            (0x17161514, 0x23222120, 0x07060504, 0x1b1a1918),
        ),
        (
            (0x90643c86, 0x1ccd5c0a, 0x80ec87fe, 0x254e6389),
            (0xbec887e8, 0x994ef614, 0x8ea18988, 0x05b5a108),
            (0x01b39fe2, 0x629b5c98, 0x55259d7a, 0xd7ddaba9),
            (0xc460ceca, 0x3138f81b, 0xbe35b251, 0x2cc6ee40),
        ),
        (
            (0xcc4fb5ac, 0xbd7431ab, 0xa6d589d4, 0x25e901d6),
            (0x7f3da320, 0x3c5ca5cf, 0xb71c118a, 0x287a8802),
            (0x735d0986, 0x09cca285, 0x84ca1e1c, 0x2fa480a2),
            (0x34d80421, 0x405cea52, 0x1f4dd13b, 0x61181eea),
        ),
        (
            (0x1bbe6c8b, 0xd0dcb773, 0xf72b98c2, 0x72617aa6),
            (0xb83872d1, 0xd899b99c, 0x92556f0c, 0x73079dd1),
            (0xcad008ec, 0x62c67988, 0x27c46c7e, 0x80eee2aa),
            (0xf9523ad0, 0x92bccfad, 0x718ee880, 0xba72d6f6),
        ),
        (
            (0xef9d24fe, 0xa73e2a44, 0x4fc99520, 0x589dfc5e),
            (0x9bdc3575, 0x51df4fe6, 0x373e4ab4, 0xa4e8dba8),
            (0x50b8a394, 0x6e08a576, 0x6694c2bf, 0x3ed05641),
            (0xa7292395, 0xb08c2117, 0xd4ac4475, 0x631d5bf5),
        ),
    );
    lemma_next_round(v, m, 3);
}

/// Round 4 of that block.
#[verifier::spinoff_prover]
proof fn lemma_counted_round_4(v: Seq<u32>, m: Seq<u32>)
    requires
        reached(
            v,
            m,
            4,
            (
                (0xef9d24fe, 0x9bdc3575, 0x50b8a394, 0xa7292395),
                (0xb08c2117, 0xa73e2a44, 0x51df4fe6, 0x6e08a576),
                (0x6694c2bf, 0xd4ac4475, 0x4fc99520, 0x373e4ab4),
                (0xa4e8dba8, 0x3ed05641, 0x631d5bf5, 0x589dfc5e),
            ),
            (
                (0x33323130, 0x37363534, 0x27262524, 0x2f2e2d2c),
                (0x3f3e3d3c, 0x2b2a2928, 0x3b3a3938, 0x23222120),
                (0x1f1e1d1c, 0x0b0a0908, 0x17161514, 0x0f0e0d0c),
                (0x03020100, 0x07060504, 0x1b1a1918, 0x13121110),
            ),
        ),
    ensures
        reached(
            v,
            m,
            5,
            (
                (0x7e8ba137, 0xa38afe92, 0xfb9f1e2e, 0x2fd01d0a),
                (0xefae4067, 0x4e0a0d0a, 0x9233f3fb, 0x6a20882b),
                (0xdda967ac, 0xf16a82aa, 0x5afe29e7, 0x1c183505),
                (0x658d9a99, 0x9abe63dc, 0x9fe9c823, 0xa14b34e1),
            ),
            (
                (0x27262524, 0x3b3a3938, 0x2f2e2d2c, 0x17161514),
                (0x23222120, 0x33323130, 0x3f3e3d3c, 0x07060504),
                (0x37363534, 0x0f0e0d0c, 0x03020100, 0x2b2a2928),
                (0x0b0a0908, 0x1b1a1918, 0x13121110, 0x1f1e1d1c),
            ),
        ),
{
    reveal(reached);
    lemma_counted_steps();
    lemma_round(
        rounds_of(v, m, 4),
        schedule(m, 4),
        (
            (0xef9d24fe, 0x9bdc3575, 0x50b8a394, 0xa7292395),
            (0xb08c2117, 0xa73e2a44, 0x51df4fe6, 0x6e08a576),
            (0x6694c2bf, 0xd4ac4475, 0x4fc99520, 0x373e4ab4),
            (0xa4e8dba8, 0x3ed05641, 0x631d5bf5, 0x589dfc5e),
        ),
        (
            (0x33323130, 0x37363534, 0x27262524, 0x2f2e2d2c),
            (0x3f3e3d3c, 0x2b2a2928, 0x3b3a3938, 0x23222120),
            (0x1f1e1d1c, 0x0b0a0908, 0x17161514, 0x0f0e0d0c),
            (0x03020100, 0x07060504, 0x1b1a1918, 0x13121110),
        ),
        (
            (0xd35b7745, 0xb65a30e1, 0x13823a72, 0xaced77b3),
            (0x6a4084dd, 0x3410076b, 0xa7489905, 0xd29c5490),
            (0xe1d630b6, 0x80dead25, 0xbb0d17eb, 0x6b4382cb),
            (0x506c0243, 0x6d35b53f, 0x355b53a5, 0xfe1d08f1),
        ),
        (
            (0xc0ebdd5a, 0xfa9568e3, 0xfcee411c, 0xe96c06aa),
            (0xcd7eb974, 0x337ef0f9, 0x8b687bf2, 0xe41fe2ed),
            (0x8ddf0703, 0xaa065a32, 0x83f3b470, 0xc8e69c85),
            (0xe0c3d8a2, 0x95ca9f0e, 0x887a3275, 0x531eded0),
        ),
        (
            (0x1388eb6f, 0x5ff8acc0, 0xb9b2f506, 0x35bf4096),
            (0x8e9b28ba, 0x05e1c8cc, 0xb68a9a6c, 0x2e1067f7),
            (0x26aba711, 0xcded7219, 0x42eb03d0, 0x45fcc2b4),
            (0xf6735a9d, 0x264ab15d, 0x5180ba87, 0xc6183e95),
        ),
        (
            (0x7e8ba137, 0x4e0a0d0a, 0x5afe29e7, 0xa14b34e1),
            (0xa38afe92, 0x9233f3fb, 0x1c183505, 0x658d9a99),
            (0xfb9f1e2e, 0x6a20882b, 0xdda967ac, 0x9abe63dc),
            (0x2fd01d0a, 0xefae4067, 0xf16a82aa, 0x9fe9c823),
        ),
    );
    lemma_next_round(v, m, 4);
}

/// Round 5 of that block.
#[verifier::spinoff_prover]
proof fn lemma_counted_round_5(v: Seq<u32>, m: Seq<u32>)
    requires
        reached(
            v,
            m,
            5,
            (
                (0x7e8ba137, 0xa38afe92, 0xfb9f1e2e, 0x2fd01d0a),
                (0xefae4067, 0x4e0a0d0a, 0x9233f3fb, 0x6a20882b),
                (0xdda967ac, 0xf16a82aa, 0x5afe29e7, 0x1c183505),
                (0x658d9a99, 0x9abe63dc, 0x9fe9c823, 0xa14b34e1),
            ),
            (
                (0x27262524, 0x3b3a3938, 0x2f2e2d2c, 0x17161514),
                (0x23222120, 0x33323130, 0x3f3e3d3c, 0x07060504),
                (0x37363534, 0x0f0e0d0c, 0x03020100, 0x2b2a2928),
                (0x0b0a0908, 0x1b1a1918, 0x13121110, 0x1f1e1d1c),
            ),
        ),
    ensures
        reached(
            v,
            m,
            6,
            (
                (0x24342512, 0x765b0fc1, 0xd19db379, 0x60d10f14),
                (0x1a4b3f20, 0x0294337b, 0x280b2450, 0xd768ddf6),
                (0xa44c384b, 0xb02b0a17, 0x782a5bed, 0xaca29d68),
                (0x3d9f2ceb, 0x78bb1347, 0x82ee8a8b, 0x02cbb955),
            ),
            (
                (0x2f2e2d2c, 0x3f3e3d3c, 0x17161514, 0x03020100),
                (0x07060504, 0x27262524, 0x23222120, 0x1b1a1918),
                (0x3b3a3938, 0x2b2a2928, 0x0b0a0908, 0x33323130),
                (0x0f0e0d0c, 0x13121110, 0x1f1e1d1c, 0x37363534),
            ),
        ),
{
    reveal(reached);
    lemma_counted_steps();
    lemma_round(
        rounds_of(v, m, 5),
        schedule(m, 5),
        (
            (0x7e8ba137, 0xa38afe92, 0xfb9f1e2e, 0x2fd01d0a),
            (0xefae4067, 0x4e0a0d0a, 0x9233f3fb, 0x6a20882b),
            (0xdda967ac, 0xf16a82aa, 0x5afe29e7, 0x1c183505),
            (0x658d9a99, 0x9abe63dc, 0x9fe9c823, 0xa14b34e1),
        ),
        (
            (0x27262524, 0x3b3a3938, 0x2f2e2d2c, 0x17161514),
            (0x23222120, 0x33323130, 0x3f3e3d3c, 0x07060504),
            (0x37363534, 0x0f0e0d0c, 0x03020100, 0x2b2a2928),
            (0x0b0a0908, 0x1b1a1918, 0x13121110, 0x1f1e1d1c),
        ),
        (
            (0x956006c2, 0x8fe95ab1, 0x7a055899, 0x9c5bf0ed),
            (0x20c338c8, 0x02d02753, 0x4c7f3d27, 0x5b14ba7d),
            (0xb0f53349, 0xaf8c45ba, 0x56685903, 0xfb6a2f1c),
            (0xd92ee271, 0x54198882, 0xf2a8ad6a, 0xd6907865),
        ),
        (
            (0x60839aab, 0x649dd6d7, 0xc1023103, 0x46fcd86a),
            (0x3aa9752f, 0x4b3861bb, 0x9ee0faf6, 0x5261bdcf),
            (0x93b3aa33, 0x6454baee, 0x85d13288, 0x2f68d985),
            (0x344e6ff7, 0x07a32406, 0x858b8b81, 0x92e2de17),
        ),
        (
            (0xe2f2319a, 0x3233e66c, 0x755ea298, 0xef8d7010),
            (0xa200311d, 0xa930b57c, 0x6f03707d, 0xe977e4fc),
            (0xa660d741, 0x1022c320, 0x2b912504, 0x6a8ef401),
            (0xabfe57de, 0x95b49a1a, 0x2d3c7f8c, 0x8e5b8496),
        ),
        (
            (0x24342512, 0x0294337b, 0x782a5bed, 0x02cbb955),
            (0x765b0fc1, 0x280b2450, 0xaca29d68, 0x3d9f2ceb),
            (0xd19db379, 0xd768ddf6, 0xa44c384b, 0x78bb1347),
            (0x60d10f14, 0x1a4b3f20, 0xb02b0a17, 0x82ee8a8b),
        ),
    );
    lemma_next_round(v, m, 5);
}

/// Round 6 of that block.
#[verifier::spinoff_prover]
proof fn lemma_counted_round_6(v: Seq<u32>, m: Seq<u32>)
    requires
        reached(
            v,
            m,
            6,
            (
                (0x24342512, 0x765b0fc1, 0xd19db379, 0x60d10f14),
                (0x1a4b3f20, 0x0294337b, 0x280b2450, 0xd768ddf6),
                (0xa44c384b, 0xb02b0a17, 0x782a5bed, 0xaca29d68),
                (0x3d9f2ceb, 0x78bb1347, 0x82ee8a8b, 0x02cbb955),
            ),
            (
                (0x2f2e2d2c, 0x3f3e3d3c, 0x17161514, 0x03020100),
                (0x07060504, 0x27262524, 0x23222120, 0x1b1a1918),
                (0x3b3a3938, 0x2b2a2928, 0x0b0a0908, 0x33323130),
                (0x0f0e0d0c, 0x13121110, 0x1f1e1d1c, 0x37363534),
            ),
        ),
    ensures
        reached(
            v,
            m,
            7,
            (
                (0xb811e0e5, 0x07016912, 0x7aa45734, 0xd3cb1332),
                (0x3098eee7, 0x1c0fa44a, 0xe1145ce0, 0x3ebb2d2a),
                (0x3f34e9da, 0xb37b0582, 0xe8f2bbad, 0x46b2fec7),
                (0xbfd82919, 0x3d52e551, 0x2341c47e, 0xb2cf093e),
            ),
            (
                (0x17161514, 0x23222120, 0x03020100, 0x0b0a0908),
                (0x1b1a1918, 0x2f2e2d2c, 0x07060504, 0x13121110),
                (0x3f3e3d3c, 0x33323130, 0x0f0e0d0c, 0x27262524),
                (0x2b2a2928, 0x1f1e1d1c, 0x37363534, 0x3b3a3938),
            ),
        ),
{
    reveal(reached);
    lemma_counted_steps();
    lemma_round(
        rounds_of(v, m, 6),
        schedule(m, 6),
        (
            (0x24342512, 0x765b0fc1, 0xd19db379, 0x60d10f14),
            (0x1a4b3f20, 0x0294337b, 0x280b2450, 0xd768ddf6),
            (0xa44c384b, 0xb02b0a17, 0x782a5bed, 0xaca29d68),
            (0x3d9f2ceb, 0x78bb1347, 0x82ee8a8b, 0x02cbb955),
        ),
        (
            (0x2f2e2d2c, 0x3f3e3d3c, 0x17161514, 0x03020100),
            (0x07060504, 0x27262524, 0x23222120, 0x1b1a1918),
            (0x3b3a3938, 0x2b2a2928, 0x0b0a0908, 0x33323130),
            (0x0f0e0d0c, 0x13121110, 0x1f1e1d1c, 0x37363534),
        ),
        (
            (0x6dad915e, 0x75d784ab, 0x6201887d, 0xbdb55032),
            (0x90055850, 0x1aef9d6c, 0xfb42f2d5, 0x4b17e8be),
            (0x00aedccd, 0xa7de67bf, 0xce70de2d, 0x56468240),
            (0x5b5c0e2a, 0xb09b3492, 0x6421f6ff, 0xb77f5997),
        ),
        (
            (0x22c35345, 0x5758eef4, 0xd9a0fe80, 0x779f7603),
            (0xadf6f6bc, 0x3fc98c9d, 0xfe29d3f3, 0x02e6e11e),
            (0xcfb369b0, 0x4e31a967, 0xbf0ad418, 0xf099f5eb),
            (0x27115bd4, 0x262e52a3, 0xa7b26501, 0x43906e02),
        ),
        (
            (0x9dc7191a, 0xef209ea3, 0x3623b26f, 0x7718de57),
            (0x0732a92b, 0xcc9c8eb7, 0x86dad5ae, 0xdf2870ad),
            (0x04efc95f, 0x62a27cc5, 0x01e20489, 0x28410609),
            (0x9d8867e4, 0xff0c761a, 0x90394104, 0x920f6d11),
        ),
        (
            (0xb811e0e5, 0x1c0fa44a, 0xe8f2bbad, 0xb2cf093e),
            (0x07016912, 0xe1145ce0, 0x46b2fec7, 0xbfd82919),
            (0x7aa45734, 0x3ebb2d2a, 0x3f34e9da, 0x3d52e551),
            (0xd3cb1332, 0x3098eee7, 0xb37b0582, 0x2341c47e),
        ),
    );
    lemma_next_round(v, m, 6);
}

/// A block of the bytes `0, 1, .., 63`, first in the chunk that its counter names, from eight
/// words that differ.
#[verifier::spinoff_prover]
pub proof fn counted_block_compresses_to_its_words(cv: Seq<u32>, m: Seq<u32>)
    requires
        cv.len() == 8,
        cv[0] == 0x01234567,
        cv[1] == 0x89abcdef,
        cv[2] == 0xfedcba98,
        cv[3] == 0x76543210,
        cv[4] == 0x00112233,
        cv[5] == 0x44556677,
        cv[6] == 0x8899aabb,
        cv[7] == 0xccddeeff,
        m.len() == 16,
        m[0] == 0x03020100,
        m[1] == 0x07060504,
        m[2] == 0x0b0a0908,
        m[3] == 0x0f0e0d0c,
        m[4] == 0x13121110,
        m[5] == 0x17161514,
        m[6] == 0x1b1a1918,
        m[7] == 0x1f1e1d1c,
        m[8] == 0x23222120,
        m[9] == 0x27262524,
        m[10] == 0x2b2a2928,
        m[11] == 0x2f2e2d2c,
        m[12] == 0x33323130,
        m[13] == 0x37363534,
        m[14] == 0x3b3a3938,
        m[15] == 0x3f3e3d3c,
    ensures
        compressed(cv, m, 0x500000007, 64, 1) == seq![
            0x8725093fu32, 0xb47a6c90, 0x9256ec99, 0x9579edf5,
            0x8f40c7fe, 0x215d411b, 0xc255989e, 0x8c742414,
        ],
{
    let v = initial_state(cv, 0x500000007, 64, 1);
    lemma_start(
        v,
        m,
        (
            (0x01234567, 0x89abcdef, 0xfedcba98, 0x76543210),
            (0x00112233, 0x44556677, 0x8899aabb, 0xccddeeff),
            (0x6a09e667, 0xbb67ae85, 0x3c6ef372, 0xa54ff53a),
            (0x00000007, 0x00000005, 0x00000040, 0x00000001),
        ),
        (
            (0x03020100, 0x07060504, 0x0b0a0908, 0x0f0e0d0c),
            (0x13121110, 0x17161514, 0x1b1a1918, 0x1f1e1d1c),
            (0x23222120, 0x27262524, 0x2b2a2928, 0x2f2e2d2c),
            (0x33323130, 0x37363534, 0x3b3a3938, 0x3f3e3d3c),
        ),
    );
    lemma_counted_round_0(v, m);
    lemma_counted_round_1(v, m);
    lemma_counted_round_2(v, m);
    lemma_counted_round_3(v, m);
    lemma_counted_round_4(v, m);
    lemma_counted_round_5(v, m);
    lemma_counted_round_6(v, m);
    lemma_end(
        cv,
        m,
        0x500000007,
        64,
        1,
        (
            (0xb811e0e5, 0x07016912, 0x7aa45734, 0xd3cb1332),
            (0x3098eee7, 0x1c0fa44a, 0xe1145ce0, 0x3ebb2d2a),
            (0x3f34e9da, 0xb37b0582, 0xe8f2bbad, 0x46b2fec7),
            (0xbfd82919, 0x3d52e551, 0x2341c47e, 0xb2cf093e),
        ),
        (
            (0x17161514, 0x23222120, 0x03020100, 0x0b0a0908),
            (0x1b1a1918, 0x2f2e2d2c, 0x07060504, 0x13121110),
            (0x3f3e3d3c, 0x33323130, 0x0f0e0d0c, 0x27262524),
            (0x2b2a2928, 0x1f1e1d1c, 0x37363534, 0x3b3a3938),
        ),
    );
    lemma_counted_steps();
}

} // verus!
