//! SHA-256 leaves and a SHA-256 two-to-one compression for Merkle trees.

use crate::utils::serialization::{FixedSizeSerializeBytes, SerializeBytes, encoded_items};
use vstd::prelude::*;

verus! {

/// What the SHA-256 block function makes of a state and a 64-byte block.
pub uninterp spec fn sha256_block(state: Seq<u32>, block: Seq<u8>) -> Seq<u32>;

/// The initial hash values.
pub open spec fn sha256_iv() -> Seq<u32> {
    seq![
        0x6a09e667u32,
        0xbb67ae85,
        0x3c6ef372,
        0xa54ff53a,
        0x510e527f,
        0x9b05688c,
        0x1f83d9ab,
        0x5be0cd19,
    ]
}

/// Byte `i` of a word, the first most significant.
pub open spec fn be_byte(x: int, i: int, n: nat) -> u8
    decreases n - i,
{
    if i >= n - 1 {
        (x % 0x100) as u8
    } else {
        be_byte(x / 0x100, i + 1, n)
    }
}

/// The length of a message with its padding: whole blocks that leave room for nine more bytes.
pub open spec fn padded_len(n: nat) -> nat {
    ((n + 9 + 63) / 64 * 64) as nat
}

/// A message with its padding: a terminator byte, zeros, and the bit length in eight bytes, most
/// significant first.
pub open spec fn padded_bytes(data: Seq<u8>) -> Seq<u8> {
    let (n, total) = (data.len() as int, padded_len(data.len()) as int);
    Seq::new(
        total as nat,
        |i: int|
            if i < n {
                data[i]
            } else if i == n {
                0x80
            } else if i < total - 8 {
                0
            } else {
                be_byte(8 * n, i - (total - 8), 8)
            },
    )
}

/// The state after the first `n` blocks of a message.
pub open spec fn chained(state: Seq<u32>, bytes: Seq<u8>, n: nat) -> Seq<u32>
    decreases n,
{
    if n == 0 {
        state
    } else {
        sha256_block(
            chained(state, bytes, (n - 1) as nat),
            bytes.subrange(64 * (n - 1), 64 * (n as int)),
        )
    }
}

/// The bytes of words, each word's most significant byte first.
pub open spec fn be_words(words: Seq<u32>) -> Seq<u8> {
    Seq::new(4 * words.len(), |i: int| be_byte(words[i / 4] as int, i % 4, 4))
}

/// The bytes of words, each word's least significant byte first.
pub open spec fn le_words(words: Seq<u32>) -> Seq<u8> {
    Seq::new(4 * words.len(), |i: int| be_byte(words[i / 4] as int, 3 - i % 4, 4))
}

/// The SHA-256 digest: the block function chained over the padded message.
pub open spec fn sha256(data: Seq<u8>) -> Seq<u8> {
    be_words(
        chained(sha256_iv(), padded_bytes(data), (padded_len(data.len()) / 64) as nat),
    )
}

/// `sha2::block_api::compress256` on one block.
///
/// The state becomes what the block function makes of the state and the block. The result depends
/// on nothing else.
#[verifier::external_body]
pub(crate) fn compress256(state: &mut [u32; 8], block: &[u8; 64])
    ensures
        final(state)@ == sha256_block(old(state)@, block@),
{
    sha2::block_api::compress256(state, std::slice::from_ref(block));
}

/// `sha2::Sha256::digest`.
///
/// The result is the block function chained over the message with its padding, the state's words
/// written most significant byte first. The bit length must fit the eight bytes it is written in.
#[verifier::external_body]
pub(crate) fn sha256_digest(data: &[u8]) -> (r: [u8; 32])
    requires
        8 * data.len() <= u64::MAX,
    ensures
        r@ == sha256(data@),
{
    <sha2::Sha256 as sha2::Digest>::digest(data).into()
}

/// `bytemuck::must_cast` from a word to its bytes in memory.
///
/// The bytes are the word's own, in one of the two orders; which one is the machine's.
#[verifier::external_body]
pub(crate) fn word_in_memory(word: u32) -> (r: [u8; 4])
    ensures
        r@ == be_words(seq![word]) || r@ == le_words(seq![word]),
{
    bytemuck::must_cast::<u32, [u8; 4]>(word)
}

/// The order of a word's bytes in memory.
#[derive(Clone, Copy, Debug, PartialEq, Eq, Structural)]
pub enum ByteOrder {
    /// The least significant byte first.
    Little,
    /// The most significant byte first.
    Big,
}

impl ByteOrder {
    /// The bytes of words in this order.
    pub open spec fn bytes(self, words: Seq<u32>) -> Seq<u8> {
        match self {
            ByteOrder::Little => le_words(words),
            ByteOrder::Big => be_words(words),
        }
    }

    /// Whether the word one, laid out in memory, can show this order.
    pub closed spec fn shown_in_memory(self) -> bool {
        exists|bytes: [u8; 4]| #[trigger]
            call_ensures(word_in_memory, (1u32,), bytes) && bytes@ == self.bytes(seq![1u32])
    }

    /// The machine's order, read off a word in memory.
    ///
    /// Which of the two it is rests on the machine, and nothing is claimed of that.
    pub fn native() -> (r: Self)
        ensures
            r.shown_in_memory(),
    {
        // Called as a value, which ties what came back to the call.
        let lay_out = word_in_memory;
        let probe = lay_out(1);
        match Self::of_bytes(1, probe) {
            Some(order) => order,
            None => ByteOrder::Little,
        }
    }

    /// The order a word's bytes in memory show.
    pub fn of_bytes(word: u32, bytes: [u8; 4]) -> (r: Option<Self>)
        ensures
            match r {
                Some(order) => bytes@ == order.bytes(seq![word]),
                None => bytes@ != be_words(seq![word]) && bytes@ != le_words(seq![word]),
            },
            bytes@ == le_words(seq![word]) ==> r == Some(ByteOrder::Little),
    {
        let le = le_bytes4(word);
        let be = be_bytes4(word);
        if bytes[0] == le[0] && bytes[1] == le[1] && bytes[2] == le[2] && bytes[3] == le[3] {
            assert(bytes@ =~= le@);
            Some(ByteOrder::Little)
        } else if bytes[0] == be[0] && bytes[1] == be[1] && bytes[2] == be[2] && bytes[3]
            == be[3] {
            assert(bytes@ =~= be@);
            Some(ByteOrder::Big)
        } else {
            None
        }
    }
}

/// The bytes of a word, most significant first.
fn be_bytes4(x: u32) -> (r: [u8; 4])
    ensures
        r@ == be_words(seq![x]),
        r@.len() == 4,
        r[0] == x / 0x1000000,
        r[1] == (x / 0x10000) % 0x100,
        r[2] == (x / 0x100) % 0x100,
        r[3] == x % 0x100,
{
    let r: [u8; 4] = [
        (x / 0x1000000) as u8,
        ((x / 0x10000) % 0x100) as u8,
        ((x / 0x100) % 0x100) as u8,
        (x % 0x100) as u8,
    ];
    proof {
        reveal_with_fuel(be_byte, 5);
        assert(r@ =~= be_words(seq![x]));
    }
    r
}

/// The bytes of a word, least significant first.
fn le_bytes4(x: u32) -> (r: [u8; 4])
    ensures
        r@ == le_words(seq![x]),
        r@.len() == 4,
{
    let r: [u8; 4] = [
        (x % 0x100) as u8,
        ((x / 0x100) % 0x100) as u8,
        ((x / 0x10000) % 0x100) as u8,
        (x / 0x1000000) as u8,
    ];
    proof {
        reveal_with_fuel(be_byte, 5);
        assert(r@ =~= le_words(seq![x]));
    }
    r
}

/// A message with its padding.
fn pad(data: &[u8]) -> (r: Vec<u8>)
    requires
        8 * data.len() <= u64::MAX,
        padded_len(data.len() as nat) <= usize::MAX,
    ensures
        r@ == padded_bytes(data@),
{
    let n = data.len();
    let total: usize = (n + 9 + 63) / 64 * 64;
    let bits: u64 = 8 * (n as u64);
    let ghost want = padded_bytes(data@);
    let mut r: Vec<u8> = Vec::new();
    let mut i: usize = 0;
    while i < total
        invariant
            i <= total,
            n == data.len(),
            total == padded_len(n as nat),
            n + 9 <= total,
            8 * n <= u64::MAX,
            bits == 8 * n,
            want == padded_bytes(data@),
            r.len() == i,
            forall|k: int| 0 <= k < i ==> #[trigger] r[k] == want[k],
        decreases total - i,
    {
        let byte: u8 = if i < n {
            data[i]
        } else if i == n {
            0x80
        } else if i < total - 8 {
            0
        } else {
            be_byte64(bits, i - (total - 8))
        };
        r.push(byte);
        i = i + 1;
    }
    assert(r@ =~= want);
    r
}

/// Byte `i` of eight, the first most significant.
fn be_byte64(x: u64, i: usize) -> (r: u8)
    requires
        i < 8,
    ensures
        r == be_byte(x as int, i as int, 8),
{
    let mut y: u64 = x;
    let mut k: usize = i;
    while k < 7
        invariant
            i <= k <= 7,
            be_byte(x as int, i as int, 8) == be_byte(y as int, k as int, 8),
        decreases 7 - k,
    {
        y = y / 0x100;
        k = k + 1;
    }
    (y % 0x100) as u8
}

/// One block of a padded message.
fn block_at(bytes: &Vec<u8>, b: usize) -> (r: [u8; 64])
    requires
        64 * b + 64 <= bytes.len(),
    ensures
        r@ == bytes@.subrange(64 * b, 64 * b + 64),
{
    let mut r: [u8; 64] = [0; 64];
    let mut i: usize = 0;
    while i < 64
        invariant
            i <= 64,
            64 * b + 64 <= bytes.len(),
            forall|k: int| 0 <= k < i ==> #[trigger] r[k] == bytes[64 * b + k],
        decreases 64 - i,
    {
        r[i] = bytes[64 * b + i];
        i = i + 1;
    }
    assert(r@ =~= bytes@.subrange(64 * b, 64 * b + 64));
    r
}

/// A state's words in one byte order.
pub fn state_bytes(order: ByteOrder, state: [u32; 8]) -> (r: [u8; 32])
    ensures
        r@ == order.bytes(state@),
{
    let mut r: [u8; 32] = [0; 32];
    let mut w: usize = 0;
    while w < 8
        invariant
            w <= 8,
            forall|k: int| 0 <= k < 4 * w ==> #[trigger] r[k] == order.bytes(state@)[k],
        decreases 8 - w,
    {
        let x = state[w];
        let word = match order {
            ByteOrder::Little => le_bytes4(x),
            ByteOrder::Big => be_bytes4(x),
        };
        let ghost before = r;
        r[4 * w] = word[0];
        r[4 * w + 1] = word[1];
        r[4 * w + 2] = word[2];
        r[4 * w + 3] = word[3];
        proof {
            assert forall|k: int| 0 <= k < 4 * (w + 1) implies #[trigger] r[k] == order.bytes(
                state@,
            )[k] by {
                if k < 4 * w {
                    assert(r[k] == before[k]);
                } else {
                    let j = k - 4 * w;
                    assert(k / 4 == w && k % 4 == j);
                    assert(word@[j] == order.bytes(seq![x])[j]);
                    assert(r[k] == word@[j]);
                }
            }
        }
        w = w + 1;
    }
    assert(r@ =~= order.bytes(state@));
    r
}

/// The word whose bytes are given, most significant first.
fn word_from_be(b0: u8, b1: u8, b2: u8, b3: u8) -> (r: u32)
    ensures
        be_byte(r as int, 0, 4) == b0,
        be_byte(r as int, 1, 4) == b1,
        be_byte(r as int, 2, 4) == b2,
        be_byte(r as int, 3, 4) == b3,
{
    let r: u32 = b3 as u32 + 0x100 * b2 as u32 + 0x10000 * b1 as u32 + 0x1000000 * b0 as u32;
    proof {
        reveal_with_fuel(be_byte, 5);
    }
    r
}

/// The words whose bytes are given, in one byte order.
pub fn state_from_bytes(order: ByteOrder, bytes: [u8; 32]) -> (r: [u32; 8])
    ensures
        order.bytes(r@) == bytes@,
{
    let mut r: [u32; 8] = [0; 8];
    let mut w: usize = 0;
    while w < 8
        invariant
            w <= 8,
            forall|k: int| 0 <= k < 4 * w ==> order.bytes(r@)[k] == #[trigger] bytes[k],
        decreases 8 - w,
    {
        let (b0, b1, b2, b3) = (
            bytes[4 * w],
            bytes[4 * w + 1],
            bytes[4 * w + 2],
            bytes[4 * w + 3],
        );
        let x: u32 = match order {
            ByteOrder::Little => word_from_be(b3, b2, b1, b0),
            ByteOrder::Big => word_from_be(b0, b1, b2, b3),
        };
        let ghost before = r;
        r[w] = x;
        proof {
            assert forall|k: int| 0 <= k < 4 * (w + 1) implies order.bytes(r@)[k]
                == #[trigger] bytes[k] by {
                if k < 4 * w {
                    assert(order.bytes(before@)[k] == bytes[k]);
                    assert(r[k / 4] == before[k / 4]);
                } else {
                    assert(k / 4 == w);
                    assert(k % 4 == 0 || k % 4 == 1 || k % 4 == 2 || k % 4 == 3);
                }
            }
        }
        w = w + 1;
    }
    assert(order.bytes(r@) =~= bytes@);
    r
}

/// Two digests as one block, the left one first.
pub open spec fn pair_block(left: Seq<u8>, right: Seq<u8>) -> Seq<u8> {
    left + right
}

/// Two digests as one block.
fn pack_pair(left: &[u8; 32], right: &[u8; 32]) -> (r: [u8; 64])
    ensures
        r@ == pair_block(left@, right@),
{
    let mut r: [u8; 64] = [0; 64];
    let mut i: usize = 0;
    while i < 32
        invariant
            i <= 32,
            forall|k: int| 0 <= k < i ==> #[trigger] r[k] == left[k],
            forall|k: int| 32 <= k < 32 + i ==> #[trigger] r[k] == right[k - 32],
        decreases 32 - i,
    {
        r[i] = left[i];
        r[32 + i] = right[i];
        i = i + 1;
    }
    assert(r@ =~= pair_block(left@, right@));
    r
}

/// A two-to-one compression function for SHA-256 digests.
#[derive(Clone, Copy, Debug)]
pub struct Sha256Compression {
    /// The state every compression starts from.
    pub initial_state: [u32; 8],
    /// The order words are written to bytes in.
    pub order: ByteOrder,
}

/// The text whose digest is the initial state.
pub open spec fn compression_tag() -> Seq<u8> {
    seq![
        0x42u8, 0x49, 0x4e, 0x49, 0x55, 0x53, 0x20, 0x53, 0x48, 0x41, 0x2d, 0x32, 0x35, 0x36, 0x20,
        0x43, 0x4f, 0x4d, 0x50, 0x52, 0x45, 0x53, 0x53,
    ]
}

impl Default for Sha256Compression {
    fn default() -> (r: Self)
        ensures
            r.order.shown_in_memory(),
            r.order.bytes(r.initial_state@) == sha256(compression_tag()),
    {
        // The bytes of "BINIUS SHA-256 COMPRESS".
        let tag: [u8; 23] = [
            0x42, 0x49, 0x4e, 0x49, 0x55, 0x53, 0x20, 0x53, 0x48, 0x41, 0x2d, 0x32, 0x35, 0x36,
            0x20, 0x43, 0x4f, 0x4d, 0x50, 0x52, 0x45, 0x53, 0x53,
        ];
        assert(tag@ =~= compression_tag());
        let order = ByteOrder::native();
        let digest = sha256_digest(&tag);
        Sha256Compression { initial_state: state_from_bytes(order, digest), order }
    }
}

impl Sha256Compression {
    /// What two digests compress to.
    pub open spec fn compressed(&self, left: Seq<u8>, right: Seq<u8>) -> Seq<u8> {
        self.order.bytes(sha256_block(self.initial_state@, pair_block(left, right)))
    }

    /// Compresses two digests into one.
    pub fn compress(&self, input: [[u8; 32]; 2]) -> (r: [u8; 32])
        ensures
            r@ == self.compressed(input@[0]@, input@[1]@),
    {
        let block = pack_pair(&input[0], &input[1]);
        let mut state = self.initial_state;
        compress256(&mut state, &block);
        state_bytes(self.order, state)
    }
}

/// Advances four states by one block each.
pub fn compress256_x4(states: &mut [[u32; 8]; 4], blocks: &[[u8; 64]; 4])
    ensures
        forall|l: int|
            0 <= l < 4 ==> (#[trigger] final(states)@[l])@ == sha256_block(
                old(states)@[l]@,
                blocks@[l]@,
            ),
{
    let ghost before = states@;
    let mut l: usize = 0;
    while l < 4
        invariant
            l <= 4,
            before.len() == 4,
            forall|k: int|
                0 <= k < l ==> (#[trigger] states@[k])@ == sha256_block(before[k]@, blocks@[k]@),
            forall|k: int| l <= k < 4 ==> #[trigger] states@[k] == before[k],
        decreases 4 - l,
    {
        let mut state = states[l];
        compress256(&mut state, &blocks[l]);
        states[l] = state;
        l = l + 1;
    }
}

/// Hashes four messages of one length, a block of each at a time.
pub fn sha256_x4(inputs: &[Vec<u8>; 4]) -> (r: [[u8; 32]; 4])
    requires
        8 * inputs[0].len() <= u64::MAX,
        padded_len(inputs[0].len() as nat) <= usize::MAX,
        forall|l: int| 0 <= l < 4 ==> (#[trigger] inputs[l]).len() == inputs[0].len(),
    ensures
        forall|l: int| 0 <= l < 4 ==> (#[trigger] r@[l])@ == sha256(inputs@[l]@),
{
    let ghost total = padded_len(inputs[0].len() as nat);
    let ghost n = (total / 64) as int;
    assert(inputs[1].len() == inputs[0].len());
    assert(inputs[2].len() == inputs[0].len());
    assert(inputs[3].len() == inputs[0].len());
    let p0 = pad(inputs[0].as_slice());
    let p1 = pad(inputs[1].as_slice());
    let p2 = pad(inputs[2].as_slice());
    let p3 = pad(inputs[3].as_slice());
    let start: [u32; 8] = iv_words();
    let mut states: [[u32; 8]; 4] = [start; 4];
    let n_blocks: usize = p0.len() / 64;
    let mut b: usize = 0;
    while b < n_blocks
        invariant
            b <= n_blocks,
            64 * n_blocks == p0.len(),
            p1.len() == p0.len(),
            p2.len() == p0.len(),
            p3.len() == p0.len(),
            states@[0]@ == chained(sha256_iv(), p0@, b as nat),
            states@[1]@ == chained(sha256_iv(), p1@, b as nat),
            states@[2]@ == chained(sha256_iv(), p2@, b as nat),
            states@[3]@ == chained(sha256_iv(), p3@, b as nat),
        decreases n_blocks - b,
    {
        let blocks: [[u8; 64]; 4] = [
            block_at(&p0, b),
            block_at(&p1, b),
            block_at(&p2, b),
            block_at(&p3, b),
        ];
        compress256_x4(&mut states, &blocks);
        b = b + 1;
    }
    let r: [[u8; 32]; 4] = [
        state_bytes(ByteOrder::Big, states[0]),
        state_bytes(ByteOrder::Big, states[1]),
        state_bytes(ByteOrder::Big, states[2]),
        state_bytes(ByteOrder::Big, states[3]),
    ];
    proof {
        assert(r@[0]@ == sha256(inputs@[0]@));
        assert(r@[1]@ == sha256(inputs@[1]@));
        assert(r@[2]@ == sha256(inputs@[2]@));
        assert(r@[3]@ == sha256(inputs@[3]@));
    }
    r
}

/// The initial hash values.
fn iv_words() -> (r: [u32; 8])
    ensures
        r@ == sha256_iv(),
{
    let r: [u32; 8] = [
        0x6a09e667,
        0xbb67ae85,
        0x3c6ef372,
        0xa54ff53a,
        0x510e527f,
        0x9b05688c,
        0x1f83d9ab,
        0x5be0cd19,
    ];
    assert(r@ =~= sha256_iv());
    r
}

/// The hash functions of a Merkle tree.
pub trait HashSuite {
    /// Hashes one leaf.
    type LeafHash;

    /// Compresses two child digests into their parent's.
    type Compression;

    /// Hashes leaves, several at a time.
    type ParLeafHash;

    /// Compresses inner nodes, several at a time.
    type ParCompression;
}

/// SHA-256 of one message.
#[derive(Clone, Copy, Debug, Default)]
pub struct Sha256LeafHash;

impl Sha256LeafHash {
    /// The digest of a message.
    pub fn digest(message: &[u8]) -> (r: [u8; 32])
        requires
            8 * message.len() <= u64::MAX,
        ensures
            r@ == sha256(message@),
    {
        sha256_digest(message)
    }
}

/// SHA-256 leaves, and the SHA-256 compression function for inner nodes.
#[derive(Clone, Copy, Debug, Default)]
pub struct Sha256HashSuite;

impl HashSuite for Sha256HashSuite {
    type LeafHash = Sha256LeafHash;

    type Compression = Sha256Compression;

    type ParLeafHash = ParallelSha256Digest;

    type ParCompression = ParallelSha256Compression;
}

/// Two-to-one compression of many pairs, four pairs at a time.
#[derive(Clone, Copy, Debug)]
pub struct ParallelSha256Compression {
    /// The compression every pair goes through.
    pub compression: Sha256Compression,
}

impl Default for ParallelSha256Compression {
    fn default() -> (r: Self)
        ensures
            r.compression.order.shown_in_memory(),
            r.compression.order.bytes(r.compression.initial_state@) == sha256(compression_tag()),
    {
        ParallelSha256Compression { compression: Sha256Compression::default() }
    }
}

impl ParallelSha256Compression {
    /// The compression every pair goes through.
    pub fn compression(&self) -> (r: &Sha256Compression)
        ensures
            *r == self.compression,
    {
        &self.compression
    }

    /// Compresses every pair of digests, in order.
    ///
    /// Full groups of four pairs run together; a shorter tail runs one pair at a time.
    pub fn parallel_compress(&self, inputs: &[[u8; 32]]) -> (r: Vec<[u8; 32]>)
        requires
            inputs.len() % 2 == 0,
        ensures
            2 * r.len() == inputs.len(),
            forall|i: int|
                0 <= i < r.len() ==> (#[trigger] r[i])@ == self.compression.compressed(
                    inputs[2 * i]@,
                    inputs[2 * i + 1]@,
                ),
    {
        let n: usize = inputs.len() / 2;
        let n_groups: usize = n / 4;
        let mut r: Vec<[u8; 32]> = Vec::new();
        let mut g: usize = 0;
        while g < n_groups
            invariant
                g <= n_groups,
                n_groups == n / 4,
                2 * n == inputs.len(),
                r.len() == 4 * g,
                forall|i: int|
                    0 <= i < r.len() ==> (#[trigger] r[i])@ == self.compression.compressed(
                        inputs[2 * i]@,
                        inputs[2 * i + 1]@,
                    ),
            decreases n_groups - g,
        {
            let at: usize = 8 * g;
            let blocks: [[u8; 64]; 4] = [
                pack_pair(&inputs[at], &inputs[at + 1]),
                pack_pair(&inputs[at + 2], &inputs[at + 3]),
                pack_pair(&inputs[at + 4], &inputs[at + 5]),
                pack_pair(&inputs[at + 6], &inputs[at + 7]),
            ];
            let mut states: [[u32; 8]; 4] = [self.compression.initial_state; 4];
            let ghost start = states@;
            compress256_x4(&mut states, &blocks);
            let order = self.compression.order;
            proof {
                assert(start[0]@ == self.compression.initial_state@);
                assert(start[1]@ == self.compression.initial_state@);
                assert(start[2]@ == self.compression.initial_state@);
                assert(start[3]@ == self.compression.initial_state@);
                assert(states@[0]@ == sha256_block(start[0]@, blocks@[0]@));
                assert(states@[1]@ == sha256_block(start[1]@, blocks@[1]@));
                assert(states@[2]@ == sha256_block(start[2]@, blocks@[2]@));
                assert(states@[3]@ == sha256_block(start[3]@, blocks@[3]@));
            }
            r.push(state_bytes(order, states[0]));
            r.push(state_bytes(order, states[1]));
            r.push(state_bytes(order, states[2]));
            r.push(state_bytes(order, states[3]));
            g = g + 1;
        }
        // The tail, at most three pairs.
        let mut i: usize = 4 * n_groups;
        while i < n
            invariant
                i <= n,
                2 * n == inputs.len(),
                r.len() == i,
                forall|k: int|
                    0 <= k < r.len() ==> (#[trigger] r[k])@ == self.compression.compressed(
                        inputs[2 * k]@,
                        inputs[2 * k + 1]@,
                    ),
            decreases n - i,
        {
            r.push(self.compression.compress([inputs[2 * i], inputs[2 * i + 1]]));
            i = i + 1;
        }
        r
    }
}

/// The largest leaf that fits in one block together with its padding.
pub const SINGLE_BLOCK_MAX_LEN: usize = 55;

/// SHA-256 digests of many leaves.
#[derive(Clone, Copy, Debug, Default)]
pub struct ParallelSha256Digest;

/// A leaf's bytes.
fn leaf_bytes<T: SerializeBytes>(leaf: &Vec<T>) -> (r: Vec<u8>)
    requires
        forall|i: int| 0 <= i < leaf.len() ==> (#[trigger] leaf@[i]).encodable(),
    ensures
        r@ == encoded_items(leaf@),
{
    let mut r: Vec<u8> = Vec::new();
    let mut i: usize = 0;
    assert(leaf@.take(0) =~= Seq::<T>::empty());
    while i < leaf.len()
        invariant
            i <= leaf.len(),
            r@ == encoded_items(leaf@.take(i as int)),
            forall|i: int| 0 <= i < leaf.len() ==> (#[trigger] leaf@[i]).encodable(),
        decreases leaf.len() - i,
    {
        proof {
            assert(leaf@[i as int].encodable());
            assert(leaf@.take(i + 1).drop_last() =~= leaf@.take(i as int));
        }
        let _ = leaf[i].serialize(&mut r);
        i = i + 1;
    }
    assert(leaf@.take(i as int) =~= leaf@);
    r
}

/// Items of a fixed size have a byte form.
proof fn lemma_fixed_encodable<T: FixedSizeSerializeBytes>(leaf: Seq<T>)
    ensures
        forall|i: int| 0 <= i < leaf.len() ==> (#[trigger] leaf[i]).encodable(),
{
    assert forall|i: int| 0 <= i < leaf.len() implies (#[trigger] leaf[i]).encodable() by {
        leaf[i].fixed_size();
    }
}

/// The bytes of a leaf whose items have a fixed size.
fn fixed_leaf_bytes<T: FixedSizeSerializeBytes>(leaf: &Vec<T>) -> (r: Vec<u8>)
    ensures
        r@ == encoded_items(leaf@),
{
    proof {
        lemma_fixed_encodable(leaf@);
    }
    leaf_bytes(leaf)
}

/// A leaf's bytes take the items' size times their number.
pub proof fn lemma_leaf_len<T: FixedSizeSerializeBytes>(leaf: Seq<T>)
    ensures
        encoded_items(leaf).len() == leaf.len() * T::BYTE_SIZE,
    decreases leaf.len(),
{
    if leaf.len() > 0 {
        lemma_leaf_len(leaf.drop_last());
        leaf.last().fixed_size();
        let (n, k) = (leaf.len() as int, T::BYTE_SIZE as int);
        assert((n - 1) * k + k == n * k) by (nonlinear_arith);
    } else {
        assert(0 * T::BYTE_SIZE == 0) by (nonlinear_arith);
    }
}

/// Leaves of one number of items, short enough to be hashed.
pub open spec fn leaves_fit<T: FixedSizeSerializeBytes>(
    leaves: Seq<Vec<T>>,
    n_items_per_input: nat,
) -> bool {
    &&& n_items_per_input * T::BYTE_SIZE <= isize::MAX
    &&& 8 * (n_items_per_input * T::BYTE_SIZE) <= u64::MAX
    &&& forall|i: int| 0 <= i < leaves.len() ==> (#[trigger] leaves[i]).len() == n_items_per_input
}

/// Hashes every leaf, four at a time.
fn digest_with_const_len_x4<T: FixedSizeSerializeBytes>(
    n_items_per_input: usize,
    leaves: &[Vec<T>],
) -> (r: Vec<[u8; 32]>)
    requires
        leaves_fit(leaves@, n_items_per_input as nat),
        leaves.len() % 4 == 0,
    ensures
        r.len() == leaves.len(),
        forall|i: int|
            0 <= i < r.len() ==> (#[trigger] r[i])@ == sha256(encoded_items(leaves[i]@)),
{
    let mut r: Vec<[u8; 32]> = Vec::new();
    let mut g: usize = 0;
    let n_groups: usize = leaves.len() / 4;
    while g < n_groups
        invariant
            g <= n_groups,
            4 * n_groups == leaves.len(),
            leaves_fit(leaves@, n_items_per_input as nat),
            r.len() == 4 * g,
            forall|i: int|
                0 <= i < r.len() ==> (#[trigger] r[i])@ == sha256(encoded_items(leaves[i]@)),
        decreases n_groups - g,
    {
        let inputs: [Vec<u8>; 4] = [
            fixed_leaf_bytes(&leaves[4 * g]),
            fixed_leaf_bytes(&leaves[4 * g + 1]),
            fixed_leaf_bytes(&leaves[4 * g + 2]),
            fixed_leaf_bytes(&leaves[4 * g + 3]),
        ];
        proof {
            assert(leaves@[4 * g].len() == n_items_per_input);
            assert(leaves@[4 * g + 1].len() == n_items_per_input);
            assert(leaves@[4 * g + 2].len() == n_items_per_input);
            assert(leaves@[4 * g + 3].len() == n_items_per_input);
            lemma_leaf_len(leaves@[4 * g]@);
            lemma_leaf_len(leaves@[4 * g + 1]@);
            lemma_leaf_len(leaves@[4 * g + 2]@);
            lemma_leaf_len(leaves@[4 * g + 3]@);
            vstd::layout::unsigned_int_max_values();
            vstd::layout::signed_int_min_max_values();
        }
        let digests = sha256_x4(&inputs);
        proof {
            assert(digests@[0]@ == sha256(inputs@[0]@));
            assert(digests@[1]@ == sha256(inputs@[1]@));
            assert(digests@[2]@ == sha256(inputs@[2]@));
            assert(digests@[3]@ == sha256(inputs@[3]@));
        }
        r.push(digests[0]);
        r.push(digests[1]);
        r.push(digests[2]);
        r.push(digests[3]);
        g = g + 1;
    }
    r
}

impl ParallelSha256Digest {
    /// The digest.
    pub fn new() -> (r: Self) {
        ParallelSha256Digest
    }

    /// Hashes every leaf on its own.
    pub fn digest<T: SerializeBytes>(&self, leaves: &[Vec<T>]) -> (r: Vec<[u8; 32]>)
        requires
            forall|i: int, j: int|
                #![trigger leaves[i]@[j]]
                0 <= i < leaves.len() && 0 <= j < leaves[i].len() ==> leaves[i]@[j].encodable(),
            forall|i: int|
                0 <= i < leaves.len() ==> 8 * encoded_items((#[trigger] leaves[i])@).len()
                    <= u64::MAX,
        ensures
            r.len() == leaves.len(),
            forall|i: int|
                0 <= i < r.len() ==> (#[trigger] r[i])@ == sha256(encoded_items(leaves[i]@)),
    {
        let mut r: Vec<[u8; 32]> = Vec::new();
        let mut i: usize = 0;
        while i < leaves.len()
            invariant
                i <= leaves.len(),
                r.len() == i,
                forall|i: int, j: int|
                    #![trigger leaves[i]@[j]]
                    0 <= i < leaves.len() && 0 <= j < leaves[i].len()
                        ==> leaves[i]@[j].encodable(),
                forall|k: int|
                    0 <= k < leaves.len() ==> 8 * encoded_items((#[trigger] leaves[k])@).len()
                        <= u64::MAX,
                forall|k: int|
                    0 <= k < r.len() ==> (#[trigger] r[k])@ == sha256(encoded_items(leaves[k]@)),
            decreases leaves.len() - i,
        {
            let bytes = leaf_bytes(&leaves[i]);
            assert(8 * encoded_items(leaves[i as int]@).len() <= u64::MAX);
            r.push(Sha256LeafHash::digest(bytes.as_slice()));
            i = i + 1;
        }
        r
    }

    /// Hashes leaves that all hold the same number of items.
    ///
    /// Whole groups of four run together. A short leaf takes a single block, whose padding is
    /// written once for all leaves.
    pub fn digest_with_const_len<T: FixedSizeSerializeBytes>(
        &self,
        n_items_per_input: usize,
        leaves: &[Vec<T>],
    ) -> (r: Vec<[u8; 32]>)
        requires
            leaves_fit(leaves@, n_items_per_input as nat),
        ensures
            r.len() == leaves.len(),
            forall|i: int|
                0 <= i < r.len() ==> (#[trigger] r[i])@ == sha256(encoded_items(leaves[i]@)),
    {
        if leaves.len() >= 4 && leaves.len() % 4 == 0 {
            return digest_with_const_len_x4(n_items_per_input, leaves);
        }
        proof {
            assert forall|i: int| 0 <= i < leaves.len() implies encoded_items(
                (#[trigger] leaves[i])@,
            ).len() == n_items_per_input * T::BYTE_SIZE by {
                assert(leaves@[i].len() == n_items_per_input);
                lemma_leaf_len(leaves[i]@);
            }
        }
        let leaf_len: usize = n_items_per_input * T::BYTE_SIZE;
        if leaf_len > SINGLE_BLOCK_MAX_LEN {
            proof {
                assert forall|i: int, j: int|
                    #![trigger leaves[i]@[j]]
                    0 <= i < leaves.len() && 0 <= j
                        < leaves[i].len() implies leaves[i]@[j].encodable() by {
                    lemma_fixed_encodable(leaves[i]@);
                }
            }
            return self.digest(leaves);
        }
        let mut template: [u8; 64] = [0; 64];
        template[leaf_len] = 0x80;
        let bits: u64 = 8 * (leaf_len as u64);
        let mut b: usize = 0;
        while b < 8
            invariant
                b <= 8,
                leaf_len <= 55,
                bits == 8 * leaf_len,
                forall|k: int|
                    0 <= k < 64 ==> #[trigger] template[k] == if k == leaf_len {
                        0x80
                    } else if 56 <= k < 56 + b {
                        be_byte(8 * leaf_len, k - 56, 8)
                    } else {
                        0
                    },
            decreases 8 - b,
        {
            template[56 + b] = be_byte64(bits, b);
            b = b + 1;
        }
        let mut r: Vec<[u8; 32]> = Vec::new();
        let mut i: usize = 0;
        while i < leaves.len()
            invariant
                i <= leaves.len(),
                leaf_len <= 55,
                r.len() == i,
                forall|k: int|
                    0 <= k < leaves.len() ==> encoded_items((#[trigger] leaves[k])@).len()
                        == leaf_len,
                forall|k: int|
                    0 <= k < 64 ==> #[trigger] template[k] == if k == leaf_len {
                        0x80
                    } else if 56 <= k {
                        be_byte(8 * leaf_len, k - 56, 8)
                    } else {
                        0
                    },
                forall|k: int|
                    0 <= k < r.len() ==> (#[trigger] r[k])@ == sha256(encoded_items(leaves[k]@)),
            decreases leaves.len() - i,
        {
            let bytes = fixed_leaf_bytes(&leaves[i]);
            assert(encoded_items(leaves[i as int]@).len() == leaf_len);
            // The message overwrites the front; the padding stays.
            let mut block = template;
            let mut k: usize = 0;
            while k < leaf_len
                invariant
                    k <= leaf_len,
                    leaf_len <= 55,
                    bytes.len() == leaf_len,
                    forall|x: int|
                        0 <= x < 64 ==> #[trigger] block[x] == if x < k {
                            bytes[x]
                        } else {
                            template[x]
                        },
                decreases leaf_len - k,
            {
                block[k] = bytes[k];
                k = k + 1;
            }
            let mut state = iv_words();
            compress256(&mut state, &block);
            proof {
                let p = padded_bytes(bytes@);
                assert(padded_len(bytes@.len()) == 64);
                assert(block@ =~= p.subrange(0, 64));
                reveal_with_fuel(chained, 2);
                assert(state@ == chained(sha256_iv(), p, 1));
            }
            r.push(state_bytes(ByteOrder::Big, state));
            i = i + 1;
        }
        r
    }
}

/// The block that a pair of digests is compressed through holds byte `k` of the left digest at
/// place `k` and byte `k` of the right digest at place `32 + k`.
pub proof fn compression_takes_both_digests(
    compression: Sha256Compression,
    pair: [[u8; 32]; 2],
    r: [u8; 32],
    block: Seq<u8>,
)
    requires
        call_ensures(Sha256Compression::compress, (&compression, pair), r),
        block.len() == 64,
        forall|k: int| 0 <= k < 32 ==> #[trigger] block[k] == pair@[0]@[k],
        forall|k: int| 32 <= k < 64 ==> #[trigger] block[k] == pair@[1]@[k - 32],
    ensures
        r@ == compression.order.bytes(sha256_block(compression.initial_state@, block)),
{
    assert(block =~= pair_block(pair@[0]@, pair@[1]@));
}

/// Each of many pairs is compressed through the block that holds byte `k` of its left digest at
/// place `k` and byte `k` of its right digest at place `32 + k`.
pub proof fn grouped_compression_takes_both_digests(
    grouped: ParallelSha256Compression,
    inputs: &[[u8; 32]],
    r: Vec<[u8; 32]>,
    i: int,
    block: Seq<u8>,
)
    requires
        inputs.len() % 2 == 0,
        call_ensures(ParallelSha256Compression::parallel_compress, (&grouped, inputs), r),
        0 <= 2 * i < inputs.len(),
        block.len() == 64,
        forall|k: int| 0 <= k < 32 ==> #[trigger] block[k] == inputs@[2 * i]@[k],
        forall|k: int| 32 <= k < 64 ==> #[trigger] block[k] == inputs@[2 * i + 1]@[k - 32],
    ensures
        r.len() == inputs.len() / 2,
        r@[i]@ == grouped.compression.order.bytes(
            sha256_block(grouped.compression.initial_state@, block),
        ),
{
    assert(block =~= pair_block(inputs@[2 * i]@, inputs@[2 * i + 1]@));
}

/// Equal blocks come from equal pairs of digests.
pub proof fn pairs_are_packed_apart(
    left: Seq<u8>,
    right: Seq<u8>,
    other_left: Seq<u8>,
    other_right: Seq<u8>,
)
    requires
        left.len() == 32,
        right.len() == 32,
        other_left.len() == 32,
        other_right.len() == 32,
        pair_block(left, right) == pair_block(other_left, other_right),
    ensures
        left == other_left,
        right == other_right,
{
    let block = pair_block(left, right);
    assert(left =~= block.take(32));
    assert(right =~= block.skip(32));
    assert(other_left =~= block.take(32));
    assert(other_right =~= block.skip(32));
}

/// A word's bytes are its digits in base 256: from the lowest in one order, from the highest in the
/// other.
pub proof fn bytes_are_the_digits_of_words(state: Seq<u32>, w: int)
    requires
        state.len() == 8,
        0 <= w < 8,
    ensures
        state[w] == ({
            let b = ByteOrder::Little.bytes(state);
            b[4 * w] + 0x100 * b[4 * w + 1] + 0x1_0000 * b[4 * w + 2] + 0x100_0000 * b[4 * w + 3]
        }),
        state[w] == ({
            let b = ByteOrder::Big.bytes(state);
            b[4 * w + 3] + 0x100 * b[4 * w + 2] + 0x1_0000 * b[4 * w + 1] + 0x100_0000 * b[4 * w]
        }),
{
    reveal_with_fuel(be_byte, 5);
    assert((4 * w) / 4 == w && (4 * w) % 4 == 0);
    assert((4 * w + 1) / 4 == w && (4 * w + 1) % 4 == 1);
    assert((4 * w + 2) / 4 == w && (4 * w + 2) % 4 == 2);
    assert((4 * w + 3) / 4 == w && (4 * w + 3) % 4 == 3);
}

/// Hashing leaves together or one by one gives the same digests.
pub proof fn grouped_compression_matches_single(
    compression: Sha256Compression,
    inputs: Seq<[u8; 32]>,
    grouped: Seq<[u8; 32]>,
    single: Seq<[u8; 32]>,
)
    requires
        grouped.len() == single.len(),
        2 * grouped.len() == inputs.len(),
        forall|i: int|
            0 <= i < grouped.len() ==> (#[trigger] grouped[i])@ == compression.compressed(
                inputs[2 * i]@,
                inputs[2 * i + 1]@,
            ),
        forall|i: int|
            0 <= i < single.len() ==> (#[trigger] single[i])@ == compression.compressed(
                inputs[2 * i]@,
                inputs[2 * i + 1]@,
            ),
    ensures
        forall|i: int| 0 <= i < grouped.len() ==> (#[trigger] grouped[i])@ == single[i]@,
{
}

} // verus!
