//! BLAKE3 block compression over lanes grouped four to a vector.

use vstd::prelude::*;

verus! {

/// The initialization vector.
pub open spec fn blake3_iv(w: int) -> u32 {
    if w == 0 {
        0x6A09E667
    } else if w == 1 {
        0xBB67AE85
    } else if w == 2 {
        0x3C6EF372
    } else if w == 3 {
        0xA54FF53A
    } else if w == 4 {
        0x510E527F
    } else if w == 5 {
        0x9B05688C
    } else if w == 6 {
        0x1F83D9AB
    } else {
        0x5BE0CD19
    }
}

/// Where each slot of the next round's message schedule comes from.
pub open spec fn permutation(w: int) -> int {
    if w == 0 {
        2
    } else if w == 1 {
        6
    } else if w == 2 {
        3
    } else if w == 3 {
        10
    } else if w == 4 {
        7
    } else if w == 5 {
        0
    } else if w == 6 {
        4
    } else if w == 7 {
        13
    } else if w == 8 {
        1
    } else if w == 9 {
        11
    } else if w == 10 {
        12
    } else if w == 11 {
        5
    } else if w == 12 {
        9
    } else if w == 13 {
        14
    } else if w == 14 {
        15
    } else {
        8
    }
}

/// The number of rounds.
pub const N_ROUNDS: usize = 7;

/// The widest interleave, counted in four-lane groups.
pub const MAX_GROUPS: usize = 4;

/// The sum of two words, wrapping around.
pub open spec fn wadd(x: u32, y: u32) -> u32 {
    ((x + y) % 0x1_0000_0000) as u32
}

/// A word rotated right.
pub open spec fn rotated(x: u32, r: u32) -> u32 {
    (x >> r) | (x << ((32 - r) as u32))
}

/// The mixing function on one lane: four state words and two message words.
pub open spec fn mixed(
    v: Seq<u32>,
    a: int,
    b: int,
    c: int,
    d: int,
    x: u32,
    y: u32,
) -> Seq<u32> {
    let v = v.update(a, wadd(wadd(v[a], v[b]), x));
    let v = v.update(d, rotated(v[d] ^ v[a], 16));
    let v = v.update(c, wadd(v[c], v[d]));
    let v = v.update(b, rotated(v[b] ^ v[c], 12));
    let v = v.update(a, wadd(wadd(v[a], v[b]), y));
    let v = v.update(d, rotated(v[d] ^ v[a], 8));
    let v = v.update(c, wadd(v[c], v[d]));
    v.update(b, rotated(v[b] ^ v[c], 7))
}

/// One round on one lane: the columns of the state, then its diagonals.
pub open spec fn round_of(v: Seq<u32>, m: Seq<u32>) -> Seq<u32> {
    let v = mixed(v, 0, 4, 8, 12, m[0], m[1]);
    let v = mixed(v, 1, 5, 9, 13, m[2], m[3]);
    let v = mixed(v, 2, 6, 10, 14, m[4], m[5]);
    let v = mixed(v, 3, 7, 11, 15, m[6], m[7]);
    let v = mixed(v, 0, 5, 10, 15, m[8], m[9]);
    let v = mixed(v, 1, 6, 11, 12, m[10], m[11]);
    let v = mixed(v, 2, 7, 8, 13, m[12], m[13]);
    mixed(v, 3, 4, 9, 14, m[14], m[15])
}

/// The message schedule after one permutation.
pub open spec fn permuted_schedule(m: Seq<u32>) -> Seq<u32> {
    Seq::new(16, |w: int| m[permutation(w)])
}

/// The message schedule of round `r`.
pub open spec fn schedule(m: Seq<u32>, r: nat) -> Seq<u32>
    decreases r,
{
    if r == 0 {
        m
    } else {
        permuted_schedule(schedule(m, (r - 1) as nat))
    }
}

/// The state after `r` rounds.
pub open spec fn rounds_of(v: Seq<u32>, m: Seq<u32>, r: nat) -> Seq<u32>
    decreases r,
{
    if r == 0 {
        v
    } else {
        round_of(rounds_of(v, m, (r - 1) as nat), schedule(m, (r - 1) as nat))
    }
}

/// The working state a block starts from.
pub open spec fn initial_state(cv: Seq<u32>, counter: u64, block_len: u32, flags: u32) -> Seq<u32> {
    Seq::new(
        16,
        |w: int|
            if w < 8 {
                cv[w]
            } else if w < 12 {
                blake3_iv(w - 8)
            } else if w == 12 {
                (counter % 0x1_0000_0000) as u32
            } else if w == 13 {
                (counter / 0x1_0000_0000) as u32
            } else if w == 14 {
                block_len
            } else {
                flags
            },
    )
}

/// One lane's chaining value after one block.
pub open spec fn compressed(
    cv: Seq<u32>,
    m: Seq<u32>,
    counter: u64,
    block_len: u32,
    flags: u32,
) -> Seq<u32> {
    let v = rounds_of(initial_state(cv, counter, block_len, flags), m, 7);
    Seq::new(8, |w: int| v[w] ^ v[w + 8])
}

/// Four lanes of one word.
#[derive(Clone, Copy, Debug, PartialEq, Eq)]
pub struct U32x4(pub [u32; 4]);

impl U32x4 {
    /// The same word in every lane.
    pub fn splat(x: u32) -> (r: Self)
        ensures
            forall|l: int| 0 <= l < 4 ==> #[trigger] r.0[l] == x,
    {
        U32x4([x, x, x, x])
    }

    /// The lane-wise sum, wrapping around.
    pub fn add(self, rhs: Self) -> (r: Self)
        ensures
            forall|l: int| 0 <= l < 4 ==> #[trigger] r.0[l] == wadd(self.0[l], rhs.0[l]),
    {
        let (a, b) = (self.0, rhs.0);
        U32x4(
            [
                a[0].wrapping_add(b[0]),
                a[1].wrapping_add(b[1]),
                a[2].wrapping_add(b[2]),
                a[3].wrapping_add(b[3]),
            ],
        )
    }

    /// The lane-wise exclusive-or.
    pub fn xor(self, rhs: Self) -> (r: Self)
        ensures
            forall|l: int| 0 <= l < 4 ==> #[trigger] r.0[l] == self.0[l] ^ rhs.0[l],
    {
        let (a, b) = (self.0, rhs.0);
        U32x4([a[0] ^ b[0], a[1] ^ b[1], a[2] ^ b[2], a[3] ^ b[3]])
    }

    /// Every lane rotated right.
    pub fn rotr(self, n: u32) -> (r: Self)
        requires
            0 < n < 32,
        ensures
            forall|l: int| 0 <= l < 4 ==> #[trigger] r.0[l] == rotated(self.0[l], n),
    {
        let a = self.0;
        let k: u32 = 32 - n;
        U32x4(
            [
                (a[0] >> n) | (a[0] << k),
                (a[1] >> n) | (a[1] << k),
                (a[2] >> n) | (a[2] << k),
                (a[3] >> n) | (a[3] << k),
            ],
        )
    }
}

/// One lane of one group's words.
pub open spec fn lane_of(v: [U32x4; 16], l: int) -> Seq<u32> {
    Seq::new(16, |w: int| v@[w].0@[l])
}

/// Adds a state word and a message word to a state word, in every group.
fn add_words<const S: usize>(
    v: &mut [[U32x4; 16]; S],
    m: &[[U32x4; 16]; S],
    a: usize,
    b: usize,
    x: usize,
)
    requires
        a < 16,
        b < 16,
        x < 16,
    ensures
        forall|s: int, l: int|
            0 <= s < S && 0 <= l < 4 ==> #[trigger] lane_of(final(v)@[s], l) == {
                let o = lane_of(old(v)@[s], l);
                o.update(
                    a as int,
                    wadd(wadd(o[a as int], o[b as int]), lane_of(m@[s], l)[x as int]),
                )
            },
{
    let ghost before = v@;
    let mut s: usize = 0;
    while s < S
        invariant
            s <= S,
            a < 16,
            b < 16,
            x < 16,
            v@.len() == S,
            before.len() == S,
            forall|k: int| s <= k < S ==> #[trigger] v@[k] == before[k],
            forall|k: int, l: int|
                0 <= k < s && 0 <= l < 4 ==> #[trigger] lane_of(v@[k], l) == {
                    let o = lane_of(before[k], l);
                    o.update(
                        a as int,
                        wadd(wadd(o[a as int], o[b as int]), lane_of(m@[k], l)[x as int]),
                    )
                },
        decreases S - s,
    {
        let mut row = v[s];
        let ghost old_row = row;
        row[a] = row[a].add(row[b]).add(m[s][x]);
        v[s] = row;
        proof {
            assert forall|l: int| 0 <= l < 4 implies #[trigger] lane_of(row, l) == ({
                let o = lane_of(old_row, l);
                o.update(
                    a as int,
                    wadd(wadd(o[a as int], o[b as int]), lane_of(m@[s as int], l)[x as int]),
                )
            }) by {
                let o = lane_of(old_row, l);
                assert(lane_of(row, l) =~= o.update(
                    a as int,
                    wadd(wadd(o[a as int], o[b as int]), lane_of(m@[s as int], l)[x as int]),
                ));
            }
        }
        s = s + 1;
    }
}

/// Adds one state word to another, in every group.
fn add_word<const S: usize>(v: &mut [[U32x4; 16]; S], c: usize, d: usize)
    requires
        c < 16,
        d < 16,
    ensures
        forall|s: int, l: int|
            0 <= s < S && 0 <= l < 4 ==> #[trigger] lane_of(final(v)@[s], l) == {
                let o = lane_of(old(v)@[s], l);
                o.update(c as int, wadd(o[c as int], o[d as int]))
            },
{
    let ghost before = v@;
    let mut s: usize = 0;
    while s < S
        invariant
            s <= S,
            c < 16,
            d < 16,
            v@.len() == S,
            before.len() == S,
            forall|k: int| s <= k < S ==> #[trigger] v@[k] == before[k],
            forall|k: int, l: int|
                0 <= k < s && 0 <= l < 4 ==> #[trigger] lane_of(v@[k], l) == {
                    let o = lane_of(before[k], l);
                    o.update(c as int, wadd(o[c as int], o[d as int]))
                },
        decreases S - s,
    {
        let mut row = v[s];
        let ghost old_row = row;
        row[c] = row[c].add(row[d]);
        v[s] = row;
        proof {
            assert forall|l: int| 0 <= l < 4 implies #[trigger] lane_of(row, l) == ({
                let o = lane_of(old_row, l);
                o.update(c as int, wadd(o[c as int], o[d as int]))
            }) by {
                let o = lane_of(old_row, l);
                assert(lane_of(row, l) =~= o.update(c as int, wadd(o[c as int], o[d as int])));
            }
        }
        s = s + 1;
    }
}

/// Exclusive-ors one state word into another and rotates it, in every group.
fn xor_rotate<const S: usize>(v: &mut [[U32x4; 16]; S], d: usize, a: usize, n: u32)
    requires
        d < 16,
        a < 16,
        0 < n < 32,
    ensures
        forall|s: int, l: int|
            0 <= s < S && 0 <= l < 4 ==> #[trigger] lane_of(final(v)@[s], l) == {
                let o = lane_of(old(v)@[s], l);
                o.update(d as int, rotated(o[d as int] ^ o[a as int], n))
            },
{
    let ghost before = v@;
    let mut s: usize = 0;
    while s < S
        invariant
            s <= S,
            d < 16,
            a < 16,
            0 < n < 32,
            v@.len() == S,
            before.len() == S,
            forall|k: int| s <= k < S ==> #[trigger] v@[k] == before[k],
            forall|k: int, l: int|
                0 <= k < s && 0 <= l < 4 ==> #[trigger] lane_of(v@[k], l) == {
                    let o = lane_of(before[k], l);
                    o.update(d as int, rotated(o[d as int] ^ o[a as int], n))
                },
        decreases S - s,
    {
        let mut row = v[s];
        let ghost old_row = row;
        row[d] = row[d].xor(row[a]).rotr(n);
        v[s] = row;
        proof {
            assert forall|l: int| 0 <= l < 4 implies #[trigger] lane_of(row, l) == ({
                let o = lane_of(old_row, l);
                o.update(d as int, rotated(o[d as int] ^ o[a as int], n))
            }) by {
                let o = lane_of(old_row, l);
                assert(lane_of(row, l) =~= o.update(
                    d as int,
                    rotated(o[d as int] ^ o[a as int], n),
                ));
            }
        }
        s = s + 1;
    }
}

/// Applies the mixing function to every four-lane group.
///
/// Each step runs over all groups before the next, so the groups' steps are independent.
fn quarter_round<const S: usize>(
    v: &mut [[U32x4; 16]; S],
    m: &[[U32x4; 16]; S],
    a: usize,
    b: usize,
    c: usize,
    d: usize,
    x: usize,
    y: usize,
)
    requires
        a < 16,
        b < 16,
        c < 16,
        d < 16,
        x < 16,
        y < 16,
    ensures
        forall|s: int, l: int|
            0 <= s < S && 0 <= l < 4 ==> #[trigger] lane_of(final(v)@[s], l) == mixed(
                lane_of(old(v)@[s], l),
                a as int,
                b as int,
                c as int,
                d as int,
                lane_of(m@[s], l)[x as int],
                lane_of(m@[s], l)[y as int],
            ),
{
    add_words(v, m, a, b, x);
    xor_rotate(v, d, a, 16);
    add_word(v, c, d);
    xor_rotate(v, b, c, 12);
    add_words(v, m, a, b, y);
    xor_rotate(v, d, a, 8);
    add_word(v, c, d);
    xor_rotate(v, b, c, 7);
}

/// Applies one round to every four-lane group.
fn round<const S: usize>(v: &mut [[U32x4; 16]; S], m: &[[U32x4; 16]; S])
    ensures
        forall|s: int, l: int|
            0 <= s < S && 0 <= l < 4 ==> #[trigger] lane_of(final(v)@[s], l) == round_of(
                lane_of(old(v)@[s], l),
                lane_of(m@[s], l),
            ),
{
    // The four columns of the state.
    quarter_round(v, m, 0, 4, 8, 12, 0, 1);
    quarter_round(v, m, 1, 5, 9, 13, 2, 3);
    quarter_round(v, m, 2, 6, 10, 14, 4, 5);
    quarter_round(v, m, 3, 7, 11, 15, 6, 7);
    // The four diagonals, which couple the columns.
    quarter_round(v, m, 0, 5, 10, 15, 8, 9);
    quarter_round(v, m, 1, 6, 11, 12, 10, 11);
    quarter_round(v, m, 2, 7, 8, 13, 12, 13);
    quarter_round(v, m, 3, 4, 9, 14, 14, 15);
}

/// Permutes every group's message schedule for the next round.
fn permute_schedule<const S: usize>(m: &mut [[U32x4; 16]; S])
    ensures
        forall|s: int, l: int|
            0 <= s < S && 0 <= l < 4 ==> #[trigger] lane_of(final(m)@[s], l) == permuted_schedule(
                lane_of(old(m)@[s], l),
            ),
{
    let ghost before = m@;
    let mut s: usize = 0;
    while s < S
        invariant
            s <= S,
            m@.len() == S,
            before.len() == S,
            forall|k: int| s <= k < S ==> #[trigger] m@[k] == before[k],
            forall|k: int, l: int|
                0 <= k < s && 0 <= l < 4 ==> #[trigger] lane_of(m@[k], l) == permuted_schedule(
                    lane_of(before[k], l),
                ),
        decreases S - s,
    {
        // Each slot reads from its source in the old schedule.
        let p = m[s];
        let row: [U32x4; 16] = [
            p[2],
            p[6],
            p[3],
            p[10],
            p[7],
            p[0],
            p[4],
            p[13],
            p[1],
            p[11],
            p[12],
            p[5],
            p[9],
            p[14],
            p[15],
            p[8],
        ];
        m[s] = row;
        proof {
            assert forall|l: int| 0 <= l < 4 implies #[trigger] lane_of(row, l)
                == permuted_schedule(lane_of(p, l)) by {
                assert(lane_of(row, l) =~= permuted_schedule(lane_of(p, l)));
            }
        }
        s = s + 1;
    }
}

/// The words of one lane across rows.
pub open spec fn row_lane<const N: usize>(rows: Seq<[u32; N]>, l: int) -> Seq<u32> {
    Seq::new(rows.len(), |w: int| rows[w]@[l])
}

/// The word of group `s` in a row, four lanes of it.
fn load<const N: usize>(row: &[u32; N], s: usize) -> (r: U32x4)
    requires
        4 * s + 4 <= N,
    ensures
        forall|l: int| 0 <= l < 4 ==> #[trigger] r.0[l] == row@[4 * s + l],
{
    U32x4([row[4 * s], row[4 * s + 1], row[4 * s + 2], row[4 * s + 3]])
}

/// Compresses one 64-byte block into each of `4 * S` chaining values.
///
/// Both buffers hold one row per word, a row the same word of every lane.
#[verifier::rlimit(40)]
fn compress_groups<const S: usize, const N: usize>(
    cv: &mut [[u32; N]; 8],
    block: &[[u32; N]; 16],
    counter: u64,
    block_len: u32,
    flags: u32,
)
    requires
        4 * S <= N,
    ensures
        forall|l: int|
            0 <= l < 4 * S ==> #[trigger] row_lane(final(cv)@, l) == compressed(
                row_lane(old(cv)@, l),
                row_lane(block@, l),
                counter,
                block_len,
                flags,
            ),
        forall|l: int|
            4 * S <= l < N ==> #[trigger] row_lane(final(cv)@, l) == row_lane(old(cv)@, l),
{
    let ghost before = cv@;
    let zero = U32x4::splat(0);
    // The message schedule and the working state, group by group.
    let mut m: [[U32x4; 16]; S] = [[zero; 16]; S];
    let mut v: [[U32x4; 16]; S] = [[zero; 16]; S];
    let lo: u32 = (counter % 0x1_0000_0000) as u32;
    let hi: u32 = (counter / 0x1_0000_0000) as u32;
    let mut s: usize = 0;
    while s < S
        invariant
            s <= S,
            4 * S <= N,
            m@.len() == S,
            v@.len() == S,
            before == cv@,
            lo == (counter % 0x1_0000_0000) as u32,
            hi == (counter / 0x1_0000_0000) as u32,
            forall|k: int, l: int|
                0 <= k < s && 0 <= l < 4 ==> #[trigger] lane_of(m@[k], l) == row_lane(
                    block@,
                    4 * k + l,
                ),
            forall|k: int, l: int|
                0 <= k < s && 0 <= l < 4 ==> #[trigger] lane_of(v@[k], l) == initial_state(
                    row_lane(before, 4 * k + l),
                    counter,
                    block_len,
                    flags,
                ),
        decreases S - s,
    {
        let mut words: [U32x4; 16] = [zero; 16];
        let mut state: [U32x4; 16] = [zero; 16];
        let mut w: usize = 0;
        while w < 16
            invariant
                w <= 16,
                s < S,
                4 * S <= N,
                forall|k: int, l: int|
                    0 <= k < w && 0 <= l < 4 ==> #[trigger] words@[k].0@[l] == block@[k]@[4 * s
                        + l],
            decreases 16 - w,
        {
            words[w] = load(&block[w], s);
            w = w + 1;
        }
        w = 0;
        while w < 8
            invariant
                w <= 8,
                s < S,
                4 * S <= N,
                before == cv@,
                forall|k: int, l: int|
                    0 <= k < w && 0 <= l < 4 ==> #[trigger] state@[k].0@[l] == before[k]@[4 * s
                        + l],
            decreases 8 - w,
        {
            state[w] = load(&cv[w], s);
            w = w + 1;
        }
        state[8] = U32x4::splat(0x6A09E667);
        state[9] = U32x4::splat(0xBB67AE85);
        state[10] = U32x4::splat(0x3C6EF372);
        state[11] = U32x4::splat(0xA54FF53A);
        state[12] = U32x4::splat(lo);
        state[13] = U32x4::splat(hi);
        state[14] = U32x4::splat(block_len);
        state[15] = U32x4::splat(flags);
        m[s] = words;
        v[s] = state;
        proof {
            assert forall|l: int| 0 <= l < 4 implies #[trigger] lane_of(words, l) == row_lane(
                block@,
                4 * s + l,
            ) by {
                assert(lane_of(words, l) =~= row_lane(block@, 4 * s + l));
            }
            assert forall|l: int| 0 <= l < 4 implies #[trigger] lane_of(state, l) == initial_state(
                row_lane(before, 4 * s + l),
                counter,
                block_len,
                flags,
            ) by {
                assert(lane_of(state, l) =~= initial_state(
                    row_lane(before, 4 * s + l),
                    counter,
                    block_len,
                    flags,
                ));
            }
        }
        s = s + 1;
    }
    let ghost (v0, m0) = (v@, m@);
    let mut r: usize = 0;
    while r < N_ROUNDS
        invariant
            r <= 7,
            v0.len() == S,
            m0.len() == S,
            forall|k: int, l: int|
                0 <= k < S && 0 <= l < 4 ==> #[trigger] lane_of(v@[k], l) == rounds_of(
                    lane_of(v0[k], l),
                    lane_of(m0[k], l),
                    r as nat,
                ),
            forall|k: int, l: int|
                0 <= k < S && 0 <= l < 4 && r < 7 ==> #[trigger] lane_of(m@[k], l) == schedule(
                    lane_of(m0[k], l),
                    r as nat,
                ),
        decreases 7 - r,
    {
        round(&mut v, &m);
        // No round follows the last, so its permutation would be dead work.
        if r < N_ROUNDS - 1 {
            permute_schedule(&mut m);
        }
        r = r + 1;
    }
    // The two halves of the final state folded together.
    let mut w: usize = 0;
    while w < 8
        invariant
            w <= 8,
            4 * S <= N,
            v@.len() == S,
            before.len() == 8,
            forall|k: int| w <= k < 8 ==> #[trigger] cv@[k] == before[k],
            forall|k: int, l: int|
                0 <= k < w && 0 <= l < N ==> #[trigger] cv@[k]@[l] == if l < 4 * S {
                    v@[l / 4]@[k].0@[l % 4] ^ v@[l / 4]@[k + 8].0@[l % 4]
                } else {
                    before[k]@[l]
                },
        decreases 8 - w,
    {
        let mut row = cv[w];
        let mut s: usize = 0;
        while s < S
            invariant
                s <= S,
                w < 8,
                4 * S <= N,
                v@.len() == S,
                before.len() == 8,
                forall|l: int|
                    0 <= l < N ==> #[trigger] row@[l] == if l < 4 * s {
                        v@[l / 4]@[w as int].0@[l % 4] ^ v@[l / 4]@[w + 8].0@[l % 4]
                    } else {
                        before[w as int]@[l]
                    },
            decreases S - s,
        {
            let x = v[s][w].xor(v[s][w + 8]);
            row[4 * s] = x.0[0];
            row[4 * s + 1] = x.0[1];
            row[4 * s + 2] = x.0[2];
            row[4 * s + 3] = x.0[3];
            s = s + 1;
        }
        cv[w] = row;
        w = w + 1;
    }
    proof {
        assert forall|l: int| 0 <= l < 4 * S implies #[trigger] row_lane(cv@, l) == compressed(
            row_lane(before, l),
            row_lane(block@, l),
            counter,
            block_len,
            flags,
        ) by {
            let (k, j) = (l / 4, l % 4);
            assert(4 * k + j == l);
            assert(lane_of(v0[k], j) == initial_state(
                row_lane(before, l),
                counter,
                block_len,
                flags,
            ));
            assert(lane_of(m0[k], j) == row_lane(block@, l));
            let end = lane_of(v@[k], j);
            assert(end == rounds_of(lane_of(v0[k], j), lane_of(m0[k], j), 7));
            let out = compressed(
                row_lane(before, l),
                row_lane(block@, l),
                counter,
                block_len,
                flags,
            );
            assert forall|w: int| 0 <= w < 8 implies #[trigger] row_lane(cv@, l)[w] == out[w] by {
                assert(cv@[w]@[l] == v@[k]@[w].0@[j] ^ v@[k]@[w + 8].0@[j]);
                assert(end[w] == v@[k]@[w].0@[j] && end[w + 8] == v@[k]@[w + 8].0@[j]);
            }
            assert(row_lane(cv@, l) =~= out);
        }
        assert forall|l: int| 4 * S <= l < N implies #[trigger] row_lane(cv@, l) == row_lane(
            before,
            l,
        ) by {
            assert(row_lane(cv@, l) =~= row_lane(before, l));
        }
    }
}

/// Whether a lane count splits into whole four-lane groups, few enough of them.
pub fn handles_lanes(n: usize) -> (r: bool)
    ensures
        r == (n > 0 && n % 4 == 0 && n / 4 <= MAX_GROUPS),
{
    n > 0 && n % 4 == 0 && n / 4 <= MAX_GROUPS
}

/// Compresses one 64-byte block across all lanes, updating the chaining values in place.
pub fn compress_block<const N: usize>(
    cv: &mut [[u32; N]; 8],
    block: &[[u32; N]; 16],
    counter: u64,
    block_len: u32,
    flags: u32,
)
    requires
        N > 0,
        N % 4 == 0,
        N / 4 <= MAX_GROUPS,
    ensures
        forall|l: int|
            0 <= l < N ==> #[trigger] row_lane(final(cv)@, l) == compressed(
                row_lane(old(cv)@, l),
                row_lane(block@, l),
                counter,
                block_len,
                flags,
            ),
{
    if N == 4 {
        compress_groups::<1, N>(cv, block, counter, block_len, flags);
    } else if N == 8 {
        compress_groups::<2, N>(cv, block, counter, block_len, flags);
    } else if N == 12 {
        compress_groups::<3, N>(cv, block, counter, block_len, flags);
    } else {
        compress_groups::<4, N>(cv, block, counter, block_len, flags);
    }
}

/// From one round to the next, slot `w` of the message schedule takes the word of slot `P[w]`,
/// where `P` is `2, 6, 3, 10, 7, 0, 4, 13, 1, 11, 12, 5, 9, 14, 15, 8`.
pub proof fn each_round_permutes_the_words(m: Seq<u32>, r: nat, w: int)
    requires
        m.len() == 16,
        0 <= w < 16,
    ensures
        schedule(m, 0) == m,
        schedule(m, r + 1)[w] == schedule(m, r)[seq![
            2int, 6, 3, 10, 7, 0, 4, 13, 1, 11, 12, 5, 9, 14, 15, 8,
        ][w]],
{
}

/// Rotating and adding lose nothing.
proof fn lemma_rotated_apart(p: u32, q: u32, z: u32)
    by (bit_vector)
    ensures
        rotated(p ^ z, 16) == rotated(q ^ z, 16) ==> p == q,
        rotated(p ^ z, 12) == rotated(q ^ z, 12) ==> p == q,
        rotated(p ^ z, 8) == rotated(q ^ z, 8) ==> p == q,
        rotated(p ^ z, 7) == rotated(q ^ z, 7) ==> p == q,
        rotated(z ^ p, 16) == rotated(z ^ q, 16) ==> p == q,
{
}

/// Adding loses nothing.
proof fn lemma_wadd_apart(p: u32, q: u32, z: u32)
    ensures
        wadd(p, z) == wadd(q, z) ==> p == q,
        wadd(z, p) == wadd(z, q) ==> p == q,
{
}

/// The words that one mixing step gives, from those of its first half.
proof fn lemma_mixing_words(
    v: Seq<u32>,
    a: int,
    b: int,
    c: int,
    d: int,
    x: u32,
    y: u32,
    first: (u32, u32, u32, u32),
)
    requires
        v.len() == 16,
        0 <= a < 16,
        0 <= b < 16,
        0 <= c < 16,
        0 <= d < 16,
        a != b,
        a != c,
        a != d,
        b != c,
        b != d,
        c != d,
        first.0 == wadd(wadd(v[a], v[b]), x),
        first.3 == rotated(v[d] ^ first.0, 16),
        first.2 == wadd(v[c], first.3),
        first.1 == rotated(v[b] ^ first.2, 12),
    ensures
        ({
            let r = mixed(v, a, b, c, d, x, y);
            &&& r.len() == 16
            &&& r[a] == wadd(wadd(first.0, first.1), y)
            &&& r[d] == rotated(first.3 ^ r[a], 8)
            &&& r[c] == wadd(first.2, r[d])
            &&& r[b] == rotated(first.1 ^ r[c], 7)
            &&& forall|k: int|
                0 <= k < 16 && k != a && k != b && k != c && k != d ==> #[trigger] r[k] == v[k]
        }),
{
}

/// The words of a mixing step can be traced back.
proof fn lemma_traced_back(
    v: (u32, u32, u32, u32),
    u: (u32, u32, u32, u32),
    x: u32,
    y: u32,
    s: u32,
    t: u32,
    p: (u32, u32, u32, u32),
    q: (u32, u32, u32, u32),
    r: (u32, u32, u32, u32),
)
    requires
        p.0 == wadd(wadd(v.0, v.1), x),
        p.3 == rotated(v.3 ^ p.0, 16),
        p.2 == wadd(v.2, p.3),
        p.1 == rotated(v.1 ^ p.2, 12),
        q.0 == wadd(wadd(u.0, u.1), s),
        q.3 == rotated(u.3 ^ q.0, 16),
        q.2 == wadd(u.2, q.3),
        q.1 == rotated(u.1 ^ q.2, 12),
        r.0 == wadd(wadd(p.0, p.1), y),
        r.3 == rotated(p.3 ^ r.0, 8),
        r.2 == wadd(p.2, r.3),
        r.1 == rotated(p.1 ^ r.2, 7),
        r.0 == wadd(wadd(q.0, q.1), t),
        r.3 == rotated(q.3 ^ r.0, 8),
        r.2 == wadd(q.2, r.3),
        r.1 == rotated(q.1 ^ r.2, 7),
    ensures
        v == u ==> x == s && y == t,
        x == s && y == t ==> v == u,
{
    lemma_rotated_apart(p.1, q.1, r.2);
    lemma_rotated_apart(p.3, q.3, r.0);
    lemma_wadd_apart(p.2, q.2, r.3);
    lemma_rotated_apart(v.1, u.1, p.2);
    lemma_wadd_apart(v.2, u.2, p.3);
    if v == u {
        lemma_rotated_apart(p.0, q.0, v.3);
        lemma_wadd_apart(x, s, wadd(v.0, v.1));
        lemma_wadd_apart(y, t, wadd(p.0, p.1));
    }
    if x == s && y == t {
        lemma_wadd_apart(wadd(p.0, p.1), wadd(q.0, q.1), y);
        lemma_wadd_apart(p.0, q.0, p.1);
        lemma_rotated_apart(v.3, u.3, p.0);
        lemma_wadd_apart(wadd(v.0, v.1), wadd(u.0, u.1), x);
        lemma_wadd_apart(v.0, u.0, v.1);
    }
}

/// Mixing keeps different inputs apart: from one state, different message words give different
/// states, and with one pair of message words, different states do.
pub proof fn mixing_keeps_inputs_apart(
    v: Seq<u32>,
    u: Seq<u32>,
    a: int,
    b: int,
    c: int,
    d: int,
    x: u32,
    y: u32,
    s: u32,
    t: u32,
)
    requires
        v.len() == 16,
        u.len() == 16,
        0 <= a < 16,
        0 <= b < 16,
        0 <= c < 16,
        0 <= d < 16,
        a != b,
        a != c,
        a != d,
        b != c,
        b != d,
        c != d,
        mixed(v, a, b, c, d, x, y) == mixed(u, a, b, c, d, s, t),
    ensures
        v == u ==> x == s && y == t,
        x == s && y == t ==> v == u,
{
    let r = mixed(v, a, b, c, d, x, y);
    let pa = wadd(wadd(v[a], v[b]), x);
    let pd = rotated(v[d] ^ pa, 16);
    let pc = wadd(v[c], pd);
    let pb = rotated(v[b] ^ pc, 12);
    let qa = wadd(wadd(u[a], u[b]), s);
    let qd = rotated(u[d] ^ qa, 16);
    let qc = wadd(u[c], qd);
    let qb = rotated(u[b] ^ qc, 12);
    lemma_mixing_words(v, a, b, c, d, x, y, (pa, pb, pc, pd));
    lemma_mixing_words(u, a, b, c, d, s, t, (qa, qb, qc, qd));
    lemma_traced_back(
        (v[a], v[b], v[c], v[d]),
        (u[a], u[b], u[c], u[d]),
        x,
        y,
        s,
        t,
        (pa, pb, pc, pd),
        (qa, qb, qc, qd),
        (r[a], r[b], r[c], r[d]),
    );
    if x == s && y == t {
        assert forall|k: int| 0 <= k < 16 implies v[k] == u[k] by {
            if k != a && k != b && k != c && k != d {
                assert(r[k] == v[k]);
            }
        }
        assert(v =~= u);
    }
}

} // verus!
