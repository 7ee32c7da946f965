//! Bit-reversal permutations.

use vstd::arithmetic::power2::{lemma2_to64, lemma_pow2_pos, lemma_pow2_unfold, pow2};
use crate::field::packed::{Divisible, PackedField};
use crate::math::field_buffer::{FieldBuffer, lemma_exact_log, lemma_packed_len, lemma_scalar_at};
use crate::math::index::{
    exact_log2, lemma_block_bound, lemma_div_mod, lemma_exact_log2, lemma_index_bound,
    lemma_pow2_split, lemma_split_index, log2_ceil_usize, pow2_usize,
};
use crate::math::subset::{index_bit, lemma_index_bit_low, lemma_index_bit_shift};
use crate::math::transpose::{square_cell, transpose_tile_by};
use vstd::prelude::*;

verus! {

/// The low `bits` bits of `x` in the opposite order.
pub open spec fn reversed(x: int, bits: int) -> int
    decreases bits,
{
    if bits <= 0 {
        0
    } else {
        (x % 2) * pow2((bits - 1) as nat) + reversed(x / 2, bits - 1)
    }
}

/// A reversed index fits in its bits.
pub proof fn lemma_reversed_bound(x: int, bits: int)
    requires
        0 <= bits,
    ensures
        0 <= reversed(x, bits) < pow2(bits as nat),
    decreases bits,
{
    if bits > 0 {
        lemma_reversed_bound(x / 2, bits - 1);
        lemma_pow2_unfold(bits as nat);
        assert((x % 2) * pow2((bits - 1) as nat) <= pow2((bits - 1) as nat)) by (nonlinear_arith)
            requires
                0 <= x % 2 <= 1,
                pow2((bits - 1) as nat) >= 0,
        ;
        assert((x % 2) * pow2((bits - 1) as nat) >= 0) by (nonlinear_arith)
            requires
                0 <= x % 2,
                pow2((bits - 1) as nat) >= 0,
        ;
    } else {
        lemma2_to64();
    }
}

/// Reversing a compound index exchanges its fields and reverses each.
pub proof fn lemma_reversed_split(hi: int, lo: int, a: int, b: int)
    requires
        0 <= a,
        0 <= b,
        0 <= lo < pow2(a as nat),
        0 <= hi,
    ensures
        reversed(hi * pow2(a as nat) + lo, a + b) == reversed(lo, a) * pow2(b as nat) + reversed(
            hi,
            b,
        ),
    decreases a,
{
    if a == 0 {
        lemma2_to64();
        assert(reversed(lo, a) == 0);
        assert(hi * pow2(0) + lo == hi) by (nonlinear_arith)
            requires
                pow2(0) == 1,
                lo == 0,
        ;
        assert(0 * pow2(b as nat) == 0) by (nonlinear_arith);
    } else {
        let x = hi * pow2(a as nat) + lo;
        let p = pow2((a - 1) as nat) as int;
        lemma_pow2_unfold(a as nat);
        assert(x == 2 * (hi * p + lo / 2) + lo % 2) by (nonlinear_arith)
            requires
                x == hi * (2 * p) + lo,
                lo == 2 * (lo / 2) + lo % 2,
        ;
        lemma_reversed_split(hi, lo / 2, a - 1, b);
        assert(x % 2 == lo % 2 && x / 2 == hi * p + lo / 2);
        lemma_pow2_split((a - 1) as nat, (a + b - 1) as nat);
        let q = pow2(b as nat) as int;
        let r = reversed(lo / 2, a - 1);
        assert((lo % 2) * (p * q) + (r * q + reversed(hi, b)) == ((lo % 2) * p + r) * q
            + reversed(hi, b)) by (nonlinear_arith);
    }
}

/// A single bit is its own reversal.
proof fn lemma_reversed_one(b: int)
    requires
        0 <= b <= 1,
    ensures
        reversed(b, 1) == b,
{
    lemma2_to64();
    assert(reversed(b / 2, 0) == 0);
    assert((b % 2) * pow2(0) == b) by (nonlinear_arith)
        requires
            pow2(0) == 1,
            0 <= b <= 1,
    ;
}

/// Reversing an index twice gives it back.
pub proof fn reversal_is_involution(x: int, bits: int)
    requires
        0 <= bits,
        0 <= x < pow2(bits as nat),
    ensures
        reversed(reversed(x, bits), bits) == x,
    decreases bits,
{
    if bits == 0 {
        lemma2_to64();
    } else {
        lemma_pow2_unfold(bits as nat);
        reversal_is_involution(x / 2, bits - 1);
        lemma_reversed_bound(x / 2, bits - 1);
        lemma_reversed_split(x % 2, reversed(x / 2, bits - 1), bits - 1, 1);
        lemma2_to64();
        lemma_reversed_one(x % 2);
    }
}

/// Reverses the low `bits` bits of an index.
pub fn reverse_bits(x: usize, bits: u32) -> (r: usize)
    requires
        bits <= usize::BITS,
    ensures
        r == reversed(x as int, bits as int),
        r < pow2(bits as nat),
{
    let mut rest: usize = x;
    let mut r: usize = 0;
    let mut i: u32 = 0;
    proof {
        lemma2_to64();
        vstd::layout::unsigned_int_max_values();
    }
    let ghost mut used: int = 0;
    while i < bits
        invariant
            i <= bits,
            bits <= usize::BITS,
            usize::BITS == 32 || usize::BITS == 64,
            usize::MAX == pow2(usize::BITS as nat) - 1,
            0 <= used < pow2(i as nat),
            r == reversed(used, i as int),
            x == rest * pow2(i as nat) + used,
            reversed(x as int, bits as int) == r * pow2((bits - i) as nat) + reversed(
                rest as int,
                bits - i,
            ),
        decreases bits - i,
    {
        proof {
            let n = (bits - i) as int;
            lemma_reversed_bound(used, i as int);
            lemma_pow2_split((i + 1) as nat, usize::BITS as nat);
            lemma_pow2_unfold((i + 1) as nat);
            lemma_pow2_unfold(n as nat);
            let p = pow2((n - 1) as nat) as int;
            let low = rest as int % 2;
            assert(reversed(rest as int, n) == low * p + reversed(rest as int / 2, n - 1));
            assert(r * (2 * p) + (low * p + reversed(rest as int / 2, n - 1)) == (2 * r + low) * p
                + reversed(rest as int / 2, n - 1)) by (nonlinear_arith);
            let q = pow2(i as nat) as int;
            let next = low * q + used;
            assert(x == (rest as int / 2) * (2 * q) + next) by (nonlinear_arith)
                requires
                    x == rest * q + used,
                    next == low * q + used,
                    rest == 2 * (rest as int / 2) + low,
            ;
            assert(0 <= next < 2 * q) by (nonlinear_arith)
                requires
                    0 <= low <= 1,
                    0 <= used < q,
                    next == low * q + used,
            ;
            lemma_reversed_split(low, used, i as int, 1);
            lemma_reversed_one(low);
            lemma2_to64();
            assert(r * pow2(1) == 2 * r) by (nonlinear_arith)
                requires
                    pow2(1) == 2,
            ;
            assert(reversed(next, i + 1) == 2 * r + low);
            used = next;
        }
        r = 2 * r + rest % 2;
        rest = rest / 2;
        i = i + 1;
    }
    proof {
        lemma_reversed_bound(x as int, bits as int);
        lemma2_to64();
        assert(r * pow2(0) == r) by (nonlinear_arith)
            requires
                pow2(0) == 1,
        ;
    }
    r
}

/// Element `k` of group `a`, for groups of `group` elements from `start` on.
pub open spec fn group_cell<T>(s: Seq<T>, start: int, group: int, a: int, k: int) -> T {
    s[start + a * group + k]
}

/// Exchanges two elements.
fn swap_elements<T>(buffer: &mut [T], i: usize, j: usize)
    requires
        i < j < old(buffer).len(),
    ensures
        final(buffer)@ == old(buffer)@.update(i as int, old(buffer)[j as int]).update(
            j as int,
            old(buffer)[i as int],
        ),
{
    let ghost before = buffer@;
    let (left, right) = buffer.split_at_mut(j);
    core::mem::swap(&mut left[i], &mut right[0]);
    proof {
        assert(left@ + right@ =~= before.update(i as int, before[j as int]).update(
            j as int,
            before[i as int],
        ));
    }
}

/// Exchanges two disjoint runs of elements.
fn swap_groups<T>(buffer: &mut [T], p: usize, q: usize, group: usize)
    requires
        p + group <= q,
        q + group <= old(buffer).len(),
    ensures
        final(buffer).len() == old(buffer).len(),
        forall|x: int|
            0 <= x < old(buffer).len() ==> #[trigger] final(buffer)[x] == if p <= x < p + group {
                old(buffer)[x - p + q]
            } else if q <= x < q + group {
                old(buffer)[x - q + p]
            } else {
                old(buffer)[x]
            },
{
    let ghost before = buffer@;
    let mut k: usize = 0;
    while k < group
        invariant
            k <= group,
            p + group <= q,
            q + group <= before.len(),
            buffer.len() == before.len(),
            forall|x: int|
                0 <= x < before.len() ==> #[trigger] buffer[x] == if p <= x < p + k {
                    before[x - p + q]
                } else if q <= x < q + k {
                    before[x - q + p]
                } else {
                    before[x]
                },
        decreases group - k,
    {
        swap_elements(buffer, p + k, q + k);
        k = k + 1;
    }
}

/// Permutes `n_groups` groups of elements from `start` on, bit-reversing the group indices.
fn bit_reverse_groups_at<T>(
    buffer: &mut [T],
    start: usize,
    n_groups: usize,
    bits: u32,
    group: usize,
)
    requires
        bits <= usize::BITS,
        n_groups == pow2(bits as nat),
        0 < group,
        start + n_groups * group <= old(buffer).len(),
    ensures
        final(buffer).len() == old(buffer).len(),
        forall|a: int, k: int|
            0 <= a < n_groups && 0 <= k < group ==> #[trigger] group_cell(
                final(buffer)@,
                start as int,
                group as int,
                a,
                k,
            ) == group_cell(
                old(buffer)@,
                start as int,
                group as int,
                reversed(a, bits as int),
                k,
            ),
        forall|x: int|
            0 <= x < old(buffer).len() && !(start <= x < start + n_groups * group)
                ==> #[trigger] final(buffer)[x] == old(buffer)[x],
{
    let ghost before = buffer@;
    let ghost (st, g, n, b) = (start as int, group as int, n_groups as int, bits as int);
    let mut i: usize = 0;
    proof {
        assert forall|a: int| #[trigger] reversed(a, b) >= 0 by {
            lemma_reversed_bound(a, b);
        }
    }
    while i < n_groups
        invariant
            i <= n_groups,
            bits <= usize::BITS,
            n_groups == pow2(bits as nat),
            0 < group,
            start + n_groups * group <= before.len(),
            st == start && g == group && n == n_groups && b == bits,
            buffer.len() == before.len(),
            forall|a: int, k: int|
                0 <= a < n && 0 <= k < g ==> #[trigger] group_cell(buffer@, st, g, a, k)
                    == group_cell(
                    before,
                    st,
                    g,
                    if a < i || reversed(a, b) < i {
                        reversed(a, b)
                    } else {
                        a
                    },
                    k,
                ),
            forall|x: int|
                0 <= x < before.len() && !(st <= x < st + n * g) ==> #[trigger] buffer[x]
                    == before[x],
        decreases n_groups - i,
    {
        let i_rev = reverse_bits(i, bits);
        proof {
            reversal_is_involution(i as int, b);
        }
        let ghost current = buffer@;
        if i < i_rev {
            proof {
                lemma_index_bound(i as int, g - 1, n, g);
                lemma_index_bound(i_rev as int, g - 1, n, g);
                assert(i * g + g <= i_rev * g) by (nonlinear_arith)
                    requires
                        i + 1 <= i_rev,
                        0 < g,
                ;
            }
            swap_groups(buffer, start + i * group, start + i_rev * group, group);
        }
        proof {
            assert forall|a: int, k: int| 0 <= a < n && 0 <= k < g implies #[trigger] group_cell(
                buffer@,
                st,
                g,
                a,
                k,
            ) == group_cell(
                before,
                st,
                g,
                if a < i + 1 || reversed(a, b) < i + 1 {
                    reversed(a, b)
                } else {
                    a
                },
                k,
            ) by {
                reversal_is_involution(a, b);
                lemma_reversed_bound(a, b);
                lemma_index_bound(a, k, n, g);
                lemma_index_bound(reversed(a, b), k, n, g);
                assert(group_cell(current, st, g, a, k) == group_cell(
                    before,
                    st,
                    g,
                    if a < i || reversed(a, b) < i {
                        reversed(a, b)
                    } else {
                        a
                    },
                    k,
                ));
                if i < i_rev {
                    lemma_in_group(a, k, i as int, g);
                    lemma_in_group(a, k, i_rev as int, g);
                    if a == i {
                        assert(group_cell(current, st, g, i_rev as int, k) == group_cell(
                            before,
                            st,
                            g,
                            i_rev as int,
                            k,
                        ));
                    } else if a == i_rev {
                        assert(group_cell(current, st, g, i as int, k) == group_cell(
                            before,
                            st,
                            g,
                            i as int,
                            k,
                        ));
                    }
                }
            }
            if i < i_rev {
                lemma_index_bound(i as int, g - 1, n, g);
                lemma_index_bound(i_rev as int, g - 1, n, g);
                assert(0 <= i * g && 0 <= i_rev * g) by (nonlinear_arith)
                    requires
                        0 < g,
                        0 <= i,
                        0 <= i_rev,
                ;
            }
        }
        i = i + 1;
    }
}

/// An element lies in the run of group `i` exactly if its own group is `i`.
proof fn lemma_in_group(a: int, k: int, i: int, g: int)
    requires
        0 <= k < g,
    ensures
        (i * g <= a * g + k < i * g + g) == (a == i),
{
    if a < i {
        assert(a * g + k < i * g) by (nonlinear_arith)
            requires
                a + 1 <= i,
                0 <= k < g,
        ;
    } else if i < a {
        assert(i * g + g <= a * g + k) by (nonlinear_arith)
            requires
                i + 1 <= a,
                0 <= k < g,
        ;
    }
}

/// Permutes groups of `2^LOG_GROUP` consecutive elements, bit-reversing the group indices.
///
/// Elements after the last whole group stay where they are.
pub fn bit_reverse_groups<T, const LOG_GROUP: usize>(buffer: &mut [T])
    requires
        exists|bits: nat|
            old(buffer).len() as nat / pow2(LOG_GROUP as nat) == #[trigger] pow2(bits),
    ensures
        final(buffer).len() == old(buffer).len(),
        ({
            let g = pow2(LOG_GROUP as nat) as int;
            let n = old(buffer).len() as int / g;
            forall|i: int|
                0 <= i < old(buffer).len() ==> #[trigger] final(buffer)[i] == if i < n * g {
                    old(buffer)[reversed(i / g, exact_log2(n as nat)) * g + i % g]
                } else {
                    old(buffer)[i]
                }
        }),
{
    let ghost g = pow2(LOG_GROUP as nat) as int;
    let ghost len = buffer.len() as int;
    let ghost k = choose|k: nat| buffer.len() as nat / pow2(LOG_GROUP as nat) == #[trigger] pow2(k);
    proof {
        lemma_pow2_pos(LOG_GROUP as nat);
        lemma_pow2_pos(k);
        lemma_split_index(len, g);
        assert(g <= len) by (nonlinear_arith)
            requires
                len == (len / g) * g + len % g,
                len / g >= 1,
                0 <= len % g,
                0 < g,
        ;
    }
    let group = pow2_usize(LOG_GROUP);
    let n_groups: usize = buffer.len() / group;
    let log = log2_ceil_usize(n_groups);
    proof {
        lemma_exact_log(k, log as nat);
        lemma_exact_log2(k);
    }
    let bits = log as u32;
    let ghost before = buffer@;
    bit_reverse_groups_at(buffer, 0, n_groups, bits, group);
    proof {
        assert forall|i: int| 0 <= i < n_groups * g implies #[trigger] buffer@[i]
            == before[reversed(i / g, bits as int) * g + i % g] by {
            lemma_split_index(i, g);
            lemma_block_bound(i, n_groups as int, g);
            assert(group_cell(buffer@, 0, g, i / g, i % g) == buffer@[i]);
        }
    }
}

/// Permutes the elements of a slice, bit-reversing their indices.
pub fn bit_reverse_indices<T>(buffer: &mut [T])
    requires
        exists|bits: nat| old(buffer).len() == #[trigger] pow2(bits),
    ensures
        final(buffer).len() == old(buffer).len(),
        forall|i: int|
            0 <= i < old(buffer).len() ==> #[trigger] final(buffer)[i] == old(buffer)[reversed(
                i,
                exact_log2(old(buffer).len() as nat),
            )],
{
    let ghost before = buffer@;
    proof {
        lemma2_to64();
        let k = choose|k: nat| buffer.len() == #[trigger] pow2(k);
        assert(buffer.len() as nat / pow2(0) == pow2(k));
    }
    bit_reverse_groups::<T, 0>(buffer);
    proof {
        assert forall|i: int| 0 <= i < before.len() implies #[trigger] buffer@[i]
            == before[reversed(i, exact_log2(before.len()))] by {
            assert(i / 1 == i && i % 1 == 0);
        }
    }
}

/// Packed element `k` of the tile at high index `h` and middle index `m`.
pub open spec fn tile_elem<P>(s: Seq<P>, mid: int, t: int, h: int, m: int, k: int) -> P {
    s[(h * mid + m) * t + k]
}

/// Scalar `c` of the tile at high index `h` and middle index `m`.
pub open spec fn tile_cell<P: Divisible>(
    s: Seq<P>,
    mid: int,
    t: int,
    h: int,
    m: int,
    c: int,
) -> P::Scalar {
    tile_elem(s, mid, t, h, m, c / P::WIDTH as int).lanes()[c % P::WIDTH as int]
}

/// The place of a tile element can be computed without overflow.
proof fn lemma_tile_fits(n: int, mid: int, t: int, h: int, m: int, k: int)
    requires
        0 <= h < n,
        0 <= m < mid,
        0 <= k < t,
        n * mid * t <= usize::MAX,
    ensures
        0 <= h * mid <= usize::MAX,
        0 <= h * mid + m <= usize::MAX,
        0 <= (h * mid + m) * t <= usize::MAX,
        0 <= (h * mid + m) * t + k < n * mid * t,
{
    lemma_index_bound(h, m, n, mid);
    lemma_index_bound(h * mid + m, k, n * mid, t);
    assert(n * mid <= n * mid * t) by (nonlinear_arith)
        requires
            n >= 0,
            mid >= 0,
            t >= 1,
    ;
    assert(0 <= h * mid && 0 <= (h * mid + m) * t) by (nonlinear_arith)
        requires
            0 <= h,
            0 <= mid,
            0 <= m,
            0 <= t,
    ;
}

/// Different tile elements are in different places.
proof fn lemma_tile_injective(
    mid: int,
    t: int,
    h: int,
    m: int,
    k: int,
    x: int,
    y: int,
    z: int,
)
    requires
        0 <= m < mid,
        0 <= y < mid,
        0 <= k < t,
        0 <= z < t,
        (h * mid + m) * t + k == (x * mid + y) * t + z,
    ensures
        h == x,
        m == y,
        k == z,
{
    lemma_div_mod(h * mid + m, t, k);
    lemma_div_mod(x * mid + y, t, z);
    lemma_div_mod(h, mid, m);
    lemma_div_mod(x, mid, y);
}

/// Transposes the square of tiles at one middle index, reversing the high index and the offset.
///
/// Rows are visited at their high index reversed, both when they are gathered and when they are
/// put back, so a plain transposition of the gathered square is enough.
fn transpose_tiles<P: PackedField>(
    data: &mut [P],
    log_tile_packed: usize,
    t: usize,
    n: usize,
    bits: u32,
    mid: usize,
    m: usize,
)
    requires
        t == pow2(log_tile_packed as nat),
        n == t * P::WIDTH,
        n == pow2(bits as nat),
        bits <= usize::BITS,
        m < mid,
        old(data).len() == n * mid * t,
    ensures
        final(data).len() == old(data).len(),
        forall|h: int, x: int, k: int|
            0 <= h < n && 0 <= x < mid && 0 <= k < t && x != m ==> #[trigger] tile_elem(
                final(data)@,
                mid as int,
                t as int,
                h,
                x,
                k,
            ) == tile_elem(old(data)@, mid as int, t as int, h, x, k),
        forall|h: int, c: int|
            0 <= h < n && 0 <= c < n ==> #[trigger] tile_cell(
                final(data)@,
                mid as int,
                t as int,
                h,
                m as int,
                c,
            ) == tile_cell(
                old(data)@,
                mid as int,
                t as int,
                reversed(c, bits as int),
                m as int,
                reversed(h, bits as int),
            ),
{
    let ghost before = data@;
    let ghost (ti, wi, ni, mi, ms, b) = (
        t as int,
        P::WIDTH as int,
        n as int,
        m as int,
        mid as int,
        bits as int,
    );
    // Gather the rows.
    let mut tile: Vec<P> = Vec::new();
    let mut j: usize = 0;
    while j < n
        invariant
            j <= n,
            n == t * P::WIDTH,
            n == pow2(bits as nat),
            bits <= usize::BITS,
            m < mid,
            data@ == before,
            before.len() == n * mid * t,
            data.len() == before.len(),
            ti == t && wi == P::WIDTH && ni == n && mi == m && ms == mid && b == bits,
            tile.len() == j * t,
            forall|i: int, k: int|
                0 <= i < j && 0 <= k < t ==> #[trigger] group_cell(tile@, 0, ti, i, k) == tile_elem(
                    before,
                    ms,
                    ti,
                    reversed(i, b),
                    mi,
                    k,
                ),
        decreases n - j,
    {
        let h = reverse_bits(j, bits);
        let mut k: usize = 0;
        while k < t
            invariant
                j < n,
                k <= t,
                h < n,
                h == reversed(j as int, b),
                n == t * P::WIDTH,
                m < mid,
                data@ == before,
                before.len() == n * mid * t,
                data.len() == before.len(),
                ti == t && wi == P::WIDTH && ni == n && mi == m && ms == mid && b == bits,
                tile.len() == j * t + k,
                forall|i: int, l: int|
                    0 <= i < j && 0 <= l < t ==> #[trigger] group_cell(tile@, 0, ti, i, l)
                        == tile_elem(before, ms, ti, reversed(i, b), mi, l),
                forall|l: int|
                    0 <= l < k ==> #[trigger] group_cell(tile@, 0, ti, j as int, l) == tile_elem(
                        before,
                        ms,
                        ti,
                        h as int,
                        mi,
                        l,
                    ),
            decreases t - k,
        {
            proof {
                lemma_tile_fits(ni, ms, ti, h as int, mi, k as int);
            }
            let ghost current = tile@;
            tile.push(data[(h * mid + m) * t + k]);
            proof {
                assert forall|i: int, l: int| 0 <= i < j && 0 <= l < t implies #[trigger] group_cell(
                    tile@,
                    0,
                    ti,
                    i,
                    l,
                ) == tile_elem(before, ms, ti, reversed(i, b), mi, l) by {
                    lemma_index_bound(i, l, j as int, ti);
                    assert(group_cell(current, 0, ti, i, l) == group_cell(tile@, 0, ti, i, l));
                }
                assert forall|l: int| 0 <= l < k + 1 implies #[trigger] group_cell(
                    tile@,
                    0,
                    ti,
                    j as int,
                    l,
                ) == tile_elem(before, ms, ti, h as int, mi, l) by {
                    assert(0 <= j * ti) by (nonlinear_arith)
                        requires
                            0 <= j,
                            0 <= ti,
                    ;
                    if l < k {
                        assert(group_cell(current, 0, ti, j as int, l) == group_cell(
                            tile@,
                            0,
                            ti,
                            j as int,
                            l,
                        ));
                    }
                }
            }
            k = k + 1;
        }
        proof {
            assert((j + 1) * t == j * t + t) by (nonlinear_arith);
        }
        j = j + 1;
    }
    let ghost gathered = tile@;

    // Transpose the square.
    let mut block: Vec<P> = Vec::new();
    let mut i: usize = 0;
    while i < P::WIDTH
        invariant
            i <= P::WIDTH,
            block.len() == i,
        decreases P::WIDTH - i,
    {
        block.push(P::zero_packed());
        i = i + 1;
    }
    transpose_tile_by(tile.as_mut_slice(), block.as_mut_slice(), log_tile_packed);

    // Put the rows back.
    let mut j: usize = 0;
    proof {
        P::width_is_power();
        assert forall|a: int| #[trigger] reversed(a, b) >= 0 by {
            lemma_reversed_bound(a, b);
        }
    }
    while j < n
        invariant
            j <= n,
            n == t * P::WIDTH,
            n == pow2(bits as nat),
            bits <= usize::BITS,
            m < mid,
            before.len() == n * mid * t,
            data.len() == before.len(),
            ti == t && wi == P::WIDTH && ni == n && mi == m && ms == mid && b == bits,
            tile.len() == n * t,
            forall|h: int, x: int, k: int|
                0 <= h < n && 0 <= x < mid && 0 <= k < t ==> #[trigger] tile_elem(
                    data@,
                    ms,
                    ti,
                    h,
                    x,
                    k,
                ) == if x == m && reversed(h, b) < j {
                    group_cell(tile@, 0, ti, reversed(h, b), k)
                } else {
                    tile_elem(before, ms, ti, h, x, k)
                },
        decreases n - j,
    {
        let row = reverse_bits(j, bits);
        proof {
            reversal_is_involution(j as int, b);
        }
        let mut k: usize = 0;
        while k < t
            invariant
                j < n,
                k <= t,
                row < n,
                row == reversed(j as int, b),
                reversed(row as int, b) == j,
                n == t * P::WIDTH,
                n == pow2(bits as nat),
                m < mid,
                before.len() == n * mid * t,
                data.len() == before.len(),
                ti == t && wi == P::WIDTH && ni == n && mi == m && ms == mid && b == bits,
                tile.len() == n * t,
                forall|h: int, x: int, l: int|
                    0 <= h < n && 0 <= x < mid && 0 <= l < t ==> #[trigger] tile_elem(
                        data@,
                        ms,
                        ti,
                        h,
                        x,
                        l,
                    ) == if x == m && (reversed(h, b) < j || (h == row && l < k)) {
                        group_cell(tile@, 0, ti, reversed(h, b), l)
                    } else {
                        tile_elem(before, ms, ti, h, x, l)
                    },
            decreases t - k,
        {
            let ghost current = data@;
            proof {
                lemma_tile_fits(ni, ms, ti, row as int, mi, k as int);
                lemma_index_bound(j as int, k as int, ni, ti);
                assert(0 <= j * ti) by (nonlinear_arith)
                    requires
                        0 <= j,
                        0 <= ti,
                ;
            }
            data[(row * mid + m) * t + k] = tile[j * t + k];
            proof {
                assert forall|h: int, x: int, l: int|
                    0 <= h < n && 0 <= x < mid && 0 <= l < t implies #[trigger] tile_elem(
                    data@,
                    ms,
                    ti,
                    h,
                    x,
                    l,
                ) == (if x == m && (reversed(h, b) < j || (h == row && l < k + 1)) {
                    group_cell(tile@, 0, ti, reversed(h, b), l)
                } else {
                    tile_elem(before, ms, ti, h, x, l)
                }) by {
                    lemma_tile_fits(ni, ms, ti, h, x, l);
                    assert(tile_elem(current, ms, ti, h, x, l) == if x == m && (reversed(h, b) < j
                        || (h == row && l < k)) {
                        group_cell(tile@, 0, ti, reversed(h, b), l)
                    } else {
                        tile_elem(before, ms, ti, h, x, l)
                    });
                    if (h * ms + x) * ti + l == (row * ms + mi) * ti + k {
                        lemma_tile_injective(ms, ti, h, x, l, row as int, mi, k as int);
                    }
                }
            }
            k = k + 1;
        }
        proof {
            assert forall|h: int, x: int, k: int|
                0 <= h < n && 0 <= x < mid && 0 <= k < t implies #[trigger] tile_elem(
                data@,
                ms,
                ti,
                h,
                x,
                k,
            ) == (if x == m && reversed(h, b) < j + 1 {
                group_cell(tile@, 0, ti, reversed(h, b), k)
            } else {
                tile_elem(before, ms, ti, h, x, k)
            }) by {
                reversal_is_involution(h, b);
            }
        }
        j = j + 1;
    }
    proof {
        assert forall|h: int, c: int| 0 <= h < n && 0 <= c < n implies #[trigger] tile_cell(
            data@,
            ms,
            ti,
            h,
            mi,
            c,
        ) == tile_cell(before, ms, ti, reversed(c, b), mi, reversed(h, b)) by {
            let g = reversed(h, b);
            lemma_reversed_bound(h, b);
            lemma_split_index(c, wi);
            lemma_split_index(g, wi);
            lemma_block_bound(c, ti, wi);
            lemma_block_bound(g, ti, wi);
            assert(tile_elem(data@, ms, ti, h, mi, c / wi) == group_cell(tile@, 0, ti, g, c / wi));
            assert(square_cell(tile@, ti, wi, g, c) == square_cell(gathered, ti, wi, c, g));
            assert(group_cell(gathered, 0, ti, c, g / wi) == tile_elem(
                before,
                ms,
                ti,
                reversed(c, b),
                mi,
                g / wi,
            ));
        }
    }
}

/// Applies the bit-reversal permutation by moving whole tiles of consecutive scalars.
///
/// The index of a scalar splits into a high field, a middle field and an offset in the tile, the
/// outer two equally wide.
/// The first pass reverses and exchanges the outer fields, the second reverses the middle field.
fn bit_reverse_tiled<P: PackedField>(buffer: &mut FieldBuffer<P>, log_tile_packed: usize)
    requires
        old(buffer).wf(),
        2 * (P::LOG_WIDTH + log_tile_packed) <= old(buffer).log_len,
    ensures
        final(buffer).wf(),
        final(buffer).log_len == old(buffer).log_len,
        forall|i: int|
            0 <= i < pow2(old(buffer).log_len as nat) ==> #[trigger] final(buffer).scalars()[i]
                == old(buffer).scalars()[reversed(i, old(buffer).log_len as int)],
{
    let ghost before = *buffer;
    let log_len = buffer.log_len;
    let log_tile = P::LOG_WIDTH + log_tile_packed;
    let log_mid = log_len - 2 * log_tile;
    proof {
        P::width_is_power();
        lemma_packed_len::<P>(log_len as nat);
        lemma_pow2_split(log_tile_packed as nat, log_tile as nat);
        lemma_pow2_split(log_tile as nat, log_len as nat);
        lemma_pow2_split(log_mid as nat, (log_len - log_tile) as nat);
        lemma_pow2_split(log_mid as nat, log_len as nat);
        lemma_pow2_split(log_tile_packed as nat, log_len as nat);
        lemma_log_fits(log_len as nat);
    }
    let t = pow2_usize(log_tile_packed);
    let n = pow2_usize(log_tile);
    let mid = pow2_usize(log_mid);
    let bits: u32 = log_tile as u32;
    let ghost (ti, wi, ni, ms, b) = (
        t as int,
        P::WIDTH as int,
        n as int,
        mid as int,
        log_tile as int,
    );
    proof {
        assert(log_tile - log_tile_packed == P::LOG_WIDTH);
        assert(ni == ti * wi);
        let len = buffer.values.len() as int;
        assert(pow2(log_len as nat) == ni * (ms * ni));
        assert(len * wi == (ni * ms * ti) * wi) by (nonlinear_arith)
            requires
                len * wi == ni * (ms * ni),
                ni == ti * wi,
        ;
        assert(len == ni * ms * ti) by (nonlinear_arith)
            requires
                len * wi == (ni * ms * ti) * wi,
                wi > 0,
        ;
    }
    let ghost orig = buffer.values@;
    let mut m: usize = 0;
    while m < mid
        invariant
            m <= mid,
            t == pow2(log_tile_packed as nat),
            n == t * P::WIDTH,
            n == pow2(bits as nat),
            bits <= usize::BITS,
            ti == t && wi == P::WIDTH && ni == n && ms == mid && b == bits,
            orig.len() == n * mid * t,
            buffer.values.len() == orig.len(),
            buffer.log_len == log_len,
            forall|h: int, x: int, k: int|
                0 <= h < n && m <= x < mid && 0 <= k < t ==> #[trigger] tile_elem(
                    buffer.values@,
                    ms,
                    ti,
                    h,
                    x,
                    k,
                ) == tile_elem(orig, ms, ti, h, x, k),
            forall|h: int, x: int, c: int|
                0 <= h < n && 0 <= x < m && 0 <= c < n ==> #[trigger] tile_cell(
                    buffer.values@,
                    ms,
                    ti,
                    h,
                    x,
                    c,
                ) == tile_cell(orig, ms, ti, reversed(c, b), x, reversed(h, b)),
        decreases mid - m,
    {
        let ghost current = buffer.values@;
        transpose_tiles(buffer.values.as_mut_slice(), log_tile_packed, t, n, bits, mid, m);
        proof {
            assert forall|h: int, x: int, c: int|
                0 <= h < n && 0 <= x < m + 1 && 0 <= c < n implies #[trigger] tile_cell(
                buffer.values@,
                ms,
                ti,
                h,
                x,
                c,
            ) == tile_cell(orig, ms, ti, reversed(c, b), x, reversed(h, b)) by {
                P::width_is_power();
                lemma_block_bound(c, ti, wi);
                if x == m {
                    let g = reversed(h, b);
                    lemma_reversed_bound(h, b);
                    lemma_reversed_bound(c, b);
                    lemma_block_bound(g, ti, wi);
                    assert(tile_elem(current, ms, ti, reversed(c, b), x, g / wi) == tile_elem(
                        orig,
                        ms,
                        ti,
                        reversed(c, b),
                        x,
                        g / wi,
                    ));
                } else {
                    assert(tile_elem(buffer.values@, ms, ti, h, x, c / wi) == tile_elem(
                        current,
                        ms,
                        ti,
                        h,
                        x,
                        c / wi,
                    ));
                    assert(tile_cell(current, ms, ti, h, x, c) == tile_cell(
                        orig,
                        ms,
                        ti,
                        reversed(c, b),
                        x,
                        reversed(h, b),
                    ));
                }
            }
        }
        m = m + 1;
    }
    let ghost swapped = buffer.values@;
    let mut h: usize = 0;
    let mid_bits: u32 = log_mid as u32;
    let ghost mb = log_mid as int;
    while h < n
        invariant
            h <= n,
            ti == t && wi == P::WIDTH && ni == n && ms == mid && mb == mid_bits,
            0 < t,
            0 < mid,
            mid == pow2(mid_bits as nat),
            mid_bits <= usize::BITS,
            swapped.len() == n * mid * t,
            buffer.values.len() == swapped.len(),
            buffer.log_len == log_len,
            forall|x: int, m: int, k: int|
                0 <= x < n && 0 <= m < mid && 0 <= k < t ==> #[trigger] tile_elem(
                    buffer.values@,
                    ms,
                    ti,
                    x,
                    m,
                    k,
                ) == if x < h {
                    tile_elem(swapped, ms, ti, x, reversed(m, mb), k)
                } else {
                    tile_elem(swapped, ms, ti, x, m, k)
                },
        decreases n - h,
    {
        let ghost current = buffer.values@;
        let ghost st = h * (mid * t);
        proof {
            lemma_tile_fits(ni, ms, ti, h as int, ms - 1, ti - 1);
            lemma_tile_fits(ni, ms, ti, h as int, 0, 0);
            assert((h * ms) * ti == h * (ms * ti)) by (nonlinear_arith);
            assert((h * ms + (ms - 1)) * ti + (ti - 1) == h * (ms * ti) + ms * ti - 1)
                by (nonlinear_arith);
            assert(ms * ti <= ni * ms * ti) by (nonlinear_arith)
                requires
                    ni >= 1,
                    ms >= 0,
                    ti >= 0,
            ;
        }
        bit_reverse_groups_at(buffer.values.as_mut_slice(), h * (mid * t), mid, mid_bits, t);
        proof {
            assert forall|x: int, m: int, k: int|
                0 <= x < n && 0 <= m < mid && 0 <= k < t implies #[trigger] tile_elem(
                buffer.values@,
                ms,
                ti,
                x,
                m,
                k,
            ) == (if x < h + 1 {
                tile_elem(swapped, ms, ti, x, reversed(m, mb), k)
            } else {
                tile_elem(swapped, ms, ti, x, m, k)
            }) by {
                lemma_tile_fits(ni, ms, ti, x, m, k);
                lemma_reversed_bound(m, mb);
                let r = reversed(m, mb);
                assert((x * ms + m) * ti + k == x * (ms * ti) + (m * ti + k)) by (nonlinear_arith);
                assert((x * ms + r) * ti + k == x * (ms * ti) + (r * ti + k)) by (nonlinear_arith);
                lemma_index_bound(m, k, ms, ti);
                lemma_in_group(x, m * ti + k, h as int, ms * ti);
                if x == h {
                    assert(group_cell(buffer.values@, st, ti, m, k) == group_cell(
                        current,
                        st,
                        ti,
                        r,
                        k,
                    ));
                    assert(tile_elem(current, ms, ti, x, r, k) == tile_elem(
                        swapped,
                        ms,
                        ti,
                        x,
                        r,
                        k,
                    ));
                } else {
                    assert(buffer.values@[(x * ms + m) * ti + k] == current[(x * ms + m) * ti + k]);
                    assert(tile_elem(current, ms, ti, x, m, k) == if x < h {
                        tile_elem(swapped, ms, ti, x, r, k)
                    } else {
                        tile_elem(swapped, ms, ti, x, m, k)
                    });
                }
            }
        }
        h = h + 1;
    }
    proof {
        let total = log_len as int;
        assert forall|i: int| 0 <= i < pow2(log_len as nat) implies #[trigger] buffer.scalars()[i]
            == before.scalars()[reversed(i, total)] by {
            // The three fields of the index, and of its reversal.
            lemma_split_index(i, ni);
            let q = i / ni;
            let c = i % ni;
            assert(ni * (ms * ni) == (ni * ms) * ni) by (nonlinear_arith);
            lemma_block_bound(i, ni * ms, ni);
            lemma_split_index(q, ms);
            lemma_block_bound(q, ni, ms);
            let h = q / ms;
            let m = q % ms;
            lemma_reversed_bound(c, b);
            lemma_reversed_bound(h, b);
            lemma_reversed_bound(m, mb);
            let (rc, rm, rh) = (reversed(c, b), reversed(m, mb), reversed(h, b));
            lemma_reversed_split(q, c, b, mb + b);
            lemma_reversed_split(h, m, mb, b);
            lemma_pow2_split(log_mid as nat, (log_mid + log_tile) as nat);
            assert(reversed(i, total) == (rc * ms + rm) * ni + rh) by (nonlinear_arith)
                requires
                    reversed(i, total) == rc * (ms * ni) + (rm * ni + rh),
            ;
            lemma_tile_scalar(buffer.values@, ms, ti, ni, h, m, c);
            lemma_tile_scalar(orig, ms, ti, ni, rc, rm, rh);
            lemma_scalar_at(*buffer, i);
            lemma_reversed_bound(i, total);
            lemma_scalar_at(before, reversed(i, total));
            lemma_block_bound(c, ti, wi);
            assert(tile_elem(buffer.values@, ms, ti, h, m, c / wi) == tile_elem(
                swapped,
                ms,
                ti,
                h,
                rm,
                c / wi,
            ));
            assert(tile_cell(swapped, ms, ti, h, rm, c) == tile_cell(orig, ms, ti, rc, rm, rh));
        }
    }
}

/// A tile's scalars are consecutive scalars of the buffer.
proof fn lemma_tile_scalar<P: Divisible>(
    s: Seq<P>,
    mid: int,
    t: int,
    n: int,
    h: int,
    m: int,
    c: int,
)
    requires
        n == t * P::WIDTH,
        0 <= h,
        0 <= m < mid,
        0 <= c < n,
    ensures
        s[((h * mid + m) * n + c) / P::WIDTH as int].lanes()[((h * mid + m) * n + c)
            % P::WIDTH as int] == tile_cell(s, mid, t, h, m, c),
{
    P::width_is_power();
    let w = P::WIDTH as int;
    let q = h * mid + m;
    lemma_split_index(c, w);
    assert(q * n + c == (q * t + c / w) * w + c % w) by (nonlinear_arith)
        requires
            n == t * w,
            c == (c / w) * w + c % w,
    ;
    lemma_div_mod(q * t + c / w, w, c % w);
}

/// The exponent of a length that fits in memory is at most the width of an index.
proof fn lemma_log_fits(k: nat)
    requires
        pow2(k) <= usize::MAX,
    ensures
        k < usize::BITS,
{
    lemma2_to64();
    vstd::layout::unsigned_int_max_values();
    if k >= usize::BITS {
        lemma_pow2_split(usize::BITS as nat, k);
    }
}

/// Applies the bit-reversal permutation one pair of scalars at a time.
fn bit_reverse_packed_naive<P: PackedField>(buffer: &mut FieldBuffer<P>)
    requires
        old(buffer).wf(),
    ensures
        final(buffer).wf(),
        final(buffer).log_len == old(buffer).log_len,
        forall|i: int|
            0 <= i < pow2(old(buffer).log_len as nat) ==> #[trigger] final(buffer).scalars()[i]
                == old(buffer).scalars()[reversed(i, old(buffer).log_len as int)],
{
    let ghost before = buffer.scalars();
    let ghost b = buffer.log_len as int;
    proof {
        lemma_log_fits(buffer.log_len as nat);
        assert forall|a: int| #[trigger] reversed(a, b) >= 0 by {
            lemma_reversed_bound(a, b);
        }
    }
    let bits: u32 = buffer.log_len as u32;
    let n = buffer.len();
    let mut i: usize = 0;
    while i < n
        invariant
            i <= n,
            n == pow2(bits as nat),
            b == bits,
            bits <= usize::BITS,
            buffer.wf(),
            buffer.log_len == bits,
            before.len() == n,
            forall|a: int|
                0 <= a < n ==> #[trigger] buffer.scalars()[a] == if a < i || reversed(a, b) < i {
                    before[reversed(a, b)]
                } else {
                    before[a]
                },
        decreases n - i,
    {
        let i_rev = reverse_bits(i, bits);
        let ghost current = buffer.scalars();
        proof {
            reversal_is_involution(i as int, b);
        }
        if i < i_rev {
            let tmp = buffer.get(i);
            let other = buffer.get(i_rev);
            buffer.set(i, other);
            buffer.set(i_rev, tmp);
        }
        proof {
            assert forall|a: int| 0 <= a < n implies #[trigger] buffer.scalars()[a] == (if a < i + 1
                || reversed(a, b) < i + 1 {
                before[reversed(a, b)]
            } else {
                before[a]
            }) by {
                reversal_is_involution(a, b);
                assert(current[a] == if a < i || reversed(a, b) < i {
                    before[reversed(a, b)]
                } else {
                    before[a]
                });
                assert(current[i as int] == if i_rev < i {
                    before[i_rev as int]
                } else {
                    before[i as int]
                });
                if i < i_rev {
                    assert(current[i_rev as int] == before[i_rev as int]);
                }
            }
        }
        i = i + 1;
    }
}

/// Bytes a cache miss fetches.
const LOG_CACHE_LINE_BYTES: usize = 6;

/// Base-2 logarithm of the widest tile, counted in packed elements.
const MAX_LOG_TILE_PACKED: usize = 3;

/// Applies the bit-reversal permutation to the scalars of a buffer.
///
/// The scalar at index `i` moves to the index with the bits of `i` reversed.
/// A buffer shorter than a square of packed elements takes the simple path; longer ones are moved
/// in tiles of up to a cache line.
pub fn bit_reverse_packed<P: PackedField>(buffer: &mut FieldBuffer<P>)
    requires
        old(buffer).wf(),
    ensures
        final(buffer).wf(),
        final(buffer).log_len == old(buffer).log_len,
        forall|i: int|
            0 <= i < pow2(old(buffer).log_len as nat) ==> #[trigger] final(buffer).scalars()[i]
                == old(buffer).scalars()[reversed(i, old(buffer).log_len as int)],
{
    let log_len = buffer.log_len;
    proof {
        P::width_is_power();
    }
    if log_len < 2 * P::LOG_WIDTH {
        bit_reverse_packed_naive(buffer);
        return ;
    }
    // Scalars covering one cache line.
    let log_scalar_bytes = log2_ceil_usize(core::mem::size_of::<P::Scalar>());
    let log_line: usize = LOG_CACHE_LINE_BYTES.saturating_sub(log_scalar_bytes);
    // Widening a tile to a line only pays for a packing under half a line.
    let wanted: usize = if P::LOG_WIDTH + 1 < log_line {
        log_line
    } else {
        P::LOG_WIDTH
    };
    let capped: usize = if wanted > P::LOG_WIDTH + MAX_LOG_TILE_PACKED {
        P::LOG_WIDTH + MAX_LOG_TILE_PACKED
    } else {
        wanted
    };
    // A short buffer takes the widest tile its own length allows.
    let log_tile: usize = if capped > log_len / 2 {
        log_len / 2
    } else {
        capped
    };
    bit_reverse_tiled(buffer, log_tile - P::LOG_WIDTH);
}

/// Permuting twice gives the buffer back.
pub proof fn bit_reversal_is_involution<F>(a: Seq<F>, b: Seq<F>, c: Seq<F>, bits: nat)
    requires
        a.len() == pow2(bits),
        b.len() == a.len(),
        c.len() == a.len(),
        forall|i: int| 0 <= i < a.len() ==> #[trigger] b[i] == a[reversed(i, bits as int)],
        forall|i: int| 0 <= i < a.len() ==> #[trigger] c[i] == b[reversed(i, bits as int)],
    ensures
        c == a,
{
    assert forall|i: int| 0 <= i < a.len() implies #[trigger] c[i] == a[i] by {
        lemma_reversed_bound(i, bits as int);
        reversal_is_involution(i, bits as int);
        assert(b[reversed(i, bits as int)] == a[reversed(
            reversed(i, bits as int),
            bits as int,
        )]);
    }
    assert(c =~= a);
}

/// Bit `j` of a reversed index is bit `bits - 1 - j` of the index.
pub proof fn reversal_mirrors_bits(x: int, bits: int, j: int)
    requires
        0 <= x,
        0 <= j < bits,
    ensures
        (reversed(x, bits) / pow2(j as nat) as int) % 2 == (x / pow2((bits - 1 - j) as nat) as int)
            % 2,
    decreases bits,
{
    let top = pow2((bits - 1) as nat) as int;
    let rest = reversed(x / 2, bits - 1);
    lemma_reversed_bound(x / 2, bits - 1);
    lemma2_to64();
    if j == bits - 1 {
        lemma_div_mod(x % 2, top, rest);
        assert(x / 1 == x);
    } else {
        reversal_mirrors_bits(x / 2, bits - 1, j);
        lemma_index_bit_low(x % 2, rest, bits - 1, j);
        lemma_index_bit_shift(x, 1, bits - 2 - j);
        let p = pow2(j as nat) as int;
        lemma_pow2_pos(j as nat);
        let (a, b) = (reversed(x, bits) / p, rest / p);
        assert(index_bit(reversed(x, bits), j) == index_bit(rest, j));
        assert(a % 2 == b % 2);
        let q = pow2((bits - 1 - j) as nat) as int;
        let h = pow2((bits - 2 - j) as nat) as int;
        assert(index_bit(x / 2, bits - 2 - j) == index_bit(x, bits - 1 - j));
        assert((x / 2 / h) % 2 == (x / q) % 2);
    }
}

} // verus!
