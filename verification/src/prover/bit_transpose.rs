//! Transposition of square blocks of scalars across an array of packed elements.

use vstd::arithmetic::power2::{lemma2_to64, lemma_pow2_pos, lemma_pow2_unfold, pow2};
use crate::field::packed::{Divisible, PackedField, interleaved_high, interleaved_low};
use crate::math::index::{
    lemma_div_mod, lemma_index_bound, lemma_pow2_split, lemma_split_index, pow2_usize,
};
use crate::math::transpose::lane;
use vstd::prelude::*;

verus! {

/// The element a scalar comes from when the low `n` positions are exchanged with the element axis
/// in steps of `w`.
pub open spec fn exchanged_elem(e: int, p: int, w: int, n: int) -> int {
    e + (p % n - (e / w) % n) * w
}

/// The position a scalar comes from in the same exchange.
pub open spec fn exchanged_pos(e: int, p: int, w: int, n: int) -> int {
    p + ((e / w) % n - p % n)
}

/// Lane `p` of element `e` after one round of the butterfly network.
spec fn round_lane<P: Divisible>(s: Seq<P>, stride: int, block: int, e: int, p: int) -> P::Scalar {
    let eb = (e / stride) % 2;
    let pb = (p / block) % 2;
    if eb == pb {
        lane(s, e, p)
    } else if eb == 0 {
        lane(s, e + stride, p - block)
    } else {
        lane(s, e - stride, p + block)
    }
}

/// Interleaves the element pairs `stride` apart at a block granularity of `2^log_block` lanes.
fn transpose_round<P: PackedField>(elems: &mut [P], stride: usize, pairs: usize, log_block: usize)
    requires
        0 < stride,
        log_block < P::LOG_WIDTH,
        old(elems).len() == pairs * (2 * stride),
    ensures
        final(elems).len() == old(elems).len(),
        forall|e: int, p: int|
            0 <= e < old(elems).len() && 0 <= p < P::WIDTH ==> #[trigger] lane(
                final(elems)@,
                e,
                p,
            ) == round_lane(
                old(elems)@,
                stride as int,
                pow2(log_block as nat) as int,
                e,
                p,
            ),
{
    let ghost before = elems@;
    let ghost (st, n, len) = (stride as int, pow2(log_block as nat) as int, elems.len() as int);
    let mut j: usize = 0;
    while j < pairs
        invariant
            j <= pairs,
            0 < stride,
            st == stride,
            n == pow2(log_block as nat),
            log_block < P::LOG_WIDTH,
            before.len() == pairs * (2 * stride),
            before.len() == len,
            elems.len() == before.len(),
            forall|e: int|
                j * (2 * stride) <= e < len ==> #[trigger] elems[e] == before[e],
            forall|e: int, p: int|
                0 <= e < j * (2 * stride) && 0 <= p < P::WIDTH ==> #[trigger] lane(elems@, e, p)
                    == round_lane(before, st, n, e, p),
        decreases pairs - j,
    {
        let ghost base = j * (2 * st);
        proof {
            lemma_index_bound(j as int, 2 * st - 1, pairs as int, 2 * st);
            assert(0 <= base) by (nonlinear_arith)
                requires
                    base == j * (2 * st),
                    0 <= j,
                    0 < st,
            ;
        }
        let mut k: usize = 0;
        while k < stride
            invariant
                j < pairs,
                k <= stride,
                0 < stride,
                st == stride,
                n == pow2(log_block as nat),
                log_block < P::LOG_WIDTH,
                base == j * (2 * st),
                0 <= base,
                base + 2 * st <= len,
                before.len() == len,
                elems.len() == before.len(),
                forall|e: int|
                    base <= e < len && !(base <= e < base + k || base + st <= e < base + st + k)
                        ==> #[trigger] elems[e] == before[e],
                forall|e: int, p: int|
                    0 <= e < len && (e < base + k || base + st <= e < base + st + k) && 0 <= p
                        < P::WIDTH ==> #[trigger] lane(elems@, e, p) == round_lane(
                        before,
                        st,
                        n,
                        e,
                        p,
                    ),
            decreases stride - k,
        {
            let ghost current = elems@;
            let idx0: usize = j * (2 * stride) + k;
            let idx1: usize = idx0 + stride;
            let (v0, v1) = elems[idx0].interleave(elems[idx1], log_block);
            elems[idx0] = v0;
            elems[idx1] = v1;
            proof {
                let (i0, i1) = (idx0 as int, idx1 as int);
                assert(current[i0] == before[i0] && current[i1] == before[i1]);
                // The two elements differ in the bit the round exchanges.
                assert(i0 == (2 * j) * st + k && i1 == (2 * j + 1) * st + k) by (nonlinear_arith)
                    requires
                        i0 == j * (2 * st) + k,
                        i1 == i0 + st,
                ;
                lemma_div_mod(2 * j, st, k as int);
                lemma_div_mod(2 * j + 1, st, k as int);
                assert forall|e: int, p: int|
                    0 <= e < len && (e < base + k + 1 || base + st <= e < base + st + k + 1) && 0
                        <= p < P::WIDTH implies #[trigger] lane(elems@, e, p) == round_lane(
                    before,
                    st,
                    n,
                    e,
                    p,
                ) by {
                    if e == i0 {
                        assert(v0.lanes()[p] == interleaved_low(
                            before[i0].lanes(),
                            before[i1].lanes(),
                            n,
                            p,
                        ));
                    } else if e == i1 {
                        assert(v1.lanes()[p] == interleaved_high(
                            before[i0].lanes(),
                            before[i1].lanes(),
                            n,
                            p,
                        ));
                    } else {
                        assert(elems@[e] == current[e]);
                        assert(lane(current, e, p) == round_lane(before, st, n, e, p));
                    }
                }
            }
            k = k + 1;
        }
        proof {
            assert((j + 1) * (2 * st) == base + 2 * st) by (nonlinear_arith)
                requires
                    base == j * (2 * st),
            ;
        }
        j = j + 1;
    }
}

/// Exchanges the element axis with the low `LOG_N` bits of the scalar position.
///
/// A butterfly network of `LOG_N` rounds; round `i` exchanges one bit of the two axes.
pub fn square_transpose_const_size<P: PackedField, const LOG_N: usize, const S: usize>(
    elems: &mut [P; S],
)
    requires
        exists|k: nat| S == #[trigger] pow2(k) && LOG_N <= k,
        LOG_N <= P::LOG_WIDTH,
    ensures
        forall|e: int, p: int|
            0 <= e < S && 0 <= p < P::WIDTH ==> #[trigger] lane(final(elems)@, e, p) == lane(
                old(elems)@,
                exchanged_elem(
                    e,
                    p,
                    S as int / pow2(LOG_N as nat) as int,
                    pow2(LOG_N as nat) as int,
                ),
                exchanged_pos(
                    e,
                    p,
                    S as int / pow2(LOG_N as nat) as int,
                    pow2(LOG_N as nat) as int,
                ),
            ),
{
    let ghost before = elems@;
    let ghost size = S as int;
    let ghost full = pow2(LOG_N as nat) as int;
    let ghost w = size / full;
    proof {
        let k = choose|k: nat| S == #[trigger] pow2(k) && LOG_N <= k;
        lemma_pow2_split(LOG_N as nat, k);
        let q = pow2((k - LOG_N) as nat) as int;
        lemma_pow2_pos((k - LOG_N) as nat);
        assert(size == q * full + 0) by (nonlinear_arith)
            requires
                size == full * q,
        ;
        lemma_div_mod(q, full, 0);
        assert(size == full * w);
        lemma2_to64();
        assert(full <= size) by (nonlinear_arith)
            requires
                size == full * w,
                w >= 1,
                full >= 1,
        ;
    }
    let mut stride: usize = S / pow2_usize(LOG_N);
    let mut pairs: usize = pow2_usize(LOG_N) / 2;
    let mut i: usize = 0;
    let ghost mut n: int = 1;
    proof {
        assert forall|e: int, p: int| 0 <= e < size && 0 <= p < P::WIDTH implies #[trigger] lane(
            elems@,
            e,
            p,
        ) == lane(before, exchanged_elem(e, p, w, 1), exchanged_pos(e, p, w, 1)) by {
            assert(p % 1 == 0 && (e / w) % 1 == 0);
            assert(0 * w == 0) by (nonlinear_arith);
        }
        if LOG_N > 0 {
            lemma_pow2_unfold(LOG_N as nat);
        }
    }
    while i < LOG_N
        invariant
            i <= LOG_N,
            LOG_N <= P::LOG_WIDTH,
            size == S,
            full == pow2(LOG_N as nat),
            size == full * w,
            w >= 1,
            n == pow2(i as nat),
            n >= 1,
            i < LOG_N ==> stride == n * w,
            i < LOG_N ==> pairs == pow2((LOG_N - i - 1) as nat),
            forall|e: int, p: int|
                0 <= e < size && 0 <= p < P::WIDTH ==> #[trigger] lane(elems@, e, p) == lane(
                    before,
                    exchanged_elem(e, p, w, n),
                    exchanged_pos(e, p, w, n),
                ),
        decreases LOG_N - i,
    {
        let ghost current = elems@;
        let ghost st = stride as int;
        proof {
            P::width_is_power();
            lemma_pow2_unfold((i + 1) as nat);
            lemma_pow2_split((i + 1) as nat, LOG_N as nat);
            assert(0 < st) by (nonlinear_arith)
                requires
                    st == n * w,
                    n >= 1,
                    w >= 1,
            ;
            let pr = pairs as int;
            assert(full == 2 * n * pr);
            assert(size == pr * (2 * st)) by (nonlinear_arith)
                requires
                    size == full * w,
                    full == 2 * n * pr,
                    st == n * w,
            ;
        }
        transpose_round(elems, stride, pairs, i);
        proof {
            assert forall|e: int, p: int| 0 <= e < size && 0 <= p < P::WIDTH implies #[trigger] lane(
                elems@,
                e,
                p,
            ) == lane(before, exchanged_elem(e, p, w, 2 * n), exchanged_pos(e, p, w, 2 * n)) by {
                assert(lane(elems@, e, p) == round_lane(current, st, n, e, p));
                lemma_round::<P>(e, p, w, n, pairs as int, i as nat);
                let eb = (e / st) % 2;
                let pb = (p / n) % 2;
                if eb == pb {
                    assert(lane(current, e, p) == lane(
                        before,
                        exchanged_elem(e, p, w, n),
                        exchanged_pos(e, p, w, n),
                    ));
                } else if eb == 0 {
                    assert(lane(current, e + st, p - n) == lane(
                        before,
                        exchanged_elem(e + st, p - n, w, n),
                        exchanged_pos(e + st, p - n, w, n),
                    ));
                } else {
                    assert(lane(current, e - st, p + n) == lane(
                        before,
                        exchanged_elem(e - st, p + n, w, n),
                        exchanged_pos(e - st, p + n, w, n),
                    ));
                }
            }
            n = 2 * n;
        }
        i = i + 1;
        if i < LOG_N {
            proof {
                assert(stride * 2 == n * w) by (nonlinear_arith)
                    requires
                        stride == (n / 2) * w,
                        n == 2 * (n / 2),
                ;
                lemma_pow2_unfold((LOG_N - i) as nat);
                lemma_pow2_split(i as nat, LOG_N as nat);
                assert(n * w <= size) by (nonlinear_arith)
                    requires
                        size == full * w,
                        n <= full,
                        w >= 1,
                ;
            }
            stride = stride * 2;
            pairs = pairs / 2;
        }
    }
    proof {
        assert(n == full);
    }
}

/// One more exchanged bit.
proof fn lemma_round<P: Divisible>(e: int, p: int, w: int, n: int, pairs: int, i: nat)
    requires
        0 <= e < pairs * (2 * (n * w)),
        0 <= p < P::WIDTH,
        w >= 1,
        n == pow2(i),
        i < P::LOG_WIDTH,
    ensures
        ({
            let st = n * w;
            let eb = (e / st) % 2;
            let pb = (p / n) % 2;
            let (x, y) = if eb == pb {
                (e, p)
            } else if eb == 0 {
                (e + st, p - n)
            } else {
                (e - st, p + n)
            };
            &&& exchanged_elem(x, y, w, n) == exchanged_elem(e, p, w, 2 * n)
            &&& exchanged_pos(x, y, w, n) == exchanged_pos(e, p, w, 2 * n)
            &&& 0 <= x < pairs * (2 * st)
            &&& 0 <= y < P::WIDTH
        }),
{
    let st = n * w;
    lemma_pow2_pos(i);
    assert(st > 0) by (nonlinear_arith)
        requires
            st == n * w,
            n >= 1,
            w >= 1,
    ;
    // The element index in its fields.
    lemma_split_index(e, w);
    let (eh, el) = (e / w, e % w);
    lemma_split_index(eh, n);
    let (q, er) = (eh / n, eh % n);
    assert(e == q * st + (er * w + el)) by (nonlinear_arith)
        requires
            e == eh * w + el,
            eh == q * n + er,
            st == n * w,
    ;
    lemma_index_bound(er, el, n, w);
    lemma_div_mod(q, st, er * w + el);
    // The position in its fields.
    lemma_split_index(p, n);
    let (s, pr) = (p / n, p % n);
    let (eb, pb) = (q % 2, s % 2);
    lemma_double_mod(eh, n);
    lemma_double_mod(p, n);
    let (er2, pr2) = (er + eb * n, pr + pb * n);
    assert((pr2 - er2) * w == (pr - er) * w + (pb - eb) * st) by (nonlinear_arith)
        requires
            pr2 == pr + pb * n,
            er2 == er + eb * n,
            st == n * w,
    ;
    lemma_pow2_unfold(i + 1);
    P::width_is_power();
    lemma_pow2_split(i + 1, P::LOG_WIDTH as nat);
    lemma_split_index(q, 2);
    lemma_split_index(s, 2);
    if eb != pb {
        let d: int = if eb == 0 {
            1
        } else {
            -1
        };
        assert((pb - eb) * st == d * st);
        assert(pb * n - eb * n == d * n) by (nonlinear_arith)
            requires
                pb - eb == d,
        ;
        assert(d * st == (d * n) * w) by (nonlinear_arith)
            requires
                st == n * w,
        ;
        // The other element of the pair.
        assert(e + d * st == ((q + d) * n + er) * w + el) by (nonlinear_arith)
            requires
                e == eh * w + el,
                eh == q * n + er,
                st == n * w,
        ;
        lemma_div_mod((q + d) * n + er, w, el);
        lemma_div_mod(q + d, n, er);
        assert(p - d * n == (s - d) * n + pr) by (nonlinear_arith)
            requires
                p == s * n + pr,
        ;
        lemma_div_mod(s - d, n, pr);
        // Both stay in range, since the exchanged bit is the only one that changes.
        lemma_pair_bound(e, q, d, st, er * w + el, pairs);
        let half = pow2((P::LOG_WIDTH - (i + 1)) as nat) as int;
        assert(P::WIDTH == half * (2 * n)) by (nonlinear_arith)
            requires
                P::WIDTH == (2 * n) * half,
        ;
        lemma_pair_bound(p, s, -d, n, pr, half);
    } else {
        assert((pb - eb) * st == 0) by (nonlinear_arith)
            requires
                pb == eb,
        ;
        assert(pb * n - eb * n == 0) by (nonlinear_arith)
            requires
                pb == eb,
        ;
    }
}

/// The remainder modulo twice a number.
proof fn lemma_double_mod(x: int, n: int)
    requires
        0 <= x,
        0 < n,
    ensures
        x % (2 * n) == x % n + ((x / n) % 2) * n,
{
    lemma_split_index(x, n);
    let (q, r) = (x / n, x % n);
    lemma_split_index(q, 2);
    let (c, b) = (q / 2, q % 2);
    assert(x == c * (2 * n) + (r + b * n)) by (nonlinear_arith)
        requires
            x == q * n + r,
            q == c * 2 + b,
    ;
    assert(0 <= r + b * n < 2 * n) by (nonlinear_arith)
        requires
            0 <= r < n,
            0 <= b <= 1,
    ;
    lemma_div_mod(c, 2 * n, r + b * n);
}

/// The partner of an index below a whole number of pairs is below it too.
proof fn lemma_pair_bound(x: int, q: int, d: int, st: int, r: int, pairs: int)
    requires
        x == q * st + r,
        0 <= r < st,
        0 <= x < pairs * (2 * st),
        0 <= q,
        (d == 1 && q % 2 == 0) || (d == -1 && q % 2 == 1),
    ensures
        0 <= x + d * st < pairs * (2 * st),
{
    assert(q < 2 * pairs) by (nonlinear_arith)
        requires
            x == q * st + r,
            0 <= r < st,
            x < pairs * (2 * st),
    ;
    assert(0 <= q + d < 2 * pairs);
    assert(x + d * st == (q + d) * st + r) by (nonlinear_arith)
        requires
            x == q * st + r,
    ;
    lemma_index_bound(q + d, r, 2 * pairs, st);
    assert((2 * pairs) * st == pairs * (2 * st)) by (nonlinear_arith);
}

} // verus!
