//! Powers of two and division of indices.

use vstd::arithmetic::div_mod::{
    lemma_fundamental_div_mod, lemma_fundamental_div_mod_converse, lemma_mod_bound,
};
use vstd::arithmetic::power2::{
    lemma_pow2, lemma_pow2_adds, lemma_pow2_pos, lemma_pow2_strictly_increases, lemma_pow2_unfold,
    pow2,
};
use vstd::prelude::*;

verus! {

/// `2^k` for an exponent whose power fits.
pub fn pow2_usize(k: usize) -> (r: usize)
    requires
        pow2(k as nat) <= usize::MAX,
    ensures
        r == pow2(k as nat),
        r > 0,
{
    let mut r: usize = 1;
    let mut i: usize = 0;
    proof {
        lemma_pow2(0);
        assert(pow2(0) == 1) by {
            vstd::arithmetic::power2::lemma2_to64();
        }
    }
    while i < k
        invariant
            i <= k,
            r == pow2(i as nat),
            r > 0,
            pow2(k as nat) <= usize::MAX,
        decreases k - i,
    {
        proof {
            lemma_pow2_unfold((i + 1) as nat);
            if i + 1 < k {
                lemma_pow2_strictly_increases((i + 1) as nat, k as nat);
            }
        }
        r = r * 2;
        i = i + 1;
    }
    r
}

/// The smallest `k` with `n <= 2^k`.
pub open spec fn is_log2_ceil(n: nat, k: nat) -> bool {
    &&& n <= pow2(k)
    &&& k > 0 ==> pow2((k - 1) as nat) < n
}

/// The base-2 logarithm rounded up.
pub open spec fn ceil_log2(n: nat) -> nat {
    choose|k: nat| is_log2_ceil(n, k)
}

/// A length rounds up to one power of two.
pub proof fn lemma_ceil_log2(n: nat, k: nat)
    requires
        is_log2_ceil(n, k),
    ensures
        ceil_log2(n) == k,
{
    let j = ceil_log2(n);
    if j < k {
        if j < k - 1 {
            lemma_pow2_strictly_increases(j, (k - 1) as nat);
        }
    } else if k < j {
        if k < j - 1 {
            lemma_pow2_strictly_increases(k, (j - 1) as nat);
        }
    }
}

/// Every length rounds up to a power of two.
pub proof fn lemma_ceil_log2_exists(n: nat)
    ensures
        is_log2_ceil(n, ceil_log2(n)),
    decreases n,
{
    vstd::arithmetic::power2::lemma2_to64();
    if n <= 1 {
        assert(is_log2_ceil(n, 0));
    } else {
        let m = ((n + 1) / 2) as nat;
        lemma_ceil_log2_exists(m);
        let k = ceil_log2(m);
        vstd::arithmetic::power2::lemma_pow2_unfold(k + 1);
        if k > 0 {
            vstd::arithmetic::power2::lemma_pow2_unfold(k);
        }
        assert(is_log2_ceil(n, k + 1));
    }
}

/// The smallest exponent whose power of two is at least `n`.
pub fn log2_ceil_usize(n: usize) -> (k: usize)
    ensures
        is_log2_ceil(n as nat, k as nat),
        k <= usize::BITS,
{
    let mut k: usize = 0;
    // The powers of two below `n` are halved away rather than built up, so nothing overflows.
    let mut rest: usize = if n == 0 {
        0
    } else {
        n - 1
    };
    proof {
        vstd::arithmetic::power2::lemma2_to64();
        vstd::layout::unsigned_int_max_values();
    }
    let ghost start = rest as int;
    while rest > 0
        invariant
            n == 0 ==> start == 0,
            n > 0 ==> start == n - 1,
            rest as int == start / pow2(k as nat) as int,
            k > 0 ==> pow2((k - 1) as nat) <= start,
            0 <= start <= usize::MAX,
            k <= usize::BITS,
            usize::BITS == 32 || usize::BITS == 64,
            usize::MAX == pow2(usize::BITS as nat) - 1,
        decreases rest,
    {
        proof {
            lemma_pow2_pos(k as nat);
            lemma_pow2_unfold((k + 1) as nat);
            lemma_div_ge(start, pow2(k as nat) as int);
            vstd::arithmetic::div_mod::lemma_div_denominator(start, pow2(k as nat) as int, 2);
            if k >= usize::BITS {
                assert(pow2(k as nat) == pow2(usize::BITS as nat));
                assert(false);
            }
        }
        rest = rest / 2;
        k = k + 1;
    }
    proof {
        lemma_pow2_pos(k as nat);
        lemma_div_small(start, pow2(k as nat) as int);
        if k > 0 {
            lemma_pow2_pos((k - 1) as nat);
        }
    }
    k
}

/// A nonzero quotient means the dividend reaches the divisor.
proof fn lemma_div_ge(a: int, d: int)
    requires
        0 <= a,
        0 < d,
        a / d > 0,
    ensures
        d <= a,
{
    if a < d {
        vstd::arithmetic::div_mod::lemma_basic_div(a, d);
    }
}

/// A zero quotient means the dividend is below the divisor.
proof fn lemma_div_small(a: int, d: int)
    requires
        0 <= a,
        0 < d,
        a / d == 0,
    ensures
        a < d,
{
    lemma_fundamental_div_mod(a, d);
    lemma_mod_bound(a, d);
}

/// Division undoes the composition of a block index and an offset.
pub proof fn lemma_div_mod(q: int, w: int, r: int)
    requires
        0 <= r < w,
    ensures
        (q * w + r) / w == q,
        (q * w + r) % w == r,
{
    lemma_fundamental_div_mod_converse(q * w + r, w, q, r);
}

/// An exponent lies below its power of two.
pub proof fn lemma_exponent_below(k: nat)
    ensures
        k < pow2(k),
    decreases k,
{
    if k == 0 {
        vstd::arithmetic::power2::lemma2_to64();
    } else {
        lemma_exponent_below((k - 1) as nat);
        vstd::arithmetic::power2::lemma_pow2_unfold(k);
    }
}

/// A quotient rounded up.
pub open spec fn div_up(a: int, b: int) -> int {
    if a % b == 0 {
        a / b
    } else {
        a / b + 1
    }
}

/// An index splits into a block index and an offset.
pub proof fn lemma_split_index(i: int, w: int)
    requires
        0 < w,
    ensures
        i == (i / w) * w + i % w,
        0 <= i % w < w,
        0 <= i ==> 0 <= i / w,
{
    lemma_fundamental_div_mod(i, w);
    lemma_mod_bound(i, w);
    assert(w * (i / w) == (i / w) * w) by (nonlinear_arith);
    if 0 <= i {
        vstd::arithmetic::div_mod::lemma_div_pos_is_pos(i, w);
    }
}

/// An index below `n` blocks has a block index below `n`.
pub proof fn lemma_block_bound(i: int, n: int, w: int)
    requires
        0 <= i < n * w,
        0 < w,
    ensures
        0 <= i / w < n,
{
    lemma_split_index(i, w);
    assert(i / w < n) by (nonlinear_arith)
        requires
            i == (i / w) * w + i % w,
            0 <= i % w,
            i < n * w,
            0 < w,
    ;
}

/// A block index below `n` with an offset below `w` gives an index below `n * w`.
pub proof fn lemma_index_bound(q: int, r: int, n: int, w: int)
    requires
        0 <= q < n,
        0 <= r < w,
    ensures
        0 <= q * w + r < n * w,
{
    assert(0 <= q * w + r < n * w) by (nonlinear_arith)
        requires
            0 <= q < n,
            0 <= r < w,
    ;
}

/// A power of two splits into any two factors that are powers of two.
pub proof fn lemma_pow2_split(m: nat, k: nat)
    requires
        m <= k,
    ensures
        pow2(k) == pow2(m) * pow2((k - m) as nat),
        pow2(m) > 0,
        pow2(m) <= pow2(k),
{
    lemma_pow2_adds(m, (k - m) as nat);
    lemma_pow2_pos(m);
    lemma_pow2_pos((k - m) as nat);
    if m < k {
        lemma_pow2_strictly_increases(m, k);
    }
}

/// The exponent of a power of two.
pub open spec fn exact_log2(n: nat) -> int {
    (choose|k: nat| #[trigger] pow2(k) == n) as int
}

/// The exponent of `2^k` is `k`.
pub proof fn lemma_exact_log2(k: nat)
    ensures
        exact_log2(pow2(k)) == k,
{
    let j = exact_log2(pow2(k)) as nat;
    assert(pow2(j) == pow2(k));
    if j < k {
        lemma_pow2_strictly_increases(j, k);
    } else if k < j {
        lemma_pow2_strictly_increases(k, j);
    }
}

} // verus!
