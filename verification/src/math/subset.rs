//! Bits of indices, and tables of subset sums.

use vstd::arithmetic::div_mod::lemma_div_denominator;
use vstd::arithmetic::power2::{lemma2_to64, lemma_pow2_pos, lemma_pow2_unfold, pow2};
use crate::algebra::field::{FieldOps, select};
use crate::algebra::group::AdditiveGroup;
use crate::algebra::sum::{lemma_sum_ext, sum};
use crate::bits::{bit64, lemma_low_bit64};
use crate::math::index::{lemma_div_mod, lemma_pow2_split, lemma_split_index};
use vstd::prelude::*;

verus! {

/// Whether bit `j` of an index is set.
pub open spec fn index_bit(x: int, j: int) -> bool {
    (x / pow2(j as nat) as int) % 2 == 1
}

/// Bits of a shifted index.
pub proof fn lemma_index_bit_shift(x: int, a: int, j: int)
    requires
        0 <= x,
        0 <= a,
        0 <= j,
    ensures
        index_bit(x / pow2(a as nat) as int, j) == index_bit(x, a + j),
{
    lemma_pow2_pos(a as nat);
    lemma_pow2_pos(j as nat);
    lemma_pow2_split(a as nat, (a + j) as nat);
    lemma_div_denominator(x, pow2(a as nat) as int, pow2(j as nat) as int);
}

/// Low bits are not affected by what stands above them.
pub proof fn lemma_index_bit_low(hi: int, lo: int, n: int, j: int)
    requires
        0 <= j < n,
        0 <= hi,
        0 <= lo < pow2(n as nat),
    ensures
        index_bit(hi * pow2(n as nat) + lo, j) == index_bit(lo, j),
{
    let p = pow2(j as nat) as int;
    let k = (n - j) as nat;
    lemma_pow2_pos(j as nat);
    lemma_pow2_split(j as nat, n as nat);
    lemma_pow2_unfold(k);
    let q = pow2((k - 1) as nat) as int;
    lemma_split_index(lo, p);
    let x = hi * pow2(n as nat) + lo;
    assert(x == (2 * (hi * q) + lo / p) * p + lo % p) by (nonlinear_arith)
        requires
            x == hi * (p * (2 * q)) + lo,
            lo == (lo / p) * p + lo % p,
    ;
    lemma_div_mod(2 * (hi * q) + lo / p, p, lo % p);
}

/// An index below `2^n` has no bit at or above `n`.
pub proof fn lemma_index_bit_high(x: int, n: int, j: int)
    requires
        0 <= n <= j,
        0 <= x < pow2(n as nat),
    ensures
        !index_bit(x, j),
{
    lemma_pow2_split(n as nat, j as nat);
    lemma_div_mod(0, pow2(j as nat) as int, x);
}

/// The top bit of an index.
pub proof fn lemma_index_bit_top(lo: int, n: int)
    requires
        0 <= n,
        0 <= lo < pow2(n as nat),
    ensures
        index_bit(pow2(n as nat) + lo, n),
{
    lemma_div_mod(1, pow2(n as nat) as int, lo);
    assert(1 * pow2(n as nat) + lo == pow2(n as nat) + lo);
}

/// Bits of machine words are bits of their values.
pub proof fn lemma_bit64_is_index_bit(x: u64, i: int)
    requires
        0 <= i < 64,
    ensures
        bit64(x, i) == index_bit(x as int, i),
{
    vstd::bits::lemma_u64_shr_is_div(x, i as u64);
    lemma_low_bit64(x >> (i as u64));
}

/// The number whose low `n` bits are given.
pub open spec fn bits_value(f: spec_fn(int) -> bool, n: int) -> int
    decreases n,
{
    if n <= 0 {
        0
    } else {
        bits_value(f, n - 1) + if f(n - 1) {
            pow2((n - 1) as nat) as int
        } else {
            0
        }
    }
}

/// The bits of a number made from bits.
pub proof fn lemma_bits_value(f: spec_fn(int) -> bool, n: int)
    requires
        0 <= n,
    ensures
        0 <= bits_value(f, n) < pow2(n as nat),
        forall|j: int| 0 <= j < n ==> #[trigger] index_bit(bits_value(f, n), j) == f(j),
    decreases n,
{
    lemma2_to64();
    if n > 0 {
        lemma_bits_value(f, n - 1);
        lemma_pow2_unfold(n as nat);
        let v = bits_value(f, n - 1);
        let p = pow2((n - 1) as nat) as int;
        assert forall|j: int| 0 <= j < n implies #[trigger] index_bit(bits_value(f, n), j) == f(
            j,
        ) by {
            if j < n - 1 {
                assert(index_bit(v, j) == f(j));
                lemma_index_bit_low(1, v, n - 1, j);
            } else {
                lemma_index_bit_high(v, n - 1, j);
                lemma_index_bit_top(v, n - 1);
            }
        }
    }
}

/// The sum of the terms named by the low `n` bits of `v`.
pub open spec fn subset_sum<G: AdditiveGroup>(terms: Seq<G>, n: int, v: int) -> G {
    sum(n, |t: int| select(index_bit(v, t), terms[t]))
}

/// The sums of all subsets of eight terms.
pub fn expand_subset_sums_array<F: FieldOps>(terms: [F; 8]) -> (r: [F; 256])
    ensures
        forall|v: int| 0 <= v < 256 ==> #[trigger] r[v] == subset_sum(terms@, 8, v),
{
    let mut r: [F; 256] = [F::zero(); 256];
    let mut t: usize = 0;
    let mut size: usize = 1;
    proof {
        lemma2_to64();
        assert(subset_sum(terms@, 0, 0) == F::nil());
    }
    while t < 8
        invariant
            t <= 8,
            size == pow2(t as nat),
            pow2(8) == 256,
            forall|v: int| 0 <= v < size ==> #[trigger] r[v] == subset_sum(terms@, t as int, v),
        decreases 8 - t,
    {
        let ghost before = r;
        let mut v: usize = 0;
        proof {
            lemma_pow2_split((t + 1) as nat, 8);
            lemma_pow2_unfold((t + 1) as nat);
        }
        while v < size
            invariant
                t < 8,
                v <= size,
                size == pow2(t as nat),
                2 * size <= 256,
                forall|u: int| 0 <= u < size ==> #[trigger] r[u] == before[u],
                forall|u: int| 0 <= u < size ==> #[trigger] before[u] == subset_sum(
                    terms@,
                    t as int,
                    u,
                ),
                forall|u: int|
                    0 <= u < v ==> #[trigger] r[size + u] == before[u].plus(terms[t as int]),
            decreases size - v,
        {
            let ghost current = r;
            let value = r[v].add(terms[t]);
            r[size + v] = value;
            proof {
                assert(before[v as int] == current[v as int]);
                assert forall|u: int| 0 <= u < v + 1 implies #[trigger] r[size + u]
                    == before[u].plus(terms[t as int]) by {
                    if u < v {
                        assert(current[size + u] == before[u].plus(terms[t as int]));
                    }
                }
            }
            v = v + 1;
        }
        proof {
            assert forall|v: int| 0 <= v < 2 * size implies #[trigger] r[v] == subset_sum(
                terms@,
                t + 1,
                v,
            ) by {
                let n = t as int;
                let f = |j: int| select(index_bit(v, j), terms@[j]);
                assert(sum(n + 1, f) == sum(n, f).plus(f(n)));
                if v < size {
                    assert(r[v] == before[v]);
                    lemma_index_bit_high(v, n, n);
                    F::plus_nil(sum(n, f));
                } else {
                    let u = v - size;
                    assert(r[size + u] == before[u].plus(terms[t as int]));
                    lemma_index_bit_top(u, n);
                    let g = |j: int| select(index_bit(u, j), terms@[j]);
                    assert forall|j: int| 0 <= j < n implies #[trigger] f(j) == g(j) by {
                        lemma_index_bit_low(1, u, n, j);
                    }
                    lemma_sum_ext(n, f, g);
                }
            }
        }
        t = t + 1;
        size = 2 * size;
    }
    r
}

} // verus!
