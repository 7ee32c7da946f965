//! Random values with one generator per index.

use vstd::prelude::*;

verus! {

/// Byte `k` of an index, the least significant first.
pub open spec fn index_byte(i: int, k: nat) -> int
    decreases k,
{
    if k == 0 {
        i % 256
    } else {
        index_byte(i / 256, (k - 1) as nat)
    }
}

/// The seed of an index: the index's bytes folded into the base seed by exclusive-or.
pub open spec fn seed_at(base: Seq<u8>, i: int) -> Seq<u8> {
    Seq::new(base.len(), |k: int| base[k] ^ (index_byte(i, k as nat) as u8))
}

/// Bytes past the index are zero.
proof fn lemma_high_byte(i: int, k: nat)
    requires
        0 <= i < pow256(k),
    ensures
        index_byte(i, k) == 0,
    decreases k,
{
    if k > 0 {
        assert(i / 256 < pow256((k - 1) as nat));
        lemma_high_byte(i / 256, (k - 1) as nat);
    }
}

/// A power of 256.
pub open spec fn pow256(k: nat) -> int
    decreases k,
{
    if k == 0 {
        1
    } else {
        256 * pow256((k - 1) as nat)
    }
}

/// The seed of an index.
pub fn index_seed(base_seed: &[u8], index: usize) -> (r: Vec<u8>)
    ensures
        r@ == seed_at(base_seed@, index as int),
{
    let mut seed: Vec<u8> = Vec::new();
    let mut rest: usize = index;
    let mut k: usize = 0;
    while k < base_seed.len()
        invariant
            k <= base_seed.len(),
            seed.len() == k,
            forall|j: nat| #[trigger] index_byte(rest as int, j) == index_byte(
                index as int,
                k as nat + j,
            ),
            forall|j: int|
                0 <= j < k ==> #[trigger] seed[j] == base_seed[j] ^ (index_byte(
                    index as int,
                    j as nat,
                ) as u8),
        decreases base_seed.len() - k,
    {
        let byte: u8 = (rest % 256) as u8;
        proof {
            assert(index_byte(rest as int, 0) == index_byte(index as int, k as nat));
            assert forall|j: nat| #[trigger] index_byte(rest as int / 256, j) == index_byte(
                index as int,
                k as nat + 1 + j,
            ) by {
                assert(index_byte(rest as int, j + 1) == index_byte(index as int, k as nat + (j + 1)));
            }
        }
        seed.push(base_seed[k] ^ byte);
        rest = rest / 256;
        k = k + 1;
    }
    assert(seed@ =~= seed_at(base_seed@, index as int));
    seed
}

/// A value a function can return for a seed.
pub open spec fn made_from<T, F: Fn(Vec<u8>) -> T>(f: F, seed: Seq<u8>, value: T) -> bool {
    exists|v: Vec<u8>| v@ == seed && #[trigger] call_ensures(f, (v,), value)
}

/// A value for each index below `n`, made from the seed of that index.
///
/// The base seed is drawn once, and each index has a seed of its own, so the values do not depend
/// on the order in which they are made.
pub fn par_rand<T, F: Fn(Vec<u8>) -> T>(n: usize, base_seed: &[u8], f: F) -> (r: Vec<T>)
    requires
        forall|seed: Vec<u8>| seed.len() == base_seed.len() ==> #[trigger] call_requires(f, (seed,)),
    ensures
        r.len() == n,
        forall|i: int|
            0 <= i < n ==> made_from(f, seed_at(base_seed@, i), #[trigger] r[i]),
{
    let mut r: Vec<T> = Vec::new();
    let mut i: usize = 0;
    while i < n
        invariant
            i <= n,
            r.len() == i,
            forall|seed: Vec<u8>|
                seed.len() == base_seed.len() ==> #[trigger] call_requires(f, (seed,)),
            forall|k: int|
                0 <= k < i ==> made_from(f, seed_at(base_seed@, k), #[trigger] r[k]),
        decreases n - i,
    {
        let seed = index_seed(base_seed, i);
        let value = f(seed);
        r.push(value);
        assert(made_from(f, seed_at(base_seed@, i as int), r[i as int]));
        i = i + 1;
    }
    r
}

/// Folding in by exclusive-or can be undone.
proof fn lemma_xor_cancels(a: u8, b: u8, c: u8)
    requires
        a ^ b == a ^ c,
    ensures
        b == c,
{
    assert(b == c) by (bit_vector)
        requires
            a ^ b == a ^ c,
    ;
}

/// An index is determined by its bytes.
proof fn lemma_bytes_determine(i: int, j: int, n: nat)
    requires
        0 <= i < pow256(n),
        0 <= j < pow256(n),
        forall|k: nat| k < n ==> #[trigger] index_byte(i, k) == index_byte(j, k),
    ensures
        i == j,
    decreases n,
{
    if n > 0 {
        assert(index_byte(i, 0) == index_byte(j, 0));
        assert forall|k: nat| k < n - 1 implies #[trigger] index_byte(i / 256, k) == index_byte(
            j / 256,
            k,
        ) by {
            assert(index_byte(i, k + 1) == index_byte(j, k + 1));
        }
        lemma_bytes_determine(i / 256, j / 256, (n - 1) as nat);
    }
}

/// Bytes are bytes.
proof fn lemma_byte_range(i: int, k: nat)
    ensures
        0 <= index_byte(i, k) < 256,
    decreases k,
{
    if k > 0 {
        lemma_byte_range(i / 256, (k - 1) as nat);
    }
}

/// Each index has a seed of its own, once the base seed is as long as an index.
pub proof fn seeds_are_unique(base: Seq<u8>, i: int, j: int)
    requires
        base.len() >= 8,
        0 <= i < pow256(8),
        0 <= j < pow256(8),
        seed_at(base, i) == seed_at(base, j),
    ensures
        i == j,
{
    assert forall|k: nat| k < 8 implies #[trigger] index_byte(i, k) == index_byte(j, k) by {
        assert(seed_at(base, i)[k as int] == base[k as int] ^ (index_byte(i, k) as u8));
        assert(seed_at(base, j)[k as int] == base[k as int] ^ (index_byte(j, k) as u8));
        lemma_xor_cancels(base[k as int], index_byte(i, k) as u8, index_byte(j, k) as u8);
        lemma_byte_range(i, k);
        lemma_byte_range(j, k);
    }
    lemma_bytes_determine(i, j, 8);
}

/// A seed longer than an index keeps the base seed's tail.
pub proof fn seed_tail_is_kept(base: Seq<u8>, i: int, k: int)
    requires
        0 <= i < pow256(8),
        8 <= k < base.len(),
    ensures
        seed_at(base, i)[k] == base[k],
{
    lemma_pow256_grows(8, k as nat);
    lemma_high_byte(i, k as nat);
    let x = base[k];
    assert(x ^ 0u8 == x) by (bit_vector);
}

/// Higher powers are larger.
pub proof fn lemma_pow256_grows(m: nat, n: nat)
    requires
        m <= n,
    ensures
        pow256(m) <= pow256(n),
        pow256(m) >= 1,
    decreases n,
{
    if m < n {
        lemma_pow256_grows(m, (n - 1) as nat);
    } else if m > 0 {
        lemma_pow256_grows((m - 1) as nat, (m - 1) as nat);
    }
}

/// The low bytes of a number by shifting and by dividing.
proof fn lemma_low_bytes(i: u64)
    by (bit_vector)
    ensures
        i & 0xff == i % 256,
        (i >> 8) & 0xff == (i / 0x100) % 256,
        (i >> 16) & 0xff == (i / 0x100 / 0x100) % 256,
        (i >> 24) & 0xff == (i / 0x100 / 0x100 / 0x100) % 256,
{
}

/// The four lowest bytes of an index are folded into the first four bytes of the seed, the lowest
/// first.
pub proof fn low_index_bytes_come_first(base_seed: &[u8], index: usize, r: Vec<u8>)
    requires
        call_ensures(index_seed, (base_seed, index), r),
        base_seed.len() >= 4,
    ensures
        r.len() == base_seed.len(),
        r[0] == base_seed[0] ^ ((index as u64 & 0xff) as u8),
        r[1] == base_seed[1] ^ (((index as u64 >> 8) & 0xff) as u8),
        r[2] == base_seed[2] ^ (((index as u64 >> 16) & 0xff) as u8),
        r[3] == base_seed[3] ^ (((index as u64 >> 24) & 0xff) as u8),
{
    lemma_low_bytes(index as u64);
    reveal_with_fuel(index_byte, 5);
    assert(r@[0] == seed_at(base_seed@, index as int)[0]);
}

} // verus!
