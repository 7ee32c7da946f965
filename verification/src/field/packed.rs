//! Vectors of field elements with lane-wise arithmetic.

use vstd::arithmetic::power2::{lemma_pow2_unfold, pow2};
use crate::algebra::field::{Field, FieldOps};
use crate::algebra::group::AdditiveGroup;
use crate::math::index::{
    lemma_block_bound, lemma_div_mod, lemma_index_bound, lemma_pow2_split, lemma_split_index,
    pow2_usize,
};
use vstd::prelude::*;

verus! {

/// The `n`-th power of an element.
pub open spec fn power<F: FieldOps>(a: F, n: nat) -> F
    decreases n,
{
    if n == 0 {
        F::unit()
    } else {
        power(a, (n - 1) as nat).times(a)
    }
}

/// Lane `i` of the first vector after interleaving blocks of `block` lanes of `a` and `b`.
pub open spec fn interleaved_low<F>(a: Seq<F>, b: Seq<F>, block: int, i: int) -> F {
    if (i / block) % 2 == 0 {
        a[i]
    } else {
        b[i - block]
    }
}

/// Lane `i` of the second vector after interleaving blocks of `block` lanes of `a` and `b`.
pub open spec fn interleaved_high<F>(a: Seq<F>, b: Seq<F>, block: int, i: int) -> F {
    if (i / block) % 2 == 0 {
        a[i + block]
    } else {
        b[i]
    }
}

/// Where lane `i` of the `part`-th unzipped vector stands among the lanes of both inputs.
pub open spec fn unzipped_source(part: int, block: int, i: int) -> int {
    (i / block) * (2 * block) + part * block + i % block
}

/// The scalars of a slice of vectors, in order.
pub open spec fn all_lanes<P: Divisible>(packed: Seq<P>) -> Seq<P::Scalar> {
    Seq::new(
        packed.len() * P::WIDTH as nat,
        |i: int| packed[i / P::WIDTH as int].lanes()[i % P::WIDTH as int],
    )
}

/// A value that divides into `WIDTH` field elements, a power of two of them.
pub trait Divisible: Sized + Copy {
    /// The element type.
    type Scalar: Field;

    /// Base-2 logarithm of the number of lanes.
    const LOG_WIDTH: usize;

    /// The number of lanes.
    const WIDTH: usize;

    /// The elements, lane by lane.
    spec fn lanes(self) -> Seq<Self::Scalar>;

    /// There are `WIDTH` lanes.
    proof fn lanes_len(self)
        ensures
            self.lanes().len() == Self::WIDTH,
    ;

    /// Vectors with the same lanes are the same.
    proof fn lanes_determine(self, other: Self)
        requires
            self.lanes() == other.lanes(),
        ensures
            self == other,
    ;

    /// The width is the power of two its logarithm says.
    proof fn width_is_power()
        ensures
            Self::WIDTH == pow2(Self::LOG_WIDTH as nat),
            Self::LOG_WIDTH <= 9,
            1 <= Self::WIDTH <= 512,
    ;

    /// The vector of zeros.
    fn zero_packed() -> (r: Self)
        ensures
            forall|i: int|
                0 <= i < Self::WIDTH ==> #[trigger] r.lanes()[i] == Self::Scalar::nil(),
    ;

    /// The element in a lane.
    fn get(&self, i: usize) -> (r: Self::Scalar)
        requires
            i < Self::WIDTH,
        ensures
            r == self.lanes()[i as int],
    ;

    /// Replaces the element in a lane.
    fn set(&mut self, i: usize, value: Self::Scalar)
        requires
            i < Self::WIDTH,
        ensures
            final(self).lanes() == old(self).lanes().update(i as int, value),
    ;

}

/// A vector of field elements with lane-wise arithmetic.
pub trait PackedField: Divisible {
    /// The elements in order.
    fn into_iter(self) -> (r: Vec<Self::Scalar>)
        ensures
            r@ == self.lanes(),
    {
        self.iter()
    }

    /// The elements in order.
    fn iter(&self) -> (r: Vec<Self::Scalar>)
        ensures
            r@ == self.lanes(),
    {
        let mut r: Vec<Self::Scalar> = Vec::new();
        let mut i: usize = 0;
        proof {
            self.lanes_len();
        }
        while i < Self::WIDTH
            invariant
                i <= Self::WIDTH,
                r.len() == i,
                forall|j: int| 0 <= j < i ==> #[trigger] r[j] == self.lanes()[j],
                self.lanes().len() == Self::WIDTH,
            decreases Self::WIDTH - i,
        {
            r.push(self.get(i));
            i = i + 1;
        }
        assert(r@ =~= self.lanes());
        r
    }

    /// The elements of a slice of vectors, in order.
    fn iter_slice(slice: &[Self]) -> (r: Vec<Self::Scalar>)
        ensures
            r@ == all_lanes(slice@),
    {
        let mut r: Vec<Self::Scalar> = Vec::new();
        let mut i: usize = 0;
        proof {
            Self::width_is_power();
            assert(0 * Self::WIDTH == 0) by (nonlinear_arith);
        }
        while i < slice.len()
            invariant
                i <= slice.len(),
                1 <= Self::WIDTH,
                r.len() == i * Self::WIDTH,
                forall|j: int|
                    0 <= j < i * Self::WIDTH ==> #[trigger] r[j] == all_lanes(slice@)[j],
            decreases slice.len() - i,
        {
            let part = slice[i].iter();
            let mut k: usize = 0;
            proof {
                slice[i as int].lanes_len();
            }
            while k < part.len()
                invariant
                    i < slice.len(),
                    1 <= Self::WIDTH,
                    k <= part.len(),
                    part.len() == Self::WIDTH,
                    part@ == slice[i as int].lanes(),
                    r.len() == i * Self::WIDTH + k,
                    forall|j: int|
                        0 <= j < i * Self::WIDTH + k ==> #[trigger] r[j] == all_lanes(slice@)[j],
                decreases part.len() - k,
            {
                r.push(part[k]);
                proof {
                    lemma_div_mod(i as int, Self::WIDTH as int, k as int);
                    lemma_index_bound(i as int, k as int, slice.len() as int, Self::WIDTH as int);
                }
                k = k + 1;
            }
            proof {
                assert((i + 1) * Self::WIDTH == i * Self::WIDTH + Self::WIDTH)
                    by (nonlinear_arith);
            }
            i = i + 1;
        }
        assert(r@ =~= all_lanes(slice@));
        r
    }

    /// The vector with `scalar` in lane zero and zeros elsewhere.
    fn set_single(scalar: Self::Scalar) -> (r: Self)
        ensures
            r.lanes()[0] == scalar,
            forall|i: int|
                1 <= i < Self::WIDTH ==> #[trigger] r.lanes()[i] == Self::Scalar::nil(),
    {
        let mut r = Self::zero_packed();
        proof {
            Self::width_is_power();
            r.lanes_len();
        }
        r.set(0, scalar);
        r
    }

    /// The vector whose lane `i` holds what `f` returns for `i`.
    fn from_fn<C: Fn(usize) -> Self::Scalar>(f: C) -> (r: Self)
        requires
            forall|i: usize| i < Self::WIDTH ==> #[trigger] f.requires((i,)),
        ensures
            forall|i: int|
                0 <= i < Self::WIDTH ==> f.ensures((i as usize,), #[trigger] r.lanes()[i]),
    {
        let mut r = Self::zero_packed();
        let mut i: usize = 0;
        proof {
            r.lanes_len();
        }
        while i < Self::WIDTH
            invariant
                i <= Self::WIDTH,
                r.lanes().len() == Self::WIDTH,
                forall|j: usize| j < Self::WIDTH ==> #[trigger] f.requires((j,)),
                forall|j: int| 0 <= j < i ==> f.ensures((j as usize,), #[trigger] r.lanes()[j]),
            decreases Self::WIDTH - i,
        {
            let ghost before = r.lanes();
            let value = f(i);
            r.set(i, value);
            proof {
                assert forall|j: int| 0 <= j < i + 1 implies f.ensures(
                    (j as usize,),
                    #[trigger] r.lanes()[j],
                ) by {
                    if j < i {
                        assert(r.lanes()[j] == before[j]);
                    }
                }
            }
            i = i + 1;
        }
        r
    }

    /// The vector holding the given scalars in order.
    ///
    /// Missing scalars are zero; scalars beyond the width are ignored.
    fn from_scalars(values: &[Self::Scalar]) -> (r: Self)
        ensures
            forall|i: int|
                0 <= i < Self::WIDTH ==> #[trigger] r.lanes()[i] == if i < values.len() {
                    values[i]
                } else {
                    Self::Scalar::nil()
                },
    {
        let mut r = Self::zero_packed();
        let mut i: usize = 0;
        proof {
            r.lanes_len();
        }
        while i < Self::WIDTH && i < values.len()
            invariant
                i <= Self::WIDTH,
                i <= values.len(),
                r.lanes().len() == Self::WIDTH,
                forall|j: int|
                    0 <= j < Self::WIDTH ==> #[trigger] r.lanes()[j] == if j < i {
                        values[j]
                    } else {
                        Self::Scalar::nil()
                    },
            decreases Self::WIDTH - i,
        {
            let ghost before = r.lanes();
            r.set(i, values[i]);
            proof {
                assert forall|j: int| 0 <= j < Self::WIDTH implies #[trigger] r.lanes()[j] == (
                if j < i + 1 {
                    values[j]
                } else {
                    Self::Scalar::nil()
                }) by {
                    if j != i {
                        assert(r.lanes()[j] == before[j]);
                    }
                }
            }
            i = i + 1;
        }
        r
    }

    /// The vector with the same element in every lane.
    fn broadcast(scalar: Self::Scalar) -> (r: Self)
        ensures
            forall|i: int| 0 <= i < Self::WIDTH ==> #[trigger] r.lanes()[i] == scalar,
    {
        Self::from_fn(
            |i: usize| -> (s: Self::Scalar)
                ensures
                    (s == scalar)
                { scalar },
        )
    }

    /// The lane-wise sum.
    fn add_packed(self, rhs: Self) -> (r: Self)
        ensures
            forall|i: int|
                0 <= i < Self::WIDTH ==> #[trigger] r.lanes()[i] == self.lanes()[i].plus(
                    rhs.lanes()[i],
                ),
    {
        Self::from_fn(
            |i: usize| -> (s: Self::Scalar)
                requires
                    i < Self::WIDTH,
                ensures
                    (s == self.lanes()[i as int].plus(rhs.lanes()[i as int]))
                { self.get(i).add(rhs.get(i)) },
        )
    }

    /// The lane-wise product.
    fn mul_packed(self, rhs: Self) -> (r: Self)
        ensures
            forall|i: int|
                0 <= i < Self::WIDTH ==> #[trigger] r.lanes()[i] == self.lanes()[i].times(
                    rhs.lanes()[i],
                ),
    {
        Self::from_fn(
            |i: usize| -> (s: Self::Scalar)
                requires
                    i < Self::WIDTH,
                ensures
                    (s == self.lanes()[i as int].times(rhs.lanes()[i as int]))
                { self.get(i).mul(rhs.get(i)) },
        )
    }

    /// The lane-wise square.
    fn square_packed(self) -> (r: Self)
        ensures
            forall|i: int|
                0 <= i < Self::WIDTH ==> #[trigger] r.lanes()[i] == self.lanes()[i].times(
                    self.lanes()[i],
                ),
    {
        Self::from_fn(
            |i: usize| -> (s: Self::Scalar)
                requires
                    i < Self::WIDTH,
                ensures
                    (s == self.lanes()[i as int].times(self.lanes()[i as int]))
                { self.get(i).square() },
        )
    }

    /// Every lane raised to the power `exp`.
    fn pow(self, exp: u64) -> (r: Self)
        ensures
            forall|i: int|
                0 <= i < Self::WIDTH ==> #[trigger] r.lanes()[i] == power(
                    self.lanes()[i],
                    exp as nat,
                ),
    {
        let one = <Self::Scalar as FieldOps>::one();
        let mut res = Self::broadcast(one);
        let mut i: u64 = 64;
        // The exponent read so far, from the top.
        let ghost mut prefix: nat = 0;
        proof {
            assert(pow2(64) == 0x10000000000000000) by {
                vstd::arithmetic::power2::lemma2_to64();
            }
            assert(exp as nat / pow2(64) == 0);
        }
        while i > 0
            invariant
                i <= 64,
                prefix == exp as nat / pow2(i as nat),
                forall|j: int|
                    0 <= j < Self::WIDTH ==> #[trigger] res.lanes()[j] == power(
                        self.lanes()[j],
                        prefix,
                    ),
            decreases i,
        {
            i = i - 1;
            let ghost before = res;
            let squared = res.square_packed();
            let shifted: u64 = exp >> i;
            proof {
                vstd::bits::lemma_u64_shr_is_div(exp, i);
                lemma_prefix(exp as nat, i as nat);
                assert forall|j: int| 0 <= j < Self::WIDTH implies #[trigger] squared.lanes()[j]
                    == power(self.lanes()[j], 2 * prefix) by {
                    assert(before.lanes()[j] == power(self.lanes()[j], prefix));
                    lemma_power_add(self.lanes()[j], prefix, prefix);
                }
            }
            if shifted % 2 == 1 {
                res = squared.mul_packed(self);
            } else {
                res = squared;
            }
            proof {
                let next = exp as nat / pow2(i as nat);
                assert forall|j: int| 0 <= j < Self::WIDTH implies #[trigger] res.lanes()[j]
                    == power(self.lanes()[j], next) by {
                    assert(squared.lanes()[j] == power(self.lanes()[j], 2 * prefix));
                }
                prefix = next;
            }
        }
        proof {
            vstd::arithmetic::power2::lemma2_to64();
            assert(exp as nat / 1 == exp as nat);
        }
        res
    }

    /// Interleaves blocks of `2^log_block_len` lanes of two vectors.
    ///
    /// Stacking the two vectors and cutting them into blocks gives matrices of two by two blocks;
    /// each of these is transposed.
    fn interleave(self, other: Self, log_block_len: usize) -> (r: (Self, Self))
        requires
            log_block_len < Self::LOG_WIDTH,
        ensures
            forall|i: int|
                0 <= i < Self::WIDTH ==> #[trigger] r.0.lanes()[i] == interleaved_low(
                    self.lanes(),
                    other.lanes(),
                    pow2(log_block_len as nat) as int,
                    i,
                ),
            forall|i: int|
                0 <= i < Self::WIDTH ==> #[trigger] r.1.lanes()[i] == interleaved_high(
                    self.lanes(),
                    other.lanes(),
                    pow2(log_block_len as nat) as int,
                    i,
                ),
    {
        proof {
            Self::width_is_power();
            lemma_pow2_split(log_block_len as nat, Self::LOG_WIDTH as nat);
        }
        let block = pow2_usize(log_block_len);
        let low = Self::from_fn(
            |i: usize| -> (s: Self::Scalar)
                requires
                    i < Self::WIDTH,
                    block == pow2(log_block_len as nat),
                    block > 0,
                ensures
                    (s == interleaved_low(self.lanes(), other.lanes(), block as int, i as int))
                {
                    if (i / block) % 2 == 0 {
                        self.get(i)
                    } else {
                        proof {
                            lemma_odd_block(i as int, block as int);
                        }
                        other.get(i - block)
                    }
                },
        );
        proof {
            lemma_pow2_split((log_block_len + 1) as nat, Self::LOG_WIDTH as nat);
            lemma_pow2_unfold((log_block_len + 1) as nat);
        }
        let high = Self::from_fn(
            |i: usize| -> (s: Self::Scalar)
                requires
                    i < Self::WIDTH,
                    block == pow2(log_block_len as nat),
                    block > 0,
                    log_block_len < Self::LOG_WIDTH,
                ensures
                    (s == interleaved_high(self.lanes(), other.lanes(), block as int, i as int))
                {
                    if (i / block) % 2 == 0 {
                        proof {
                            lemma_even_block::<Self>(i as int, log_block_len as nat);
                        }
                        self.get(i + block)
                    } else {
                        other.get(i)
                    }
                },
        );
        (low, high)
    }

    /// Separates interleaved blocks of `2^log_block_len` lanes.
    ///
    /// Reading both vectors one after the other, the even blocks go to the first result and the
    /// odd blocks to the second.
    fn unzip(self, other: Self, log_block_len: usize) -> (r: (Self, Self))
        requires
            log_block_len < Self::LOG_WIDTH,
        ensures
            forall|i: int|
                0 <= i < Self::WIDTH ==> #[trigger] r.0.lanes()[i] == (self.lanes()
                    + other.lanes())[unzipped_source(0, pow2(log_block_len as nat) as int, i)],
            forall|i: int|
                0 <= i < Self::WIDTH ==> #[trigger] r.1.lanes()[i] == (self.lanes()
                    + other.lanes())[unzipped_source(1, pow2(log_block_len as nat) as int, i)],
    {
        proof {
            Self::width_is_power();
            lemma_pow2_split(log_block_len as nat, Self::LOG_WIDTH as nat);
        }
        let block = pow2_usize(log_block_len);
        let low = Self::from_fn(
            |i: usize| -> (s: Self::Scalar)
                requires
                    i < Self::WIDTH,
                    block == pow2(log_block_len as nat),
                    log_block_len < Self::LOG_WIDTH,
                ensures
                    (s == (self.lanes() + other.lanes())[unzipped_source(0, block as int, i as int)])
                { unzip_lane(self, other, log_block_len, block, 0, i) },
        );
        let high = Self::from_fn(
            |i: usize| -> (s: Self::Scalar)
                requires
                    i < Self::WIDTH,
                    block == pow2(log_block_len as nat),
                    log_block_len < Self::LOG_WIDTH,
                ensures
                    (s == (self.lanes() + other.lanes())[unzipped_source(1, block as int, i as int)])
                { unzip_lane(self, other, log_block_len, block, 1, i) },
        );
        (low, high)
    }

    /// Repeats every element of one block until the whole width is filled.
    ///
    /// Block `block_idx` of `2^log_block_len` lanes is taken, and each of its elements fills
    /// `WIDTH / 2^log_block_len` consecutive lanes.
    fn spread(self, log_block_len: usize, block_idx: usize) -> (r: Self)
        requires
            log_block_len <= Self::LOG_WIDTH,
            block_idx < pow2((Self::LOG_WIDTH - log_block_len) as nat),
        ensures
            forall|i: int|
                0 <= i < Self::WIDTH ==> #[trigger] r.lanes()[i] == self.lanes()[block_idx * pow2(
                    log_block_len as nat,
                ) + i / pow2((Self::LOG_WIDTH - log_block_len) as nat) as int],
    {
        self.spread_unchecked(log_block_len, block_idx)
    }

    /// The body of [`spread`](PackedField::spread), for callers that have made its checks.
    fn spread_unchecked(self, log_block_len: usize, block_idx: usize) -> (r: Self)
        requires
            log_block_len <= Self::LOG_WIDTH,
            block_idx < pow2((Self::LOG_WIDTH - log_block_len) as nat),
        ensures
            forall|i: int|
                0 <= i < Self::WIDTH ==> #[trigger] r.lanes()[i] == self.lanes()[block_idx * pow2(
                    log_block_len as nat,
                ) + i / pow2((Self::LOG_WIDTH - log_block_len) as nat) as int],
    {
        proof {
            Self::width_is_power();
            lemma_pow2_split(log_block_len as nat, Self::LOG_WIDTH as nat);
            lemma_pow2_split((Self::LOG_WIDTH - log_block_len) as nat, Self::LOG_WIDTH as nat);
        }
        let block_len = pow2_usize(log_block_len);
        let repeat = pow2_usize(Self::LOG_WIDTH - log_block_len);
        Self::from_fn(
            |i: usize| -> (s: Self::Scalar)
                requires
                    i < Self::WIDTH,
                    Self::WIDTH == block_len * repeat,
                    Self::WIDTH <= 512,
                    block_idx < repeat,
                    repeat > 0,
                    block_len > 0,
                ensures
                    (s == self.lanes()[block_idx * block_len + i as int / repeat as int])
                {
                    proof {
                        lemma_block_bound(i as int, block_len as int, repeat as int);
                        lemma_index_bound(
                            block_idx as int,
                            i as int / repeat as int,
                            repeat as int,
                            block_len as int,
                        );
                        assert(repeat * block_len == block_len * repeat) by (nonlinear_arith);
                        assert(0 <= block_idx * block_len) by (nonlinear_arith);
                    }
                    self.get(block_idx * block_len + i / repeat)
                },
        )
    }
}

/// One lane of an unzipped vector.
fn unzip_lane<P: Divisible>(
    a: P,
    b: P,
    log_block_len: usize,
    block: usize,
    part: usize,
    i: usize,
) -> (s: P::Scalar)
    requires
        log_block_len < P::LOG_WIDTH,
        block == pow2(log_block_len as nat),
        part < 2,
        i < P::WIDTH,
    ensures
        s == (a.lanes() + b.lanes())[unzipped_source(part as int, block as int, i as int)],
{
    proof {
        P::width_is_power();
        a.lanes_len();
        b.lanes_len();
        lemma_pow2_split(log_block_len as nat, P::LOG_WIDTH as nat);
        let n = pow2((P::LOG_WIDTH - log_block_len) as nat) as int;
        let w = block as int;
        assert(n * w == w * n) by (nonlinear_arith);
        lemma_block_bound(i as int, n, w);
        lemma_split_index(i as int, w);
        let q = i as int / w;
        let r = i as int % w;
        assert(0 <= part * w + r < 2 * w) by (nonlinear_arith)
            requires
                0 <= part < 2,
                0 <= r < w,
        ;
        lemma_index_bound(q, part * w + r, n, 2 * w);
        assert(n * (2 * w) == 2 * (w * n) && q * (2 * w) >= 0 && part * w >= 0)
            by (nonlinear_arith)
            requires
                0 <= q,
                0 <= w,
                0 <= part,
        ;
    }
    let j: usize = (i / block) * (2 * block) + part * block + i % block;
    if j < P::WIDTH {
        a.get(j)
    } else {
        b.get(j - P::WIDTH)
    }
}

/// The lane a block below an odd block exists.
proof fn lemma_odd_block(i: int, block: int)
    requires
        0 <= i,
        0 < block,
        (i / block) % 2 != 0,
    ensures
        block <= i,
{
    lemma_split_index(i, block);
    assert(i / block >= 1);
    assert(block <= i) by (nonlinear_arith)
        requires
            i == (i / block) * block + i % block,
            i / block >= 1,
            i % block >= 0,
            block > 0,
    ;
}

/// The lane a block above an even block exists.
proof fn lemma_even_block<P: Divisible>(i: int, log_block_len: nat)
    requires
        0 <= i < P::WIDTH,
        log_block_len < P::LOG_WIDTH,
        (i / pow2(log_block_len) as int) % 2 == 0,
    ensures
        i + pow2(log_block_len) < P::WIDTH,
{
    P::width_is_power();
    let w = pow2(log_block_len) as int;
    let k = (P::LOG_WIDTH - log_block_len) as nat;
    let n = pow2(k) as int;
    lemma_pow2_split(log_block_len, P::LOG_WIDTH as nat);
    lemma_pow2_unfold(k);
    assert(w * n == n * w) by (nonlinear_arith);
    lemma_block_bound(i, n, w);
    lemma_split_index(i, w);
    let q = i / w;
    // An even number below an even number is at least two below it.
    assert(q + 1 < n);
    lemma_index_bound(q + 1, i % w, n, w);
    assert((q + 1) * w == q * w + w) by (nonlinear_arith);
}

/// One more bit of an exponent, from the top.
proof fn lemma_prefix(exp: nat, i: nat)
    ensures
        exp / pow2(i) == 2 * (exp / pow2(i + 1)) + (exp / pow2(i)) % 2,
{
    vstd::arithmetic::power2::lemma_pow2_pos(i);
    lemma_pow2_unfold(i + 1);
    vstd::arithmetic::div_mod::lemma_div_denominator(exp as int, pow2(i) as int, 2);
    assert(pow2(i) * 2 == pow2(i + 1));
    lemma_split_index((exp / pow2(i)) as int, 2);
}

/// Exponents add.
pub proof fn lemma_power_add<F: FieldOps>(a: F, m: nat, n: nat)
    ensures
        power(a, m + n) == power(a, m).times(power(a, n)),
    decreases n,
{
    if n == 0 {
        F::times_unit(power(a, m));
    } else {
        lemma_power_add(a, m, (n - 1) as nat);
        F::times_assoc(power(a, m), power(a, (n - 1) as nat), a);
        assert((m + n - 1) as nat == m + (n - 1) as nat);
    }
}

/// Interleaving twice gives back both vectors.
pub proof fn interleave_is_involution<P: Divisible>(
    a: P,
    b: P,
    c: P,
    d: P,
    e: P,
    f: P,
    log_block_len: nat,
)
    requires
        log_block_len < P::LOG_WIDTH,
        forall|i: int|
            0 <= i < P::WIDTH ==> #[trigger] c.lanes()[i] == interleaved_low(
                a.lanes(),
                b.lanes(),
                pow2(log_block_len) as int,
                i,
            ),
        forall|i: int|
            0 <= i < P::WIDTH ==> #[trigger] d.lanes()[i] == interleaved_high(
                a.lanes(),
                b.lanes(),
                pow2(log_block_len) as int,
                i,
            ),
        forall|i: int|
            0 <= i < P::WIDTH ==> #[trigger] e.lanes()[i] == interleaved_low(
                c.lanes(),
                d.lanes(),
                pow2(log_block_len) as int,
                i,
            ),
        forall|i: int|
            0 <= i < P::WIDTH ==> #[trigger] f.lanes()[i] == interleaved_high(
                c.lanes(),
                d.lanes(),
                pow2(log_block_len) as int,
                i,
            ),
    ensures
        e.lanes() == a.lanes(),
        f.lanes() == b.lanes(),
{
    let w = pow2(log_block_len) as int;
    vstd::arithmetic::power2::lemma_pow2_pos(log_block_len);
    a.lanes_len();
    b.lanes_len();
    e.lanes_len();
    f.lanes_len();
    assert forall|i: int| 0 <= i < P::WIDTH implies e.lanes()[i] == a.lanes()[i]
        && f.lanes()[i] == b.lanes()[i] by {
        let q = i / w;
        lemma_split_index(i, w);
        if q % 2 == 0 {
            lemma_even_block::<P>(i, log_block_len);
            assert((q + 1) * w + i % w == i + w) by (nonlinear_arith)
                requires
                    i == q * w + i % w,
            ;
            lemma_div_mod(q + 1, w, i % w);
            assert(c.lanes()[i + w] == interleaved_low(a.lanes(), b.lanes(), w, i + w));
            assert(c.lanes()[i] == interleaved_low(a.lanes(), b.lanes(), w, i));
        } else {
            lemma_odd_block(i, w);
            assert((q - 1) * w + i % w == i - w) by (nonlinear_arith)
                requires
                    i == q * w + i % w,
            ;
            lemma_div_mod(q - 1, w, i % w);
            assert(d.lanes()[i - w] == interleaved_high(a.lanes(), b.lanes(), w, i - w));
            assert(d.lanes()[i] == interleaved_high(a.lanes(), b.lanes(), w, i));
        }
    }
    assert(e.lanes() =~= a.lanes());
    assert(f.lanes() =~= b.lanes());
}

/// A single element is a vector of width one.
impl<F: Field> Divisible for F {
    type Scalar = F;

    const LOG_WIDTH: usize = 0;

    const WIDTH: usize = 1;

    open spec fn lanes(self) -> Seq<F> {
        seq![self]
    }

    proof fn lanes_len(self) {
    }

    proof fn lanes_determine(self, other: Self) {
        assert(self.lanes()[0] == self);
        assert(other.lanes()[0] == other);
    }

    proof fn width_is_power() {
        vstd::arithmetic::power2::lemma2_to64();
    }

    fn zero_packed() -> (r: Self) {
        F::zero()
    }

    fn get(&self, i: usize) -> (r: F) {
        *self
    }

    fn set(&mut self, i: usize, value: F) {
        *self = value;
        assert(self.lanes() =~= old(self).lanes().update(0, value));
    }
}

/// A number of lanes that is a power of two, at most 512.
pub trait Width<const N: usize>: Sized + Copy {
    /// The logarithm of the number of lanes.
    const LOG: usize;

    /// The number of lanes is the power of two its logarithm says.
    proof fn is_width()
        ensures
            N == pow2(Self::LOG as nat),
            Self::LOG <= 9,
            1 <= N <= 512,
    ;

    /// There is one marker.
    proof fn one_marker(a: Self, b: Self)
        ensures
            a == b,
    ;

    /// The marker itself.
    fn marker() -> (r: Self);
}

/// `N` elements held side by side.
#[derive(Copy, Debug, PartialEq, Eq)]
pub struct Packed<F, W, const N: usize> {
    pub values: [F; N],
    pub width: W,
}

impl<F: Copy, W: Copy, const N: usize> Clone for Packed<F, W, N> {
    fn clone(&self) -> (r: Self)
        ensures
            r == *self,
    {
        *self
    }
}

impl<F: Field, W: Width<N>, const N: usize> Divisible for Packed<F, W, N> {
    type Scalar = F;

    const LOG_WIDTH: usize = W::LOG;

    const WIDTH: usize = N;

    open spec fn lanes(self) -> Seq<F> {
        self.values@
    }

    proof fn lanes_len(self) {
    }

    proof fn lanes_determine(self, other: Self) {
        W::one_marker(self.width, other.width);
        assert(self.values =~= other.values);
    }

    proof fn width_is_power() {
        W::is_width();
    }

    fn zero_packed() -> (r: Self) {
        Packed { values: [F::zero(); N], width: W::marker() }
    }

    fn get(&self, i: usize) -> (r: F) {
        self.values[i]
    }

    fn set(&mut self, i: usize, value: F) {
        self.values[i] = value;
    }
}

/// The scalar at position `i` of a slice of vectors.
pub fn get_packed_slice<P: PackedField>(packed: &[P], i: usize) -> (r: P::Scalar)
    requires
        i / P::WIDTH < packed.len(),
    ensures
        r == packed[i as int / P::WIDTH as int].lanes()[i as int % P::WIDTH as int],
        i < packed.len() * P::WIDTH ==> r == all_lanes(packed@)[i as int],
{
    get_packed_slice_unchecked(packed, i)
}

/// The scalar at position `i` of a slice of vectors, for callers that know it is there.
pub fn get_packed_slice_unchecked<P: PackedField>(packed: &[P], i: usize) -> (r: P::Scalar)
    requires
        i / P::WIDTH < packed.len(),
    ensures
        r == packed[i as int / P::WIDTH as int].lanes()[i as int % P::WIDTH as int],
        i < packed.len() * P::WIDTH ==> r == all_lanes(packed@)[i as int],
{
    proof {
        P::width_is_power();
        lemma_split_index(i as int, P::WIDTH as int);
    }
    packed[i / P::WIDTH].get(i % P::WIDTH)
}

/// Replaces the scalar at position `i` of a slice of vectors.
pub fn set_packed_slice_unchecked<P: PackedField>(packed: &mut [P], i: usize, scalar: P::Scalar)
    requires
        i < old(packed).len() * P::WIDTH,
    ensures
        all_lanes(final(packed)@) == all_lanes(old(packed)@).update(i as int, scalar),
        final(packed).len() == old(packed).len(),
{
    proof {
        P::width_is_power();
        lemma_split_index(i as int, P::WIDTH as int);
        lemma_block_bound(i as int, packed.len() as int, P::WIDTH as int);
    }
    let ghost before = packed@;
    let q: usize = i / P::WIDTH;
    let r: usize = i % P::WIDTH;
    let mut value = packed[q];
    proof {
        value.lanes_len();
    }
    value.set(r, scalar);
    packed[q] = value;
    proof {
        let w = P::WIDTH as int;
        assert forall|j: int| 0 <= j < before.len() * w implies #[trigger] all_lanes(packed@)[j]
            == all_lanes(before).update(i as int, scalar)[j] by {
            lemma_split_index(j, w);
            lemma_block_bound(j, before.len() as int, w);
            if j / w == q && j % w == r {
                assert(j == i);
            }
        }
        assert(all_lanes(packed@) =~= all_lanes(before).update(i as int, scalar));
    }
}

impl<P: Divisible> PackedField for P {

}

/// A packed field whose scalars form a binary field.
pub trait PackedBinaryField: PackedField {

}

impl<P: PackedField> PackedBinaryField for P {

}

} // verus!
