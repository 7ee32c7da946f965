//! Buffers of a power of two of field elements, held packed.

use vstd::arithmetic::power2::{lemma_pow2_pos, pow2};
use crate::algebra::group::AdditiveGroup;
use crate::field::packed::{Divisible, PackedField, all_lanes};
use crate::math::index::{
    is_log2_ceil, lemma_block_bound, lemma_pow2_split, lemma_split_index, log2_ceil_usize,
    pow2_usize,
};
use vstd::prelude::*;

verus! {

/// A buffer of `2^log_len` scalars.
///
/// A buffer shorter than one packed element occupies the low lanes of a single one.
pub struct FieldBuffer<P> {
    pub log_len: usize,
    pub values: Vec<P>,
}

/// The number of packed elements a buffer of `2^log_len` scalars takes.
pub open spec fn packed_len<P: Divisible>(log_len: nat) -> nat {
    if log_len <= P::LOG_WIDTH {
        1
    } else {
        pow2((log_len - P::LOG_WIDTH) as nat)
    }
}

impl<P: Divisible> FieldBuffer<P> {
    /// The length is a power of two that fits in memory.
    pub open spec fn wf(&self) -> bool {
        &&& pow2(self.log_len as nat) <= usize::MAX
        &&& self.values.len() == packed_len::<P>(self.log_len as nat)
    }

    /// The scalars in order.
    pub open spec fn scalars(&self) -> Seq<P::Scalar> {
        Seq::new(pow2(self.log_len as nat), |i: int| all_lanes(self.values@)[i])
    }
}

/// Every scalar index lies in some packed element.
pub proof fn lemma_packed_len<P: Divisible>(log_len: nat)
    ensures
        pow2(log_len) <= packed_len::<P>(log_len) * P::WIDTH,
        P::LOG_WIDTH <= log_len ==> pow2(log_len) == packed_len::<P>(log_len) * P::WIDTH,
        packed_len::<P>(log_len) <= pow2(log_len),
        1 <= packed_len::<P>(log_len),
{
    P::width_is_power();
    lemma_pow2_pos(log_len);
    if log_len <= P::LOG_WIDTH {
        lemma_pow2_split(log_len, P::LOG_WIDTH as nat);
    } else {
        lemma_pow2_split(P::LOG_WIDTH as nat, log_len);
        lemma_pow2_split((log_len - P::LOG_WIDTH) as nat, log_len);
        let (a, b) = (pow2(P::LOG_WIDTH as nat) as int, pow2((log_len - P::LOG_WIDTH) as nat) as int);
        assert(a * b == b * a) by (nonlinear_arith);
    }
}

/// Two slices with the same scalars in range, read at one index.
pub proof fn lemma_scalar_at<P: Divisible>(buffer: FieldBuffer<P>, i: int)
    requires
        buffer.wf(),
        0 <= i < pow2(buffer.log_len as nat),
    ensures
        0 <= i / (P::WIDTH as int) < buffer.values.len(),
        0 <= i % (P::WIDTH as int) < P::WIDTH,
        buffer.scalars()[i] == buffer.values[i / P::WIDTH as int].lanes()[i % P::WIDTH as int],
        buffer.scalars()[i] == all_lanes(buffer.values@)[i],
{
    P::width_is_power();
    lemma_packed_len::<P>(buffer.log_len as nat);
    lemma_block_bound(i, buffer.values.len() as int, P::WIDTH as int);
    lemma_split_index(i, P::WIDTH as int);
}

impl<P: PackedField> FieldBuffer<P> {
    /// A buffer of zeros.
    pub fn zeros(log_len: usize) -> (r: Self)
        requires
            pow2(log_len as nat) <= usize::MAX,
        ensures
            r.wf(),
            r.log_len == log_len,
            forall|i: int|
                0 <= i < pow2(log_len as nat) ==> #[trigger] r.scalars()[i] == P::Scalar::nil(),
    {
        proof {
            lemma_packed_len::<P>(log_len as nat);
            if P::LOG_WIDTH < log_len {
                lemma_pow2_split((log_len - P::LOG_WIDTH) as nat, log_len as nat);
            }
        }
        let n: usize = if log_len <= P::LOG_WIDTH {
            1
        } else {
            pow2_usize(log_len - P::LOG_WIDTH)
        };
        let mut values: Vec<P> = Vec::new();
        let mut k: usize = 0;
        while k < n
            invariant
                k <= n,
                values.len() == k,
                forall|j: int, a: int|
                    0 <= j < k && 0 <= a < P::WIDTH ==> #[trigger] values[j].lanes()[a]
                        == P::Scalar::nil(),
            decreases n - k,
        {
            values.push(P::zero_packed());
            k = k + 1;
        }
        let r = FieldBuffer { log_len, values };
        proof {
            assert forall|i: int| 0 <= i < pow2(log_len as nat) implies #[trigger] r.scalars()[i]
                == P::Scalar::nil() by {
                lemma_scalar_at(r, i);
            }
        }
        r
    }

    /// The number of scalars.
    pub fn len(&self) -> (r: usize)
        requires
            self.wf(),
        ensures
            r == self.scalars().len(),
    {
        pow2_usize(self.log_len)
    }

    /// The scalar at an index.
    pub fn get(&self, i: usize) -> (r: P::Scalar)
        requires
            self.wf(),
            i < pow2(self.log_len as nat),
        ensures
            r == self.scalars()[i as int],
    {
        proof {
            lemma_scalar_at(*self, i as int);
            P::width_is_power();
        }
        self.values[i / P::WIDTH].get(i % P::WIDTH)
    }

    /// Replaces the scalar at an index.
    pub fn set(&mut self, i: usize, value: P::Scalar)
        requires
            old(self).wf(),
            i < pow2(old(self).log_len as nat),
        ensures
            final(self).wf(),
            final(self).log_len == old(self).log_len,
            final(self).scalars() == old(self).scalars().update(i as int, value),
    {
        let ghost before = *self;
        proof {
            lemma_scalar_at(*self, i as int);
            P::width_is_power();
        }
        let q: usize = i / P::WIDTH;
        let mut packed = self.values[q];
        proof {
            packed.lanes_len();
        }
        packed.set(i % P::WIDTH, value);
        self.values[q] = packed;
        proof {
            let w = P::WIDTH as int;
            assert forall|j: int| 0 <= j < pow2(self.log_len as nat) implies #[trigger]
                self.scalars()[j] == before.scalars().update(i as int, value)[j] by {
                lemma_scalar_at(*self, j);
                lemma_scalar_at(before, j);
                lemma_split_index(j, w);
                lemma_split_index(i as int, w);
                if j / w == q && j % w == i as int % w {
                    assert(j == i);
                }
            }
            assert(self.scalars() =~= before.scalars().update(i as int, value));
        }
    }

    /// A buffer holding the given scalars.
    pub fn from_values(values: &[P::Scalar]) -> (r: Self)
        requires
            exists|k: nat| values.len() == #[trigger] pow2(k),
        ensures
            r.wf(),
            r.scalars() == values@,
    {
        let log_len = log2_ceil_usize(values.len());
        proof {
            let k = choose|k: nat| values.len() == #[trigger] pow2(k);
            lemma_exact_log(k, log_len as nat);
        }
        let mut r = FieldBuffer::<P>::zeros(log_len);
        let mut i: usize = 0;
        while i < values.len()
            invariant
                i <= values.len(),
                r.wf(),
                r.log_len == log_len,
                values.len() == pow2(log_len as nat),
                forall|j: int| 0 <= j < i ==> #[trigger] r.scalars()[j] == values[j],
            decreases values.len() - i,
        {
            let ghost before = r.scalars();
            r.set(i, values[i]);
            proof {
                assert forall|j: int| 0 <= j < i + 1 implies #[trigger] r.scalars()[j]
                    == values[j] by {
                    if j < i {
                        assert(before[j] == values[j]);
                    }
                }
            }
            i = i + 1;
        }
        assert(r.scalars() =~= values@);
        r
    }

    /// The scalars in order.
    pub fn iter_scalars(&self) -> (r: Vec<P::Scalar>)
        requires
            self.wf(),
        ensures
            r@ == self.scalars(),
    {
        let n = self.len();
        let mut r: Vec<P::Scalar> = Vec::new();
        let mut i: usize = 0;
        while i < n
            invariant
                i <= n,
                n == pow2(self.log_len as nat),
                self.wf(),
                r.len() == i,
                forall|j: int| 0 <= j < i ==> #[trigger] r[j] == self.scalars()[j],
            decreases n - i,
        {
            r.push(self.get(i));
            i = i + 1;
        }
        assert(r@ =~= self.scalars());
        r
    }
}

/// The logarithm of a power of two is exact.
pub proof fn lemma_exact_log(k: nat, l: nat)
    requires
        is_log2_ceil(pow2(k), l),
    ensures
        l == k,
{
    if l < k {
        vstd::arithmetic::power2::lemma_pow2_strictly_increases(l, k);
    } else if k < l {
        if k < l - 1 {
            vstd::arithmetic::power2::lemma_pow2_strictly_increases(k, (l - 1) as nat);
        }
    }
}

} // verus!
