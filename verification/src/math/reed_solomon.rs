//! Reed-Solomon codes over binary fields.
//!
//! Messages are the coefficients of a polynomial in a novel basis, and codewords are its
//! evaluations over a linear subspace, computed by the additive transform.

use vstd::arithmetic::power2::{lemma2_to64, lemma_pow2_pos, lemma_pow2_unfold, pow2};
use crate::algebra::field::{FieldOps, lemma_times_nil};
use crate::algebra::group::{AdditiveGroup, lemma_nil_plus};
use crate::field::packed::{Divisible, PackedField, all_lanes};
use crate::math::bit_reverse::{
    bit_reverse_indices, bit_reverse_packed, lemma_reversed_bound, lemma_reversed_split,
    reversal_is_involution, reversed,
};
use crate::math::field_buffer::{FieldBuffer, lemma_packed_len, lemma_scalar_at, packed_len};
use crate::math::index::{
    ceil_log2, lemma_block_bound, lemma_ceil_log2, lemma_div_mod, lemma_exact_log2,
    lemma_index_bound, lemma_pow2_split, lemma_split_index, log2_ceil_usize, pow2_usize,
};
use crate::math::ntt::{
    DomainContext, GaoMateerPreExpanded, NeighborsLastReference, TraceOneElement, gao_mateer,
    lemma_transform_compose, lemma_transform_len, transform, twiddles,
};
use crate::utils::task_size::task_chunk_len;
use vstd::prelude::*;

verus! {

/// A code of a given dimension and rate, evaluated over the Gao-Mateer basis.
#[derive(Clone, Copy, Debug, PartialEq, Eq, Structural)]
pub struct ReedSolomonCode {
    pub log_dimension: usize,
    pub log_inv_rate: usize,
}

/// The bit-reversed message of `2^log_msg` scalars, repeated until `2^log_out` scalars are filled.
pub open spec fn repeated_message<F>(msg: Seq<F>, log_msg: int, log_out: int) -> Seq<F> {
    Seq::new(
        pow2(log_out as nat),
        |i: int| msg[reversed(i % pow2(log_msg as nat) as int, log_msg)],
    )
}

/// The bit-reversed message of `2^log_msg` scalars, followed by zeros.
pub open spec fn padded_message<F: FieldOps>(msg: Seq<F>, log_msg: int, log_out: int) -> Seq<F> {
    Seq::new(
        pow2(log_out as nat),
        |i: int|
            if i < pow2(log_msg as nat) {
                msg[reversed(i, log_msg)]
            } else {
                F::nil()
            },
    )
}

/// The codeword of a batch of `2^log_batch` messages.
pub open spec fn encoded<F: FieldOps>(
    code: ReedSolomonCode,
    msg: Seq<F>,
    log_batch: int,
    tw: spec_fn(int, int) -> F,
) -> Seq<F> {
    let log_msg = code.log_dimension + log_batch;
    let log_out = log_msg + code.log_inv_rate;
    transform(
        repeated_message(msg, log_msg, log_out),
        log_out,
        code.log_inv_rate as int,
        log_out - log_batch,
        tw,
    )
}

impl ReedSolomonCode {
    /// The code of the given dimension and rate.
    pub fn new(log_dimension: usize, log_inv_rate: usize) -> (r: Self)
        ensures
            r.log_dimension == log_dimension,
            r.log_inv_rate == log_inv_rate,
    {
        ReedSolomonCode { log_dimension, log_inv_rate }
    }

    /// The base-2 logarithm of the reciprocal of the rate.
    pub fn log_inv_rate(&self) -> (r: usize)
        ensures
            r == self.log_inv_rate,
    {
        self.log_inv_rate
    }

    /// A basis of the evaluation domain.
    pub fn subspace<F: TraceOneElement>(&self) -> (r: Vec<F>)
        requires
            self.log_dimension + self.log_inv_rate <= F::N_BITS,
        ensures
            r.len() == self.log_dimension + self.log_inv_rate,
            forall|i: int| 0 <= i < r.len() ==> #[trigger] r[i] == gao_mateer::<F>(i),
    {
        let n = self.log_len();
        GaoMateerPreExpanded::<F>::generate(n).subspace(n)
    }

    /// The dimension.
    pub fn dim(&self) -> (r: usize)
        requires
            pow2(self.log_dimension as nat) <= usize::MAX,
        ensures
            r == pow2(self.log_dimension as nat),
    {
        pow2_usize(self.log_dimension)
    }

    /// The base-2 logarithm of the dimension.
    pub fn log_dim(&self) -> (r: usize)
        ensures
            r == self.log_dimension,
    {
        self.log_dimension
    }

    /// The base-2 logarithm of the block length.
    pub fn log_len(&self) -> (r: usize)
        requires
            self.log_dimension + self.log_inv_rate <= usize::MAX,
        ensures
            r == self.log_dimension + self.log_inv_rate,
    {
        self.log_dimension + self.log_inv_rate
    }

    /// The block length.
    pub fn len(&self) -> (r: usize)
        requires
            self.log_dimension + self.log_inv_rate <= usize::MAX,
            pow2((self.log_dimension + self.log_inv_rate) as nat) <= usize::MAX,
        ensures
            r == pow2((self.log_dimension + self.log_inv_rate) as nat),
    {
        pow2_usize(self.log_dimension + self.log_inv_rate)
    }

    /// The reciprocal of the rate.
    pub fn inv_rate(&self) -> (r: usize)
        requires
            pow2(self.log_inv_rate as nat) <= usize::MAX,
        ensures
            r == pow2(self.log_inv_rate as nat),
    {
        pow2_usize(self.log_inv_rate)
    }

    /// Encodes a batch of interleaved messages.
    ///
    /// The first layers of the transform would only double the zero-padded message, so they are
    /// skipped and the message is repeated instead.
    pub fn encode_batch<P: PackedField<Scalar = DC::Field>, DC: DomainContext>(
        &self,
        ntt: &NeighborsLastReference<DC>,
        data: &FieldBuffer<P>,
        log_batch_size: usize,
    ) -> (r: FieldBuffer<P>) where DC::Field: TraceOneElement
        requires
            ntt.domain_context.wf(),
            data.wf(),
            data.log_len == self.log_dimension + log_batch_size,
            data.log_len + self.log_inv_rate <= usize::MAX,
            pow2((data.log_len + self.log_inv_rate) as nat) <= usize::MAX,
            self.log_dimension + self.log_inv_rate <= ntt.domain_context.log_size(),
            forall|i: int|
                0 <= i < self.log_dimension + self.log_inv_rate
                    ==> #[trigger] ntt.domain_context.basis_at(i) == gao_mateer::<DC::Field>(i),
        ensures
            r.wf(),
            r.log_len == data.log_len + self.log_inv_rate,
            r.scalars() == encoded(
                *self,
                data.scalars(),
                log_batch_size as int,
                twiddles(&ntt.domain_context),
            ),
    {
        let log_msg = data.log_len;
        let log_output_len = log_msg + self.log_inv_rate;
        proof {
            P::width_is_power();
            lemma_packed_len::<P>(log_output_len as nat);
            lemma_packed_len::<P>(log_msg as nat);
            lemma_pow2_split(log_msg as nat, log_output_len as nat);
        }
        let values: Vec<P> = if log_msg < P::LOG_WIDTH {
            short_message_buffer(data, log_output_len)
        } else {
            proof {
                lemma_pow2_split((log_output_len - P::LOG_WIDTH) as nat, log_output_len as nat);
                lemma_pow2_split((log_msg - P::LOG_WIDTH) as nat, (log_output_len - P::LOG_WIDTH) as nat);
                lemma2_to64();
            }
            let output_packed_len = pow2_usize(log_output_len - P::LOG_WIDTH);
            // A run is the words copied at a time.
            let log_run = run_exponent(task_chunk_len::<P>(), log_msg - P::LOG_WIDTH);
            proof {
                lemma_pow2_split(log_run as nat, (log_msg - P::LOG_WIDTH) as nat);
                let k = (log_output_len - log_msg) as nat;
                assert(output_packed_len == data.values.len() * pow2(k)) by {
                    assert((log_output_len - P::LOG_WIDTH) - (log_msg - P::LOG_WIDTH) == k);
                    if log_msg == P::LOG_WIDTH {
                        assert(pow2(0) == 1);
                    }
                }
                lemma_pow2_pos(k);
                lemma_div_mod(pow2(k) as int, data.values.len() as int, 0);
                assert(pow2(k) * data.values.len() == data.values.len() * pow2(k))
                    by (nonlinear_arith);
            }
            repeated_message_buffer(data, output_packed_len, pow2_usize(log_run))
        };
        let mut output = FieldBuffer { log_len: log_output_len, values };
        proof {
            assert forall|i: int| 0 <= i < pow2(log_output_len as nat) implies #[trigger]
                output.scalars()[i] == data.scalars()[reversed(
                i % pow2(log_msg as nat) as int,
                log_msg as int,
            )] by {
                lemma_scalar_at(output, i);
                if P::LOG_WIDTH <= log_msg {
                    lemma_repeated_scalar(output.values@, data.scalars(), log_msg as int, i);
                }
            }
            assert(output.scalars() =~= repeated_message(
                data.scalars(),
                log_msg as int,
                log_output_len as int,
            ));
        }
        ntt.forward_transform(&mut output, self.log_inv_rate, log_batch_size);
        output
    }
}

/// The exponent of the least power of two that is at least `chunk`, or `bound` if that is less.
fn run_exponent(chunk: usize, bound: usize) -> (r: usize)
    ensures
        r == if ceil_log2(chunk as nat) < bound {
            ceil_log2(chunk as nat)
        } else {
            bound as nat
        },
{
    let k = log2_ceil_usize(chunk);
    proof {
        lemma_ceil_log2(chunk as nat, k as nat);
    }
    if k < bound {
        k
    } else {
        bound
    }
}

/// The packed output for a message that does not fill one packed element.
fn short_message_buffer<P: PackedField>(data: &FieldBuffer<P>, log_output_len: usize) -> (r: Vec<P>)
    requires
        data.wf(),
        data.log_len < P::LOG_WIDTH,
        data.log_len <= log_output_len,
        pow2(log_output_len as nat) <= usize::MAX,
    ensures
        r.len() == packed_len::<P>(log_output_len as nat),
        forall|i: int|
            0 <= i < r.len() * P::WIDTH ==> #[trigger] all_lanes(r@)[i]
                == data.scalars()[reversed(
                i % pow2(data.log_len as nat) as int,
                data.log_len as int,
            )],
{
    let log_msg = data.log_len;
    let ghost msg = data.scalars();
    let ghost w = P::WIDTH as int;
    let ghost n = pow2(log_msg as nat) as int;
    proof {
        P::width_is_power();
        lemma_pow2_split(log_msg as nat, P::LOG_WIDTH as nat);
        lemma_pow2_pos(log_msg as nat);
        lemma_exact_log2(log_msg as nat);
        lemma_packed_len::<P>(log_output_len as nat);
        if P::LOG_WIDTH < log_output_len {
            lemma_pow2_split((log_output_len - P::LOG_WIDTH) as nat, log_output_len as nat);
        }
    }
    let mut scalars = data.iter_scalars();
    bit_reverse_indices(scalars.as_mut_slice());
    let count = scalars.len();
    // Fill one packed element by going round the message.
    let mut elem = P::zero_packed();
    let mut a: usize = 0;
    proof {
        elem.lanes_len();
    }
    while a < P::WIDTH
        invariant
            a <= P::WIDTH,
            count == n,
            n == pow2(log_msg as nat),
            0 < n,
            scalars.len() == n,
            msg.len() == n,
            elem.lanes().len() == P::WIDTH,
            forall|j: int|
                0 <= j < n ==> #[trigger] scalars[j] == msg[reversed(j, log_msg as int)],
            forall|j: int|
                0 <= j < a ==> #[trigger] elem.lanes()[j] == msg[reversed(j % n, log_msg as int)],
        decreases P::WIDTH - a,
    {
        proof {
            lemma_split_index(a as int, n);
        }
        elem.set(a, scalars[a % count]);
        a = a + 1;
    }
    let len: usize = if log_output_len <= P::LOG_WIDTH {
        1
    } else {
        pow2_usize(log_output_len - P::LOG_WIDTH)
    };
    let mut r: Vec<P> = Vec::new();
    let mut k: usize = 0;
    while k < len
        invariant
            k <= len,
            r.len() == k,
            forall|j: int| 0 <= j < k ==> #[trigger] r[j] == elem,
        decreases len - k,
    {
        r.push(elem);
        k = k + 1;
    }
    proof {
        let m = pow2((P::LOG_WIDTH - log_msg) as nat) as int;
        assert(w == m * n) by (nonlinear_arith)
            requires
                w == n * m,
        ;
        assert forall|i: int| 0 <= i < r.len() * P::WIDTH implies #[trigger] all_lanes(r@)[i]
            == msg[reversed(i % n, log_msg as int)] by {
            lemma_block_bound(i, r.len() as int, w);
            lemma_split_index(i, w);
            lemma_mod_of_multiple(i, n, m);
            assert(r[i / w] == elem);
            assert(elem.lanes()[i % w] == msg[reversed((i % w) % n, log_msg as int)]);
        }
    }
    r
}

/// Remainders modulo a multiple and then modulo the number itself.
pub proof fn lemma_mod_of_multiple(i: int, n: int, m: int)
    requires
        0 < n,
        0 < m,
        0 <= i,
    ensures
        (i % (m * n)) % n == i % n,
{
    assert(m * n > 0) by (nonlinear_arith)
        requires
            m > 0,
            n > 0,
    ;
    let w = m * n;
    lemma_split_index(i, w);
    let r = i % w;
    lemma_split_index(r, n);
    let q = i / w;
    assert(i == (q * m + r / n) * n + r % n) by (nonlinear_arith)
        requires
            i == q * (m * n) + r,
            r == (r / n) * n + r % n,
    ;
    lemma_div_mod(q * m + r / n, n, r % n);
}

/// The scalars of a repeated buffer of whole packed elements.
proof fn lemma_repeated_scalar<P: Divisible>(
    values: Seq<P>,
    msg: Seq<P::Scalar>,
    log_msg: int,
    i: int,
)
    requires
        P::LOG_WIDTH <= log_msg,
        0 <= i < values.len() * P::WIDTH,
        repeats(values, packed_len::<P>(log_msg as nat) as int),
        packed_len::<P>(log_msg as nat) <= values.len(),
        forall|j: int|
            0 <= j < pow2(log_msg as nat) ==> #[trigger] all_lanes(values)[j] == msg[reversed(
                j,
                log_msg,
            )],
    ensures
        all_lanes(values)[i] == msg[reversed(i % pow2(log_msg as nat) as int, log_msg)],
{
    let w = P::WIDTH as int;
    let m = packed_len::<P>(log_msg as nat) as int;
    let n = pow2(log_msg as nat) as int;
    P::width_is_power();
    lemma_packed_len::<P>(log_msg as nat);
    lemma_pow2_pos(log_msg as nat);
    lemma_split_index(i, w);
    lemma_block_bound(i, values.len() as int, w);
    let q = i / w;
    lemma_split_index(q, m);
    assert(values[q] == values[q % m]);
    let j = (q % m) * w + i % w;
    lemma_index_bound(q % m, i % w, m, w);
    lemma_div_mod(q % m, w, i % w);
    assert(i == (q / m) * n + j) by (nonlinear_arith)
        requires
            i == q * w + i % w,
            q == (q / m) * m + q % m,
            n == m * w,
            j == (q % m) * w + i % w,
    ;
    lemma_div_mod(q / m, n, j);
    assert(n <= values.len() * w) by (nonlinear_arith)
        requires
            n == m * w,
            m <= values.len(),
            w > 0,
    ;
    assert(all_lanes(values)[j] == msg[reversed(j, log_msg)]);
}

/// A sequence repeats with a period.
pub open spec fn repeats<P>(s: Seq<P>, period: int) -> bool {
    forall|i: int| 0 <= i < s.len() ==> #[trigger] s[i] == s[i % period]
}

/// A buffer of `total` packed elements holding the bit-reversed message, repeated.
///
/// The leading copy is filled from the message and permuted.
/// Every later copy is filled from the leading one, `run` elements at a time.
pub fn repeated_message_buffer<P: PackedField>(msg: &FieldBuffer<P>, total: usize, run: usize) -> (r:
    Vec<P>)
    requires
        msg.wf(),
        P::LOG_WIDTH <= msg.log_len,
        msg.values.len() <= total,
        total % msg.values.len() == 0,
        exists|k: nat| run == #[trigger] pow2(k) && k <= msg.log_len - P::LOG_WIDTH,
    ensures
        r.len() == total,
        repeats(r@, msg.values.len() as int),
        forall|i: int|
            0 <= i < pow2(msg.log_len as nat) ==> #[trigger] all_lanes(r@)[i]
                == msg.scalars()[reversed(i, msg.log_len as int)],
{
    let msg_len = msg.values.len();
    let ghost m = msg_len as int;
    proof {
        P::width_is_power();
        lemma_packed_len::<P>(msg.log_len as nat);
        let k = choose|k: nat| run == #[trigger] pow2(k) && k <= msg.log_len - P::LOG_WIDTH;
        lemma_pow2_split(k, (msg.log_len - P::LOG_WIDTH) as nat);
        let c = pow2((msg.log_len - P::LOG_WIDTH - k) as nat) as int;
        lemma_pow2_pos(k);
        lemma2_to64();
        assert(m == c * run + 0) by (nonlinear_arith)
            requires
                m == run * c,
        ;
        lemma_div_mod(c, run as int, 0);
        lemma_pow2_pos((msg.log_len - P::LOG_WIDTH - k) as nat);
        lemma_mod_of_multiple(total as int, run as int, c);
        lemma_div_mod(0, run as int, 0);
        assert forall|j: int| 0 <= j < m implies #[trigger] (j % m) == j by {
            lemma_div_mod(0, m, j);
        }
    }
    // The leading copy, filled and permuted.
    let mut values: Vec<P> = Vec::new();
    let mut i: usize = 0;
    while i < msg_len
        invariant
            i <= msg_len,
            msg_len == msg.values.len(),
            values.len() == i,
            forall|j: int| 0 <= j < i ==> #[trigger] values[j] == msg.values[j],
        decreases msg_len - i,
    {
        values.push(msg.values[i]);
        i = i + 1;
    }
    assert(values@ =~= msg.values@);
    let mut head = FieldBuffer { log_len: msg.log_len, values };
    assert(head.scalars() =~= msg.scalars());
    bit_reverse_packed(&mut head);
    let ghost permuted = head;
    let ghost lead = head.values@;
    let mut r: Vec<P> = head.values;

    // The later copies, one run at a time.
    let mut start: usize = msg_len;
    while start < total
        invariant
            msg_len <= start,
            start <= total,
            start % run == 0,
            total % run == 0,
            m % (run as int) == 0,
            m == msg_len,
            0 < run <= msg_len,
            lead.len() == m,
            r.len() == start,
            forall|j: int| 0 <= j < start ==> #[trigger] r[j] == lead[j % m],
        decreases total - start,
    {
        let src: usize = start % msg_len;
        proof {
            lemma_run_fits(start as int, total as int, m, run as int);
        }
        let mut k: usize = 0;
        while k < run
            invariant
                k <= run,
                msg_len <= start,
                m == msg_len,
                0 < m,
                src == start as int % m,
                src + run <= msg_len,
                start + run <= total,
                lead.len() == m,
                r.len() == start + k,
                forall|j: int| 0 <= j < start + k ==> #[trigger] r[j] == lead[j % m],
            decreases run - k,
        {
            proof {
                lemma_split_index(start as int, m);
                lemma_div_mod(start as int / m, m, src + k);
                assert((src + k) % m == src + k) by {
                    lemma_div_mod(0, m, src + k);
                }
            }
            let value = r[src + k];
            r.push(value);
            k = k + 1;
        }
        proof {
            lemma_next_multiple(start as int, run as int);
        }
        start = start + run;
    }
    proof {
        assert forall|j: int| 0 <= j < r.len() implies #[trigger] r@[j] == r@[j % m] by {
            lemma_split_index(j, m);
            lemma_div_mod(0, m, j % m);
        }
        assert forall|i: int| 0 <= i < pow2(msg.log_len as nat) implies #[trigger] all_lanes(r@)[i]
            == msg.scalars()[reversed(i, msg.log_len as int)] by {
            let w = P::WIDTH as int;
            lemma_scalar_at(permuted, i);
            lemma_block_bound(i, m, w);
            lemma_split_index(i, w);
            lemma_div_mod(0, m, i / w);
            assert(r@[i / w] == lead[i / w]);
            assert(m * w <= r.len() * w) by (nonlinear_arith)
                requires
                    m <= r.len(),
                    w > 0,
            ;
        }
    }
    r
}

/// Word by word, a repeated buffer is the message after the bit-reversal permutation, over and
/// over: which run the copies were made in leaves no trace.
pub proof fn repetition_matches_the_permuted_message<P: PackedField>(
    msg: &FieldBuffer<P>,
    permuted: &FieldBuffer<P>,
    total: nat,
    r: Seq<P>,
)
    requires
        msg.wf(),
        P::LOG_WIDTH <= msg.log_len,
        msg.values.len() <= total,
        permuted.wf(),
        permuted.log_len == msg.log_len,
        forall|i: int|
            0 <= i < pow2(msg.log_len as nat) ==> #[trigger] permuted.scalars()[i]
                == msg.scalars()[reversed(i, msg.log_len as int)],
        r.len() == total,
        repeats(r, msg.values.len() as int),
        forall|i: int|
            0 <= i < pow2(msg.log_len as nat) ==> #[trigger] all_lanes(r)[i]
                == msg.scalars()[reversed(i, msg.log_len as int)],
    ensures
        forall|i: int|
            0 <= i < total ==> #[trigger] r[i] == permuted.values[i % msg.values.len() as int],
{
    let m = msg.values.len() as int;
    let w = P::WIDTH as int;
    P::width_is_power();
    lemma_packed_len::<P>(msg.log_len as nat);
    assert forall|i: int| 0 <= i < total implies #[trigger] r[i] == permuted.values[i % m] by {
        lemma_split_index(i, m);
        let q = i % m;
        let (a, b) = (r[q], permuted.values[q]);
        a.lanes_len();
        b.lanes_len();
        assert forall|j: int| 0 <= j < w implies a.lanes()[j] == b.lanes()[j] by {
            let k = q * w + j;
            lemma_index_bound(q, j, m, w);
            lemma_div_mod(q, w, j);
            lemma_scalar_at(*permuted, k);
            assert(m * w <= r.len() * w) by (nonlinear_arith)
                requires
                    m <= r.len(),
                    w > 0,
            ;
            assert(all_lanes(r)[k] == msg.scalars()[reversed(k, msg.log_len as int)]);
            assert(permuted.scalars()[k] == msg.scalars()[reversed(k, msg.log_len as int)]);
        }
        assert(a.lanes() =~= b.lanes());
        a.lanes_determine(b);
    }
}

/// A run that starts at a multiple of its length stays inside the message and the buffer.
proof fn lemma_run_fits(start: int, total: int, m: int, run: int)
    requires
        0 < run,
        0 < m,
        0 <= start < total,
        start % run == 0,
        total % run == 0,
        m % run == 0,
    ensures
        start % m + run <= m,
        start + run <= total,
{
    lemma_split_index(start, run);
    lemma_split_index(total, run);
    lemma_split_index(m, run);
    lemma_split_index(start, m);
    let (a, b, c) = (start / run, total / run, m / run);
    assert(start + run <= total) by (nonlinear_arith)
        requires
            start == a * run,
            total == b * run,
            start < total,
            run > 0,
    ;
    assert(c > 0) by (nonlinear_arith)
        requires
            m == c * run,
            m > 0,
            run > 0,
    ;
    assert(start == (start / m) * (c * run) + start % m);
    lemma_mod_of_multiple(start, run, c);
    let s = start % m;
    lemma_split_index(s, run);
    let d = s / run;
    assert(s + run <= m) by (nonlinear_arith)
        requires
            s == d * run,
            m == c * run,
            s < m,
            run > 0,
    ;
}

/// The next multiple.
proof fn lemma_next_multiple(start: int, run: int)
    requires
        0 < run,
        start % run == 0,
    ensures
        (start + run) % run == 0,
{
    lemma_split_index(start, run);
    let q = start / run;
    assert(start + run == (q + 1) * run + 0) by (nonlinear_arith)
        requires
            start == q * run,
    ;
    lemma_div_mod(q + 1, run, 0);
}

/// Encoding equals the full transform of the zero-padded message.
///
/// In every skipped layer the second half of each block is zero, so the layer copies the first
/// half over it.
pub proof fn encode_matches_padded_transform<F: FieldOps>(
    code: ReedSolomonCode,
    msg: Seq<F>,
    log_batch: int,
    tw: spec_fn(int, int) -> F,
)
    requires
        0 <= log_batch,
        msg.len() == pow2((code.log_dimension + log_batch) as nat),
    ensures
        ({
            let log_msg = code.log_dimension + log_batch;
            let log_out = log_msg + code.log_inv_rate;
            encoded(code, msg, log_batch, tw) == transform(
                padded_message(msg, log_msg, log_out),
                log_out,
                0,
                log_out - log_batch,
                tw,
            )
        }),
{
    let log_msg = code.log_dimension + log_batch;
    let rate = code.log_inv_rate as int;
    let log_out = log_msg + rate;
    let padded = padded_message(msg, log_msg, log_out);
    lemma_padded_layers(msg, log_msg, log_out, rate, tw);
    lemma_transform_compose(padded, log_out, 0, rate, log_out - log_batch, tw);
    let filled = transform(padded, log_out, 0, rate, tw);
    let goal = repeated_message(msg, log_msg, log_out);
    assert forall|i: int| 0 <= i < goal.len() implies #[trigger] filled[i] == goal[i] by {
        lemma_pow2_pos(log_msg as nat);
        lemma_split_index(i, pow2(log_msg as nat) as int);
        assert(log_out - rate == log_msg);
        assert(filled[i] == partly_repeated(msg, log_msg, log_out, rate, i));
    }
    lemma_transform_len(padded, log_out, 0, rate, tw);
    assert(filled =~= goal);
}

/// Scalar `i` of the padded message after the first `layers` layers.
spec fn partly_repeated<F: FieldOps>(
    msg: Seq<F>,
    log_msg: int,
    log_out: int,
    layers: int,
    i: int,
) -> F {
    let k = i % pow2((log_out - layers) as nat) as int;
    if k < pow2(log_msg as nat) {
        msg[reversed(k, log_msg)]
    } else {
        F::nil()
    }
}

proof fn lemma_padded_layers<F: FieldOps>(
    msg: Seq<F>,
    log_msg: int,
    log_out: int,
    layers: int,
    tw: spec_fn(int, int) -> F,
)
    requires
        0 <= log_msg,
        0 <= layers <= log_out - log_msg,
    ensures
        forall|i: int|
            0 <= i < pow2(log_out as nat) ==> #[trigger] transform(
                padded_message(msg, log_msg, log_out),
                log_out,
                0,
                layers,
                tw,
            )[i] == partly_repeated(msg, log_msg, log_out, layers, i),
    decreases layers,
{
    let padded = padded_message(msg, log_msg, log_out);
    let n = pow2(log_out as nat) as int;
    if layers == 0 {
        assert forall|i: int| 0 <= i < n implies #[trigger] transform(padded, log_out, 0, 0, tw)[i]
            == partly_repeated(msg, log_msg, log_out, 0, i) by {
            lemma_div_mod(0, n, i);
        }
    } else {
        lemma_padded_layers(msg, log_msg, log_out, layers - 1, tw);
        let prev = transform(padded, log_out, 0, layers - 1, tw);
        let next = transform(padded, log_out, 0, layers, tw);
        lemma_transform_len(padded, log_out, 0, layers - 1, tw);
        let half = pow2((log_out - layers) as nat) as int;
        lemma_pow2_unfold((log_out - layers + 1) as nat);
        lemma_pow2_split(log_msg as nat, (log_out - layers) as nat);
        lemma_pow2_split((log_out - layers + 1) as nat, log_out as nat);
        let blocks = pow2((layers - 1) as nat) as int;
        assert(n == blocks * (2 * half)) by (nonlinear_arith)
            requires
                n == (2 * half) * blocks,
        ;
        assert forall|i: int| 0 <= i < n implies #[trigger] next[i] == partly_repeated(
            msg,
            log_msg,
            log_out,
            layers,
            i,
        ) by {
            let t = tw(layers - 1, i / (2 * half));
            lemma_split_index(i, 2 * half);
            lemma_block_bound(i, blocks, 2 * half);
            let (q, o) = (i / (2 * half), i % (2 * half));
            lemma_half_block(i, half);
            assert(prev[i] == partly_repeated(msg, log_msg, log_out, layers - 1, i));
            F::plus_nil(prev[i]);
            lemma_times_nil(t);
            if o < half {
                lemma_index_bound(q, o + half, blocks, 2 * half);
                lemma_div_mod(q, 2 * half, o + half);
                assert(prev[i + half] == partly_repeated(
                    msg,
                    log_msg,
                    log_out,
                    layers - 1,
                    i + half,
                ));
            } else {
                lemma_index_bound(q, o - half, blocks, 2 * half);
                lemma_div_mod(q, 2 * half, o - half);
                assert(prev[i - half] == partly_repeated(
                    msg,
                    log_msg,
                    log_out,
                    layers - 1,
                    i - half,
                ));
                F::plus_nil(prev[i - half]);
                lemma_nil_plus(prev[i - half]);
            }
        }
    }
}

/// The offset of an index in a block of one size and of twice the size.
proof fn lemma_half_block(i: int, half: int)
    requires
        0 <= i,
        0 < half,
    ensures
        i % half == if i % (2 * half) < half {
            i % (2 * half)
        } else {
            i % (2 * half) - half
        },
{
    lemma_split_index(i, 2 * half);
    let (q, o) = (i / (2 * half), i % (2 * half));
    if o < half {
        assert(i == (2 * q) * half + o) by (nonlinear_arith)
            requires
                i == q * (2 * half) + o,
        ;
        lemma_div_mod(2 * q, half, o);
    } else {
        assert(i == (2 * q + 1) * half + (o - half)) by (nonlinear_arith)
            requires
                i == q * (2 * half) + o,
        ;
        lemma_div_mod(2 * q + 1, half, o - half);
    }
}

/// A message lifted to a larger dimension by zeros on its most significant coordinates.
pub open spec fn zero_pad_msb<F: FieldOps>(msg: Seq<F>, log_large: nat) -> Seq<F> {
    Seq::new(
        pow2(log_large),
        |i: int|
            if i < msg.len() {
                msg[i]
            } else {
                F::nil()
            },
    )
}

/// Encoding a lifted message repeats every scalar of the small codeword.
///
/// Lifting by `eta` dimensions makes entry `j` of the large codeword entry `j >> eta` of the small
/// one.
pub proof fn lift_duplicates_codeword<F: FieldOps>(
    small: ReedSolomonCode,
    large: ReedSolomonCode,
    msg: Seq<F>,
    tw: spec_fn(int, int) -> F,
    j: int,
)
    requires
        small.log_dimension <= large.log_dimension,
        small.log_inv_rate == large.log_inv_rate,
        msg.len() == pow2(small.log_dimension as nat),
        0 <= j < pow2((large.log_dimension + large.log_inv_rate) as nat),
    ensures
        encoded(large, zero_pad_msb(msg, large.log_dimension as nat), 0, tw)[j] == encoded(
            small,
            msg,
            0,
            tw,
        )[j / pow2((large.log_dimension - small.log_dimension) as nat) as int],
{
    let eta = large.log_dimension - small.log_dimension;
    let rate = small.log_inv_rate as int;
    let m = small.log_dimension as int;
    let lifted = zero_pad_msb(msg, large.log_dimension as nat);
    let e = pow2(eta as nat) as int;
    let start_small = repeated_message(msg, m, m + rate);
    let start_large = repeated_message(lifted, m + eta, m + eta + rate);
    lemma_lift_start(msg, m, eta, rate);
    lemma_lift_layers(start_small, start_large, m + rate, eta, rate, m + rate, tw);
    lemma_transform_compose(start_large, m + rate + eta, rate, m + rate, m + rate + eta, tw);
    let enc = transform(start_small, m + rate, rate, m + rate, tw);
    let sparse = transform(start_large, m + rate + eta, rate, m + rate, tw);
    lemma_transform_len(start_large, m + rate + eta, rate, m + rate, tw);
    lemma_spread_layers(sparse, enc, m + rate, eta, eta, tw);
    assert(m + eta + rate == m + rate + eta);
    assert(pow2(0) == 1) by {
        lemma2_to64();
    }
    assert(j % 1 == 0);
}

/// Scalar `i` of a large state that holds the small state at every `period`-th index.
spec fn sparse_at<F: FieldOps>(small: Seq<F>, log_small: int, eta: int, period: int, i: int) -> F {
    if i % period == 0 {
        small[i / pow2(eta as nat) as int]
    } else {
        F::nil()
    }
}

/// The repeated lifted message holds the repeated message at every `2^eta`-th index.
proof fn lemma_lift_start<F: FieldOps>(msg: Seq<F>, m: int, eta: int, rate: int)
    requires
        0 <= m,
        0 <= eta,
        0 <= rate,
        msg.len() == pow2(m as nat),
    ensures
        forall|i: int|
            0 <= i < pow2((m + rate + eta) as nat) ==> #[trigger] repeated_message(
                zero_pad_msb(msg, (m + eta) as nat),
                m + eta,
                m + eta + rate,
            )[i] == sparse_at(
                repeated_message(msg, m, m + rate),
                m + rate,
                eta,
                pow2(eta as nat) as int,
                i,
            ),
{
    let e = pow2(eta as nat) as int;
    let p = pow2(m as nat) as int;
    let lifted = zero_pad_msb(msg, (m + eta) as nat);
    let large = repeated_message(lifted, m + eta, m + eta + rate);
    let small = repeated_message(msg, m, m + rate);
    lemma_pow2_pos(eta as nat);
    lemma_pow2_pos(m as nat);
    lemma_pow2_split(eta as nat, (m + eta) as nat);
    lemma_pow2_split(m as nat, (m + eta) as nat);
    lemma_pow2_split(eta as nat, (m + rate + eta) as nat);
    assert(p * e == e * p) by (nonlinear_arith);
    assert forall|i: int| 0 <= i < pow2((m + rate + eta) as nat) implies #[trigger] large[i]
        == sparse_at(small, m + rate, eta, e, i) by {
        let k = i % (p * e);
        lemma_split_index(i, p * e);
        lemma_split_index(k, e);
        lemma_block_bound(k, p, e);
        lemma_mod_of_multiple(i, e, p);
        let (q, low) = (k / e, k % e);
        lemma_reversed_split(q, low, eta, m);
        lemma_reversed_bound(low, eta);
        lemma_reversed_bound(q, m);
        // The quotient of the whole index.
        lemma_split_index(i, e);
        let s = pow2((m + rate) as nat) as int;
        assert(s * e == e * s) by (nonlinear_arith);
        lemma_block_bound(i, s, e);
        let iq = i / e;
        assert(i == ((i / (p * e)) * p + q) * e + low) by (nonlinear_arith)
            requires
                i == (i / (p * e)) * (p * e) + k,
                k == q * e + low,
        ;
        lemma_div_mod((i / (p * e)) * p + q, e, low);
        lemma_div_mod(i / (p * e), p, q);
        if low == 0 {
            lemma_reversed_zero(eta);
            assert(0 * p == 0) by (nonlinear_arith);
        } else {
            lemma_reversed_nonzero(low, eta);
            let r = reversed(low, eta);
            assert(r * p + reversed(q, m) >= p) by (nonlinear_arith)
                requires
                    r >= 1,
                    p > 0,
                    reversed(q, m) >= 0,
            ;
            assert(r * p + reversed(q, m) < pow2((m + eta) as nat)) by {
                lemma_index_bound(r, reversed(q, m), e, p);
            }
        }
    }
}

/// Zero is its own reversal.
proof fn lemma_reversed_zero(bits: int)
    ensures
        reversed(0, bits) == 0,
    decreases bits,
{
    if bits > 0 {
        lemma_reversed_zero(bits - 1);
        assert((0int % 2) * pow2((bits - 1) as nat) == 0) by (nonlinear_arith);
    }
}

/// A nonzero index has a nonzero reversal.
proof fn lemma_reversed_nonzero(x: int, bits: int)
    requires
        0 <= bits,
        0 < x < pow2(bits as nat),
    ensures
        reversed(x, bits) >= 1,
{
    lemma_reversed_bound(x, bits);
    reversal_is_involution(x, bits);
    if reversed(x, bits) == 0 {
        lemma_reversed_zero(bits);
    }
}

/// The layers of the small transform act on the large state as on the small one.
proof fn lemma_lift_layers<F: FieldOps>(
    small: Seq<F>,
    large: Seq<F>,
    log_small: int,
    eta: int,
    from: int,
    to: int,
    tw: spec_fn(int, int) -> F,
)
    requires
        0 <= eta,
        0 <= from,
        to <= log_small,
        small.len() == pow2(log_small as nat),
        large.len() == pow2((log_small + eta) as nat),
        forall|i: int|
            0 <= i < large.len() ==> #[trigger] large[i] == sparse_at(
                small,
                log_small,
                eta,
                pow2(eta as nat) as int,
                i,
            ),
    ensures
        forall|i: int|
            0 <= i < large.len() ==> #[trigger] transform(large, log_small + eta, from, to, tw)[i]
                == sparse_at(
                transform(small, log_small, from, to, tw),
                log_small,
                eta,
                pow2(eta as nat) as int,
                i,
            ),
    decreases to - from,
{
    let e = pow2(eta as nat) as int;
    if from < to {
        lemma_lift_layers(small, large, log_small, eta, from, to - 1, tw);
        let ps = transform(small, log_small, from, to - 1, tw);
        let pl = transform(large, log_small + eta, from, to - 1, tw);
        lemma_transform_len(small, log_small, from, to - 1, tw);
        lemma_transform_len(large, log_small + eta, from, to - 1, tw);
        let ns = transform(small, log_small, from, to, tw);
        let nl = transform(large, log_small + eta, from, to, tw);
        let hs = pow2((log_small - to) as nat) as int;
        let hl = pow2((log_small + eta - to) as nat) as int;
        lemma_pow2_pos(eta as nat);
        lemma_pow2_split(eta as nat, (log_small + eta - to) as nat);
        lemma_pow2_split(eta as nat, (log_small + eta) as nat);
        lemma_pow2_unfold((log_small - to + 1) as nat);
        lemma_pow2_split((log_small - to + 1) as nat, log_small as nat);
        let blocks = pow2((to - 1) as nat) as int;
        assert(hl == hs * e) by (nonlinear_arith)
            requires
                hl == e * hs,
        ;
        let s = pow2(log_small as nat) as int;
        assert(s * e == e * s) by (nonlinear_arith);
        assert(s == blocks * (2 * hs)) by (nonlinear_arith)
            requires
                s == (2 * hs) * blocks,
        ;
        assert forall|i: int| 0 <= i < large.len() implies #[trigger] nl[i] == sparse_at(
            ns,
            log_small,
            eta,
            e,
            i,
        ) by {
            lemma_split_index(i, e);
            lemma_block_bound(i, s, e);
            let (q, low) = (i / e, i % e);
            lemma_split_index(q, 2 * hs);
            lemma_block_bound(q, blocks, 2 * hs);
            let (b, o) = (q / (2 * hs), q % (2 * hs));
            // The block and the offset of the large index.
            assert(i == b * (2 * hl) + (o * e + low)) by (nonlinear_arith)
                requires
                    i == q * e + low,
                    q == b * (2 * hs) + o,
                    hl == hs * e,
            ;
            lemma_index_bound(o, low, 2 * hs, e);
            assert((2 * hs) * e == 2 * hl) by (nonlinear_arith)
                requires
                    hl == hs * e,
            ;
            lemma_div_mod(b, 2 * hl, o * e + low);
            let t = tw(to - 1, b);
            lemma_times_nil(t);
            F::plus_nil(F::nil());
            assert(pl[i] == sparse_at(ps, log_small, eta, e, i));
            if o < hs {
                lemma_index_bound(o, low, hs, e);
                lemma_index_bound(b, o + hs, blocks, 2 * hs);
                assert(i + hl == (q + hs) * e + low) by (nonlinear_arith)
                    requires
                        i == q * e + low,
                        hl == hs * e,
                ;
                lemma_div_mod(q + hs, e, low);
                lemma_index_bound(q + hs, low, s, e);
                assert(pl[i + hl] == sparse_at(ps, log_small, eta, e, i + hl));
            } else {
                assert(o * e + low >= hl) by (nonlinear_arith)
                    requires
                        o >= hs,
                        hl == hs * e,
                        e > 0,
                        low >= 0,
                ;
                lemma_index_bound(b, o - hs, blocks, 2 * hs);
                assert(i - hl == (q - hs) * e + low) by (nonlinear_arith)
                    requires
                        i == q * e + low,
                        hl == hs * e,
                ;
                lemma_div_mod(q - hs, e, low);
                lemma_index_bound(q - hs, low, s, e);
                assert(pl[i - hl] == sparse_at(ps, log_small, eta, e, i - hl));
            }
        }
    }
}

/// The last layers copy every value over the zeros that follow it.
proof fn lemma_spread_layers<F: FieldOps>(
    large: Seq<F>,
    small: Seq<F>,
    log_small: int,
    eta: int,
    layers: int,
    tw: spec_fn(int, int) -> F,
)
    requires
        0 <= log_small,
        0 <= layers <= eta,
        large.len() == pow2((log_small + eta) as nat),
        forall|i: int|
            0 <= i < large.len() ==> #[trigger] large[i] == sparse_at(
                small,
                log_small,
                eta,
                pow2(eta as nat) as int,
                i,
            ),
    ensures
        forall|i: int|
            0 <= i < large.len() ==> #[trigger] transform(
                large,
                log_small + eta,
                log_small,
                log_small + layers,
                tw,
            )[i] == sparse_at(small, log_small, eta, pow2((eta - layers) as nat) as int, i),
    decreases layers,
{
    if layers > 0 {
        lemma_spread_layers(large, small, log_small, eta, layers - 1, tw);
        let to = log_small + layers;
        assert(log_small + (layers - 1) == to - 1);
        assert(eta - (layers - 1) == eta - layers + 1);
        let prev = transform(large, log_small + eta, log_small, to - 1, tw);
        let next = transform(large, log_small + eta, log_small, to, tw);
        lemma_transform_len(large, log_small + eta, log_small, to - 1, tw);
        let half = pow2((eta - layers) as nat) as int;
        let e = pow2(eta as nat) as int;
        let n = large.len() as int;
        lemma_pow2_unfold((eta - layers + 1) as nat);
        lemma_pow2_split((eta - layers + 1) as nat, eta as nat);
        lemma_pow2_split((eta - layers + 1) as nat, (log_small + eta) as nat);
        lemma_pow2_pos(eta as nat);
        let blocks = pow2((to - 1) as nat) as int;
        let inner = pow2((layers - 1) as nat) as int;
        assert(n == blocks * (2 * half)) by (nonlinear_arith)
            requires
                n == (2 * half) * blocks,
        ;
        assert(e == inner * (2 * half)) by (nonlinear_arith)
            requires
                e == (2 * half) * inner,
        ;
        lemma_pow2_pos((eta - layers) as nat);
        lemma_pow2_pos((layers - 1) as nat);
        assert forall|i: int| 0 <= i < n implies #[trigger] next[i] == sparse_at(
            small,
            log_small,
            eta,
            half,
            i,
        ) by {
            let t = tw(to - 1, i / (2 * half));
            lemma_split_index(i, 2 * half);
            lemma_block_bound(i, blocks, 2 * half);
            let (q, o) = (i / (2 * half), i % (2 * half));
            lemma_half_block(i, half);
            lemma_times_nil(t);
            assert(prev[i] == sparse_at(small, log_small, eta, 2 * half, i));
            F::plus_nil(prev[i]);
            if o < half {
                lemma_index_bound(q, o + half, blocks, 2 * half);
                lemma_div_mod(q, 2 * half, o + half);
                assert(prev[i + half] == sparse_at(small, log_small, eta, 2 * half, i + half));
            } else {
                lemma_index_bound(q, o - half, blocks, 2 * half);
                lemma_div_mod(q, 2 * half, o - half);
                assert(prev[i - half] == sparse_at(small, log_small, eta, 2 * half, i - half));
                F::plus_nil(prev[i - half]);
                lemma_nil_plus(prev[i - half]);
                // Both indices lie in the same run of the small scalar.
                lemma_split_index(q, inner);
                let (c, d) = (q / inner, q % inner);
                lemma_index_bound(d, o, inner, 2 * half);
                lemma_index_bound(d, o - half, inner, 2 * half);
                assert(i == c * e + (d * (2 * half) + o)) by (nonlinear_arith)
                    requires
                        i == q * (2 * half) + o,
                        q == c * inner + d,
                        e == inner * (2 * half),
                ;
                lemma_div_mod(c, e, d * (2 * half) + o);
                lemma_div_mod(c, e, d * (2 * half) + (o - half));
            }
        }
    }
}

} // verus!
