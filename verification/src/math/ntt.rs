//! The additive number-theoretic transform and its evaluation domain.

use vstd::arithmetic::power2::{lemma2_to64, lemma_pow2_pos, lemma_pow2_unfold, pow2};
use crate::algebra::field::{Field, FieldOps, select};
use crate::algebra::group::AdditiveGroup;
use crate::algebra::sum::sum;
use crate::field::ghash::BinaryField128bGhash;
use crate::field::ghash_trace::lemma_trace_is_one;
use crate::field::packed::PackedField;
use crate::math::bit_reverse::reversed;
use crate::math::field_buffer::FieldBuffer;
use crate::math::index::{
    lemma_block_bound, lemma_div_mod, lemma_index_bound, lemma_pow2_split, lemma_split_index,
    pow2_usize,
};
use crate::math::subset::index_bit;
use vstd::prelude::*;

verus! {

/// One layer of butterflies over `2^log_d` scalars.
///
/// The scalars fall into `2^layer` blocks.
/// Within a block, the first half `u` and the second half `v` become `u + v t` and
/// `v + (u + v t)`, with `t` the block's twiddle factor.
pub open spec fn butterfly_layer<F: FieldOps>(
    data: Seq<F>,
    log_d: int,
    layer: int,
    tw: spec_fn(int, int) -> F,
) -> Seq<F> {
    let half = pow2((log_d - layer - 1) as nat) as int;
    Seq::new(
        data.len(),
        |i: int|
            {
                let t = tw(layer, i / (2 * half));
                if i % (2 * half) < half {
                    data[i].plus(data[i + half].times(t))
                } else {
                    data[i].plus(data[i - half].plus(data[i].times(t)))
                }
            },
    )
}

/// The layers `from..to` of the transform, in order.
pub open spec fn transform<F: FieldOps>(
    data: Seq<F>,
    log_d: int,
    from: int,
    to: int,
    tw: spec_fn(int, int) -> F,
) -> Seq<F>
    decreases to - from,
{
    if to <= from {
        data
    } else {
        butterfly_layer(transform(data, log_d, from, to - 1, tw), log_d, to - 1, tw)
    }
}

/// The twiddle factors of an evaluation domain.
pub trait DomainContext {
    /// The field the domain lies in.
    type Field: FieldOps;

    /// The twiddle factor of a block of a layer.
    spec fn twiddle_at(&self, layer: int, block: int) -> Self::Field;

    /// The dimension of the domain.
    spec fn log_size(&self) -> nat;

    /// A basis of the domain.
    spec fn basis_at(&self, i: int) -> Self::Field;

    /// What a usable context satisfies.
    spec fn wf(&self) -> bool;

    /// The dimension of the domain.
    fn log_domain_size(&self) -> (r: usize)
        requires
            self.wf(),
        ensures
            r == self.log_size(),
    ;

    /// The twiddle factor of a block of a layer.
    fn twiddle(&self, layer: usize, block: usize) -> (r: Self::Field)
        requires
            self.wf(),
            layer < self.log_size(),
            block < pow2(layer as nat),
        ensures
            r == self.twiddle_at(layer as int, block as int),
    ;

    /// The first `dim` basis elements.
    fn subspace(&self, dim: usize) -> (r: Vec<Self::Field>)
        requires
            self.wf(),
            dim <= self.log_size(),
        ensures
            r.len() == dim,
            forall|i: int| 0 <= i < dim ==> #[trigger] r[i] == self.basis_at(i),
    ;
}

/// The twiddle factors of a context as a function.
pub open spec fn twiddles<DC: DomainContext>(dc: &DC) -> spec_fn(int, int) -> DC::Field {
    |layer: int, block: int| dc.twiddle_at(layer, block)
}

/// A field with a known element of trace one.
pub trait TraceOneElement: Field {
    /// The degree of the field over its prime field.
    const N_BITS: usize;

    /// An element of trace one.
    spec fn trace_one() -> Self;

    /// The trace, which `x -> x^2 + x` gives when applied once for each conjugate but the element
    /// itself, is one.
    proof fn trace_is_one()
        ensures
            artin_schreier(Self::trace_one(), Self::N_BITS - 1) == Self::unit(),
    ;

    /// An element of trace one.
    fn trace_one_element() -> (r: Self)
        ensures
            r == Self::trace_one(),
    ;
}

impl TraceOneElement for BinaryField128bGhash {
    const N_BITS: usize = 128;

    open spec fn trace_one() -> Self {
        BinaryField128bGhash(0x02000000000000000000000000000000)
    }

    proof fn trace_is_one() {
        lemma_trace_is_one();
    }

    fn trace_one_element() -> (r: Self) {
        BinaryField128bGhash(0x02000000000000000000000000000000)
    }
}

/// The map `x -> x^2 + x`, applied `n` times.
pub open spec fn artin_schreier<F: FieldOps>(x: F, n: int) -> F
    decreases n,
{
    if n <= 0 {
        x
    } else {
        let y = artin_schreier(x, n - 1);
        y.times(y).plus(y)
    }
}

/// Element `i` of the Gao-Mateer basis: each element is the image of the next one under
/// `x -> x^2 + x`, and the last one has trace one.
pub open spec fn gao_mateer<F: TraceOneElement>(i: int) -> F {
    artin_schreier(F::trace_one(), F::N_BITS - 1 - i)
}

/// The evaluation domain spanned by the first elements of the Gao-Mateer basis.
pub struct GaoMateerPreExpanded<F> {
    pub basis: Vec<F>,
}

impl<F: TraceOneElement> GaoMateerPreExpanded<F> {
    /// The domain of the given dimension.
    pub fn generate(log_domain_size: usize) -> (r: Self)
        requires
            log_domain_size <= F::N_BITS,
        ensures
            r.wf(),
            r.log_size() == log_domain_size,
    {
        // The elements come out last first.
        let mut reversed: Vec<F> = Vec::new();
        let mut beta = F::trace_one_element();
        let mut i: usize = F::N_BITS;
        while i > 0
            invariant
                i <= F::N_BITS,
                log_domain_size <= F::N_BITS,
                i > 0 ==> beta == gao_mateer::<F>(i - 1),
                reversed.len() == if i < log_domain_size {
                    log_domain_size - i
                } else {
                    0
                },
                forall|j: int|
                    0 <= j < reversed.len() ==> #[trigger] reversed[j] == gao_mateer::<F>(
                        log_domain_size - 1 - j,
                    ),
            decreases i,
        {
            i = i - 1;
            if i < log_domain_size {
                reversed.push(beta);
            }
            beta = beta.square().add(beta);
        }
        let mut basis: Vec<F> = Vec::new();
        let mut k: usize = 0;
        while k < log_domain_size
            invariant
                k <= log_domain_size,
                reversed.len() == log_domain_size,
                basis.len() == k,
                forall|j: int|
                    0 <= j < reversed.len() ==> #[trigger] reversed[j] == gao_mateer::<F>(
                        log_domain_size - 1 - j,
                    ),
                forall|j: int| 0 <= j < k ==> #[trigger] basis[j] == gao_mateer::<F>(j),
            decreases log_domain_size - k,
        {
            basis.push(reversed[log_domain_size - 1 - k]);
            k = k + 1;
        }
        GaoMateerPreExpanded { basis }
    }
}

impl<F: TraceOneElement> DomainContext for GaoMateerPreExpanded<F> {
    type Field = F;

    open spec fn twiddle_at(&self, layer: int, block: int) -> F {
        sum(layer, |j: int| select(index_bit(block, j), gao_mateer::<F>(j + 1)))
    }

    open spec fn log_size(&self) -> nat {
        self.basis.len() as nat
    }

    open spec fn basis_at(&self, i: int) -> F {
        gao_mateer::<F>(i)
    }

    open spec fn wf(&self) -> bool {
        forall|i: int| 0 <= i < self.basis.len() ==> #[trigger] self.basis[i] == gao_mateer::<F>(i)
    }

    fn log_domain_size(&self) -> (r: usize) {
        self.basis.len()
    }

    fn twiddle(&self, layer: usize, block: usize) -> (r: F) {
        let mut r = F::zero();
        let mut rest: usize = block;
        let mut j: usize = 0;
        let ghost term = |j: int| select(index_bit(block as int, j), gao_mateer::<F>(j + 1));
        proof {
            lemma2_to64();
        }
        while j < layer
            invariant
                j <= layer,
                layer < self.basis.len(),
                self.wf(),
                rest as int == block as int / pow2(j as nat) as int,
                term == (|j: int| select(index_bit(block as int, j), gao_mateer::<F>(j + 1))),
                r == sum(j as int, term),
            decreases layer - j,
        {
            proof {
                lemma_pow2_pos(j as nat);
                lemma_pow2_unfold((j + 1) as nat);
                vstd::arithmetic::div_mod::lemma_div_denominator(
                    block as int,
                    pow2(j as nat) as int,
                    2,
                );
                assert(self.basis[j + 1] == gao_mateer::<F>(j + 1));
                assert(sum(j + 1, term) == sum(j as int, term).plus(term(j as int)));
                F::plus_nil(r);
            }
            if rest % 2 == 1 {
                r = r.add(self.basis[j + 1]);
            }
            rest = rest / 2;
            j = j + 1;
        }
        r
    }

    fn subspace(&self, dim: usize) -> (r: Vec<F>) {
        let mut r: Vec<F> = Vec::new();
        let mut i: usize = 0;
        while i < dim
            invariant
                i <= dim,
                dim <= self.basis.len(),
                self.wf(),
                r.len() == i,
                forall|j: int| 0 <= j < i ==> #[trigger] r[j] == gao_mateer::<F>(j),
            decreases dim - i,
        {
            proof {
                assert(self.basis[i as int] == gao_mateer::<F>(i as int));
            }
            r.push(self.basis[i]);
            i = i + 1;
        }
        r
    }
}

/// The transform computed directly from its definition.
pub struct NeighborsLastReference<DC> {
    pub domain_context: DC,
}

/// Whether the butterflies of the first blocks, and the first ones of the next block, are done.
spec fn butterfly_done(i: int, half: int, block: int, off: int) -> bool {
    let b = i / (2 * half);
    let o = i % (2 * half);
    b < block || (b == block && (o < off || half <= o < half + off))
}

impl<DC: DomainContext> NeighborsLastReference<DC> {
    /// Applies one layer of butterflies.
    fn apply_layer<P: PackedField<Scalar = DC::Field>>(
        &self,
        data: &mut FieldBuffer<P>,
        layer: usize,
    )
        requires
            self.domain_context.wf(),
            old(data).wf(),
            layer < old(data).log_len,
            layer < self.domain_context.log_size(),
        ensures
            final(data).wf(),
            final(data).log_len == old(data).log_len,
            final(data).scalars() == butterfly_layer(
                old(data).scalars(),
                old(data).log_len as int,
                layer as int,
                twiddles(&self.domain_context),
            ),
    {
        let log_d = data.log_len;
        let ghost before = data.scalars();
        let ghost tw = twiddles(&self.domain_context);
        let ghost goal = butterfly_layer(before, log_d as int, layer as int, tw);
        proof {
            lemma_pow2_split(layer as nat, log_d as nat);
            lemma_pow2_split((log_d - layer - 1) as nat, log_d as nat);
            lemma_pow2_unfold((log_d - layer) as nat);
        }
        let n_blocks = pow2_usize(layer);
        let half = pow2_usize(log_d - layer - 1);
        let ghost (hi, nb) = (half as int, n_blocks as int);
        proof {
            assert(before.len() == nb * (2 * hi));
            assert forall|i: int| 0 <= i < before.len() implies !#[trigger] butterfly_done(
                i,
                hi,
                0,
                0,
            ) by {
                lemma_split_index(i, 2 * hi);
            }
        }
        let mut block: usize = 0;
        while block < n_blocks
            invariant
                block <= n_blocks,
                self.domain_context.wf(),
                layer < self.domain_context.log_size(),
                n_blocks == pow2(layer as nat),
                hi == half && nb == n_blocks,
                0 < half,
                hi == pow2((log_d - layer - 1) as nat),
                data.wf(),
                data.log_len == log_d,
                before.len() == nb * (2 * hi),
                before.len() == pow2(log_d as nat),
                tw == twiddles(&self.domain_context),
                goal == butterfly_layer(before, log_d as int, layer as int, tw),
                forall|i: int|
                    0 <= i < before.len() ==> #[trigger] data.scalars()[i] == if butterfly_done(
                        i,
                        hi,
                        block as int,
                        0,
                    ) {
                        goal[i]
                    } else {
                        before[i]
                    },
            decreases n_blocks - block,
        {
            let twiddle = self.domain_context.twiddle(layer, block);
            let mut off: usize = 0;
            while off < half
                invariant
                    block < n_blocks,
                    off <= half,
                    hi == half && nb == n_blocks,
                    0 < half,
                    hi == pow2((log_d - layer - 1) as nat),
                    data.wf(),
                    data.log_len == log_d,
                    before.len() == nb * (2 * hi),
                    before.len() == pow2(log_d as nat),
                    tw == twiddles(&self.domain_context),
                    twiddle == tw(layer as int, block as int),
                    goal == butterfly_layer(before, log_d as int, layer as int, tw),
                    forall|i: int|
                        0 <= i < before.len() ==> #[trigger] data.scalars()[i]
                            == if butterfly_done(i, hi, block as int, off as int) {
                            goal[i]
                        } else {
                            before[i]
                        },
                decreases half - off,
            {
                let ghost current = data.scalars();
                proof {
                    lemma_index_bound(block as int, off as int, nb, 2 * hi);
                    lemma_index_bound(block as int, hi + off, nb, 2 * hi);
                    lemma_div_mod(block as int, 2 * hi, off as int);
                    lemma_div_mod(block as int, 2 * hi, hi + off);
                    assert(0 <= block * (2 * hi)) by (nonlinear_arith)
                        requires
                            0 <= block,
                            0 <= hi,
                    ;
                    assert(2 * hi <= nb * (2 * hi)) by (nonlinear_arith)
                        requires
                            nb >= 1,
                            hi >= 0,
                    ;
                }
                let idx0: usize = block * (2 * half) + off;
                let idx1: usize = idx0 + half;
                let v = data.get(idx1);
                let u = data.get(idx0).add(v.mul(twiddle));
                data.set(idx0, u);
                data.set(idx1, v.add(u));
                proof {
                    let (i0, i1) = (idx0 as int, idx1 as int);
                    assert(!butterfly_done(i0, hi, block as int, off as int));
                    assert(!butterfly_done(i1, hi, block as int, off as int));
                    assert(current[i0] == before[i0]);
                    assert(current[i1] == before[i1]);
                    assert forall|i: int| 0 <= i < before.len() implies #[trigger] data.scalars()[i]
                        == (if butterfly_done(i, hi, block as int, off + 1) {
                        goal[i]
                    } else {
                        before[i]
                    }) by {
                        lemma_split_index(i, 2 * hi);
                        assert(current[i] == if butterfly_done(i, hi, block as int, off as int) {
                            goal[i]
                        } else {
                            before[i]
                        });
                        if i / (2 * hi) == block && (i % (2 * hi) == off || i % (2 * hi) == hi
                            + off) {
                            assert(i == i0 || i == i1);
                        }
                    }
                }
                off = off + 1;
            }
            proof {
                assert forall|i: int| 0 <= i < before.len() implies #[trigger] data.scalars()[i]
                    == (if butterfly_done(i, hi, block + 1, 0) {
                    goal[i]
                } else {
                    before[i]
                }) by {
                    lemma_split_index(i, 2 * hi);
                    assert(butterfly_done(i, hi, block as int, hi) == butterfly_done(
                        i,
                        hi,
                        block + 1,
                        0,
                    ));
                }
            }
            block = block + 1;
        }
        proof {
            assert forall|i: int| 0 <= i < before.len() implies #[trigger] data.scalars()[i]
                == goal[i] by {
                lemma_block_bound(i, nb, 2 * hi);
                assert(butterfly_done(i, hi, nb, 0));
            }
            assert(data.scalars() =~= goal);
        }
    }

    /// Applies the transform in place, leaving out the first and the last layers.
    pub fn forward_transform<P: PackedField<Scalar = DC::Field>>(
        &self,
        data: &mut FieldBuffer<P>,
        skip_early: usize,
        skip_late: usize,
    )
        requires
            self.domain_context.wf(),
            old(data).wf(),
            skip_late <= old(data).log_len,
            old(data).log_len - skip_late <= self.domain_context.log_size(),
        ensures
            final(data).wf(),
            final(data).log_len == old(data).log_len,
            final(data).scalars() == transform(
                old(data).scalars(),
                old(data).log_len as int,
                skip_early as int,
                old(data).log_len - skip_late,
                twiddles(&self.domain_context),
            ),
    {
        let log_d = data.log_len;
        let end = log_d - skip_late;
        let ghost before = data.scalars();
        let mut layer = skip_early;
        while layer < end
            invariant
                self.domain_context.wf(),
                end <= self.domain_context.log_size(),
                end <= log_d,
                skip_early <= layer,
                layer <= end || layer == skip_early,
                data.wf(),
                data.log_len == log_d,
                data.scalars() == transform(
                    before,
                    log_d as int,
                    skip_early as int,
                    layer as int,
                    twiddles(&self.domain_context),
                ),
            decreases end - layer,
        {
            self.apply_layer(data, layer);
            layer = layer + 1;
        }
    }
}

/// The basis elements of a smaller domain are those of a larger one.
pub proof fn smaller_domain_is_prefix<F: TraceOneElement>(
    small: GaoMateerPreExpanded<F>,
    large: GaoMateerPreExpanded<F>,
)
    requires
        small.wf(),
        large.wf(),
        small.log_size() <= large.log_size(),
    ensures
        forall|i: int|
            0 <= i < small.basis.len() ==> #[trigger] small.basis[i] == large.basis[i],
        forall|layer: int, block: int| #[trigger]
            small.twiddle_at(layer, block) == large.twiddle_at(layer, block),
{
    assert forall|i: int| 0 <= i < small.basis.len() implies #[trigger] small.basis[i]
        == large.basis[i] by {
        assert(large.basis[i] == gao_mateer::<F>(i));
    }
}

/// Every basis element is the image of the next one under `x -> x^2 + x`.
pub proof fn gao_mateer_recurrence<F: TraceOneElement>(i: int)
    requires
        1 <= i < F::N_BITS,
    ensures
        gao_mateer::<F>(i - 1) == gao_mateer::<F>(i).times(gao_mateer::<F>(i)).plus(
            gao_mateer::<F>(i),
        ),
{
}

/// The transform in two stages.
pub proof fn lemma_transform_compose<F: FieldOps>(
    data: Seq<F>,
    log_d: int,
    from: int,
    mid: int,
    to: int,
    tw: spec_fn(int, int) -> F,
)
    requires
        from <= mid <= to,
    ensures
        transform(data, log_d, from, to, tw) == transform(
            transform(data, log_d, from, mid, tw),
            log_d,
            mid,
            to,
            tw,
        ),
    decreases to - mid,
{
    if mid < to {
        lemma_transform_compose(data, log_d, from, mid, to - 1, tw);
    }
}

/// The transform keeps the length.
pub proof fn lemma_transform_len<F: FieldOps>(
    data: Seq<F>,
    log_d: int,
    from: int,
    to: int,
    tw: spec_fn(int, int) -> F,
)
    ensures
        transform(data, log_d, from, to, tw).len() == data.len(),
    decreases to - from,
{
    if from < to {
        lemma_transform_len(data, log_d, from, to - 1, tw);
    }
}

} // verus!
