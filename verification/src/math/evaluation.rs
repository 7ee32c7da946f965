//! The additive transform evaluates polynomials.
//!
//! A basis spans a space of points. The polynomial that vanishes on the span of the first elements
//! is a product of one factor per point, and the novel basis is made of products of such
//! polynomials. The transform takes the coefficients of a polynomial in that basis to its values.

use vstd::arithmetic::power2::{lemma2_to64, lemma_pow2_pos, lemma_pow2_unfold, pow2};
use crate::algebra::field::{
    FieldOps, lemma_plus_times, lemma_sum_scale, lemma_times_nil, lemma_unit_times, select,
};
use crate::algebra::group::{AdditiveGroup, lemma_nil_plus, lemma_plus_cancel, lemma_plus_exchange};
use crate::algebra::sum::{
    lemma_sum_ext, lemma_sum_first, lemma_sum_plus, lemma_sum_prefix, lemma_sum_single, sum,
};
use crate::field::packed::PackedField;
use crate::math::bit_reverse::{lemma_reversed_bound, reversal_is_involution, reversed};
use crate::math::field_buffer::FieldBuffer;
use crate::math::index::{
    lemma_block_bound, lemma_div_mod, lemma_index_bound, lemma_pow2_split, lemma_split_index,
};
use crate::math::ntt::{
    DomainContext, GaoMateerPreExpanded, NeighborsLastReference, TraceOneElement, butterfly_layer,
    gao_mateer, gao_mateer_recurrence, lemma_transform_len, transform, twiddles,
};
use crate::math::reed_solomon::{ReedSolomonCode, encode_matches_padded_transform, padded_message};
use crate::math::subset::{index_bit, lemma_index_bit_high, lemma_index_bit_shift};
use vstd::prelude::*;

verus! {

/// The product of `f` over `0..n`.
pub open spec fn product_of<F: FieldOps>(n: int, f: spec_fn(int) -> F) -> F
    decreases n,
{
    if n <= 0 {
        F::unit()
    } else {
        product_of(n - 1, f).times(f(n - 1))
    }
}

/// Element `y` of the span of the first `m` elements of a basis: the sum of those that the bits of
/// `y` pick.
pub open spec fn span_point<F: FieldOps>(basis: Seq<F>, m: int, y: int) -> F {
    sum(m, |j: int| select(index_bit(y, j), basis[j]))
}

/// The polynomial that vanishes on the span of the first `s` elements of a basis, at `x`.
pub open spec fn vanishing<F: FieldOps>(basis: Seq<F>, s: int, x: F) -> F {
    product_of(pow2(s as nat) as int, |i: int| x.plus(span_point(basis, s, i)))
}

/// Polynomial `k` of the novel basis, at `x`: the product of the vanishing polynomials that the
/// bits of `k` pick.
pub open spec fn novel<F: FieldOps>(basis: Seq<F>, m: int, k: int, x: F) -> F {
    product_of(
        m,
        |j: int|
            if index_bit(k, j) {
                vanishing(basis, j, x)
            } else {
                F::unit()
            },
    )
}

/// The map `x -> x^2 + x`.
spec fn image<F: FieldOps>(x: F) -> F {
    x.times(x).plus(x)
}

/// The first element is one, and each element is the image of the next under `x -> x^2 + x`.
pub open spec fn ladder<F: FieldOps>(basis: Seq<F>) -> bool {
    &&& basis.len() > 0 ==> basis[0] == F::unit()
    &&& forall|j: int|
        0 <= j < basis.len() - 1 ==> #[trigger] basis[j] == basis[j + 1].times(basis[j + 1]).plus(
            basis[j + 1],
        )
}

/// A product depends only on its factors.
pub proof fn lemma_prod_ext<F: FieldOps>(n: int, f: spec_fn(int) -> F, g: spec_fn(int) -> F)
    requires
        forall|i: int| 0 <= i < n ==> #[trigger] f(i) == g(i),
    ensures
        product_of(n, f) == product_of(n, g),
    decreases n,
{
    if n > 0 {
        lemma_prod_ext(n - 1, f, g);
        assert(f(n - 1) == g(n - 1));
    }
}

/// The first factor of a product can be split off.
proof fn lemma_prod_first<F: FieldOps>(n: int, f: spec_fn(int) -> F)
    requires
        0 <= n,
    ensures
        product_of(n + 1, f) == f(0).times(product_of(n, |i: int| f(i + 1))),
    decreases n,
{
    let g = |i: int| f(i + 1);
    if n > 0 {
        lemma_prod_first(n - 1, f);
        F::times_assoc(f(0), product_of(n - 1, g), g(n - 1));
    } else {
        assert(product_of(1, f) == product_of(0, f).times(f(0)));
        lemma_unit_times(f(0));
        F::times_unit(f(0));
    }
}

/// A product of an even number of factors, two at a time.
proof fn lemma_prod_pairs<F: FieldOps>(n: int, f: spec_fn(int) -> F)
    requires
        0 <= n,
    ensures
        product_of(2 * n, f) == product_of(n, |i: int| f(2 * i).times(f(2 * i + 1))),
    decreases n,
{
    let g = |i: int| f(2 * i).times(f(2 * i + 1));
    if n > 0 {
        lemma_prod_pairs(n - 1, f);
        assert(product_of(2 * n, f) == product_of(2 * n - 1, f).times(f(2 * n - 1)));
        assert(product_of(2 * n - 1, f) == product_of(2 * (n - 1), f).times(f(2 * (n - 1))));
        F::times_assoc(product_of(2 * (n - 1), f), f(2 * (n - 1)), f(2 * n - 1));
        assert(g(n - 1) == f(2 * (n - 1)).times(f(2 * n - 1)));
    }
}

/// A sum of an even number of terms, two at a time.
proof fn lemma_sum_pairs<F: FieldOps>(n: int, f: spec_fn(int) -> F)
    requires
        0 <= n,
    ensures
        sum(2 * n, f) == sum(n, |i: int| f(2 * i).plus(f(2 * i + 1))),
    decreases n,
{
    let g = |i: int| f(2 * i).plus(f(2 * i + 1));
    if n > 0 {
        lemma_sum_pairs(n - 1, f);
        assert(sum(2 * n, f) == sum(2 * n - 1, f).plus(f(2 * n - 1)));
        assert(sum(2 * n - 1, f) == sum(2 * (n - 1), f).plus(f(2 * (n - 1))));
        F::plus_assoc(sum(2 * (n - 1), f), f(2 * (n - 1)), f(2 * n - 1));
        assert(g(n - 1) == f(2 * (n - 1)).plus(f(2 * n - 1)));
    }
}

/// The map `x -> x^2 + x` is additive.
proof fn lemma_image_plus<F: FieldOps>(a: F, b: F)
    ensures
        image(a.plus(b)) == image(a).plus(image(b)),
{
    let s = a.plus(b);
    // The cross terms of the square cancel.
    F::times_plus(s, a, b);
    lemma_plus_times(a, b, a);
    lemma_plus_times(a, b, b);
    F::times_comm(a, b);
    let (aa, ab, bb) = (a.times(a), a.times(b), b.times(b));
    assert(s.times(s) == aa.plus(ab).plus(ab.plus(bb)));
    lemma_plus_exchange(aa, ab, ab, bb);
    F::plus_assoc(aa, ab, ab.plus(bb));
    lemma_plus_cancel(bb, ab);
    assert(s.times(s) == aa.plus(bb));
    lemma_plus_exchange(aa, bb, a, b);
}

/// The map `x -> x^2 + x` takes nothing, and one, to nothing.
proof fn lemma_image_bits<F: FieldOps>()
    ensures
        image(F::nil()) == F::nil(),
        image(F::unit()) == F::nil(),
{
    lemma_times_nil(F::nil());
    F::plus_nil(F::nil());
    F::times_unit(F::unit());
    F::plus_self(F::unit());
}

/// The bits of an index with one more bit below.
proof fn lemma_lower_bit(y: int, b: int, j: int)
    requires
        0 <= y,
        0 <= b < 2,
        0 <= j,
    ensures
        index_bit(2 * y + b, 0) == (b == 1),
        index_bit(2 * y + b, j + 1) == index_bit(y, j),
{
    lemma2_to64();
    lemma_index_bit_shift(2 * y + b, 1, j);
    assert((2 * y + b) / 2 == y);
    assert((2 * y + b) / 1 == 2 * y + b);
}

/// The image of a point one step up.
proof fn lemma_image_sum<F: FieldOps>(basis: Seq<F>, m: int, y: int)
    requires
        ladder(basis),
        0 <= m < basis.len(),
    ensures
        image(sum(m, |j: int| select(index_bit(y, j), basis[j + 1]))) == span_point(basis, m, y),
    decreases m,
{
    let up = |j: int| select(index_bit(y, j), basis[j + 1]);
    let down = |j: int| select(index_bit(y, j), basis[j]);
    lemma_image_bits::<F>();
    if m > 0 {
        lemma_image_sum(basis, m - 1, y);
        lemma_image_plus(sum(m - 1, up), up(m - 1));
        assert(basis[m - 1] == image(basis[m - 1 + 1]));
        assert(image(up(m - 1)) == down(m - 1));
    }
}

/// A point with one more bit below: its image is the point without that bit.
proof fn lemma_next_point<F: FieldOps>(basis: Seq<F>, m: int, y: int, b: int)
    requires
        ladder(basis),
        0 <= m < basis.len(),
        0 <= y,
        0 <= b < 2,
    ensures
        span_point(basis, m + 1, 2 * y + b) == select(b == 1, F::unit()).plus(
            sum(m, |j: int| select(index_bit(y, j), basis[j + 1])),
        ),
        image(span_point(basis, m + 1, 2 * y + b)) == span_point(basis, m, y),
{
    let f = |j: int| select(index_bit(2 * y + b, j), basis[j]);
    let rest = |j: int| f(1 + j);
    let up = |j: int| select(index_bit(y, j), basis[j + 1]);
    lemma_lower_bit(y, b, 0);
    lemma_sum_first(m + 1, f);
    assert forall|j: int| 0 <= j < m implies #[trigger] rest(j) == up(j) by {
        lemma_lower_bit(y, b, j);
    }
    lemma_sum_ext(m, rest, up);
    lemma_image_sum(basis, m, y);
    let low = select(b == 1, F::unit());
    lemma_image_bits::<F>();
    lemma_image_plus(low, sum(m, up));
    lemma_nil_plus(span_point(basis, m, y));
}

/// A vanishing polynomial over one more element is the one over one less, at the image.
proof fn lemma_next_vanishing<F: FieldOps>(basis: Seq<F>, s: int, x: F)
    requires
        ladder(basis),
        0 <= s < basis.len(),
    ensures
        vanishing(basis, s + 1, x) == vanishing(basis, s, image(x)),
{
    let n = pow2(s as nat) as int;
    lemma_pow2_unfold((s + 1) as nat);
    let f = |i: int| x.plus(span_point(basis, s + 1, i));
    let g = |i: int| image(x).plus(span_point(basis, s, i));
    let pairs = |i: int| f(2 * i).times(f(2 * i + 1));
    lemma_prod_pairs(n, f);
    assert forall|i: int| 0 <= i < n implies #[trigger] pairs(i) == g(i) by {
        lemma_next_point(basis, s, i, 0);
        lemma_next_point(basis, s, i, 1);
        let c = sum(s, |j: int| select(index_bit(i, j), basis[j + 1]));
        assert(span_point(basis, s + 1, 2 * i + 0) == F::nil().plus(c));
        lemma_nil_plus(c);
        let u = x.plus(c);
        F::plus_comm(F::unit(), c);
        F::plus_assoc(x, c, F::unit());
        assert(f(2 * i + 1) == u.plus(F::unit()));
        F::times_plus(u, u, F::unit());
        F::times_unit(u);
        assert(pairs(i) == image(u));
        lemma_image_plus(x, c);
    }
    lemma_prod_ext(n, pairs, g);
}

/// The polynomial that vanishes at zero alone.
proof fn lemma_first_vanishing<F: FieldOps>(basis: Seq<F>, x: F)
    ensures
        vanishing(basis, 0, x) == x,
{
    lemma2_to64();
    let f = |i: int| x.plus(span_point(basis, 0, i));
    assert(product_of(1, f) == product_of(0, f).times(f(0)));
    lemma_unit_times(f(0));
    F::plus_nil(x);
}

/// A polynomial of the novel basis with one more bit below.
proof fn lemma_next_novel<F: FieldOps>(basis: Seq<F>, m: int, k: int, c: int, x: F)
    requires
        ladder(basis),
        0 <= m < basis.len(),
        0 <= k,
        0 <= c < 2,
    ensures
        novel(basis, m + 1, 2 * k + c, x) == if c == 1 {
            x.times(novel(basis, m, k, image(x)))
        } else {
            novel(basis, m, k, image(x))
        },
{
    let f = |j: int|
        if index_bit(2 * k + c, j) {
            vanishing(basis, j, x)
        } else {
            F::unit()
        };
    let g = |j: int|
        if index_bit(k, j) {
            vanishing(basis, j, image(x))
        } else {
            F::unit()
        };
    let rest = |j: int| f(j + 1);
    lemma_prod_first(m, f);
    assert forall|j: int| 0 <= j < m implies #[trigger] rest(j) == g(j) by {
        lemma_lower_bit(k, c, j);
        lemma_next_vanishing(basis, j, x);
    }
    lemma_prod_ext(m, rest, g);
    lemma_lower_bit(k, c, 0);
    lemma_first_vanishing(basis, x);
    lemma_unit_times(product_of(m, g));
}

/// The twiddle factors that belong to a basis.
pub open spec fn twiddles_of<F: FieldOps>(basis: Seq<F>, tw: spec_fn(int, int) -> F) -> bool {
    forall|layer: int, block: int|
        #![trigger tw(layer, block)]
        0 <= layer < basis.len() && 0 <= block ==> tw(layer, block) == sum(
            layer,
            |j: int| select(index_bit(block, j), basis[j + 1]),
        )
}

/// The value that position `i` holds once `layers` layers are done: the polynomial whose
/// coefficients are the positions with the same low bits, at the point that the high bits name.
pub open spec fn evaluated<F: FieldOps>(
    basis: Seq<F>,
    data: Seq<F>,
    log_d: int,
    layers: int,
    i: int,
) -> F {
    let w = pow2((log_d - layers) as nat) as int;
    sum(
        pow2(layers as nat) as int,
        |k: int|
            data[k * w + i % w].times(novel(basis, layers, k, span_point(basis, layers, i / w))),
    )
}

/// One more layer of butterflies at one position.
proof fn lemma_one_layer<F: FieldOps>(
    basis: Seq<F>,
    data: Seq<F>,
    before: Seq<F>,
    log_d: int,
    layer: int,
    i: int,
    tw: spec_fn(int, int) -> F,
)
    requires
        ladder(basis),
        twiddles_of(basis, tw),
        0 <= layer < log_d,
        layer < basis.len(),
        data.len() == pow2(log_d as nat),
        before.len() == data.len(),
        forall|p: int|
            0 <= p < data.len() ==> #[trigger] before[p] == evaluated(basis, data, log_d, layer, p),
        0 <= i < data.len(),
    ensures
        butterfly_layer(before, log_d, layer, tw)[i] == evaluated(basis, data, log_d, layer + 1, i),
{
    let half = pow2((log_d - layer - 1) as nat) as int;
    let n = pow2(layer as nat) as int;
    lemma_pow2_unfold((log_d - layer) as nat);
    lemma_pow2_unfold((layer + 1) as nat);
    lemma_pow2_pos((log_d - layer - 1) as nat);
    lemma_pow2_split(layer as nat, log_d as nat);
    let w = 2 * half;
    assert(data.len() == n * w);
    lemma_split_index(i, half);
    lemma_split_index(i, w);
    lemma_block_bound(i, n, w);
    let (y, o) = (i / w, i % w);
    let b: int = if o < half {
        0
    } else {
        1
    };
    let z = o - b * half;
    assert(i == (2 * y + b) * half + z) by (nonlinear_arith)
        requires
            i == y * (2 * half) + o,
            z == o - b * half,
    ;
    assert(0 <= z < half) by {
        if b == 1 {
            assert(1 * half == half);
        } else {
            assert(0 * half == 0);
        }
    }
    lemma_div_mod(2 * y + b, half, z);
    // The two positions that meet.
    let (p, q) = (y * w + z, y * w + (half + z));
    lemma_index_bound(y, z, n, w);
    lemma_index_bound(y, half + z, n, w);
    lemma_div_mod(y, w, z);
    lemma_div_mod(y, w, half + z);
    let t = tw(layer, y);
    let x = span_point(basis, layer + 1, 2 * y + b);
    lemma_next_point(basis, layer, y, b);
    assert(x == select(b == 1, F::unit()).plus(t));
    let under = span_point(basis, layer, y);
    let (u, v) = (before[p], before[q]);
    // The butterfly adds the second value, times the point.
    assert(butterfly_layer(before, log_d, layer, tw)[i] == u.plus(v.times(x))) by {
        if b == 0 {
            lemma_nil_plus(t);
            assert(i == p && i + half == q);
        } else {
            assert(i == q && i - half == p);
            F::times_plus(v, F::unit(), t);
            F::times_unit(v);
            F::plus_assoc(u, v, v.times(t));
            F::plus_assoc(v, u, v.times(t));
            F::plus_comm(u, v);
        }
    }
    // The sum over twice as many coefficients, two at a time.
    let f = |k: int| data[k * half + z].times(novel(basis, layer + 1, k, x));
    let pairs = |k: int| f(2 * k).plus(f(2 * k + 1));
    let even = |k: int| data[k * w + z].times(novel(basis, layer, k, under));
    let odd = |k: int| data[k * w + (half + z)].times(novel(basis, layer, k, under));
    let scaled = |k: int| odd(k).times(x);
    let both = |k: int| even(k).plus(scaled(k));
    lemma_sum_pairs(n, f);
    assert forall|k: int| 0 <= k < n implies #[trigger] pairs(k) == both(k) by {
        lemma_next_novel(basis, layer, k, 0, x);
        lemma_next_novel(basis, layer, k, 1, x);
        assert((2 * k) * half == k * w && (2 * k + 1) * half + z == k * w + (half + z))
            by (nonlinear_arith)
            requires
                w == 2 * half,
        ;
        let r = novel(basis, layer, k, under);
        F::times_comm(x, r);
        F::times_assoc(data[k * w + (half + z)], r, x);
        assert(f(2 * k + 0) == even(k));
        assert(f(2 * k + 1) == scaled(k));
    }
    lemma_sum_ext(n, pairs, both);
    lemma_sum_plus(n, even, scaled);
    lemma_sum_scale(n, x, odd);
    assert(evaluated(basis, data, log_d, layer, p) == sum(n, even)) by {
        let e = |k: int|
            data[k * w + p % w].times(novel(basis, layer, k, span_point(basis, layer, p / w)));
        assert forall|k: int| 0 <= k < n implies #[trigger] e(k) == even(k) by {}
        lemma_sum_ext(n, e, even);
    }
    assert(evaluated(basis, data, log_d, layer, q) == sum(n, odd)) by {
        let e = |k: int|
            data[k * w + q % w].times(novel(basis, layer, k, span_point(basis, layer, q / w)));
        assert forall|k: int| 0 <= k < n implies #[trigger] e(k) == odd(k) by {}
        lemma_sum_ext(n, e, odd);
    }
    assert(evaluated(basis, data, log_d, layer + 1, i) == sum(2 * n, f)) by {
        let e = |k: int|
            data[k * half + i % half].times(
                novel(basis, layer + 1, k, span_point(basis, layer + 1, i / half)),
            );
        assert forall|k: int| 0 <= k < 2 * n implies #[trigger] e(k) == f(k) by {}
        lemma_sum_ext(2 * n, e, f);
    }
}

/// The transform evaluates: after `layers` layers, position `i` holds the polynomial whose
/// coefficients in the novel basis are the positions with the same low bits, at the point that the
/// high bits name.
pub proof fn transform_evaluates<F: FieldOps>(
    basis: Seq<F>,
    data: Seq<F>,
    log_d: int,
    layers: int,
    tw: spec_fn(int, int) -> F,
)
    requires
        ladder(basis),
        twiddles_of(basis, tw),
        0 <= layers <= log_d,
        layers <= basis.len(),
        data.len() == pow2(log_d as nat),
    ensures
        transform(data, log_d, 0, layers, tw).len() == data.len(),
        forall|i: int|
            0 <= i < data.len() ==> #[trigger] transform(data, log_d, 0, layers, tw)[i]
                == evaluated(basis, data, log_d, layers, i),
    decreases layers,
{
    lemma_transform_len(data, log_d, 0, layers, tw);
    if layers == 0 {
        lemma2_to64();
        assert forall|i: int| 0 <= i < data.len() implies #[trigger] transform(
            data,
            log_d,
            0,
            0,
            tw,
        )[i] == evaluated(basis, data, log_d, 0, i) by {
            let w = pow2(log_d as nat) as int;
            vstd::arithmetic::div_mod::lemma_small_mod(i as nat, w as nat);
            let f = |k: int|
                data[k * w + i % w].times(novel(basis, 0, k, span_point(basis, 0, i / w)));
            assert(sum(1, f) == sum(0, f).plus(f(0)));
            lemma_nil_plus(f(0));
            assert(0 * w + i % w == i);
            F::times_unit(data[i]);
        }
    } else {
        transform_evaluates(basis, data, log_d, layers - 1, tw);
        let before = transform(data, log_d, 0, layers - 1, tw);
        assert forall|i: int| 0 <= i < data.len() implies #[trigger] transform(
            data,
            log_d,
            0,
            layers,
            tw,
        )[i] == evaluated(basis, data, log_d, layers, i) by {
            lemma_one_layer(basis, data, before, log_d, layers - 1, i, tw);
        }
    }
}

/// The Gao-Mateer basis starts at one, and each element is the image of the next.
proof fn lemma_gao_mateer_ladder<F: TraceOneElement>(basis: Seq<F>)
    requires
        basis.len() <= F::N_BITS,
        forall|i: int| 0 <= i < basis.len() ==> #[trigger] basis[i] == gao_mateer::<F>(i),
    ensures
        ladder(basis),
{
    F::trace_is_one();
    assert forall|j: int| 0 <= j < basis.len() - 1 implies #[trigger] basis[j] == basis[j
        + 1].times(basis[j + 1]).plus(basis[j + 1]) by {
        gao_mateer_recurrence::<F>(j + 1);
        assert(basis[j + 1] == gao_mateer::<F>(j + 1));
    }
}

/// A codeword lists the values of its message's polynomial on the code's subspace: at the `y`-th
/// element of the span, message `z` of an interleaved batch has the sum of its symbols, each times
/// its polynomial of the novel basis. The symbols come in the bit-reversed order of their places.
pub proof fn codewords_are_evaluations<F: TraceOneElement, P: PackedField<Scalar = F>>(
    code: ReedSolomonCode,
    ntt: &NeighborsLastReference<GaoMateerPreExpanded<F>>,
    data: &FieldBuffer<P>,
    log_batch: usize,
    codeword: FieldBuffer<P>,
    subspace: Vec<F>,
    y: int,
    z: int,
)
    requires
        data.wf(),
        data.log_len == code.log_dimension + log_batch,
        code.log_dimension + code.log_inv_rate <= F::N_BITS,
        DomainContext::wf(&ntt.domain_context),
        code.log_dimension + code.log_inv_rate <= ntt.domain_context.basis.len(),
        call_ensures(
            ReedSolomonCode::encode_batch::<P, GaoMateerPreExpanded<F>>,
            (&code, ntt, data, log_batch),
            codeword,
        ),
        call_ensures(ReedSolomonCode::subspace::<F>, (&code,), subspace),
        0 <= y < pow2((code.log_dimension + code.log_inv_rate) as nat),
        0 <= z < pow2(log_batch as nat),
    ensures
        codeword.scalars()[y * pow2(log_batch as nat) + z] == sum(
            pow2(code.log_dimension as nat) as int,
            |k: int|
                data.scalars()[reversed(
                    k * pow2(log_batch as nat) + z,
                    code.log_dimension + log_batch,
                )].times(
                    novel(
                        subspace@,
                        code.log_dimension + code.log_inv_rate,
                        k,
                        span_point(subspace@, code.log_dimension + code.log_inv_rate, y),
                    ),
                ),
        ),
{
    let basis = subspace@;
    let d = code.log_dimension as int;
    let m = d + code.log_inv_rate;
    let b = log_batch as int;
    let log_out = m + b;
    let msg = data.scalars();
    let tw = twiddles(&ntt.domain_context);
    let padded = padded_message(msg, d + b, log_out);
    lemma_gao_mateer_ladder(basis);
    assert(twiddles_of(basis, tw)) by {
        assert forall|layer: int, block: int|
            #![trigger tw(layer, block)]
            0 <= layer < basis.len() && 0 <= block implies tw(layer, block) == sum(
            layer,
            |j: int| select(index_bit(block, j), basis[j + 1]),
        ) by {
            let f = |j: int| select(index_bit(block, j), gao_mateer::<F>(j + 1));
            let g = |j: int| select(index_bit(block, j), basis[j + 1]);
            assert forall|j: int| 0 <= j < layer implies #[trigger] f(j) == g(j) by {
                assert(basis[j + 1] == gao_mateer::<F>(j + 1));
            }
            lemma_sum_ext(layer, f, g);
        }
    }
    encode_matches_padded_transform(code, msg, b, tw);
    transform_evaluates(basis, padded, log_out, m, tw);
    let w = pow2(b as nat) as int;
    lemma_pow2_split(m as nat, log_out as nat);
    lemma_pow2_split(d as nat, (d + b) as nat);
    lemma_pow2_split(d as nat, m as nat);
    lemma_pow2_pos(b as nat);
    let i = y * w + z;
    lemma_index_bound(y, z, pow2(m as nat) as int, w);
    lemma_div_mod(y, w, z);
    assert(codeword.scalars()[i] == evaluated(basis, padded, log_out, m, i));
    let x = span_point(basis, m, y);
    let n = pow2(m as nat) as int;
    let few = pow2(d as nat) as int;
    let e = |k: int|
        padded[k * w + i % w].times(novel(basis, m, k, span_point(basis, m, i / w)));
    let f = |k: int| padded[k * w + z].times(novel(basis, m, k, x));
    let g = |k: int|
        msg[reversed(k * pow2(log_batch as nat) + z, d + b)].times(novel(basis, m, k, x));
    assert forall|k: int| 0 <= k < n implies #[trigger] e(k) == f(k) by {}
    lemma_sum_ext(n, e, f);
    // What stands past the message is zero.
    assert forall|k: int| few <= k < n implies #[trigger] f(k) == F::nil() by {
        lemma_index_bound(k, z, n, w);
        assert(few * w <= k * w) by (nonlinear_arith)
            requires
                few <= k,
                0 <= w,
        ;
        lemma_times_nil(novel(basis, m, k, x));
    }
    lemma_sum_prefix(few, n, f);
    assert forall|k: int| 0 <= k < few implies #[trigger] f(k) == g(k) by {
        lemma_index_bound(k, z, few, w);
        lemma_index_bound(k, z, n, w);
    }
    lemma_sum_ext(few, f, g);
}

/// The polynomial with index one is the point itself.
proof fn lemma_novel_one<F: FieldOps>(basis: Seq<F>, m: int, x: F)
    requires
        ladder(basis),
        0 < m <= basis.len(),
    ensures
        novel(basis, m, 1, x) == x,
{
    lemma_next_novel(basis, m - 1, 0, 1, x);
    lemma_novel_zero(basis, m - 1, image(x));
    F::times_unit(x);
}

/// The polynomial with index zero is one.
proof fn lemma_novel_zero<F: FieldOps>(basis: Seq<F>, m: int, x: F)
    requires
        0 <= m,
    ensures
        novel(basis, m, 0, x) == F::unit(),
    decreases m,
{
    if m > 0 {
        lemma_novel_zero(basis, m - 1, x);
        lemma2_to64();
        lemma_index_bit_high(0, 0, m - 1);
        F::times_unit(F::unit());
    }
}

/// Zero reversed is zero, and one reversed is the highest bit.
proof fn lemma_reversed_low(d: int)
    requires
        0 <= d,
    ensures
        reversed(0, d) == 0,
        d > 0 ==> reversed(1, d) == pow2((d - 1) as nat),
    decreases d,
{
    if d > 0 {
        lemma_reversed_low(d - 1);
        assert(0 * pow2((d - 1) as nat) == 0);
        assert(1 * pow2((d - 1) as nat) == pow2((d - 1) as nat));
    }
}

/// The message whose one nonzero symbol is a one, at the place that belongs to the linear polynomial,
/// encodes to the list of the subspace's elements.
pub proof fn the_linear_message_lists_the_subspace<F: TraceOneElement, P: PackedField<Scalar = F>>(
    code: ReedSolomonCode,
    ntt: &NeighborsLastReference<GaoMateerPreExpanded<F>>,
    data: &FieldBuffer<P>,
    codeword: FieldBuffer<P>,
    subspace: Vec<F>,
    y: int,
)
    requires
        code.log_dimension > 0,
        data.wf(),
        data.log_len == code.log_dimension,
        forall|p: int|
            0 <= p < pow2(code.log_dimension as nat) ==> #[trigger] data.scalars()[p] == if p == pow2(
                (code.log_dimension - 1) as nat,
            ) {
                F::unit()
            } else {
                F::nil()
            },
        code.log_dimension + code.log_inv_rate <= F::N_BITS,
        DomainContext::wf(&ntt.domain_context),
        code.log_dimension + code.log_inv_rate <= ntt.domain_context.basis.len(),
        call_ensures(
            ReedSolomonCode::encode_batch::<P, GaoMateerPreExpanded<F>>,
            (&code, ntt, data, 0usize),
            codeword,
        ),
        call_ensures(ReedSolomonCode::subspace::<F>, (&code,), subspace),
        0 <= y < pow2((code.log_dimension + code.log_inv_rate) as nat),
    ensures
        codeword.scalars()[y] == sum(
            code.log_dimension + code.log_inv_rate,
            |j: int|
                if (y / pow2(j as nat) as int) % 2 == 1 {
                    subspace[j]
                } else {
                    F::nil()
                },
        ),
{
    let d = code.log_dimension as int;
    let m = d + code.log_inv_rate;
    let basis = subspace@;
    let x = span_point(basis, m, y);
    let n = pow2(d as nat) as int;
    lemma2_to64();
    lemma_gao_mateer_ladder(basis);
    codewords_are_evaluations(code, ntt, data, 0, codeword, subspace, y, 0);
    assert(y * 1 + 0 == y);
    let f = |k: int|
        data.scalars()[reversed(k * pow2(0) + 0, d + 0)].times(novel(basis, m, k, x));
    lemma_pow2_unfold(d as nat);
    lemma_pow2_pos((d - 1) as nat);
    lemma_reversed_low(d);
    assert forall|k: int| 0 <= k < n && k != 1 implies #[trigger] f(k) == F::nil() by {
        assert(k * 1 + 0 == k);
        lemma_reversed_bound(k, d);
        reversal_is_involution(k, d);
        reversal_is_involution(1, d);
        lemma_times_nil(novel(basis, m, k, x));
    }
    lemma_sum_single(n, f, 1);
    lemma_reversed_bound(1, d);
    assert(1 * 1 + 0 == 1);
    lemma_novel_one(basis, m, x);
    lemma_unit_times(x);
    let g = |j: int| select(index_bit(y, j), basis[j]);
    let h = |j: int|
        if (y / pow2(j as nat) as int) % 2 == 1 {
            subspace[j]
        } else {
            F::nil()
        };
    assert forall|j: int| 0 <= j < m implies #[trigger] g(j) == h(j) by {}
    lemma_sum_ext(m, g, h);
    let s = |k: int|
        data.scalars()[reversed(
            k * pow2(0usize as nat) + 0,
            code.log_dimension + 0usize,
        )].times(novel(basis, code.log_dimension + code.log_inv_rate, k, x));
    lemma_sum_ext(n, s, f);
}

} // verus!
