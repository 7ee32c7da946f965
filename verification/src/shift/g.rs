//! The rows of the first phase's witness multilinear.

use vstd::arithmetic::power2::{lemma2_to64, pow2};
use crate::algebra::field::{Field, FieldOps, select};
use crate::algebra::group::AdditiveGroup;
use crate::algebra::sum::sum;
use crate::bits::{bit64, lemma_bit64_shr, lemma_bit64_zero};
use crate::field::packed::{
    Divisible, PackedField, all_lanes, get_packed_slice, set_packed_slice_unchecked,
};
use crate::math::index::{
    lemma_block_bound, lemma_div_mod, lemma_pow2_split, lemma_split_index, pow2_usize,
};
use crate::shift::claims::PreparedOperatorClaims;
use crate::shift::keys::{
    DenseShiftEncoding, KeyModel, KeySegment, ShiftSeq, increasing, indices_fit, indices_weight,
};
use crate::shift::phase_1::LOG_SHIFT_ROWS;
use crate::shift::sparse::{SparseShiftRows, cell};
use crate::word::Word;
use vstd::prelude::*;

verus! {

/// The weight of what a key stands for, under its operation's claim.
pub open spec fn key_weight<F: Field>(key: KeyModel, prepared: &PreparedOperatorClaims<F>) -> F {
    let data = prepared.of(key.operation);
    indices_weight(key.indices, data.r_x_prime_tensor@, data.lambda_powers@)
}

/// What key `k` of word `w` adds at sequence `s` and bit position `j`.
pub open spec fn key_term<F: Field>(
    words: Seq<Word>,
    models: Seq<Seq<KeyModel>>,
    prepared: &PreparedOperatorClaims<F>,
    s: ShiftSeq,
    j: int,
    w: int,
    k: int,
) -> F {
    let key = models[w][k];
    select(key.shift_seq == s && words[w].bit(j), key_weight(key, prepared))
}

/// What word `w` adds at sequence `s` and bit position `j`.
pub open spec fn word_term<F: Field>(
    words: Seq<Word>,
    models: Seq<Seq<KeyModel>>,
    prepared: &PreparedOperatorClaims<F>,
    s: ShiftSeq,
    j: int,
    w: int,
) -> F {
    sum(models[w].len() as int, |k: int| key_term(words, models, prepared, s, j, w, k))
}

/// The witness multilinear at sequence `s` and bit position `j`, over the first `n` words.
///
/// Each set bit of a word adds the weights of the word's keys under the sequence.
pub open spec fn g_value<F: Field>(
    words: Seq<Word>,
    models: Seq<Seq<KeyModel>>,
    prepared: &PreparedOperatorClaims<F>,
    s: ShiftSeq,
    j: int,
    n: int,
) -> F {
    sum(n, |w: int| word_term(words, models, prepared, s, j, w))
}

/// The number of words that carry keys.
pub open spec fn keyed_words(words: Seq<Word>, segment: &KeySegment) -> int {
    if words.len() < segment.key_ranges.len() {
        words.len() as int
    } else {
        segment.key_ranges.len() as int
    }
}

/// Every key's constraint indices name entries of its operation's tables.
pub open spec fn segment_fits<F: Field>(
    segment: &KeySegment,
    prepared: &PreparedOperatorClaims<F>,
) -> bool {
    forall|k: int|
        0 <= k < segment.keys.len() ==> {
            let key = #[trigger] segment.key_model(k);
            let data = prepared.of(key.operation);
            indices_fit(
                key.indices,
                data.r_x_prime_tensor.len() as nat,
                data.lambda_powers.len() as nat,
            )
        }
}

/// Adds a value to the cells of one row where a word has a bit set.
fn add_word_bits<P: PackedField>(values: &mut Vec<P>, row: usize, word: Word, acc: P::Scalar)
    requires
        64 * row + 64 <= old(values).len() * P::WIDTH,
        old(values).len() * P::WIDTH <= usize::MAX,
    ensures
        final(values).len() == old(values).len(),
        forall|x: int|
            0 <= x < old(values).len() * P::WIDTH ==> #[trigger] all_lanes(final(values)@)[x]
                == all_lanes(old(values)@)[x].plus(
                select(64 * row <= x < 64 * row + 64 && word.bit(x - 64 * row), acc),
            ),
{
    let ghost start = all_lanes(values@);
    let ghost n = values.len();
    let mut remaining: u64 = word.0;
    let mut b: usize = 0;
    proof {
        P::width_is_power();
        assert forall|x: int| 0 <= x < n * P::WIDTH implies #[trigger] start[x] == start[x].plus(
            P::Scalar::nil(),
        ) by {
            P::Scalar::plus_nil(start[x]);
        }
    }
    while b < 8 && remaining != 0
        invariant
            b <= 8,
            values.len() == n,
            start.len() == n * P::WIDTH,
            64 * row + 64 <= n * P::WIDTH,
            n * P::WIDTH <= usize::MAX,
            1 <= P::WIDTH,
            forall|i: int| #[trigger]
                bit64(remaining, i) == (0 <= i && bit64(word.0, i + 8 * b)),
            forall|x: int|
                0 <= x < n * P::WIDTH ==> #[trigger] all_lanes(values@)[x] == start[x].plus(
                    select(64 * row <= x < 64 * row + 8 * b && word.bit(x - 64 * row), acc),
                ),
        decreases 8 - b,
    {
        let mut i: usize = 0;
        while i < 8
            invariant
                b < 8,
                i <= 8,
                values.len() == n,
                start.len() == n * P::WIDTH,
                64 * row + 64 <= n * P::WIDTH,
                n * P::WIDTH <= usize::MAX,
                1 <= P::WIDTH,
                forall|i: int| #[trigger]
                    bit64(remaining, i) == (0 <= i && bit64(word.0, i + 8 * b)),
                forall|x: int|
                    0 <= x < n * P::WIDTH ==> #[trigger] all_lanes(values@)[x] == start[x].plus(
                        select(
                            64 * row <= x < 64 * row + 8 * b + i && word.bit(x - 64 * row),
                            acc,
                        ),
                    ),
            decreases 8 - i,
        {
            let at: usize = 64 * row + 8 * b + i;
            let ghost before = all_lanes(values@);
            assert(bit64(remaining, i as int) == bit64(word.0, i + 8 * b));
            proof {
                lemma_block_bound(at as int, n as int, P::WIDTH as int);
                P::Scalar::plus_nil(start[at as int]);
                assert(before[at as int] == start[at as int]);
            }
            if (remaining >> (i as u64)) & 1 == 1 {
                let value = get_packed_slice(values.as_slice(), at).add(acc);
                set_packed_slice_unchecked(values.as_mut_slice(), at, value);
            }
            proof {
                assert forall|x: int| 0 <= x < n * P::WIDTH implies #[trigger] all_lanes(
                    values@,
                )[x] == start[x].plus(
                    select(
                        64 * row <= x < 64 * row + 8 * b + i + 1 && word.bit(x - 64 * row),
                        acc,
                    ),
                ) by {
                    if x != at {
                        assert(all_lanes(values@)[x] == before[x]);
                    }
                }
            }
            i = i + 1;
        }
        proof {
            assert forall|i: int| #[trigger] bit64(remaining >> 8, i) == (0 <= i && bit64(
                word.0,
                i + 8 * (b + 1),
            )) by {
                lemma_bit64_shr(remaining, 8, i);
                assert(bit64(remaining, i + 8) == (0 <= i + 8 && bit64(word.0, i + 8 + 8 * b)));
            }
        }
        remaining = remaining >> 8;
        b = b + 1;
    }
    proof {
        assert forall|x: int| 0 <= x < n * P::WIDTH implies #[trigger] all_lanes(values@)[x]
            == start[x].plus(
            select(64 * row <= x < 64 * row + 64 && word.bit(x - 64 * row), acc),
        ) by {
            if 64 * row + 8 * b <= x < 64 * row + 64 {
                let i = x - 64 * row - 8 * b;
                assert(bit64(remaining, i) == bit64(word.0, i + 8 * b));
                lemma_bit64_zero(i);
            }
        }
    }
}

/// Accumulates the rows of one key segment.
///
/// One row of 64 scalars per shift sequence the segment uses, in the order of its encoding.
#[verifier::rlimit(40)]
pub fn build_g<F: Field, P: PackedField<Scalar = F>>(
    words: &[Word],
    segment: &KeySegment,
    prepared: &PreparedOperatorClaims<F>,
) -> (r: Vec<P>)
    requires
        P::LOG_WIDTH <= 3,
        segment.wf(),
        segment_fits(segment, prepared),
        64 * segment.dense_shift_enc.sequences.len() <= usize::MAX,
    ensures
        r.len() * P::WIDTH == 64 * segment.dense_shift_enc.sequences.len(),
        all_lanes(r@).len() == 64 * segment.dense_shift_enc.sequences.len(),
        forall|d: int, j: int|
            0 <= d < segment.dense_shift_enc.sequences.len() && 0 <= j < 64 ==> #[trigger] cell(
                all_lanes(r@),
                d,
                j,
            ) == g_value(
                words@,
                segment.model(),
                prepared,
                segment.dense_shift_enc.sequences[d],
                j,
                keyed_words(words@, segment),
            ),
{
    let ghost enc = segment.dense_shift_enc.sequences@;
    let ghost models = segment.model();
    let ghost n = enc.len() as int;
    proof {
        lemma2_to64();
        P::width_is_power();
        lemma_pow2_split(P::LOG_WIDTH as nat, 6);
    }
    let row_len = pow2_usize(6 - P::LOG_WIDTH);
    proof {
        assert(row_len * P::WIDTH == P::WIDTH * row_len) by (nonlinear_arith);
        assert(n * row_len * P::WIDTH == 64 * n && n * row_len <= 64 * n) by (nonlinear_arith)
            requires
                row_len * P::WIDTH == 64,
                1 <= P::WIDTH,
                0 <= n,
        ;
    }
    let acc_size: usize = segment.dense_shift_enc.len() * row_len;
    let mut r: Vec<P> = Vec::new();
    while r.len() < acc_size
        invariant
            r.len() <= acc_size,
            forall|x: int, l: int|
                0 <= x < r.len() && 0 <= l < P::WIDTH ==> #[trigger] r[x].lanes()[l] == F::nil(),
        decreases acc_size - r.len(),
    {
        r.push(P::zero_packed());
    }
    proof {
        assert forall|d: int, j: int| 0 <= d < n && 0 <= j < 64 implies #[trigger] cell(
            all_lanes(r@),
            d,
            j,
        ) == g_value(words@, models, prepared, enc[d], j, 0) by {
            lemma_block_bound(64 * d + j, r.len() as int, P::WIDTH as int);
            lemma_split_index(64 * d + j, P::WIDTH as int);
        }
    }
    let mut w: usize = 0;
    while w < words.len() && w < segment.key_ranges.len()
        invariant
            w <= words.len(),
            w <= segment.key_ranges.len(),
            segment.wf(),
            segment_fits(segment, prepared),
            enc == segment.dense_shift_enc.sequences@,
            models == segment.model(),
            n == enc.len(),
            r.len() * P::WIDTH == 64 * n,
            64 * n <= usize::MAX,
            forall|d: int, j: int|
                0 <= d < n && 0 <= j < 64 ==> #[trigger] cell(all_lanes(r@), d, j) == g_value(
                    words@,
                    models,
                    prepared,
                    enc[d],
                    j,
                    w as int,
                ),
        decreases words.len() - w,
    {
        let word = words[w];
        let range = segment.key_ranges[w];
        let ghost own = models[w as int];
        let mut k: usize = range.start as usize;
        proof {
            assert forall|d: int, j: int| 0 <= d < n && 0 <= j < 64 implies #[trigger] cell(
                all_lanes(r@),
                d,
                j,
            ) == g_value(words@, models, prepared, enc[d], j, w as int).plus(
                sum(0, |i: int| key_term(words@, models, prepared, enc[d], j, w as int, i)),
            ) by {
                F::plus_nil(g_value(words@, models, prepared, enc[d], j, w as int));
            }
        }
        while k < range.end as usize
            invariant
                w < words.len(),
                w < segment.key_ranges.len(),
                word == words[w as int],
                range == segment.key_ranges[w as int],
                range.start <= k <= range.end <= segment.keys.len(),
                segment.wf(),
                segment_fits(segment, prepared),
                enc == segment.dense_shift_enc.sequences@,
                models == segment.model(),
                own == models[w as int],
                n == enc.len(),
                r.len() * P::WIDTH == 64 * n,
                64 * n <= usize::MAX,
                forall|d: int, j: int|
                    0 <= d < n && 0 <= j < 64 ==> #[trigger] cell(all_lanes(r@), d, j) == g_value(
                        words@,
                        models,
                        prepared,
                        enc[d],
                        j,
                        w as int,
                    ).plus(
                        sum(
                            k - range.start,
                            |i: int| key_term(words@, models, prepared, enc[d], j, w as int, i),
                        ),
                    ),
            decreases range.end - k,
        {
            let key = segment.keys[k];
            let ghost model = segment.key_model(k as int);
            let ghost i = k - range.start;
            assert(own[i] == model);
            let operator_data = prepared.index(key.operation);
            let acc = key.accumulate(
                segment.constraint_indices.as_slice(),
                operator_data.r_x_prime_tensor.as_slice(),
                operator_data.lambda_powers.as_slice(),
            );
            let ghost before = all_lanes(r@);
            let row = key.dense_shift_idx as usize;
            add_word_bits(&mut r, row, word, acc);
            proof {
                assert forall|d: int, j: int| 0 <= d < n && 0 <= j < 64 implies #[trigger] cell(
                    all_lanes(r@),
                    d,
                    j,
                ) == g_value(words@, models, prepared, enc[d], j, w as int).plus(
                    sum(
                        i + 1,
                        |i: int| key_term(words@, models, prepared, enc[d], j, w as int, i),
                    ),
                ) by {
                    let f = |i: int| key_term(words@, models, prepared, enc[d], j, w as int, i);
                    let base = g_value(words@, models, prepared, enc[d], j, w as int);
                    assert(cell(before, d, j) == base.plus(sum(i, f)));
                    let x = 64 * d + j;
                    if d == row {
                        assert(x - 64 * row == j);
                    } else {
                        // Distinct rows hold distinct sequences.
                        if d < row {
                            assert(enc[d].place() < enc[row as int].place());
                        } else {
                            assert(enc[row as int].place() < enc[d].place());
                        }
                        assert(!(64 * row <= x < 64 * row + 64));
                    }
                    assert(all_lanes(r@)[x] == before[x].plus(f(i)));
                    F::plus_assoc(base, sum(i, f), f(i));
                    assert(sum(i + 1, f) == sum(i, f).plus(f(i)));
                }
            }
            k = k + 1;
        }
        proof {
            assert forall|d: int, j: int| 0 <= d < n && 0 <= j < 64 implies #[trigger] cell(
                all_lanes(r@),
                d,
                j,
            ) == g_value(words@, models, prepared, enc[d], j, w + 1) by {
                let f = |v: int| word_term(words@, models, prepared, enc[d], j, v);
                assert(sum(w + 1, f) == sum(w as int, f).plus(f(w as int)));
            }
        }
        w = w + 1;
    }
    r
}

/// The places of sequences, as row indices.
pub open spec fn row_indices(sequences: Seq<ShiftSeq>) -> Seq<u32> {
    Seq::new(sequences.len(), |i: int| sequences[i].place() as u32)
}

/// The scalars of concatenated vectors.
pub proof fn lemma_all_lanes_add<P: Divisible>(a: Seq<P>, b: Seq<P>)
    ensures
        all_lanes(a + b) == all_lanes(a) + all_lanes(b),
{
    P::width_is_power();
    let w = P::WIDTH as int;
    let (la, lb) = (a.len() as int, b.len() as int);
    assert((la + lb) * w == la * w + lb * w && la * w >= 0 && lb * w >= 0) by (nonlinear_arith)
        requires
            la >= 0,
            lb >= 0,
            w >= 1,
    ;
    let (x, y) = (all_lanes(a + b), all_lanes(a) + all_lanes(b));
    assert forall|i: int| 0 <= i < x.len() implies #[trigger] x[i] == y[i] by {
        if i < la * w {
            lemma_block_bound(i, la, w);
        } else {
            let k = i - la * w;
            lemma_block_bound(k, lb, w);
            lemma_split_index(k, w);
            assert((la + k / w) * w == la * w + (k / w) * w) by (nonlinear_arith);
            lemma_div_mod(la + k / w, w, k % w);
        }
    }
    assert(x =~= y);
}

impl<P: PackedField> SparseShiftRows<P> {
    /// Collects the rows two key segments accumulated, each at its sequence's place.
    ///
    /// A sequence both segments use contributes one row each at the same index.
    pub fn from_segments(
        public: &Vec<P>,
        public_enc: &DenseShiftEncoding,
        hidden: &Vec<P>,
        hidden_enc: &DenseShiftEncoding,
    ) -> (r: Self)
        requires
            P::LOG_WIDTH <= 6,
            increasing(public_enc.sequences@),
            increasing(hidden_enc.sequences@),
            public.len() * P::WIDTH == 64 * public_enc.sequences.len(),
            hidden.len() * P::WIDTH == 64 * hidden_enc.sequences.len(),
            64 * (public_enc.sequences.len() + hidden_enc.sequences.len()) <= usize::MAX,
        ensures
            r.wf(),
            r.log_rows == LOG_SHIFT_ROWS,
            r.indices@ == row_indices(public_enc.sequences@) + row_indices(hidden_enc.sequences@),
            r.cells() == all_lanes(public@) + all_lanes(hidden@),
    {
        let mut indices: Vec<u32> = Vec::new();
        let mut values: Vec<P> = Vec::new();
        proof {
            P::width_is_power();
            let (a, b, w) = (public.len() as int, hidden.len() as int, P::WIDTH as int);
            assert(a <= a * w && b <= b * w) by (nonlinear_arith)
                requires
                    a >= 0,
                    b >= 0,
                    w >= 1,
            ;
        }
        append_places(&mut indices, public_enc);
        append_copies(&mut values, public);
        append_places(&mut indices, hidden_enc);
        append_copies(&mut values, hidden);
        proof {
            lemma2_to64();
            lemma_pow2_split(9, 18);
            lemma_all_lanes_add(public@, hidden@);
            assert(Seq::<P>::empty() + public@ =~= public@);
            assert(Seq::<u32>::empty() + row_indices(public_enc.sequences@) =~= row_indices(
                public_enc.sequences@,
            ));
            let (a, b, w) = (public.len() as int, hidden.len() as int, P::WIDTH as int);
            assert((a + b) * w == a * w + b * w) by (nonlinear_arith);
            let (m, k) = (public_enc.sequences.len() as int, hidden_enc.sequences.len() as int);
            assert forall|t: int| 0 <= t < indices.len() implies (#[trigger] indices[t] as int)
                < pow2(18) by {
                if t < m {
                    assert(public_enc.sequences[t].wf());
                } else {
                    assert(hidden_enc.sequences[t - m].wf());
                }
            }
        }
        SparseShiftRows::new(indices, values, LOG_SHIFT_ROWS)
    }
}

fn append_places(indices: &mut Vec<u32>, enc: &DenseShiftEncoding)
    requires
        increasing(enc.sequences@),
    ensures
        final(indices)@ == old(indices)@ + row_indices(enc.sequences@),
{
    let ghost before = indices@;
    let ghost own = row_indices(enc.sequences@);
    let places = enc.shift_indices();
    let mut i: usize = 0;
    assert(before + own.take(0) =~= before);
    while i < places.len()
        invariant
            i <= places.len(),
            own == row_indices(enc.sequences@),
            places.len() == own.len(),
            forall|k: int| 0 <= k < places.len() ==> #[trigger] places[k] == enc.sequences[k].place(),
            forall|k: int| 0 <= k < places.len() ==> #[trigger] places[k] < 0x40000,
            indices@ == before + own.take(i as int),
        decreases places.len() - i,
    {
        indices.push(places[i] as u32);
        proof {
            assert(own[i as int] == places[i as int] as u32);
            assert(indices@ =~= before + own.take(i + 1));
        }
        i = i + 1;
    }
    assert(own.take(i as int) =~= own);
}

fn append_copies<P: Copy>(values: &mut Vec<P>, more: &Vec<P>)
    requires
        old(values).len() + more.len() <= usize::MAX,
    ensures
        final(values)@ == old(values)@ + more@,
{
    let ghost before = values@;
    let mut i: usize = 0;
    assert(before + more@.take(0) =~= before);
    while i < more.len()
        invariant
            i <= more.len(),
            values@ == before + more@.take(i as int),
        decreases more.len() - i,
    {
        values.push(more[i]);
        assert(values@ =~= before + more@.take(i + 1));
        i = i + 1;
    }
    assert(more@.take(i as int) =~= more@);
}

} // verus!
