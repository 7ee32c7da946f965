//! Folds of words against scalar vectors, by table lookup on whole bytes.

use vstd::arithmetic::power2::{lemma2_to64, lemma_pow2_pos, lemma_pow2_unfold, pow2};
use crate::algebra::field::{FieldOps, lemma_sum_scale, lemma_times_nil, select};
use crate::algebra::group::AdditiveGroup;
use crate::algebra::sum::{
    lemma_sum_blocks, lemma_sum_ext, lemma_sum_prefix, lemma_sum_single, lemma_sum_split,
    lemma_sum_swap, sum,
};
use crate::bits::bit64;
use crate::field::b1::BinaryField1b;
use crate::field::packed::{Divisible, PackedField};
use crate::field::types::PackedBinaryField64x1b;
use crate::ghash::laws::product;
use crate::math::eq::{
    eq_ind, eq_ind_partial_eval_scalars, eq_splits, lemma_eq_low, lemma_eq_prefix,
};
use crate::math::field_buffer::FieldBuffer;
use crate::math::index::{
    is_log2_ceil, lemma_block_bound, lemma_div_mod, lemma_pow2_split, lemma_split_index,
    log2_ceil_usize, pow2_usize,
};
use crate::math::ntt::transform;
use crate::math::subset::{
    bits_value, expand_subset_sums_array, index_bit, lemma_bit64_is_index_bit, lemma_bits_value,
    lemma_index_bit_high, lemma_index_bit_low, lemma_index_bit_shift, lemma_index_bit_top,
    subset_sum,
};
use crate::math::transpose::lane;
use crate::prover::bit_transpose::{exchanged_elem, exchanged_pos, square_transpose_const_size};
use crate::word::{Word, lemma_zero_word};
use vstd::prelude::*;

verus! {

/// Base-2 logarithm of the number of words folded together within a chunk.
pub const LOG_CHUNK_SIZE: usize = 6;

/// Number of words folded together within a chunk.
pub const CHUNK_SIZE: usize = 64;

/// The inner product of a word's bits with 64 scalars.
pub open spec fn word_fold<F: FieldOps>(word: Word, cols: Seq<F>) -> F {
    sum(64, |b: int| select(word.bit(b), cols[b]))
}

/// Every word folded against the same scalars, padded with zeros to `2^log_len` of them.
pub open spec fn folded_words<F: FieldOps>(words: Seq<Word>, cols: Seq<F>, log_len: nat) -> Seq<F> {
    Seq::new(
        pow2(log_len),
        |i: int|
            if i < words.len() {
                word_fold(words[i], cols)
            } else {
                F::nil()
            },
    )
}

/// The word-by-word conjunction of two lists.
pub open spec fn and_words(a: Seq<Word>, b: Seq<Word>) -> Seq<Word> {
    Seq::new(a.len(), |i: int| Word(a[i].0 & b[i].0))
}

/// The scalar a set of byte tables holds for position `b`.
pub open spec fn table_term<F>(tables: Seq<[F; 256]>, b: int) -> F {
    tables[b / 8][pow2((b % 8) as nat) as int]
}

/// The eight scalars of one table.
pub open spec fn table_terms<F>(tables: Seq<[F; 256]>, k: int) -> Seq<F> {
    Seq::new(8, |t: int| table_term(tables, 8 * k + t))
}

/// Every table holds the subset sums of its own eight scalars.
pub open spec fn tables_wf<F: FieldOps>(tables: Seq<[F; 256]>) -> bool {
    forall|k: int, v: int|
        0 <= k < tables.len() && 0 <= v < 256 ==> #[trigger] tables[k][v] == subset_sum(
            table_terms(tables, k),
            8,
            v,
        )
}

/// The scalars a slice gives its positions, zero past its end.
pub open spec fn padded_at<F: FieldOps>(weights: Seq<F>, b: int) -> F {
    if b < weights.len() {
        weights[b]
    } else {
        F::nil()
    }
}

/// The subset of one element.
proof fn lemma_subset_single<F: FieldOps>(terms: Seq<F>, t: int)
    requires
        0 <= t < 8,
    ensures
        subset_sum(terms, 8, pow2(t as nat) as int) == terms[t],
{
    let v = pow2(t as nat) as int;
    let f = |j: int| select(index_bit(v, j), terms[j]);
    lemma_pow2_pos(t as nat);
    lemma2_to64();
    assert forall|j: int| 0 <= j < 8 && j != t implies #[trigger] f(j) == F::nil() by {
        if j < t {
            lemma_index_bit_low(1, 0, t, j);
            lemma_index_bit_high(0, 0, j);
        } else {
            lemma_pow2_unfold((t + 1) as nat);
            lemma_index_bit_high(v, t + 1, j);
        }
    }
    lemma_index_bit_top(0, t);
    lemma_sum_single(8, f, t);
}

/// Builds the subset-sum tables of eight scalars each.
///
/// Table `k` covers positions `8k..8k + 8`; scalars past the end of the slice read as zero.
pub fn row_fold_tables<F: FieldOps, const N_TABLES: usize>(weights: &[F]) -> (r: [[F; 256];
    N_TABLES])
    requires
        8 * N_TABLES <= usize::MAX,
    ensures
        tables_wf(r@),
        forall|b: int|
            0 <= b < 8 * N_TABLES ==> #[trigger] table_term(r@, b) == padded_at(weights@, b),
{
    let empty: [F; 256] = [F::zero(); 256];
    let mut r: [[F; 256]; N_TABLES] = [empty; N_TABLES];
    let mut k: usize = 0;
    while k < N_TABLES
        invariant
            k <= N_TABLES,
            8 * N_TABLES <= usize::MAX,
            forall|g: int, v: int|
                0 <= g < k && 0 <= v < 256 ==> #[trigger] r[g][v] == subset_sum(
                    Seq::new(8, |t: int| padded_at(weights@, 8 * g + t)),
                    8,
                    v,
                ),
        decreases N_TABLES - k,
    {
        let mut group: [F; 8] = [F::zero(); 8];
        let mut t: usize = 0;
        while t < 8
            invariant
                t <= 8,
                k < N_TABLES,
                8 * N_TABLES <= usize::MAX,
                forall|j: int|
                    0 <= j < t ==> #[trigger] group[j] == padded_at(weights@, 8 * k + j),
            decreases 8 - t,
        {
            let b: usize = 8 * k + t;
            group[t] = if b < weights.len() {
                weights[b]
            } else {
                F::zero()
            };
            t = t + 1;
        }
        proof {
            assert(group@ =~= Seq::new(8, |t: int| padded_at(weights@, 8 * k + t)));
        }
        let ghost before = r;
        let table = expand_subset_sums_array(group);
        r[k] = table;
        proof {
            assert forall|g: int, v: int| 0 <= g < k + 1 && 0 <= v < 256 implies #[trigger] r[g][v]
                == subset_sum(Seq::new(8, |t: int| padded_at(weights@, 8 * g + t)), 8, v) by {
                if g < k {
                    assert(r[g] == before[g]);
                    assert(before[g][v] == subset_sum(
                        Seq::new(8, |t: int| padded_at(weights@, 8 * g + t)),
                        8,
                        v,
                    ));
                }
            }
        }
        k = k + 1;
    }
    proof {
        lemma2_to64();
        assert forall|b: int| 0 <= b < 8 * N_TABLES implies #[trigger] table_term(r@, b)
            == padded_at(weights@, b) by {
            let (g, t) = (b / 8, b % 8);
            let terms = Seq::new(8, |t: int| padded_at(weights@, 8 * g + t));
            lemma_subset_single(terms, t);
            lemma_pow2_split((t + 1) as nat, 8);
            lemma_pow2_unfold((t + 1) as nat);
            lemma_pow2_pos(t as nat);
            assert(r[g][pow2(t as nat) as int] == subset_sum(terms, 8, pow2(t as nat) as int));
        }
        assert forall|g: int, v: int| 0 <= g < r@.len() && 0 <= v < 256 implies #[trigger] r@[g][v]
            == subset_sum(table_terms(r@, g), 8, v) by {
            assert(table_terms(r@, g) =~= Seq::new(8, |t: int| padded_at(weights@, 8 * g + t)));
        }
    }
    r
}

/// Folds a word's bits against fixed scalars, one table lookup per byte of the word.
pub struct WordBytewiseLookupTransformation<F> {
    pub lookup: [[F; 256]; 8],
}

impl<F: FieldOps> WordBytewiseLookupTransformation<F> {
    /// The tables are subset sums.
    pub open spec fn wf(&self) -> bool {
        tables_wf(self.lookup@)
    }

    /// The scalars the bits are folded against.
    pub open spec fn columns(&self) -> Seq<F> {
        Seq::new(64, |b: int| table_term(self.lookup@, b))
    }

    /// Builds the tables for 64 scalars.
    pub fn new(cols: &[F]) -> (r: Self)
        requires
            cols.len() == 64,
        ensures
            r.wf(),
            r.columns() == cols@,
    {
        let lookup = row_fold_tables::<F, 8>(cols);
        let r = WordBytewiseLookupTransformation { lookup };
        assert(r.columns() =~= cols@) by {
            assert forall|b: int| 0 <= b < 64 implies #[trigger] r.columns()[b] == cols@[b] by {
                assert(table_term(lookup@, b) == padded_at(cols@, b));
            }
        }
        r
    }

    /// The inner product of a word's bits with the scalars.
    pub fn transform(&self, data: u64) -> (r: F)
        requires
            self.wf(),
        ensures
            r == word_fold(Word(data), self.columns()),
    {
        let mut r = F::zero();
        let mut rest: u64 = data;
        let mut k: usize = 0;
        let ghost term = |k: int| word_byte_fold(data, self.columns(), k);
        proof {
            lemma2_to64();
            assert(data as int / 1 == data as int);
        }
        while k < 8
            invariant
                k <= 8,
                self.wf(),
                rest as int == data as int / pow2((8 * k) as nat) as int,
                term == (|k: int| word_byte_fold(data, self.columns(), k)),
                r == sum(k as int, term),
            decreases 8 - k,
        {
            let byte: usize = (rest % 256) as usize;
            proof {
                lemma_byte_lookup(data, k as int, byte as int, self.lookup@, self.columns());
                lemma_next_byte(data as int, k as int);
                assert(sum(k + 1, term) == sum(k as int, term).plus(term(k as int)));
            }
            r = r.add(self.lookup[k][byte]);
            rest = rest / 256;
            k = k + 1;
        }
        proof {
            let f = |b: int| select(Word(data).bit(b), self.columns()[b]);
            lemma_sum_blocks(8, 8, f);
            let blocks = |b: int| sum(8, |j: int| f(b * 8 + j));
            assert forall|b: int| 0 <= b < 8 implies #[trigger] blocks(b) == term(b) by {
                lemma_sum_ext(
                    8,
                    |j: int| f(b * 8 + j),
                    |j: int| select(bit64(data, 8 * b + j), self.columns()[8 * b + j]),
                );
            }
            lemma_sum_ext(8, blocks, term);
        }
        r
    }
}

/// The part of a word's fold that one byte contributes.
spec fn word_byte_fold<F: FieldOps>(data: u64, cols: Seq<F>, k: int) -> F {
    sum(8, |j: int| select(bit64(data, 8 * k + j), cols[8 * k + j]))
}

/// A byte's table entry is that byte's part of the fold.
proof fn lemma_byte_lookup<F: FieldOps>(
    data: u64,
    k: int,
    byte: int,
    tables: Seq<[F; 256]>,
    cols: Seq<F>,
)
    requires
        0 <= k < 8,
        tables.len() == 8,
        tables_wf(tables),
        cols == Seq::new(64, |b: int| table_term(tables, b)),
        byte == (data as int / pow2((8 * k) as nat) as int) % 256,
    ensures
        0 <= byte < 256,
        tables[k][byte] == word_byte_fold(data, cols, k),
{
    let f = |t: int| select(index_bit(byte, t), table_terms(tables, k)[t]);
    let g = |j: int| select(bit64(data, 8 * k + j), cols[8 * k + j]);
    lemma2_to64();
    let shifted = data as int / pow2((8 * k) as nat) as int;
    lemma_pow2_pos((8 * k) as nat);
    lemma_split_index(shifted, 256);
    vstd::arithmetic::div_mod::lemma_div_pos_is_pos(data as int, pow2((8 * k) as nat) as int);
    assert forall|t: int| 0 <= t < 8 implies #[trigger] f(t) == g(t) by {
        lemma_bit64_is_index_bit(data, 8 * k + t);
        lemma_index_bit_shift(data as int, 8 * k, t);
        lemma_index_bit_low(shifted / 256, byte, 8, t);
    }
    lemma_sum_ext(8, f, g);
}

/// Dropping one more byte of a number.
proof fn lemma_next_byte(x: int, k: int)
    requires
        0 <= x,
        0 <= k,
    ensures
        (x / pow2((8 * k) as nat) as int) / 256 == x / pow2((8 * (k + 1)) as nat) as int,
{
    lemma2_to64();
    lemma_pow2_pos((8 * k) as nat);
    lemma_pow2_split((8 * k) as nat, (8 * (k + 1)) as nat);
    vstd::arithmetic::div_mod::lemma_div_denominator(x, pow2((8 * k) as nat) as int, 256);
}

/// Creates word transformations.
pub struct WordBytewiseLookupTransformationFactory;

impl WordBytewiseLookupTransformationFactory {
    /// The transformation that folds against the given 64 scalars.
    pub fn create<F: FieldOps>(&self, cols: &[F]) -> (r: WordBytewiseLookupTransformation<F>)
        requires
            cols.len() == 64,
        ensures
            r.wf(),
            r.columns() == cols@,
    {
        WordBytewiseLookupTransformation::new(cols)
    }
}

/// A list that fits in memory can be padded to a power of two.
pub proof fn lemma_padded_len(n: nat, k: nat)
    requires
        n <= isize::MAX,
        is_log2_ceil(n, k),
    ensures
        pow2(k) <= usize::MAX,
{
    lemma2_to64();
    vstd::layout::unsigned_int_max_values();
    vstd::layout::signed_int_min_max_values();
    if k > 0 {
        lemma_pow2_unfold(k);
    }
}

/// A reusable fold over a fixed vector of bit scalars.
pub struct BitAxisFolder<F> {
    pub transform: WordBytewiseLookupTransformation<F>,
}

impl<F: FieldOps> BitAxisFolder<F> {
    /// The tables are subset sums.
    pub open spec fn wf(&self) -> bool {
        self.transform.wf()
    }

    /// The scalars the bits are folded against.
    pub open spec fn columns(&self) -> Seq<F> {
        self.transform.columns()
    }

    /// Builds the tables for 64 scalars.
    pub fn new(vec: &[F]) -> (r: Self)
        requires
            vec.len() == 64,
        ensures
            r.wf(),
            r.columns() == vec@,
    {
        BitAxisFolder { transform: WordBytewiseLookupTransformationFactory.create(vec) }
    }

    /// Folds a list of words to a buffer, one scalar per word.
    ///
    /// The list is padded with zero words to a power of two.
    pub fn fold<P: PackedField<Scalar = F>>(&self, words: &[Word]) -> (r: FieldBuffer<P>)
        requires
            self.wf(),
            words.len() <= isize::MAX,
        ensures
            r.wf(),
            is_log2_ceil(words.len() as nat, r.log_len as nat),
            r.scalars() == folded_words(words@, self.columns(), r.log_len as nat),
    {
        let log_n = log2_ceil_usize(words.len());
        proof {
            lemma_padded_len(words.len() as nat, log_n as nat);
        }
        let mut r = FieldBuffer::<P>::zeros(log_n);
        let mut i: usize = 0;
        let ghost goal = folded_words(words@, self.columns(), log_n as nat);
        while i < words.len()
            invariant
                i <= words.len(),
                self.wf(),
                r.wf(),
                r.log_len == log_n,
                words.len() <= pow2(log_n as nat),
                goal == folded_words(words@, self.columns(), log_n as nat),
                forall|j: int|
                    0 <= j < pow2(log_n as nat) ==> #[trigger] r.scalars()[j] == if j < i {
                        goal[j]
                    } else {
                        F::nil()
                    },
            decreases words.len() - i,
        {
            let ghost before = r.scalars();
            r.set(i, self.transform.transform(words[i].0));
            proof {
                assert forall|j: int| 0 <= j < pow2(log_n as nat) implies #[trigger] r.scalars()[j]
                    == (if j < i + 1 {
                    goal[j]
                } else {
                    F::nil()
                }) by {
                    if j != i {
                        assert(r.scalars()[j] == before[j]);
                    }
                }
            }
            i = i + 1;
        }
        assert(r.scalars() =~= goal);
        r
    }

    /// Folds two lists of words and their conjunction in one pass.
    pub fn fold_bitand_operands<P: PackedField<Scalar = F>>(
        &self,
        a_words: &[Word],
        b_words: &[Word],
    ) -> (r: [FieldBuffer<P>; 3])
        requires
            self.wf(),
            a_words.len() == b_words.len(),
            a_words.len() <= isize::MAX,
        ensures
            forall|k: int|
                0 <= k < 3 ==> (#[trigger] r[k]).wf() && is_log2_ceil(
                    a_words.len() as nat,
                    r[k].log_len as nat,
                ),
            r[0].scalars() == folded_words(a_words@, self.columns(), r[0].log_len as nat),
            r[1].scalars() == folded_words(b_words@, self.columns(), r[1].log_len as nat),
            r[2].scalars() == folded_words(
                and_words(a_words@, b_words@),
                self.columns(),
                r[2].log_len as nat,
            ),
    {
        let log_n = log2_ceil_usize(a_words.len());
        proof {
            lemma_padded_len(a_words.len() as nat, log_n as nat);
        }
        let mut a = FieldBuffer::<P>::zeros(log_n);
        let mut b = FieldBuffer::<P>::zeros(log_n);
        let mut c = FieldBuffer::<P>::zeros(log_n);
        let ghost n = pow2(log_n as nat) as int;
        let ghost ga = folded_words(a_words@, self.columns(), log_n as nat);
        let ghost gb = folded_words(b_words@, self.columns(), log_n as nat);
        let ghost gc = folded_words(and_words(a_words@, b_words@), self.columns(), log_n as nat);
        let mut i: usize = 0;
        while i < a_words.len()
            invariant
                i <= a_words.len(),
                a_words.len() == b_words.len(),
                self.wf(),
                a.wf() && b.wf() && c.wf(),
                a.log_len == log_n && b.log_len == log_n && c.log_len == log_n,
                n == pow2(log_n as nat),
                a_words.len() <= n,
                ga == folded_words(a_words@, self.columns(), log_n as nat),
                gb == folded_words(b_words@, self.columns(), log_n as nat),
                gc == folded_words(and_words(a_words@, b_words@), self.columns(), log_n as nat),
                forall|j: int|
                    0 <= j < n ==> #[trigger] a.scalars()[j] == if j < i {
                        ga[j]
                    } else {
                        F::nil()
                    },
                forall|j: int|
                    0 <= j < n ==> #[trigger] b.scalars()[j] == if j < i {
                        gb[j]
                    } else {
                        F::nil()
                    },
                forall|j: int|
                    0 <= j < n ==> #[trigger] c.scalars()[j] == if j < i {
                        gc[j]
                    } else {
                        F::nil()
                    },
            decreases a_words.len() - i,
        {
            let ghost (sa, sb, sc) = (a.scalars(), b.scalars(), c.scalars());
            a.set(i, self.transform.transform(a_words[i].0));
            b.set(i, self.transform.transform(b_words[i].0));
            // The third column is derived from the two words in hand.
            c.set(i, self.transform.transform(a_words[i].and(b_words[i]).0));
            proof {
                assert forall|j: int| 0 <= j < n && j != i implies a.scalars()[j] == sa[j]
                    && b.scalars()[j] == sb[j] && #[trigger] c.scalars()[j] == sc[j] by {}
                assert forall|j: int| 0 <= j < n implies #[trigger] a.scalars()[j] == (if j < i
                    + 1 {
                    ga[j]
                } else {
                    F::nil()
                }) by {
                    if j != i {
                        assert(a.scalars()[j] == sa[j]);
                    }
                }
                assert forall|j: int| 0 <= j < n implies #[trigger] b.scalars()[j] == (if j < i
                    + 1 {
                    gb[j]
                } else {
                    F::nil()
                }) by {
                    if j != i {
                        assert(b.scalars()[j] == sb[j]);
                    }
                }
            }
            i = i + 1;
        }
        assert(a.scalars() =~= ga);
        assert(b.scalars() =~= gb);
        assert(c.scalars() =~= gc);
        [a, b, c]
    }
}

/// Folds every word's bits against 64 scalars.
pub fn fold_words<F: FieldOps, P: PackedField<Scalar = F>>(words: &[Word], vec: &[F]) -> (r:
    FieldBuffer<P>)
    requires
        vec.len() == 64,
        words.len() <= isize::MAX,
    ensures
        r.wf(),
        is_log2_ceil(words.len() as nat, r.log_len as nat),
        r.scalars() == folded_words(words@, vec@, r.log_len as nat),
{
    BitAxisFolder::new(vec).fold(words)
}

/// Folds a list of words along both axes: bits against `index_scalars`, words against the rows.
pub fn fold_words_both_axes<F: FieldOps, P: PackedField<Scalar = F>>(
    words: &[Word],
    index_scalars: &[F],
    row_scalars: &FieldBuffer<P>,
) -> (r: F)
    requires
        index_scalars.len() == 64,
        row_scalars.wf(),
        words.len() <= row_scalars.scalars().len(),
    ensures
        r == sum(
            words.len() as int,
            |i: int| word_fold(words[i], index_scalars@).times(row_scalars.scalars()[i]),
        ),
{
    let transform = WordBytewiseLookupTransformation::new(index_scalars);
    let ghost term = |i: int|
        word_fold(words[i], index_scalars@).times(row_scalars.scalars()[i]);
    // The products are summed unreduced.
    let mut wide = F::wide_zero();
    let mut i: usize = 0;
    while i < words.len()
        invariant
            i <= words.len(),
            transform.wf(),
            transform.columns() == index_scalars@,
            row_scalars.wf(),
            words.len() <= row_scalars.scalars().len(),
            term == (|i: int|
                word_fold(words[i], index_scalars@).times(row_scalars.scalars()[i])),
            F::wide_value(wide) == sum(i as int, term),
        decreases words.len() - i,
    {
        let folded = transform.transform(words[i].0);
        let product = F::wide_mul(folded, row_scalars.get(i));
        wide = F::wide_add(wide, product);
        i = i + 1;
    }
    F::reduce(wide)
}

/// The byte made of one column's bits in eight rows.
pub open spec fn column_byte<PB: Divisible<Scalar = BinaryField1b>>(
    rows: Seq<PB>,
    column: int,
) -> int {
    bits_value(|t: int| rows[t].lanes()[column].0, 8)
}

/// Folds one group of eight rows into a column accumulator.
///
/// Transposing the group makes byte `i` of element `j` carry the eight rows' bits at column
/// `8 i + j`, which indexes that column's contribution in the table.
pub fn fold_row_group<F: FieldOps, PB: PackedField<Scalar = BinaryField1b>, const N_TABLES: usize>(
    rows: &[PB; 8],
    table: &[F; 256],
    acc: &mut [[F; 8]; N_TABLES],
)
    requires
        PB::WIDTH == 8 * N_TABLES,
    ensures
        forall|i: int, j: int|
            0 <= i < N_TABLES && 0 <= j < 8 ==> #[trigger] final(acc)[i][j] == old(acc)[i][j].plus(table[column_byte(rows@, 8 * i + j)]),
{
    let ghost before = *acc;
    let mut group: [PB; 8] = *rows;
    proof {
        lemma2_to64();
        PB::width_is_power();
        // A byte of lanes exists, so the width is at least eight.
        if PB::LOG_WIDTH < 3 {
            lemma_pow2_split((PB::LOG_WIDTH + 1) as nat, 3);
            lemma_pow2_unfold((PB::LOG_WIDTH + 1) as nat);
            assert(PB::WIDTH >= 8);
            assert(false);
        }
        assert(8 == pow2(3));
    }
    square_transpose_const_size::<PB, 3, 8>(&mut group);
    proof {
        assert forall|j: int, i: int, t: int|
            0 <= i < N_TABLES && 0 <= j < 8 && 0 <= t < 8 implies #[trigger] group_bit(
            group@,
            j,
            8 * i + t,
        ) == rows@[t].lanes()[8 * i + j].0 by {
            assert(lane(group@, j, 8 * i + t) == lane(
                rows@,
                exchanged_elem(j, 8 * i + t, 1, 8),
                exchanged_pos(j, 8 * i + t, 1, 8),
            ));
            assert((8 * i + t) % 8 == t && (j / 1) % 8 == j);
            assert(exchanged_elem(j, 8 * i + t, 1, 8) == t);
            assert(exchanged_pos(j, 8 * i + t, 1, 8) == 8 * i + j);
        }
    }
    let mut i: usize = 0;
    while i < N_TABLES
        invariant
            i <= N_TABLES,
            PB::WIDTH == 8 * N_TABLES,
            pow2(8) == 256,
            forall|j: int, x: int, t: int|
                0 <= x < N_TABLES && 0 <= j < 8 && 0 <= t < 8 ==> #[trigger] group_bit(
                    group@,
                    j,
                    8 * x + t,
                ) == rows@[t].lanes()[8 * x + j].0,
            forall|x: int, j: int|
                0 <= x < N_TABLES && 0 <= j < 8 ==> #[trigger] acc[x][j] == if x < i {
                    before[x][j].plus(table[column_byte(rows@, 8 * x + j)])
                } else {
                    before[x][j]
                },
        decreases N_TABLES - i,
    {
        let ghost start = *acc;
        let mut row: [F; 8] = acc[i];
        let mut j: usize = 0;
        while j < 8
            invariant
                i < N_TABLES,
                j <= 8,
                PB::WIDTH == 8 * N_TABLES,
                pow2(8) == 256,
                forall|j: int, x: int, t: int|
                    0 <= x < N_TABLES && 0 <= j < 8 && 0 <= t < 8 ==> #[trigger] group_bit(
                        group@,
                        j,
                        8 * x + t,
                    ) == rows@[t].lanes()[8 * x + j].0,
                forall|l: int|
                    0 <= l < 8 ==> #[trigger] row[l] == if l < j {
                        start[i as int][l].plus(table[column_byte(rows@, 8 * i + l)])
                    } else {
                        start[i as int][l]
                    },
            decreases 8 - j,
        {
            let byte = packed_byte(&group[j], i);
            proof {
                let f = |t: int| group[j as int].lanes()[8 * i + t].0;
                let g = |t: int| rows@[t].lanes()[8 * i + j].0;
                assert forall|t: int| 0 <= t < 8 implies #[trigger] f(t) == g(t) by {
                    assert(group_bit(group@, j as int, 8 * i + t) == g(t));
                }
                lemma_bits_value_ext(f, g, 8);
                lemma_bits_value(g, 8);
            }
            row[j] = row[j].add(table[byte]);
            j = j + 1;
        }
        acc[i] = row;
        proof {
            assert forall|x: int, j: int| 0 <= x < N_TABLES && 0 <= j < 8 implies #[trigger] acc[x][j]
                == (if x < i + 1 {
                before[x][j].plus(table[column_byte(rows@, 8 * x + j)])
            } else {
                before[x][j]
            }) by {
                if x != i {
                    assert(acc[x] == start[x]);
                    assert(start[x][j] == if x < i {
                        before[x][j].plus(table[column_byte(rows@, 8 * x + j)])
                    } else {
                        before[x][j]
                    });
                } else {
                    assert(acc[x] == row);
                    assert(start[x][j] == before[x][j]);
                }
            }
        }
        i = i + 1;
    }
}

/// One bit of one row.
spec fn group_bit<PB: Divisible<Scalar = BinaryField1b>>(rows: Seq<PB>, j: int, p: int) -> bool {
    rows[j].lanes()[p].0
}

/// Numbers made from the same bits are equal.
proof fn lemma_bits_value_ext(f: spec_fn(int) -> bool, g: spec_fn(int) -> bool, n: int)
    requires
        forall|j: int| 0 <= j < n ==> #[trigger] f(j) == g(j),
    ensures
        bits_value(f, n) == bits_value(g, n),
    decreases n,
{
    if n > 0 {
        lemma_bits_value_ext(f, g, n - 1);
        assert(f(n - 1) == g(n - 1));
    }
}

/// Byte `i` of a row of bits.
fn packed_byte<PB: PackedField<Scalar = BinaryField1b>>(row: &PB, i: usize) -> (r: usize)
    requires
        8 * i + 8 <= PB::WIDTH,
    ensures
        r == bits_value(|t: int| row.lanes()[8 * i + t].0, 8),
        r < 256,
{
    let ghost f = |t: int| row.lanes()[8 * i + t].0;
    let mut r: usize = 0;
    let mut weight: usize = 1;
    let mut t: usize = 0;
    proof {
        PB::width_is_power();
        lemma2_to64();
    }
    while t < 8
        invariant
            t <= 8,
            8 * i + 8 <= PB::WIDTH,
            PB::WIDTH <= 512,
            pow2(8) == 256,
            weight == pow2(t as nat),
            f == (|t: int| row.lanes()[8 * i + t].0),
            r == bits_value(f, t as int),
            r < weight,
            weight <= 256,
        decreases 8 - t,
    {
        proof {
            lemma_pow2_unfold((t + 1) as nat);
            lemma_pow2_split((t + 1) as nat, 8);
        }
        if row.get(8 * i + t).0 {
            r = r + weight;
        }
        weight = 2 * weight;
        t = t + 1;
    }
    r
}

/// The bits of a word as a vector of single bits.
pub fn word_to_packed(word: u64) -> (r: PackedBinaryField64x1b)
    ensures
        forall|i: int| 0 <= i < 64 ==> #[trigger] r.lanes()[i] == BinaryField1b(bit64(word, i)),
{
    let mut r = <PackedBinaryField64x1b as Divisible>::zero_packed();
    let mut i: usize = 0;
    while i < 64
        invariant
            i <= 64,
            forall|j: int|
                0 <= j < i ==> #[trigger] r.lanes()[j] == BinaryField1b(bit64(word, j)),
        decreases 64 - i,
    {
        let ghost before = r.lanes();
        proof {
            lemma_width_of_words(r);
        }
        r.set(i, BinaryField1b((word >> (i as u64)) & 1 == 1));
        proof {
            assert forall|j: int| 0 <= j < i + 1 implies #[trigger] r.lanes()[j] == BinaryField1b(
                bit64(word, j),
            ) by {
                if j < i {
                    assert(r.lanes()[j] == before[j]);
                }
            }
        }
        i = i + 1;
    }
    r
}

/// A word has 64 single bits.
proof fn lemma_width_of_words(row: PackedBinaryField64x1b)
    ensures
        <PackedBinaryField64x1b as Divisible>::WIDTH == 64,
{
    row.lanes_len();
    assert(row.lanes() == row.values@);
}

/// Groups 64 consecutive words into eight groups of eight.
///
/// Calls `bytemuck::must_cast`, which reinterprets the bytes of one plain type as another of the
/// same size.
/// Arrays lie in memory element after element, so word `8 i + j` becomes word `j` of group `i`.
#[verifier::external_body]
fn group_words(chunk: [u64; 64]) -> (r: [[u64; 8]; 8])
    ensures
        forall|i: int, j: int| 0 <= i < 8 && 0 <= j < 8 ==> #[trigger] r[i][j] == chunk[8 * i + j],
{
    bytemuck::must_cast::<[u64; 64], [[u64; 8]; 8]>(chunk)
}

/// The contribution of a chunk of 64 words to bit position `b`, before scaling.
pub open spec fn chunk_column<F: FieldOps>(
    chunk: Seq<Word>,
    tables: Seq<[F; 256]>,
    b: int,
) -> F {
    sum(8, |g: int| tables[g][bits_value(|t: int| chunk[8 * g + t].bit(b), 8)])
}

/// Folds one chunk of words into an accumulator, scaled by the chunk's weight.
fn accumulate_word_chunk<F: FieldOps>(
    chunk: &[Word; 64],
    tables: &[[F; 256]; 8],
    weight: F,
    acc: &mut [F; 64],
)
    ensures
        forall|b: int|
            0 <= b < 64 ==> #[trigger] final(acc)[b] == old(acc)[b].plus(
                chunk_column(chunk@, tables@, b).times(weight),
            ),
{
    let ghost before = *acc;
    let mut raw: [u64; 64] = [0u64; 64];
    let mut i: usize = 0;
    while i < 64
        invariant
            i <= 64,
            forall|j: int| 0 <= j < i ==> #[trigger] raw[j] == chunk[j].0,
        decreases 64 - i,
    {
        raw[i] = chunk[i].0;
        i = i + 1;
    }
    let groups = group_words(raw);
    let zero_row: [F; 8] = [F::zero(); 8];
    let mut columns: [[F; 8]; 8] = [zero_row; 8];
    let ghost term = |b: int|
        |g: int| tables[g][bits_value(|t: int| chunk[8 * g + t].bit(b), 8)];
    let mut g: usize = 0;
    while g < 8
        invariant
            g <= 8,
            forall|j: int| 0 <= j < 64 ==> #[trigger] raw[j] == chunk[j].0,
            forall|i: int, j: int|
                0 <= i < 8 && 0 <= j < 8 ==> #[trigger] groups[i][j] == raw[8 * i + j],
            term == (|b: int| |g: int| tables[g][bits_value(|t: int| chunk[8 * g + t].bit(b), 8)]),
            forall|i: int, j: int|
                0 <= i < 8 && 0 <= j < 8 ==> #[trigger] columns[i][j] == sum(
                    g as int,
                    term(8 * i + j),
                ),
        decreases 8 - g,
    {
        let words = groups[g];
        let empty = word_to_packed(0);
        let mut rows: [PackedBinaryField64x1b; 8] = [empty; 8];
        let mut t: usize = 0;
        while t < 8
            invariant
                g < 8,
                t <= 8,
                words == groups[g as int],
                forall|j: int| 0 <= j < 64 ==> #[trigger] raw[j] == chunk[j].0,
                forall|i: int, j: int|
                    0 <= i < 8 && 0 <= j < 8 ==> #[trigger] groups[i][j] == raw[8 * i + j],
                forall|l: int, p: int|
                    0 <= l < t && 0 <= p < 64 ==> #[trigger] lane(rows@, l, p) == BinaryField1b(
                        chunk[8 * g + l].bit(p),
                    ),
            decreases 8 - t,
        {
            let ghost current = rows@;
            rows[t] = word_to_packed(words[t]);
            proof {
                assert(groups[g as int][t as int] == raw[8 * g + t]);
                assert forall|l: int, p: int| 0 <= l < t + 1 && 0 <= p < 64 implies #[trigger] lane(
                    rows@,
                    l,
                    p,
                ) == BinaryField1b(chunk[8 * g + l].bit(p)) by {
                    if l < t {
                        assert(rows@[l] == current[l]);
                        assert(lane(current, l, p) == BinaryField1b(chunk[8 * g + l].bit(p)));
                    }
                }
            }
            t = t + 1;
        }
        let ghost start = columns;
        proof {
            lemma_width_of_words(empty);
        }
        fold_row_group::<F, PackedBinaryField64x1b, 8>(&rows, &tables[g], &mut columns);
        proof {
            assert forall|i: int, j: int| 0 <= i < 8 && 0 <= j < 8 implies #[trigger] columns[i][j]
                == sum(g + 1, term(8 * i + j)) by {
                let b = 8 * i + j;
                let f = |t: int| rows@[t].lanes()[b].0;
                let h = |t: int| chunk[8 * g + t].bit(b);
                assert forall|t: int| 0 <= t < 8 implies #[trigger] f(t) == h(t) by {
                    assert(lane(rows@, t, b) == BinaryField1b(chunk[8 * g + t].bit(b)));
                }
                lemma_bits_value_ext(f, h, 8);
                assert(start[i][j] == sum(g as int, term(b)));
                assert(sum(g + 1, term(b)) == sum(g as int, term(b)).plus(term(b)(g as int)));
            }
        }
        g = g + 1;
    }
    // Scale once per column.
    let mut b: usize = 0;
    while b < 64
        invariant
            b <= 64,
            term == (|b: int| |g: int| tables[g][bits_value(|t: int| chunk[8 * g + t].bit(b), 8)]),
            forall|i: int, j: int|
                0 <= i < 8 && 0 <= j < 8 ==> #[trigger] columns[i][j] == sum(8, term(8 * i + j)),
            forall|x: int|
                0 <= x < 64 ==> #[trigger] acc[x] == if x < b {
                    before[x].plus(chunk_column(chunk@, tables@, x).times(weight))
                } else {
                    before[x]
                },
        decreases 64 - b,
    {
        let row = columns[b / 8];
        let column = row[b % 8];
        proof {
            let bi = b as int;
            assert(columns[bi / 8][bi % 8] == sum(8, term(8 * (bi / 8) + bi % 8)));
            assert(8 * (bi / 8) + bi % 8 == bi);
            let f = |g: int| tables@[g][bits_value(|t: int| chunk@[8 * g + t].bit(bi), 8)];
            lemma_sum_ext(8, term(bi), f);
        }
        acc[b] = acc[b].add(column.mul(weight));
        b = b + 1;
    }
}

/// A chunk's column as a sum over its words.
proof fn lemma_chunk_column<F: FieldOps>(chunk: Seq<Word>, tables: Seq<[F; 256]>, b: int)
    requires
        tables.len() == 8,
        tables_wf(tables),
    ensures
        chunk_column(chunk, tables, b) == sum(
            64,
            |r: int| select(chunk[r].bit(b), table_term(tables, r)),
        ),
{
    let f = |r: int| select(chunk[r].bit(b), table_term(tables, r));
    lemma_sum_blocks(8, 8, f);
    let blocks = |g: int| sum(8, |j: int| f(g * 8 + j));
    let cols = |g: int| tables[g][bits_value(|t: int| chunk[8 * g + t].bit(b), 8)];
    lemma2_to64();
    assert forall|g: int| 0 <= g < 8 implies #[trigger] cols(g) == blocks(g) by {
        let bits = |t: int| chunk[8 * g + t].bit(b);
        lemma_bits_value(bits, 8);
        let v = bits_value(bits, 8);
        assert(tables[g][v] == subset_sum(table_terms(tables, g), 8, v));
        let x = |t: int| select(index_bit(v, t), table_terms(tables, g)[t]);
        let y = |j: int| f(g * 8 + j);
        assert forall|t: int| 0 <= t < 8 implies #[trigger] x(t) == y(t) by {
            assert(index_bit(v, t) == bits(t));
        }
        lemma_sum_ext(8, x, y);
    }
    lemma_sum_ext(8, cols, blocks);
}

/// A reusable fold over a fixed evaluation point, one weight per word.
pub struct WordFolder<F> {
    /// Subset-sum tables of the weights within a chunk.
    pub lookups: [[F; 256]; 8],
    /// One weight per chunk.
    pub suffix_weights: Vec<F>,
    /// The number of words the point gives a weight to.
    pub n_words: usize,
}

/// Bit position `b` of a list of words, folded against a weight per word.
pub open spec fn folded_position<F: FieldOps>(
    words: Seq<Word>,
    weight: spec_fn(int) -> F,
    b: int,
) -> F {
    sum(words.len() as int, |i: int| select(words[i].bit(b), weight(i)))
}

impl<F: FieldOps> WordFolder<F> {
    /// The tables are subset sums, and every word has a chunk weight.
    pub open spec fn wf(&self) -> bool {
        &&& tables_wf(self.lookups@)
        &&& self.n_words <= 64 * self.suffix_weights.len()
    }

    /// The weight of word `i`.
    pub open spec fn weight(&self, i: int) -> F {
        table_term(self.lookups@, i % 64).times(self.suffix_weights[i / 64])
    }

    /// Builds the tables for an evaluation point.
    pub fn new(point: &[F]) -> (r: Self)
        requires
            pow2(point.len() as nat) <= usize::MAX,
        ensures
            r.wf(),
            r.n_words == pow2(point.len() as nat),
            forall|i: int|
                0 <= i < pow2(point.len() as nat) ==> #[trigger] r.weight(i) == eq_ind(point@, i),
    {
        let prefix_len: usize = if point.len() < LOG_CHUNK_SIZE {
            point.len()
        } else {
            LOG_CHUNK_SIZE
        };
        proof {
            lemma_pow2_split(prefix_len as nat, point.len() as nat);
            lemma_pow2_split((point.len() - prefix_len) as nat, point.len() as nat);
            lemma2_to64();
        }
        let (prefix, suffix) = point.split_at(prefix_len);
        let prefix_expansion = eq_ind_partial_eval_scalars(prefix);
        let lookups = row_fold_tables::<F, 8>(&prefix_expansion);
        let suffix_weights = eq_ind_partial_eval_scalars(suffix);
        let n_words = pow2_usize(point.len());
        let r = WordFolder { lookups, suffix_weights, n_words };
        proof {
            let n = point.len() as int;
            let k = prefix_len as int;
            lemma_pow2_pos(k as nat);
            assert(suffix@ =~= point@.skip(k));
            lemma_pow2_split(k as nat, 6);
            assert forall|i: int| 0 <= i < pow2(n as nat) implies #[trigger] r.weight(i)
                == eq_ind(point@, i) by {
                // Within a short point there is a single chunk.
                let p = pow2(k as nat) as int;
                let m = pow2((n - k) as nat) as int;
                assert(p * m == m * p) by (nonlinear_arith);
                lemma_block_bound(i, m, p);
                lemma_split_index(i, p);
                lemma_split_index(i, 64);
                if k < 6 {
                    assert(m == 1);
                    lemma_div_mod(0, 64, i);
                    lemma_div_mod(0, p, i);
                }
                assert(i % 64 == i % p && i / 64 == i / p);
                assert(table_term(lookups@, i % p) == padded_at(prefix_expansion@, i % p));
                eq_splits(point@, k, n - k, i);
                lemma_eq_low(point@, k, k, i / p, i % p);
                lemma_eq_prefix(prefix@, point@, k, i % p);
                assert(suffix_weights[i / p] == eq_ind(suffix@, i / p));
            }
            let m = pow2((n - k) as nat) as int;
            assert(pow2(n as nat) <= 64 * m) by {
                let p = pow2(k as nat) as int;
                assert(p * m <= 64 * m) by (nonlinear_arith)
                    requires
                        p <= 64,
                        m >= 0,
                ;
            }
        }
        r
    }

    /// Folds one list of words against the point, bit position by bit position.
    ///
    /// A list shorter than the point allows is folded as if it ended in zero words.
    pub fn fold(&self, words: &[Word]) -> (r: [F; 64])
        requires
            self.wf(),
            words.len() <= self.n_words,
        ensures
            forall|b: int|
                0 <= b < 64 ==> #[trigger] r[b] == folded_position(
                    words@,
                    |i: int| self.weight(i),
                    b,
                ),
    {
        let mut folded: [F; 64] = [F::zero(); 64];
        let n_chunks: usize = words.len() / 64;
        let mut c: usize = 0;
        while c < n_chunks
            invariant
                c <= n_chunks,
                n_chunks == words.len() / 64,
                self.wf(),
                words.len() <= self.n_words,
                forall|b: int|
                    0 <= b < 64 ==> #[trigger] folded[b] == sum(
                        64 * c,
                        |i: int| select(words@[i].bit(b), self.weight(i)),
                    ),
            decreases n_chunks - c,
        {
            let chunk = chunk_at(words, c);
            let ghost before = folded;
            accumulate_word_chunk(&chunk, &self.lookups, self.suffix_weights[c], &mut folded);
            proof {
                assert forall|b: int| 0 <= b < 64 implies #[trigger] folded[b] == sum(
                    64 * (c + 1),
                    |i: int| select(words@[i].bit(b), self.weight(i)),
                ) by {
                    assert(before[b] == sum(
                        64 * c,
                        |i: int| select(words@[i].bit(b), self.weight(i)),
                    ));
                    self.lemma_chunk(words@, chunk@, c as int, b, 64 * (c + 1));
                }
            }
            c = c + 1;
        }
        if n_chunks * 64 < words.len() {
            let chunk = chunk_at(words, n_chunks);
            let ghost before = folded;
            accumulate_word_chunk(
                &chunk,
                &self.lookups,
                self.suffix_weights[n_chunks],
                &mut folded,
            );
            proof {
                assert forall|b: int| 0 <= b < 64 implies #[trigger] folded[b] == sum(
                    words.len() as int,
                    |i: int| select(words@[i].bit(b), self.weight(i)),
                ) by {
                    assert(before[b] == sum(
                        64 * n_chunks,
                        |i: int| select(words@[i].bit(b), self.weight(i)),
                    ));
                    self.lemma_chunk(words@, chunk@, n_chunks as int, b, words.len() as int);
                }
            }
        }
        proof {
            assert forall|b: int| 0 <= b < 64 implies #[trigger] folded[b] == folded_position(
                words@,
                |i: int| self.weight(i),
                b,
            ) by {
                let weight = |i: int| self.weight(i);
                lemma_sum_ext(
                    words.len() as int,
                    |i: int| select(words@[i].bit(b), self.weight(i)),
                    |i: int| select(words@[i].bit(b), weight(i)),
                );
            }
        }
        folded
    }

    /// One more chunk of the fold.
    proof fn lemma_chunk(&self, words: Seq<Word>, chunk: Seq<Word>, c: int, b: int, end: int)
        requires
            self.wf(),
            0 <= c,
            64 * c <= end <= 64 * (c + 1),
            end <= words.len(),
            end == 64 * (c + 1) || end == words.len(),
            chunk.len() == 64,
            forall|r: int|
                0 <= r < 64 ==> #[trigger] chunk[r] == if 64 * c + r < words.len() {
                    words[64 * c + r]
                } else {
                    Word(0)
                },
        ensures
            sum(end, |i: int| select(words[i].bit(b), self.weight(i))) == sum(
                64 * c,
                |i: int| select(words[i].bit(b), self.weight(i)),
            ).plus(chunk_column(chunk, self.lookups@, b).times(self.suffix_weights[c])),
    {
        let f = |i: int| select(words[i].bit(b), self.weight(i));
        let s = self.suffix_weights[c];
        lemma_sum_split(64 * c, end - 64 * c, f);
        let tail = |r: int| f(64 * c + r);
        lemma_chunk_column(chunk, self.lookups@, b);
        let g = |r: int| select(chunk[r].bit(b), table_term(self.lookups@, r));
        lemma_sum_scale(64, s, g);
        let h = |r: int| g(r).times(s);
        assert forall|r: int| end - 64 * c <= r < 64 implies #[trigger] h(r) == F::nil() by {
            lemma_zero_word(b);
            lemma_times_nil(s);
        }
        lemma_sum_prefix(end - 64 * c, 64, h);
        assert forall|r: int| 0 <= r < end - 64 * c implies #[trigger] tail(r) == h(r) by {
            lemma_times_nil(s);
            assert((64 * c + r) % 64 == r && (64 * c + r) / 64 == c);
        }
        lemma_sum_ext(end - 64 * c, tail, h);
    }
}

/// Chunk `c` of a list of words, completed with zero words.
fn chunk_at(words: &[Word], c: usize) -> (r: [Word; 64])
    requires
        64 * c <= words.len(),
    ensures
        forall|k: int|
            0 <= k < 64 ==> #[trigger] r[k] == if 64 * c + k < words.len() {
                words[64 * c + k]
            } else {
                Word(0)
            },
{
    let mut r: [Word; 64] = [Word::zero(); 64];
    let mut k: usize = 0;
    while k < 64 && k < words.len() - 64 * c
        invariant
            k <= 64,
            64 * c + k <= words.len(),
            forall|j: int|
                0 <= j < 64 ==> #[trigger] r[j] == if j < k {
                    words[64 * c + j]
                } else {
                    Word(0)
                },
        decreases 64 - k,
    {
        r[k] = words[64 * c + k];
        k = k + 1;
    }
    r
}

/// Folds a list of words against an evaluation point, bit position by bit position.
///
/// Entry `b` is the sum over the words of the equality indicator where bit `b` is set.
pub fn fold_across_words<F: FieldOps>(words: &[Word], point: &[F]) -> (r: [F; 64])
    requires
        pow2(point.len() as nat) <= usize::MAX,
        words.len() <= pow2(point.len() as nat),
    ensures
        forall|b: int|
            0 <= b < 64 ==> #[trigger] r[b] == folded_position(
                words@,
                |i: int| eq_ind(point@, i),
                b,
            ),
{
    let folder = WordFolder::new(point);
    let r = folder.fold(words);
    proof {
        assert forall|b: int| 0 <= b < 64 implies #[trigger] r[b] == folded_position(
            words@,
            |i: int| eq_ind(point@, i),
            b,
        ) by {
            let f = |i: int| select(words@[i].bit(b), (|i: int| folder.weight(i))(i));
            let g = |i: int| select(words@[i].bit(b), (|i: int| eq_ind(point@, i))(i));
            assert forall|i: int| 0 <= i < words.len() implies #[trigger] f(i) == g(i) by {
                assert(folder.weight(i) == eq_ind(point@, i));
            }
            lemma_sum_ext(words.len() as int, f, g);
        }
    }
    r
}

/// A list folds as if it were padded with zero words.
pub proof fn short_list_folds_as_padded<F: FieldOps>(
    words: Seq<Word>,
    padded: Seq<Word>,
    weight: spec_fn(int) -> F,
    b: int,
)
    requires
        words.len() <= padded.len(),
        forall|i: int|
            0 <= i < padded.len() ==> #[trigger] padded[i] == if i < words.len() {
                words[i]
            } else {
                Word(0)
            },
    ensures
        folded_position(words, weight, b) == folded_position(padded, weight, b),
{
    let f = |i: int| select(words[i].bit(b), weight(i));
    let g = |i: int| select(padded[i].bit(b), weight(i));
    assert forall|i: int| words.len() <= i < padded.len() implies #[trigger] g(i) == F::nil() by {
        assert(padded[i] == Word(0));
        lemma_zero_word(b);
    }
    lemma_sum_prefix(words.len() as int, padded.len() as int, g);
    assert forall|i: int| 0 <= i < words.len() implies #[trigger] f(i) == g(i) by {
        assert(padded[i] == words[i]);
    }
    lemma_sum_ext(words.len() as int, f, g);
}

/// Folding both axes at once equals folding the bit axis first and the word axis second.
pub proof fn both_axes_agree<F: FieldOps>(
    words: Seq<Word>,
    index_scalars: Seq<F>,
    rows: Seq<F>,
)
    ensures
        sum(
            words.len() as int,
            |i: int| word_fold(words[i], index_scalars).times(rows[i]),
        ) == sum(
            64,
            |b: int|
                index_scalars[b].times(folded_position(words, |i: int| rows[i], b)),
        ),
{
    let n = words.len() as int;
    let t = |i: int, b: int| select(words[i].bit(b), index_scalars[b].times(rows[i]));
    lemma_sum_swap(n, 64, t);
    let left = |i: int| word_fold(words[i], index_scalars).times(rows[i]);
    let left1 = |i: int| sum(64, |b: int| t(i, b));
    assert forall|i: int| 0 <= i < n implies #[trigger] left(i) == left1(i) by {
        let f = |b: int| select(words[i].bit(b), index_scalars[b]);
        lemma_sum_scale(64, rows[i], f);
        let fx = |b: int| f(b).times(rows[i]);
        let tb = |b: int| t(i, b);
        assert forall|b: int| 0 <= b < 64 implies #[trigger] fx(b) == tb(b) by {
            lemma_times_nil(rows[i]);
        }
        lemma_sum_ext(64, fx, tb);
    }
    lemma_sum_ext(n, left, left1);
    let right = |b: int|
        index_scalars[b].times(folded_position(words, |i: int| rows[i], b));
    let right1 = |b: int| sum(n, |i: int| t(i, b));
    assert forall|b: int| 0 <= b < 64 implies #[trigger] right(b) == right1(b) by {
        let weight = |i: int| rows[i];
        let f = |i: int| select(words[i].bit(b), weight(i));
        lemma_sum_scale(n, index_scalars[b], f);
        let fx = |i: int| index_scalars[b].times(f(i));
        let ti = |i: int| t(i, b);
        assert forall|i: int| 0 <= i < n implies #[trigger] fx(i) == ti(i) by {
            lemma_times_nil(index_scalars[b]);
        }
        lemma_sum_ext(n, fx, ti);
    }
    lemma_sum_ext(64, right, right1);
}

} // verus!
