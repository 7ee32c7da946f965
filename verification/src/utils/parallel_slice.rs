//! Slices cut into the pieces a parallel loop visits.

use crate::math::index::{div_up, lemma_split_index};
use crate::utils::parallel::ParallelWrapper;
use vstd::prelude::*;
use vstd::slice::slice_subrange;

verus! {

/// The contents of a list of slices.
pub open spec fn contents_of<T>(pieces: Seq<&[T]>) -> Seq<Seq<T>> {
    Seq::new(pieces.len(), |i: int| pieces[i]@)
}

/// A sequence cut after the elements that say so.
///
/// No piece is empty: a cut after the last element opens no piece.
pub open spec fn cut_after<T>(s: Seq<T>, cuts: Seq<bool>) -> Seq<Seq<T>>
    decreases s.len(),
{
    if s.len() == 0 {
        Seq::empty()
    } else if s.len() == 1 {
        seq![s]
    } else {
        let init = cut_after(s.drop_last(), cuts);
        if cuts[s.len() - 2] {
            init.push(seq![s.last()])
        } else {
            init.update(init.len() - 1, init.last().push(s.last()))
        }
    }
}

/// A sequence cut at the elements that say so, which belong to no piece.
///
/// There is one piece more than there are cuts, and pieces can be empty.
pub open spec fn cut_at<T>(s: Seq<T>, cuts: Seq<bool>) -> Seq<Seq<T>>
    decreases s.len(),
{
    if s.len() == 0 {
        seq![Seq::empty()]
    } else {
        let init = cut_at(s.drop_last(), cuts);
        if cuts[s.len() - 1] {
            init.push(Seq::empty())
        } else {
            init.update(init.len() - 1, init.last().push(s.last()))
        }
    }
}

/// Cuts a slice after the flagged elements.
fn pieces_after<'a, T>(s: &'a [T], cuts: &Vec<bool>) -> (r: Vec<&'a [T]>)
    requires
        s.len() == 0 || cuts.len() >= s.len() - 1,
    ensures
        contents_of(r@) == cut_after(s@, cuts@),
{
    let mut r: Vec<&'a [T]> = Vec::new();
    if s.len() == 0 {
        assert(contents_of(r@) =~= cut_after(s@, cuts@));
        return r;
    }
    let mut start: usize = 0;
    let mut i: usize = 1;
    proof {
        assert(s@.take(1) =~= s@.subrange(0, 1));
        assert(contents_of(r@).push(s@.subrange(0, 1)) =~= cut_after(s@.take(1), cuts@));
    }
    while i < s.len()
        invariant
            start < i <= s.len(),
            cuts.len() >= s.len() - 1,
            contents_of(r@).push(s@.subrange(start as int, i as int)) == cut_after(
                s@.take(i as int),
                cuts@,
            ),
        decreases s.len() - i,
    {
        let ghost open = contents_of(r@).push(s@.subrange(start as int, i as int));
        proof {
            assert(s@.take(i + 1).drop_last() =~= s@.take(i as int));
        }
        if cuts[i - 1] {
            let ghost before = contents_of(r@);
            r.push(slice_subrange(s, start, i));
            proof {
                assert(contents_of(r@) =~= open);
                assert(s@.subrange(i as int, i + 1) =~= seq![s@[i as int]]);
            }
            start = i;
        } else {
            proof {
                assert(s@.subrange(start as int, i + 1) =~= s@.subrange(
                    start as int,
                    i as int,
                ).push(s@[i as int]));
                assert(contents_of(r@).push(s@.subrange(start as int, i + 1)) =~= open.update(
                    open.len() - 1,
                    open.last().push(s@[i as int]),
                ));
            }
        }
        i = i + 1;
    }
    let ghost open = contents_of(r@).push(s@.subrange(start as int, i as int));
    r.push(slice_subrange(s, start, i));
    assert(contents_of(r@) =~= open);
    assert(s@.take(i as int) =~= s@);
    r
}

/// Cuts a slice at the flagged elements.
fn pieces_at<'a, T>(s: &'a [T], cuts: &Vec<bool>) -> (r: Vec<&'a [T]>)
    requires
        cuts.len() >= s.len(),
    ensures
        contents_of(r@) == cut_at(s@, cuts@),
{
    let mut r: Vec<&'a [T]> = Vec::new();
    let mut start: usize = 0;
    let mut i: usize = 0;
    proof {
        assert(s@.take(0) =~= Seq::<T>::empty());
        assert(s@.subrange(0, 0) =~= Seq::<T>::empty());
        assert(contents_of(r@).push(s@.subrange(0, 0)) =~= cut_at(s@.take(0), cuts@));
    }
    while i < s.len()
        invariant
            start <= i <= s.len(),
            cuts.len() >= s.len(),
            contents_of(r@).push(s@.subrange(start as int, i as int)) == cut_at(
                s@.take(i as int),
                cuts@,
            ),
        decreases s.len() - i,
    {
        let ghost open = contents_of(r@).push(s@.subrange(start as int, i as int));
        proof {
            assert(s@.take(i + 1).drop_last() =~= s@.take(i as int));
        }
        if cuts[i] {
            r.push(slice_subrange(s, start, i));
            proof {
                assert(contents_of(r@) =~= open);
                assert(s@.subrange(i + 1, i + 1) =~= Seq::<T>::empty());
            }
            start = i + 1;
        } else {
            proof {
                assert(s@.subrange(start as int, i + 1) =~= s@.subrange(
                    start as int,
                    i as int,
                ).push(s@[i as int]));
                assert(contents_of(r@).push(s@.subrange(start as int, i + 1)) =~= open.update(
                    open.len() - 1,
                    open.last().push(s@[i as int]),
                ));
            }
        }
        i = i + 1;
    }
    let ghost open = contents_of(r@).push(s@.subrange(start as int, i as int));
    r.push(slice_subrange(s, start, i));
    assert(contents_of(r@) =~= open);
    assert(s@.take(i as int) =~= s@);
    r
}

/// What a predicate says of each element.
fn flags<T, P: Fn(&T) -> bool>(s: &[T], separator: P) -> (r: Vec<bool>)
    requires
        forall|i: int| 0 <= i < s.len() ==> call_requires(separator, (&#[trigger] s[i],)),
    ensures
        r.len() == s.len(),
        forall|i: int| 0 <= i < s.len() ==> call_ensures(separator, (&s[i],), #[trigger] r[i]),
{
    let mut r: Vec<bool> = Vec::new();
    let mut i: usize = 0;
    while i < s.len()
        invariant
            i <= s.len(),
            r.len() == i,
            forall|k: int| 0 <= k < s.len() ==> call_requires(separator, (&#[trigger] s[k],)),
            forall|k: int| 0 <= k < i ==> call_ensures(separator, (&s[k],), #[trigger] r[k]),
        decreases s.len() - i,
    {
        let flag = separator(&s[i]);
        r.push(flag);
        i = i + 1;
    }
    r
}

/// The pieces of a slice a parallel loop can visit.
pub trait ParallelSlice<T> {
    /// The elements.
    spec fn elements(&self) -> Seq<T>;

    /// The elements as a slice.
    fn as_parallel_slice(&self) -> (r: &[T])
        ensures
            r@ == self.elements(),
    ;

    /// The pieces between the elements that match a predicate.
    fn par_split<P: Fn(&T) -> bool>(&self, separator: P) -> (r: ParallelWrapper<&[T]>)
        requires
            forall|i: int|
                0 <= i < self.elements().len() ==> call_requires(
                    separator,
                    (&#[trigger] self.elements()[i],),
                ),
        ensures
            exists|cuts: Seq<bool>|
                #![trigger cut_at(self.elements(), cuts)]
                cuts.len() == self.elements().len() && (forall|i: int|
                    0 <= i < cuts.len() ==> call_ensures(
                        separator,
                        (&self.elements()[i],),
                        #[trigger] cuts[i],
                    )) && contents_of(r.items@) == cut_at(self.elements(), cuts),
    {
        let s = self.as_parallel_slice();
        let cuts = flags(s, separator);
        let items = pieces_at(s, &cuts);
        assert(contents_of(items@) == cut_at(self.elements(), cuts@));
        ParallelWrapper::new(items)
    }

    /// The pieces that end with the elements that match a predicate.
    fn par_split_inclusive<P: Fn(&T) -> bool>(&self, separator: P) -> (r: ParallelWrapper<&[T]>)
        requires
            forall|i: int|
                0 <= i < self.elements().len() ==> call_requires(
                    separator,
                    (&#[trigger] self.elements()[i],),
                ),
        ensures
            exists|cuts: Seq<bool>|
                #![trigger cut_after(self.elements(), cuts)]
                cuts.len() == self.elements().len() && (forall|i: int|
                    0 <= i < cuts.len() ==> call_ensures(
                        separator,
                        (&self.elements()[i],),
                        #[trigger] cuts[i],
                    )) && contents_of(r.items@) == cut_after(self.elements(), cuts),
    {
        let s = self.as_parallel_slice();
        let cuts = flags(s, separator);
        let items = pieces_after(s, &cuts);
        assert(contents_of(items@) == cut_after(self.elements(), cuts@));
        ParallelWrapper::new(items)
    }

    /// The overlapping runs of a length.
    fn par_windows(&self, window_size: usize) -> (r: ParallelWrapper<&[T]>)
        requires
            window_size > 0,
        ensures
            r.items.len() == if self.elements().len() >= window_size {
                self.elements().len() - window_size + 1
            } else {
                0
            },
            forall|i: int|
                0 <= i < r.items.len() ==> (#[trigger] r.items[i])@ == self.elements().subrange(
                    i,
                    i + window_size,
                ),
    {
        let s = self.as_parallel_slice();
        let mut items: Vec<&[T]> = Vec::new();
        let n: usize = if s.len() >= window_size {
            s.len() - window_size + 1
        } else {
            0
        };
        let mut i: usize = 0;
        while i < n
            invariant
                i <= n,
                n == if s.len() >= window_size {
                    s.len() - window_size + 1
                } else {
                    0
                },
                window_size > 0,
                s@ == self.elements(),
                items.len() == i,
                forall|k: int|
                    0 <= k < i ==> (#[trigger] items[k])@ == s@.subrange(k, k + window_size),
            decreases n - i,
        {
            items.push(slice_subrange(s, i, i + window_size));
            i = i + 1;
        }
        ParallelWrapper::new(items)
    }

    /// The consecutive runs of a length; the last one can be shorter.
    fn par_chunks(&self, chunk_size: usize) -> (r: ParallelWrapper<&[T]>)
        requires
            chunk_size > 0,
        ensures
            r.items.len() == div_up(self.elements().len() as int, chunk_size as int),
            forall|i: int|
                0 <= i < r.items.len() ==> (#[trigger] r.items[i])@ == self.elements().subrange(
                    i * chunk_size,
                    if (i + 1) * chunk_size <= self.elements().len() {
                        (i + 1) * chunk_size
                    } else {
                        self.elements().len() as int
                    },
                ),
    {
        let exact = self.par_chunks_exact(chunk_size);
        let s = self.as_parallel_slice();
        let mut items = exact.chunks;
        let full: usize = s.len() / chunk_size;
        proof {
            lemma_split_index(s.len() as int, chunk_size as int);
            assert forall|i: int| 0 <= i < full implies (#[trigger] items[i])@
                == self.elements().subrange(
                i * chunk_size,
                if (i + 1) * chunk_size <= self.elements().len() {
                    (i + 1) * chunk_size
                } else {
                    self.elements().len() as int
                },
            ) by {
                assert((i + 1) * chunk_size <= full * chunk_size) by (nonlinear_arith)
                    requires
                        0 <= i < full,
                        chunk_size > 0,
                ;
            }
        }
        if s.len() % chunk_size != 0 {
            proof {
                assert((full + 1) * chunk_size == full * chunk_size + chunk_size)
                    by (nonlinear_arith);
            }
            items.push(exact.remainder);
        }
        ParallelWrapper::new(items)
    }

    /// The consecutive runs of exactly a length.
    fn par_chunks_exact(&self, chunk_size: usize) -> (r: ChunksExactParallelWrapper<T>)
        requires
            chunk_size > 0,
        ensures
            r.chunks.len() == self.elements().len() as int / chunk_size as int,
            forall|i: int|
                0 <= i < r.chunks.len() ==> (#[trigger] r.chunks[i])@ == self.elements().subrange(
                    i * chunk_size,
                    (i + 1) * chunk_size,
                ),
            r.remainder@ == self.elements().subrange(
                r.chunks.len() * chunk_size,
                self.elements().len() as int,
            ),
    {
        let s = self.as_parallel_slice();
        let n: usize = s.len() / chunk_size;
        proof {
            lemma_split_index(s.len() as int, chunk_size as int);
        }
        let mut chunks: Vec<&[T]> = Vec::new();
        let mut i: usize = 0;
        let mut start: usize = 0;
        while i < n
            invariant
                i <= n,
                n == s.len() as int / chunk_size as int,
                s.len() == n * chunk_size + s.len() as int % chunk_size as int,
                0 <= s.len() as int % chunk_size as int,
                chunk_size > 0,
                start == i * chunk_size,
                s@ == self.elements(),
                chunks.len() == i,
                forall|k: int|
                    0 <= k < i ==> (#[trigger] chunks[k])@ == s@.subrange(
                        k * chunk_size,
                        (k + 1) * chunk_size,
                    ),
            decreases n - i,
        {
            proof {
                assert((i + 1) * chunk_size == i * chunk_size + chunk_size) by (nonlinear_arith);
                assert((i + 1) * chunk_size <= n * chunk_size) by (nonlinear_arith)
                    requires
                        i < n,
                        chunk_size > 0,
                ;
            }
            chunks.push(slice_subrange(s, start, start + chunk_size));
            start = start + chunk_size;
            i = i + 1;
        }
        ChunksExactParallelWrapper { chunks, remainder: slice_subrange(s, start, s.len()) }
    }

    /// The runs of a length counted from the end; the last one, at the front, can be shorter.
    fn par_rchunks(&self, chunk_size: usize) -> (r: ParallelWrapper<&[T]>)
        requires
            chunk_size > 0,
        ensures
            r.items.len() == div_up(self.elements().len() as int, chunk_size as int),
            forall|i: int|
                0 <= i < r.items.len() ==> (#[trigger] r.items[i])@ == self.elements().subrange(
                    if (i + 1) * chunk_size <= self.elements().len() {
                        self.elements().len() - (i + 1) * chunk_size
                    } else {
                        0
                    },
                    self.elements().len() - i * chunk_size,
                ),
    {
        let s = self.as_parallel_slice();
        let exact = self.par_rchunks_exact(chunk_size);
        let mut items = exact.items;
        let full: usize = s.len() / chunk_size;
        proof {
            lemma_split_index(s.len() as int, chunk_size as int);
            assert forall|i: int| 0 <= i < full implies (#[trigger] items[i])@
                == self.elements().subrange(
                if (i + 1) * chunk_size <= self.elements().len() {
                    self.elements().len() - (i + 1) * chunk_size
                } else {
                    0
                },
                self.elements().len() - i * chunk_size,
            ) by {
                assert((i + 1) * chunk_size <= full * chunk_size) by (nonlinear_arith)
                    requires
                        0 <= i < full,
                        chunk_size > 0,
                ;
            }
        }
        if s.len() % chunk_size != 0 {
            proof {
                assert((full + 1) * chunk_size == full * chunk_size + chunk_size)
                    by (nonlinear_arith);
            }
            items.push(slice_subrange(s, 0, s.len() % chunk_size));
        }
        ParallelWrapper::new(items)
    }

    /// The runs of exactly a length counted from the end.
    fn par_rchunks_exact(&self, chunk_size: usize) -> (r: ParallelWrapper<&[T]>)
        requires
            chunk_size > 0,
        ensures
            r.items.len() == self.elements().len() as int / chunk_size as int,
            forall|i: int|
                0 <= i < r.items.len() ==> (#[trigger] r.items[i])@ == self.elements().subrange(
                    self.elements().len() - (i + 1) * chunk_size,
                    self.elements().len() - i * chunk_size,
                ),
    {
        let s = self.as_parallel_slice();
        let n: usize = s.len() / chunk_size;
        proof {
            lemma_split_index(s.len() as int, chunk_size as int);
        }
        let mut items: Vec<&[T]> = Vec::new();
        let mut i: usize = 0;
        let mut end: usize = s.len();
        while i < n
            invariant
                i <= n,
                n == s.len() as int / chunk_size as int,
                s.len() == n * chunk_size + s.len() as int % chunk_size as int,
                0 <= s.len() as int % chunk_size as int,
                chunk_size > 0,
                end == s.len() - i * chunk_size,
                s@ == self.elements(),
                items.len() == i,
                forall|k: int|
                    0 <= k < i ==> (#[trigger] items[k])@ == s@.subrange(
                        s@.len() - (k + 1) * chunk_size,
                        s@.len() - k * chunk_size,
                    ),
            decreases n - i,
        {
            proof {
                assert((i + 1) * chunk_size == i * chunk_size + chunk_size) by (nonlinear_arith);
                assert(0 <= i * chunk_size) by (nonlinear_arith);
                assert((i + 1) * chunk_size <= n * chunk_size) by (nonlinear_arith)
                    requires
                        i < n,
                        chunk_size > 0,
                ;
            }
            items.push(slice_subrange(s, end - chunk_size, end));
            end = end - chunk_size;
            i = i + 1;
        }
        ParallelWrapper::new(items)
    }

    /// The longest runs in which a predicate joins every two neighbours.
    fn par_chunk_by<F: Fn(&T, &T) -> bool>(&self, pred: F) -> (r: ParallelWrapper<&[T]>)
        requires
            forall|i: int, j: int|
                0 <= i < self.elements().len() && 0 <= j < self.elements().len() ==> call_requires(
                    pred,
                    (&#[trigger] self.elements()[i], &#[trigger] self.elements()[j]),
                ),
        ensures
            exists|cuts: Seq<bool>|
                #![trigger cut_after(self.elements(), cuts)]
                (forall|i: int|
                    0 <= i < self.elements().len() - 1 ==> call_ensures(
                        pred,
                        (&self.elements()[i], &self.elements()[i + 1]),
                        !#[trigger] cuts[i],
                    )) && contents_of(r.items@) == cut_after(self.elements(), cuts),
    {
        let s = self.as_parallel_slice();
        let mut cuts: Vec<bool> = Vec::new();
        if s.len() > 0 {
            let mut i: usize = 0;
            while i < s.len() - 1
                invariant
                    i <= s.len() - 1,
                    s.len() > 0,
                    s@ == self.elements(),
                    cuts.len() == i,
                    forall|i: int, j: int|
                        0 <= i < self.elements().len() && 0 <= j < self.elements().len()
                            ==> call_requires(
                            pred,
                            (&#[trigger] self.elements()[i], &#[trigger] self.elements()[j]),
                        ),
                    forall|k: int|
                        0 <= k < i ==> call_ensures(
                            pred,
                            (&self.elements()[k], &self.elements()[k + 1]),
                            !#[trigger] cuts[k],
                        ),
                decreases s.len() - i,
            {
                proof {
                    assert(s[i as int] == self.elements()[i as int]);
                    assert(s[i + 1] == self.elements()[i + 1]);
                }
                let joined = pred(&s[i], &s[i + 1]);
                cuts.push(!joined);
                i = i + 1;
            }
        }
        let items = pieces_after(s, &cuts);
        assert(contents_of(items@) == cut_after(self.elements(), cuts@));
        ParallelWrapper::new(items)
    }
}

/// The consecutive runs of exactly a length, and what is left over.
pub struct ChunksExactParallelWrapper<'a, T> {
    pub chunks: Vec<&'a [T]>,
    pub remainder: &'a [T],
}

impl<'a, T> ChunksExactParallelWrapper<'a, T> {
    /// The slice's tail past the last full chunk, which the loop does not visit.
    pub fn remainder(&self) -> (r: &'a [T])
        ensures
            r@ == self.remainder@,
    {
        self.remainder
    }
}

impl<T> ParallelSlice<T> for [T] {
    open spec fn elements(&self) -> Seq<T> {
        self@
    }

    fn as_parallel_slice(&self) -> (r: &[T]) {
        self
    }
}

} // verus!
