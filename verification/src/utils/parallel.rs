//! Parallel loops run on one thread: the same loops, item by item in order.

use crate::utils::task_size::{
    DEFAULT_TASK_TARGET_NS, WorkPerItem, byte_floor, min_len_for_bytes, min_len_for_bytes_under,
    min_len_for_work, min_len_for_work_under, min_task_bytes, task_floor, task_target_ns,
};
use vstd::prelude::*;

verus! {

/// The items of a parallel loop, in the order an unsplit loop visits them.
pub struct ParallelWrapper<T> {
    /// The items.
    pub items: Vec<T>,
    /// The fewest items one task takes.
    pub min_len: usize,
}

impl<T> ParallelWrapper<T> {
    /// A loop over the given items, split down to single ones.
    pub fn new(items: Vec<T>) -> (r: Self)
        ensures
            r.items == items,
            r.min_len == 1,
    {
        ParallelWrapper { items, min_len: 1 }
    }
}

/// A loop over one item.
pub fn once<T: Clone>(elt: T) -> (r: ParallelWrapper<T>)
    ensures
        r.items@ == seq![elt],
        r.min_len == 1,
{
    let mut items: Vec<T> = Vec::new();
    items.push(elt);
    assert(items@ =~= seq![elt]);
    ParallelWrapper::new(items)
}

/// A loop over `n` copies of an item: clones, and at last the item itself.
pub fn repeat_n<T: Clone>(elt: T, n: usize) -> (r: ParallelWrapper<T>)
    ensures
        r.items.len() == n,
        forall|i: int| 0 <= i < n - 1 ==> cloned(elt, #[trigger] r.items[i]),
        n > 0 ==> r.items[n - 1] == elt,
        r.min_len == 1,
{
    let mut items: Vec<T> = Vec::new();
    if n == 0 {
        return ParallelWrapper::new(items);
    }
    let mut i: usize = 0;
    while i < n - 1
        invariant
            i <= n - 1,
            items.len() == i,
            forall|k: int| 0 <= k < i ==> cloned(elt, #[trigger] items[k]),
        decreases n - i,
    {
        items.push(elt.clone());
        i = i + 1;
    }
    items.push(elt);
    ParallelWrapper::new(items)
}

/// A floor raised to at least a minimum.
pub open spec fn raised(floor: int, min: int) -> int {
    if min >= floor {
        min
    } else {
        floor
    }
}

/// Task-size adapters.
///
/// Each adapter sets the fewest items one task takes from what one item costs.
pub trait IndexedParallelIteratorExt: Sized {
    /// What a loop visits.
    type Item;

    /// The items visited.
    spec fn visited(&self) -> Seq<Self::Item>;

    /// The fewest items one task takes.
    spec fn floor(&self) -> int;

    /// Sets the fewest items one task takes.
    fn with_min_len(self, min: usize) -> (r: Self)
        ensures
            r.visited() == self.visited(),
            r.floor() == raised(self.floor(), min as int),
    ;

    /// Floors the split so one task moves at least the byte budget.
    fn with_min_task_bytes<T>(self) -> (r: Self)
        ensures
            r.visited() == self.visited(),
            r.floor() == raised(self.floor(), byte_floor::<T>()),
    {
        self.with_min_len(min_len_for_bytes::<T>())
    }

    /// Floors the split so one task runs for at least the time budget.
    fn with_min_task(self, work: WorkPerItem) -> (r: Self)
        ensures
            r.visited() == self.visited(),
            r.floor() == raised(
                self.floor(),
                task_floor(DEFAULT_TASK_TARGET_NS as int, work.cost()),
            ),
    {
        self.with_min_len(min_len_for_work(work))
    }

    /// Floors the split so one task moves at least the given number of bytes.
    fn with_min_task_bytes_under<T>(self, min_task_bytes: usize) -> (r: Self)
        ensures
            r.visited() == self.visited(),
            r.floor() == raised(
                self.floor(),
                task_floor(min_task_bytes as int, vstd::layout::size_of::<T>() as int),
            ),
    {
        self.with_min_len(min_len_for_bytes_under::<T>(min_task_bytes))
    }

    /// Floors the split so one task runs for at least the given time, in nanoseconds.
    ///
    /// The count is cut to the width of an index, as the loop's length is.
    fn with_min_task_under(self, task_target_ns: u64, work: WorkPerItem) -> (r: Self)
        ensures
            r.visited() == self.visited(),
            r.floor() == raised(
                self.floor(),
                task_floor(task_target_ns as int, work.cost()) as usize as int,
            ),
    {
        self.with_min_len(min_len_for_work_under(task_target_ns, work))
    }
}

impl<T> IndexedParallelIteratorExt for ParallelWrapper<T> {
    type Item = T;

    open spec fn visited(&self) -> Seq<T> {
        self.items@
    }

    open spec fn floor(&self) -> int {
        self.min_len as int
    }

    fn with_min_len(self, min: usize) -> (r: Self) {
        let min_len: usize = if min >= self.min_len {
            min
        } else {
            self.min_len
        };
        ParallelWrapper { items: self.items, min_len }
    }
}

} // verus!
