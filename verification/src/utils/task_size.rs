//! Minimum task sizes for parallel loops.
//!
//! Handing a slice of work to another worker costs about a microsecond.
//! A task shorter than that loses more to the handoff than it gains, so a task takes
//! `budget per task / estimated cost per item` items at least, rounded up so that they fill the
//! budget.
//!
//! Functions that end in `_under` take the budget; the others use the default one.

use crate::math::index::{div_up, lemma_div_mod, lemma_split_index};
use vstd::prelude::*;

verus! {

/// Time budget for one task, in nanoseconds.
pub const DEFAULT_TASK_TARGET_NS: u64 = 100_000;

/// Byte budget for one task of a memory-bound loop.
pub const DEFAULT_MIN_TASK_BYTES: usize = 0x100000;

/// The floor a budget and an item's cost give: the fewest items that fill the budget, and one item
/// at least. An item that costs nothing is charged one unit.
pub open spec fn task_floor(budget: int, cost: int) -> int {
    let per_item = if cost >= 1 {
        cost
    } else {
        1
    };
    if budget <= per_item {
        1
    } else {
        div_up(budget, per_item)
    }
}

/// The fewest items that fill a budget, computed.
fn fewest_items(budget: u64, per_item: u64) -> (r: u64)
    requires
        per_item >= 1,
    ensures
        r == task_floor(budget as int, per_item as int),
        1 <= r,
        r == 1 || r <= budget,
{
    if budget <= per_item {
        return 1;
    }
    let quotient: u64 = budget / per_item;
    let rest: u64 = budget % per_item;
    proof {
        lemma_split_index(budget as int, per_item as int);
        lemma_fewest(budget as int, per_item as int);
    }
    if rest == 0 {
        quotient
    } else {
        quotient + 1
    }
}

/// A quotient that leaves something is below what was divided.
proof fn lemma_fewest(budget: int, per_item: int)
    requires
        0 < per_item < budget,
    ensures
        1 <= budget / per_item <= budget,
        budget % per_item != 0 ==> budget / per_item < budget,
{
    let q = budget / per_item;
    let rest = budget % per_item;
    lemma_split_index(budget, per_item);
    assert(1 <= q <= budget && (rest != 0 ==> q < budget)) by (nonlinear_arith)
        requires
            budget == q * per_item + rest,
            0 <= rest < per_item,
            0 < per_item < budget,
    ;
}

/// A budget read from outside, or the default where none was given.
pub fn budget_or<T: Copy>(given: Option<T>, default: T) -> (r: T)
    ensures
        r == match given {
            Some(v) => v,
            None => default,
        },
{
    match given {
        Some(v) => v,
        None => default,
    }
}

/// Time budget for one task, in nanoseconds, where nothing overrides it.
pub fn task_target_ns() -> (r: u64)
    ensures
        r == DEFAULT_TASK_TARGET_NS,
{
    DEFAULT_TASK_TARGET_NS
}

/// Byte budget for one task of a memory-bound loop, where nothing overrides it.
pub fn min_task_bytes() -> (r: usize)
    ensures
        r == DEFAULT_MIN_TASK_BYTES,
{
    DEFAULT_MIN_TASK_BYTES
}

/// Estimated cost of processing one item of a loop bound by arithmetic.
#[derive(Clone, Copy, Debug, PartialEq, Eq, Structural)]
pub enum WorkPerItem {
    /// A handful of packed field multiplies.
    FieldMuls,
    /// One hash compression, such as a Merkle inner node or a single message block.
    HashCompression,
    /// One scalar field inversion, roughly a hundred packed multiplies.
    Inversion,
}

impl WorkPerItem {
    /// Estimated time to process one item, in nanoseconds.
    pub open spec fn cost(self) -> int {
        match self {
            WorkPerItem::FieldMuls => 4,
            WorkPerItem::HashCompression => 30,
            WorkPerItem::Inversion => 150,
        }
    }

    /// Estimated time to process one item, in nanoseconds.
    pub fn ns_per_item(self) -> (r: u64)
        ensures
            r == self.cost(),
    {
        match self {
            WorkPerItem::FieldMuls => 4,
            WorkPerItem::HashCompression => 30,
            WorkPerItem::Inversion => 150,
        }
    }
}

/// Items per task that together move at least the given byte budget.
///
/// A zero-sized item is charged one byte.
pub fn min_len_for_bytes_with(min_task_bytes: usize, item_bytes: usize) -> (r: usize)
    ensures
        r == task_floor(min_task_bytes as int, item_bytes as int),
{
    let per_item: usize = if item_bytes == 0 {
        1
    } else {
        item_bytes
    };
    fewest_items(min_task_bytes as u64, per_item as u64) as usize
}

/// Items per task that together run for at least the given time budget.
///
/// The count is cut to the width of an index, as the loop's length is.
pub fn min_len_for_work_with(task_target_ns: u64, ns_per_item: u64) -> (r: usize)
    requires
        ns_per_item > 0,
    ensures
        r == task_floor(task_target_ns as int, ns_per_item as int) as usize,
        task_floor(task_target_ns as int, ns_per_item as int) <= usize::MAX ==> r == task_floor(
            task_target_ns as int,
            ns_per_item as int,
        ),
{
    fewest_items(task_target_ns, ns_per_item) as usize
}

/// The floor for a loop whose cost is the bytes it moves, under the default budget.
pub open spec fn byte_floor<T>() -> int {
    task_floor(DEFAULT_MIN_TASK_BYTES as int, vstd::layout::size_of::<T>() as int)
}

/// Minimum items per task for a loop whose cost is the bytes it moves, under a byte budget.
pub fn min_len_for_bytes_under<T>(min_task_bytes: usize) -> (r: usize)
    ensures
        r == task_floor(min_task_bytes as int, vstd::layout::size_of::<T>() as int),
{
    min_len_for_bytes_with(min_task_bytes, core::mem::size_of::<T>())
}

/// Minimum items per task for a loop bound by arithmetic, under a time budget.
///
/// The count is cut to the width of an index, as the loop's length is.
pub fn min_len_for_work_under(task_target_ns: u64, work: WorkPerItem) -> (r: usize)
    ensures
        r == task_floor(task_target_ns as int, work.cost()) as usize,
        task_floor(task_target_ns as int, work.cost()) <= usize::MAX ==> r == task_floor(
            task_target_ns as int,
            work.cost(),
        ),
{
    min_len_for_work_with(task_target_ns, work.ns_per_item())
}

/// Elements per chunk so one chunk spans a byte budget.
pub fn task_chunk_len_under<T>(min_task_bytes: usize) -> (r: usize)
    ensures
        r == task_floor(min_task_bytes as int, vstd::layout::size_of::<T>() as int),
{
    min_len_for_bytes_under::<T>(min_task_bytes)
}

/// Minimum items per task for a loop whose cost is the bytes it moves.
///
/// The type parameter is the element the loop streams.
pub fn min_len_for_bytes<T>() -> (r: usize)
    ensures
        r == byte_floor::<T>(),
        r >= 1,
{
    proof {
        task_fills_its_budget(
            DEFAULT_MIN_TASK_BYTES as int,
            vstd::layout::size_of::<T>() as int,
        );
    }
    min_len_for_bytes_under::<T>(min_task_bytes())
}

/// Minimum items per task for a loop bound by arithmetic.
pub fn min_len_for_work(work: WorkPerItem) -> (r: usize)
    ensures
        r == task_floor(DEFAULT_TASK_TARGET_NS as int, work.cost()),
{
    min_len_for_work_under(task_target_ns(), work)
}

/// Elements per chunk so one chunk spans the byte budget.
pub fn task_chunk_len<T>() -> (r: usize)
    ensures
        r == byte_floor::<T>(),
        r >= 1,
{
    min_len_for_bytes::<T>()
}

/// The items of one task together fill its budget, and no fewer items do.
pub proof fn task_fills_its_budget(budget: int, cost: int)
    requires
        0 <= budget,
        0 <= cost,
    ensures
        ({
            let n = task_floor(budget, cost);
            let per_item = if cost >= 1 {
                cost
            } else {
                1
            };
            &&& 1 <= n
            &&& n * per_item >= budget
            &&& n > 1 ==> (n - 1) * per_item < budget
        }),
{
    let per_item = if cost >= 1 {
        cost
    } else {
        1
    };
    if budget > per_item {
        lemma_fewest(budget, per_item);
        lemma_split_index(budget, per_item);
        let q = budget / per_item;
        assert((q + 1) * per_item == q * per_item + per_item) by (nonlinear_arith);
        assert((q - 1) * per_item == q * per_item - per_item) by (nonlinear_arith);
    }
}

/// Widening an item by a factor divides the floor by that factor, as long as whole items remain.
pub proof fn byte_floor_scales_inversely(budget: int, bytes: int, factor: int)
    requires
        0 < bytes,
        0 < factor,
        0 <= budget,
        budget % (bytes * factor) == 0,
        bytes * factor <= budget,
    ensures
        task_floor(budget, bytes) == factor * task_floor(budget, bytes * factor),
{
    let w = bytes * factor;
    assert(w > 0) by (nonlinear_arith)
        requires
            w == bytes * factor,
            0 < bytes,
            0 < factor,
    ;
    lemma_split_index(budget, w);
    let q = budget / w;
    assert(budget == (q * factor) * bytes + 0) by (nonlinear_arith)
        requires
            budget == q * (bytes * factor),
    ;
    lemma_div_mod(q * factor, bytes, 0);
    lemma_div_mod(q, w, 0);
    if factor == 1 {
        assert(w == bytes) by (nonlinear_arith)
            requires
                w == bytes * factor,
                factor == 1,
        ;
    } else {
        assert(bytes < budget) by (nonlinear_arith)
            requires
                w == bytes * factor,
                factor >= 2,
                0 < bytes,
                w <= budget,
        ;
    }
    if budget == w {
        assert(q == 1) by {
            lemma_div_mod(1, w, 0);
        }
    }
    assert(q >= 1) by (nonlinear_arith)
        requires
            budget == q * w,
            w <= budget,
            0 < w,
    ;
    assert(q * factor >= 1 && factor * q == q * factor) by (nonlinear_arith)
        requires
            q >= 1,
            factor >= 1,
    ;
}

/// Costlier work classes take no more items per task.
pub proof fn work_classes_are_ordered(budget: int)
    requires
        0 <= budget,
    ensures
        task_floor(budget, WorkPerItem::FieldMuls.cost()) >= task_floor(
            budget,
            WorkPerItem::HashCompression.cost(),
        ) >= task_floor(budget, WorkPerItem::Inversion.cost()),
{
}

} // verus!
