//! Where the parts of a key collection stand among its bytes.

use crate::shift::keys::{ConstraintIndex, Key, KeyCollection, KeyRange, Operation, ShiftSeq};
use crate::shift::wire::{KEY_COLLECTION_VERSION, segment_bytes};
use crate::utils::serialization::{SerializeBytes, encoded_items};
use vstd::prelude::*;

verus! {

/// Four bytes read as a number, the least significant first.
pub open spec fn number_at(s: Seq<u8>, p: int) -> int {
    s[p] + 0x100 * s[p + 1] + 0x1_0000 * s[p + 2] + 0x100_0000 * s[p + 3]
}

/// A number takes four bytes, the least significant first.
pub proof fn numbers_are_little_endian(x: u32)
    ensures
        x.encoded().len() == 4,
        number_at(x.encoded(), 0) == x,
{
}

/// An operation takes one byte, which does not follow the order of declaration.
pub proof fn operations_have_fixed_tags(operation: Operation)
    ensures
        operation.encoded().len() == 1,
        operation is BitwiseAnd <==> operation.encoded()[0] == 0,
        operation is IntegerMul <==> operation.encoded()[0] == 1,
        operation is BinMul <==> operation.encoded()[0] == 2,
        operation is Zero <==> operation.encoded()[0] == 3,
{
}

/// A shift takes one byte for its variant and one for its amount.
pub proof fn shifts_are_a_tag_and_an_amount(shift: crate::constraint_system::Shift)
    ensures
        shift.encoded().len() == 2,
        shift.encoded()[1] == shift.amount,
        shift.variant is Sll <==> shift.encoded()[0] == 0,
        shift.variant is Slr <==> shift.encoded()[0] == 1,
        shift.variant is Sar <==> shift.encoded()[0] == 2,
        shift.variant is Rotr <==> shift.encoded()[0] == 3,
        shift.variant is Sll32 <==> shift.encoded()[0] == 4,
        shift.variant is Srl32 <==> shift.encoded()[0] == 5,
        shift.variant is Sra32 <==> shift.encoded()[0] == 6,
        shift.variant is Rotr32 <==> shift.encoded()[0] == 7,
{
}

/// A sequence of shifts takes four bytes: the inner shift, then the outer one.
pub proof fn sequences_are_inner_then_outer(shifts: ShiftSeq)
    ensures
        shifts.encoded().len() == 4,
        shifts.encoded().take(2) == shifts.inner.encoded(),
        shifts.encoded().skip(2) == shifts.outer.encoded(),
{
    assert(shifts.encoded().take(2) =~= shifts.inner.encoded());
    assert(shifts.encoded().skip(2) =~= shifts.outer.encoded());
}

/// Three numbers behind one byte.
proof fn lemma_three_numbers(tag: Seq<u8>, a: Seq<u8>, b: Seq<u8>, c: Seq<u8>)
    requires
        tag.len() == 1,
        a.len() == 4,
        b.len() == 4,
        c.len() == 4,
    ensures
        (tag + a + b + c).len() == 13,
        (tag + a + b + c)[0] == tag[0],
        number_at(tag + a + b + c, 1) == number_at(a, 0),
        number_at(tag + a + b + c, 5) == number_at(b, 0),
        number_at(tag + a + b + c, 9) == number_at(c, 0),
{
}

/// What stands behind four bytes.
proof fn lemma_behind_number(v: Seq<u8>, p: Seq<u8>, h: Seq<u8>)
    requires
        v.len() == 4,
    ensures
        number_at(v + p + h, 0) == number_at(v, 0),
        (v + p + h).skip(4) == p + h,
{
    assert((v + p + h).skip(4) =~= p + h);
}

/// A key takes thirteen bytes: its operation, the place of its shifts, and its range.
pub proof fn keys_are_thirteen_bytes(key: Key)
    ensures
        key.encoded().len() == 13,
        key.encoded()[0] == key.operation.encoded()[0],
        number_at(key.encoded(), 1) == key.dense_shift_idx,
        number_at(key.encoded(), 5) == key.start,
        number_at(key.encoded(), 9) == key.end,
{
    let tag = key.operation.encoded();
    let (a, b, c) = (key.dense_shift_idx.encoded(), key.start.encoded(), key.end.encoded());
    lemma_three_numbers(tag, a, b, c);
    numbers_are_little_endian(key.dense_shift_idx);
    numbers_are_little_endian(key.start);
    numbers_are_little_endian(key.end);
}

/// A range takes eight bytes: its start, then its end.
pub proof fn ranges_are_start_then_end(range: KeyRange)
    ensures
        range.encoded().len() == 8,
        number_at(range.encoded(), 0) == range.start,
        number_at(range.encoded(), 4) == range.end,
{
    let s = range.encoded();
    let (a, b) = (range.start.encoded(), range.end.encoded());
    assert(s[0] == a[0] && s[1] == a[1] && s[2] == a[2] && s[3] == a[3]);
    assert(s[4] == b[0] && s[5] == b[1] && s[6] == b[2] && s[7] == b[3]);
}

/// A constraint's place takes five bytes: its operand, then its index.
pub proof fn places_are_operand_then_index(place: ConstraintIndex)
    ensures
        place.encoded().len() == 5,
        place.encoded()[0] == place.operand_index,
        number_at(place.encoded(), 1) == place.constraint_index,
{
    let s = place.encoded();
    let a = place.constraint_index.encoded();
    assert(s[1] == a[0] && s[2] == a[1] && s[3] == a[2] && s[4] == a[3]);
}

/// Items of one size, one after the other.
proof fn lemma_items_in_order<T: SerializeBytes>(items: Seq<T>, size: int, i: int)
    requires
        forall|k: int| 0 <= k < items.len() ==> (#[trigger] items[k]).encoded().len() == size,
        0 <= i < items.len(),
        0 <= size,
    ensures
        encoded_items(items).len() == items.len() * size,
        0 <= i * size <= i * size + size <= items.len() * size,
        encoded_items(items).subrange(i * size, i * size + size) == items[i].encoded(),
    decreases items.len(),
{
    let n = items.len() as int;
    let init = items.drop_last();
    assert(items[n - 1].encoded().len() == size);
    assert(n * size == (n - 1) * size + size) by (nonlinear_arith);
    assert(0 <= i * size) by (nonlinear_arith)
        requires
            0 <= i,
            0 <= size,
    ;
    assert(i * size + size <= n * size) by (nonlinear_arith)
        requires
            i < n,
            0 <= size,
    ;
    assert forall|k: int| 0 <= k < init.len() implies (#[trigger] init[k]).encoded().len() == size by {
        assert(items[k].encoded().len() == size);
    }
    let all = encoded_items(items);
    if n > 1 {
        lemma_items_in_order(init, size, if i < n - 1 {
            i
        } else {
            0
        });
    } else {
        assert(encoded_items(init).len() == 0);
        assert((n - 1) * size == 0 && i * size == 0) by (nonlinear_arith)
            requires
                n == 1,
                i == 0,
        ;
    }
    if i < n - 1 {
        assert(i * size + size <= (n - 1) * size) by (nonlinear_arith)
            requires
                i < n - 1,
                0 <= size,
        ;
        let part = encoded_items(init).subrange(i * size, i * size + size);
        assert(all.subrange(i * size, i * size + size) =~= part);
    } else {
        assert(all.subrange(i * size, i * size + size) =~= items[i].encoded());
    }
}

/// A list starts with its length; its items follow in order.
pub proof fn lists_are_a_length_and_their_items<T: SerializeBytes>(list: Vec<T>, size: int, i: int)
    requires
        list.len() <= u32::MAX,
        forall|k: int| 0 <= k < list.len() ==> (#[trigger] list@[k]).encoded().len() == size,
        0 <= i < list.len(),
        0 <= size,
    ensures
        list.encoded().len() == 4 + list.len() * size,
        number_at(list.encoded(), 0) == list.len(),
        0 <= i * size <= i * size + size <= list.len() * size,
        list.encoded().subrange(4 + i * size, 4 + i * size + size) == list@[i].encoded(),
{
    lemma_items_in_order(list@, size, i);
    let s = list.encoded();
    let n = (list.len() as u32).encoded();
    assert(s[0] == n[0] && s[1] == n[1] && s[2] == n[2] && s[3] == n[3]);
    let items = encoded_items(list@);
    assert(n + items == s);
    assert(s.subrange(4 + i * size, 4 + i * size + size) =~= items.subrange(
        i * size,
        i * size + size,
    ));
}

/// A collection starts with its version, `3`; its public segment follows, then its hidden one. A
/// segment is its keys, their ranges, the constraints' places, and the sequences of shifts.
pub proof fn collections_are_a_version_and_two_segments(keys: KeyCollection)
    ensures
        number_at(keys.encoded(), 0) == 3,
        keys.encoded().skip(4) == keys.public.keys.encoded() + keys.public.key_ranges.encoded()
            + keys.public.constraint_indices.encoded()
            + keys.public.dense_shift_enc.sequences.encoded() + (keys.hidden.keys.encoded()
            + keys.hidden.key_ranges.encoded() + keys.hidden.constraint_indices.encoded()
            + keys.hidden.dense_shift_enc.sequences.encoded()),
{
    reveal(segment_bytes);
    numbers_are_little_endian(KEY_COLLECTION_VERSION);
    lemma_behind_number(
        KEY_COLLECTION_VERSION.encoded(),
        keys.public.encoded(),
        keys.hidden.encoded(),
    );
}

} // verus!
