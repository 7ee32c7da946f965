use binius64::utils::parallel::{IndexedParallelIteratorExt, ParallelWrapper};
use binius64::utils::task_size::{
    budget_or, min_len_for_bytes, min_len_for_bytes_under, min_len_for_bytes_with,
    min_len_for_work, min_len_for_work_under, min_len_for_work_with, min_task_bytes,
    task_chunk_len, task_chunk_len_under, task_target_ns, WorkPerItem,
};

#[test]
fn byte_floor_scales_inversely_with_item_size() {
    // A task moves a fixed number of bytes, whatever the item width, so the item count falls by
    // exactly the factor the item widens.
    let narrow = min_len_for_bytes_with(1 << 20, 16);
    let wide = min_len_for_bytes_with(1 << 20, 64);
    assert_eq!(narrow, 4 * wide);

    // The same ratio holds through the entry point that measures the type.
    assert_eq!(
        min_len_for_bytes::<[u8; 16]>(),
        4 * min_len_for_bytes::<[u8; 64]>()
    );

    // An array type charges one item for every stream a zipped loop touches.
    assert_eq!(
        min_len_for_bytes::<u64>(),
        4 * min_len_for_bytes::<[u64; 4]>()
    );
}

#[test]
fn byte_floor_boundary_items() {
    // A zero-sized item is charged one byte.
    assert_eq!(min_len_for_bytes_with(1 << 20, 0), 1 << 20);
    assert_eq!(min_len_for_bytes::<()>(), min_task_bytes());

    // An item wider than the entire budget cannot be subdivided further.
    assert_eq!(min_len_for_bytes_with(16, 64), 1);
}

#[test]
fn work_floor_scales_inversely_with_item_cost() {
    assert_eq!(min_len_for_work_with(100_000, 8), 12_500);
    assert_eq!(min_len_for_work_with(100, 200), 1);
}

#[test]
fn work_classes_are_ordered_by_cost() {
    assert!(
        min_len_for_work(WorkPerItem::FieldMuls) > min_len_for_work(WorkPerItem::HashCompression)
    );
    assert!(
        min_len_for_work(WorkPerItem::HashCompression) > min_len_for_work(WorkPerItem::Inversion)
    );
}

#[test]
fn chunk_len_matches_byte_floor() {
    assert_eq!(task_chunk_len::<u64>(), min_len_for_bytes::<u64>());
}

#[test]
fn adapters_preserve_iteration() {
    // The adapters constrain only how work is divided, never what it covers.
    let expected: u64 = 1000 * 999 / 2;

    let data = ParallelWrapper::new((0..1000u64).collect());
    let bytes = data.with_min_task_bytes::<u64>();
    assert_eq!(bytes.items.iter().sum::<u64>(), expected);

    let data = ParallelWrapper::new((0..1000u64).collect());
    let work = data.with_min_task(WorkPerItem::HashCompression);
    assert_eq!(work.items.iter().sum::<u64>(), expected);
}

#[test]
fn floors_have_their_exact_values() {
    assert_eq!(task_target_ns(), 100_000);
    assert_eq!(min_task_bytes(), 1_048_576);
    assert_eq!(min_len_for_bytes::<u64>(), 131_072);
    assert_eq!(min_len_for_work(WorkPerItem::FieldMuls), 25_000);
    assert_eq!(min_len_for_work(WorkPerItem::HashCompression), 3_334);
    assert_eq!(min_len_for_work(WorkPerItem::Inversion), 667);
}

#[test]
fn an_adapter_only_raises_the_floor() {
    let data = ParallelWrapper::new(vec![1u8, 2, 3]);
    assert_eq!(data.min_len, 1);
    let floored = data.with_min_task(WorkPerItem::Inversion);
    assert_eq!(floored.min_len, 667);
    assert_eq!(floored.with_min_len(10).min_len, 667);
}

#[test]
fn a_task_fills_its_budget_with_the_fewest_items() {
    // One item of 64 bytes falls short of 100 bytes, and two fill them.
    assert_eq!(min_len_for_bytes_with(100, 64), 2);
    assert_eq!(min_len_for_work_with(100, 64), 2);
    for budget in [0usize, 1, 7, 63, 64, 65, 100, 1 << 20, usize::MAX] {
        for item in [0usize, 1, 3, 64, 1000, usize::MAX] {
            let n = min_len_for_bytes_with(budget, item) as u128;
            let per_item = item.max(1) as u128;
            assert!(n >= 1);
            assert!(n * per_item >= budget as u128);
            assert!(n == 1 || (n - 1) * per_item < budget as u128);
        }
    }
}

#[test]
fn a_given_budget_sets_the_floor() {
    assert_eq!(min_len_for_bytes_under::<u64>(100), 13);
    assert_eq!(min_len_for_bytes_under::<()>(100), 100);
    assert_eq!(task_chunk_len_under::<u64>(100), 13);
    assert_eq!(min_len_for_work_under(1_000, WorkPerItem::HashCompression), 34);

    // A budget of one floors every loop at one item.
    assert_eq!(min_len_for_bytes_under::<u64>(1), 1);
    assert_eq!(min_len_for_work_under(1, WorkPerItem::FieldMuls), 1);

    let data = ParallelWrapper::new(vec![1u8, 2, 3]);
    let bytes = data.with_min_task_bytes_under::<u64>(100);
    assert_eq!((bytes.min_len, bytes.items.clone()), (13, vec![1, 2, 3]));
    let work = bytes.with_min_task_under(1_000, WorkPerItem::HashCompression);
    assert_eq!((work.min_len, work.items), (34, vec![1, 2, 3]));
}

#[test]
fn an_absent_budget_falls_back() {
    assert_eq!(budget_or(None, 7u64), 7);
    assert_eq!(budget_or(Some(1u64), 7), 1);
}
