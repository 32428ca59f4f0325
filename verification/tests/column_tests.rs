use cddb::column::{ColumnArray, ColumnData, Columns};
use cddb::qsbr::{QsbrManager, WorkerState};
use cddb::rcu::{load_clone, swap_ptr};

#[test]
#[allow(unused_mut)]
fn test_column_array_insertion() {
    let mut qsbr = QsbrManager::new();
    let mut col = ColumnArray::<u32, 1024>::new();
    col.acquire_lock();
    let mut next = load_clone(&col.data);
    let idx1 = next.len();
    next.push(42);
    let mut next2 = next.clone();
    let idx2 = next2.len();
    next2.push(100);
    let old = swap_ptr(&mut col.data, next2);
    qsbr.defer_free(old);
    col.release_lock();
    assert_eq!(idx1, 0);
    assert_eq!(idx2, 1);
    let val1 = col.get_element_pinned(0).unwrap();
    let val2 = col.get_element_pinned(1).unwrap();
    assert_eq!(val1, 42);
    assert_eq!(val2, 100);
}

#[test]
#[allow(unused_mut)]
fn column_test_column_array_insertion() {
    let mut qsbr = QsbrManager::new();
    let mut col = ColumnArray::<u32, 1024>::new();
    col.acquire_lock();
    let mut next = load_clone(&col.data);
    let idx1 = next.len();
    next.push(42);
    let mut next2 = next.clone();
    let idx2 = next2.len();
    next2.push(100);
    let old = swap_ptr(&mut col.data, next2);
    qsbr.defer_free(old);
    col.release_lock();
    assert_eq!(idx1, 0);
    assert_eq!(idx2, 1);
    let val1 = col.get_element_pinned(0).unwrap();
    let val2 = col.get_element_pinned(1).unwrap();
    assert_eq!(val1, 42);
    assert_eq!(val2, 100);
}

#[test]
#[allow(unused_mut)]
fn test_column_data_basics() {
    let mut cd = ColumnData::<u32>::new();
    assert!(cd.is_empty());
    assert_eq!(cd.len(), 0);
    cd.push(10);
    cd.push(20);
    cd.push(30);
    assert_eq!(cd.len(), 3);
    assert!(!cd.is_empty());
    assert_eq!(cd.get(0), Some(&10));
    assert_eq!(cd.get(1), Some(&20));
    assert_eq!(cd.get(2), Some(&30));
    assert_eq!(cd.get(3), None);
    assert!(cd.is_valid(0));
    assert!(cd.is_valid(1));
    assert!(cd.is_valid(2));
    assert!(!cd.is_valid(3));
    assert!(!cd.is_valid(1000));
}

#[test]
#[allow(unused_mut)]
fn column_test_column_data_basics() {
    let mut cd = ColumnData::<u32>::new();
    assert!(cd.is_empty());
    assert_eq!(cd.len(), 0);
    cd.push(10);
    cd.push(20);
    cd.push(30);
    assert_eq!(cd.len(), 3);
    assert!(!cd.is_empty());
    assert_eq!(cd.get(0), Some(&10));
    assert_eq!(cd.get(1), Some(&20));
    assert_eq!(cd.get(2), Some(&30));
    assert_eq!(cd.get(3), None);
    assert!(cd.is_valid(0));
    assert!(cd.is_valid(1));
    assert!(cd.is_valid(2));
    assert!(!cd.is_valid(3));
    assert!(!cd.is_valid(1000));
}

#[test]
#[allow(unused_mut)]
fn test_column_data_set_valid() {
    let mut cd = ColumnData::<u32>::new();
    cd.push(10);
    cd.push(20);
    cd.push(30);
    cd.set_valid(1, false);
    assert!(!cd.is_valid(1));
    assert_eq!(cd.get(1), None);
    cd.set_valid(1, true);
    assert!(cd.is_valid(1));
    assert_eq!(cd.get(1), Some(&20));
    cd.set_valid(200, true);
    assert!(cd.is_valid(200));
    cd.set_valid(200, false);
    assert!(!cd.is_valid(200));
}

#[test]
#[allow(unused_mut)]
fn column_test_column_data_set_valid() {
    let mut cd = ColumnData::<u32>::new();
    cd.push(10);
    cd.push(20);
    cd.push(30);
    cd.set_valid(1, false);
    assert!(!cd.is_valid(1));
    assert_eq!(cd.get(1), None);
    cd.set_valid(1, true);
    assert!(cd.is_valid(1));
    assert_eq!(cd.get(1), Some(&20));
    cd.set_valid(200, true);
    assert!(cd.is_valid(200));
    cd.set_valid(200, false);
    assert!(!cd.is_valid(200));
}

#[test]
#[allow(unused_mut)]
fn test_column_data_set() {
    let mut cd = ColumnData::<u32>::new();
    cd.set(5, 42);
    assert_eq!(cd.len(), 6);
    assert_eq!(cd.get(5), Some(&42));
    assert!(!cd.is_valid(0));
    assert!(!cd.is_valid(4));
    cd.set(5, 99);
    assert_eq!(cd.get(5), Some(&99));
}

#[test]
#[allow(unused_mut)]
fn column_test_column_data_set() {
    let mut cd = ColumnData::<u32>::new();
    cd.set(5, 42);
    assert_eq!(cd.len(), 6);
    assert_eq!(cd.get(5), Some(&42));
    assert!(!cd.is_valid(0));
    assert!(!cd.is_valid(4));
    cd.set(5, 99);
    assert_eq!(cd.get(5), Some(&99));
}

#[test]
#[allow(unused_mut)]
fn test_column_data_iter_skips_invalid() {
    let mut cd = ColumnData::<u32>::new();
    cd.push(10);
    cd.push(20);
    cd.push(30);
    cd.set_valid(1, false);
    let items: Vec<Option<&u32>> = cd.iter();
    assert_eq!(items.len(), 3);
    assert_eq!(items[0], Some(&10));
    assert_eq!(items[1], None);
    assert_eq!(items[2], Some(&30));
}

#[test]
#[allow(unused_mut)]
fn column_test_column_data_iter_skips_invalid() {
    let mut cd = ColumnData::<u32>::new();
    cd.push(10);
    cd.push(20);
    cd.push(30);
    cd.set_valid(1, false);
    let items: Vec<Option<&u32>> = cd.iter();
    assert_eq!(items.len(), 3);
    assert_eq!(items[0], Some(&10));
    assert_eq!(items[1], None);
    assert_eq!(items[2], Some(&30));
}

#[test]
#[allow(unused_mut)]
fn test_column_data_iter_empty() {
    let cd = ColumnData::<String>::new();
    let items: Vec<Option<&String>> = cd.iter();
    assert!(items.is_empty());
}

#[test]
#[allow(unused_mut)]
fn column_test_column_data_iter_empty() {
    let cd = ColumnData::<String>::new();
    let items: Vec<Option<&String>> = cd.iter();
    assert!(items.is_empty());
}

#[test]
#[allow(unused_mut)]
fn test_column_data_default() {
    let cd = ColumnData::<u32>::default();
    assert!(cd.is_empty());
}

#[test]
#[allow(unused_mut)]
fn column_test_column_data_default() {
    let cd = ColumnData::<u32>::default();
    assert!(cd.is_empty());
}

#[test]
#[allow(unused_mut)]
fn test_columns_new_and_default() {
    let cols = Columns::<1024>::new();
    assert!(cols.str_cols.is_empty());
    assert!(cols.int_cols.is_empty());
    assert!(cols.blob_cols.is_empty());
    let cols2 = Columns::<1024>::default();
    assert!(cols2.str_cols.is_empty());
}

#[test]
#[allow(unused_mut)]
fn column_test_columns_new_and_default() {
    let cols = Columns::<1024>::new();
    assert!(cols.str_cols.is_empty());
    assert!(cols.int_cols.is_empty());
    assert!(cols.blob_cols.is_empty());
    let cols2 = Columns::<1024>::default();
    assert!(cols2.str_cols.is_empty());
}

#[test]
#[allow(unused_mut)]
fn test_column_array_get_element_pinned() {
    let mut qsbr = QsbrManager::new();
    let mut col = ColumnArray::<u32, 1024>::new();
    col.acquire_lock();
    let mut next = load_clone(&col.data);
    next.push(100);
    next.push(200);
    let old = swap_ptr(&mut col.data, next);
    qsbr.defer_free(old);
    col.release_lock();
    assert_eq!(col.get_element_pinned(0), Some(100));
    assert_eq!(col.get_element_pinned(1), Some(200));
    assert_eq!(col.get_element_pinned(2), None);
}

#[test]
#[allow(unused_mut)]
fn column_test_column_array_get_element_pinned() {
    let mut qsbr = QsbrManager::new();
    let mut col = ColumnArray::<u32, 1024>::new();
    col.acquire_lock();
    let mut next = load_clone(&col.data);
    next.push(100);
    next.push(200);
    let old = swap_ptr(&mut col.data, next);
    qsbr.defer_free(old);
    col.release_lock();
    assert_eq!(col.get_element_pinned(0), Some(100));
    assert_eq!(col.get_element_pinned(1), Some(200));
    assert_eq!(col.get_element_pinned(2), None);
}

#[test]
#[allow(unused_mut)]
fn test_column_array_with_element_pinned() {
    let mut qsbr = QsbrManager::new();
    let mut col = ColumnArray::<String, 1024>::new();
    col.acquire_lock();
    let mut next = load_clone(&col.data);
    next.push("hello".into());
    next.push("world".into());
    let old = swap_ptr(&mut col.data, next);
    qsbr.defer_free(old);
    col.release_lock();
    let len = col.with_element_pinned(0, |s: &String| s.len());
    assert_eq!(len, Some(5));
    let none_result: Option<usize> = col.with_element_pinned(10, |s: &String| s.len());
    assert_eq!(none_result, None);
}

#[test]
#[allow(unused_mut)]
fn column_test_column_array_with_element_pinned() {
    let mut qsbr = QsbrManager::new();
    let mut col = ColumnArray::<String, 1024>::new();
    col.acquire_lock();
    let mut next = load_clone(&col.data);
    next.push("hello".into());
    next.push("world".into());
    let old = swap_ptr(&mut col.data, next);
    qsbr.defer_free(old);
    col.release_lock();
    let len = col.with_element_pinned(0, |s: &String| s.len());
    assert_eq!(len, Some(5));
    let none_result: Option<usize> = col.with_element_pinned(10, |s: &String| s.len());
    assert_eq!(none_result, None);
}

#[test]
#[allow(unused_mut)]
fn test_column_array_with_element() {
    let mut qsbr = QsbrManager::new();
    let mut col = ColumnArray::<u32, 1024>::new();
    col.acquire_lock();
    let mut next = load_clone(&col.data);
    next.push(42);
    let old = swap_ptr(&mut col.data, next);
    qsbr.defer_free(old);
    col.release_lock();
    let worker = WorkerState::new();
    let doubled = col.with_element(0, &worker, |v: &u32| *v * 2);
    assert_eq!(doubled, Some(84));
    let missing = col.with_element(5, &worker, |v: &u32| *v * 2);
    assert_eq!(missing, None);
}

#[test]
#[allow(unused_mut)]
fn column_test_column_array_with_element() {
    let mut qsbr = QsbrManager::new();
    let mut col = ColumnArray::<u32, 1024>::new();
    col.acquire_lock();
    let mut next = load_clone(&col.data);
    next.push(42);
    let old = swap_ptr(&mut col.data, next);
    qsbr.defer_free(old);
    col.release_lock();
    let worker = WorkerState::new();
    let doubled = col.with_element(0, &worker, |v: &u32| *v * 2);
    assert_eq!(doubled, Some(84));
    let missing = col.with_element(5, &worker, |v: &u32| *v * 2);
    assert_eq!(missing, None);
}

#[test]
#[allow(unused_mut)]
fn test_column_array_get_element_with_worker() {
    let mut qsbr = QsbrManager::new();
    let mut col = ColumnArray::<u32, 1024>::new();
    col.acquire_lock();
    let mut next = load_clone(&col.data);
    next.push(77);
    let old = swap_ptr(&mut col.data, next);
    qsbr.defer_free(old);
    col.release_lock();
    let worker = WorkerState::new();
    assert_eq!(col.get_element(0, &worker), Some(77));
    assert_eq!(col.get_element(1, &worker), None);
}

#[test]
#[allow(unused_mut)]
fn column_test_column_array_get_element_with_worker() {
    let mut qsbr = QsbrManager::new();
    let mut col = ColumnArray::<u32, 1024>::new();
    col.acquire_lock();
    let mut next = load_clone(&col.data);
    next.push(77);
    let old = swap_ptr(&mut col.data, next);
    qsbr.defer_free(old);
    col.release_lock();
    let worker = WorkerState::new();
    assert_eq!(col.get_element(0, &worker), Some(77));
    assert_eq!(col.get_element(1, &worker), None);
}

#[test]
#[allow(unused_mut)]
fn test_column_array_with_data() {
    let mut qsbr = QsbrManager::new();
    let mut col = ColumnArray::<u32, 1024>::new();
    col.acquire_lock();
    let mut next = load_clone(&col.data);
    next.push(1);
    next.push(2);
    next.push(3);
    let old = swap_ptr(&mut col.data, next);
    qsbr.defer_free(old);
    col.release_lock();
    let worker = WorkerState::new();
    let sum = col.with_data(&worker, |data: &ColumnData<u32>| data.iter().into_iter().flatten().sum::<u32>());
    assert_eq!(sum, 6);
}

#[test]
#[allow(unused_mut)]
fn column_test_column_array_with_data() {
    let mut qsbr = QsbrManager::new();
    let mut col = ColumnArray::<u32, 1024>::new();
    col.acquire_lock();
    let mut next = load_clone(&col.data);
    next.push(1);
    next.push(2);
    next.push(3);
    let old = swap_ptr(&mut col.data, next);
    qsbr.defer_free(old);
    col.release_lock();
    let worker = WorkerState::new();
    let sum = col.with_data(&worker, |data: &ColumnData<u32>| data.iter().into_iter().flatten().sum::<u32>());
    assert_eq!(sum, 6);
}

#[test]
#[allow(unused_mut)]
fn test_column_array_with_data_pinned() {
    let mut qsbr = QsbrManager::new();
    let mut col = ColumnArray::<u32, 1024>::new();
    col.acquire_lock();
    let mut next = load_clone(&col.data);
    next.push(10);
    next.push(20);
    let old = swap_ptr(&mut col.data, next);
    qsbr.defer_free(old);
    col.release_lock();
    let count = col.with_data_pinned(|data: &ColumnData<u32>| data.len());
    assert_eq!(count, 2);
}

#[test]
#[allow(unused_mut)]
fn column_test_column_array_with_data_pinned() {
    let mut qsbr = QsbrManager::new();
    let mut col = ColumnArray::<u32, 1024>::new();
    col.acquire_lock();
    let mut next = load_clone(&col.data);
    next.push(10);
    next.push(20);
    let old = swap_ptr(&mut col.data, next);
    qsbr.defer_free(old);
    col.release_lock();
    let count = col.with_data_pinned(|data: &ColumnData<u32>| data.len());
    assert_eq!(count, 2);
}

#[test]
#[allow(unused_mut)]
fn test_column_array_get_data_snapshot() {
    let mut qsbr = QsbrManager::new();
    let mut col = ColumnArray::<u32, 1024>::new();
    col.acquire_lock();
    let mut next = load_clone(&col.data);
    next.push(5);
    next.push(15);
    let old = swap_ptr(&mut col.data, next);
    qsbr.defer_free(old);
    col.release_lock();
    let worker = WorkerState::new();
    let snapshot = col.get_data_snapshot(&worker);
    assert_eq!(snapshot.len(), 2);
    assert_eq!(snapshot.get(0), Some(&5));
    assert_eq!(snapshot.get(1), Some(&15));
}

#[test]
#[allow(unused_mut)]
fn column_test_column_array_get_data_snapshot() {
    let mut qsbr = QsbrManager::new();
    let mut col = ColumnArray::<u32, 1024>::new();
    col.acquire_lock();
    let mut next = load_clone(&col.data);
    next.push(5);
    next.push(15);
    let old = swap_ptr(&mut col.data, next);
    qsbr.defer_free(old);
    col.release_lock();
    let worker = WorkerState::new();
    let snapshot = col.get_data_snapshot(&worker);
    assert_eq!(snapshot.len(), 2);
    assert_eq!(snapshot.get(0), Some(&5));
    assert_eq!(snapshot.get(1), Some(&15));
}

#[test]
#[allow(unused_mut)]
fn test_column_array_get_waitlist_snapshot() {
    let _qsbr = QsbrManager::new();
    let col = ColumnArray::<u32, 1024>::new();
    let worker = WorkerState::new();
    let wl = col.get_waitlist_snapshot(&worker);
    assert!(wl.is_empty());
}

#[test]
#[allow(unused_mut)]
fn column_test_column_array_get_waitlist_snapshot() {
    let _qsbr = QsbrManager::new();
    let col = ColumnArray::<u32, 1024>::new();
    let worker = WorkerState::new();
    let wl = col.get_waitlist_snapshot(&worker);
    assert!(wl.is_empty());
}

#[test]
#[allow(unused_mut)]
fn test_column_array_data_len() {
    let mut qsbr = QsbrManager::new();
    let mut col = ColumnArray::<u32, 1024>::new();
    let worker = WorkerState::new();
    assert_eq!(col.data_len(&worker), 0);
    col.acquire_lock();
    let mut next = load_clone(&col.data);
    next.push(1);
    let old = swap_ptr(&mut col.data, next);
    qsbr.defer_free(old);
    col.release_lock();
    assert_eq!(col.data_len(&worker), 1);
}

#[test]
#[allow(unused_mut)]
fn column_test_column_array_data_len() {
    let mut qsbr = QsbrManager::new();
    let mut col = ColumnArray::<u32, 1024>::new();
    let worker = WorkerState::new();
    assert_eq!(col.data_len(&worker), 0);
    col.acquire_lock();
    let mut next = load_clone(&col.data);
    next.push(1);
    let old = swap_ptr(&mut col.data, next);
    qsbr.defer_free(old);
    col.release_lock();
    assert_eq!(col.data_len(&worker), 1);
}

#[test]
#[allow(unused_mut)]
fn test_column_array_default() {
    let col = ColumnArray::<u32, 1024>::default();
    assert_eq!(col.get_element_pinned(0), None);
}

#[test]
#[allow(unused_mut)]
fn column_test_column_array_default() {
    let col = ColumnArray::<u32, 1024>::default();
    assert_eq!(col.get_element_pinned(0), None);
}
