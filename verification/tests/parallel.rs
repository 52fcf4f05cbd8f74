use pmi::parallel::{parallel_for_each, parallel_map, restore_order, worker_count};
use std::sync::atomic::{AtomicUsize, Ordering};
use std::sync::Arc;

#[test]
fn test_parallel_map() {
    let items: Vec<i32> = (1..=10).collect();
    let results = parallel_map(items, |x| x * 2, 4);

    assert_eq!(results.len(), 10);
    for (i, &r) in results.iter().enumerate() {
        assert_eq!(r, ((i + 1) * 2) as i32);
    }
}

#[test]
fn test_parallel_map_empty() {
    let items: Vec<i32> = vec![];
    let results = parallel_map(items, |x| x * 2, 4);
    assert!(results.is_empty());
}

#[test]
fn test_parallel_map_single_thread() {
    let items: Vec<i32> = (1..=5).collect();
    let results = parallel_map(items, |x| x + 1, 1);

    assert_eq!(results, vec![2, 3, 4, 5, 6]);
}

#[test]
fn test_parallel_for_each() {
    let items: Vec<i32> = (1..=10).collect();
    let processed = Arc::new(AtomicUsize::new(0));
    let callbacks = Arc::new(AtomicUsize::new(0));

    let processed_clone = Arc::clone(&processed);
    let callbacks_clone = Arc::clone(&callbacks);

    parallel_for_each(
        items,
        move |_| {
            processed_clone.fetch_add(1, Ordering::SeqCst);
        },
        move || {
            callbacks_clone.fetch_add(1, Ordering::SeqCst);
        },
        4,
    );

    assert_eq!(processed.load(Ordering::SeqCst), 10);
    assert_eq!(callbacks.load(Ordering::SeqCst), 10);
}

#[test]
fn parallel_map_keeps_the_order_for_every_thread_count() {
    let n = 12;
    let expected: Vec<u32> = (1..=n).map(|x| 2 * x).collect();
    for threads in [1usize, 2, n as usize] {
        let items: Vec<u32> = (1..=n).collect();
        assert_eq!(parallel_map(items, |x| 2 * x, threads), expected);
    }
}

#[test]
fn parallel_map_with_zero_threads_runs_in_the_caller() {
    assert_eq!(parallel_map(vec![1, 2, 3], |x| x + 1, 0), vec![2, 3, 4]);
}

#[test]
fn worker_count_is_bounded_by_items_and_threads() {
    assert_eq!(worker_count(0, 8), 0);
    assert_eq!(worker_count(2, 8), 0);
    assert_eq!(worker_count(3, 1), 0);
    assert_eq!(worker_count(3, 0), 0);
    assert_eq!(worker_count(3, 2), 2);
    assert_eq!(worker_count(3, 8), 3);
    assert_eq!(worker_count(10, 4), 4);
}

#[test]
fn restore_order_sorts_by_submission_index() {
    let tagged = vec![(2usize, "c"), (0, "a"), (3, "d"), (1, "b")];
    assert_eq!(restore_order(tagged), Some(vec!["a", "b", "c", "d"]));
    assert_eq!(restore_order(Vec::<(usize, u8)>::new()), Some(vec![]));
}

#[test]
fn restore_order_rejects_what_is_no_permutation() {
    assert_eq!(restore_order(vec![(0usize, 1), (0, 2)]), None);
    assert_eq!(restore_order(vec![(1usize, 1), (2, 2)]), None);
}

#[test]
fn for_each_runs_in_order() {
    let seen = Arc::new(std::sync::Mutex::new(Vec::new()));
    let sink = Arc::clone(&seen);
    parallel_for_each(vec![3, 1, 2], move |x| sink.lock().unwrap().push(x), || {}, 1);
    assert_eq!(*seen.lock().unwrap(), vec![3, 1, 2]);
}
