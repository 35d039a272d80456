use chunkflow::catalog::FileEntry;
use chunkflow::human_size::format_size;
use chunkflow::pool::{WorkerContext, WorkerPool};

#[test]
fn pool_bounds_concurrency_at_two() {
    // two workers, three connection attempts: the third gets no worker
    // until one of the first two completes
    let mut pool = WorkerPool::new(2);
    let first = pool.dispatch().expect("a fresh pool has idle workers");
    let second = pool.dispatch().expect("one worker is still idle");
    assert_ne!(first, second);
    assert!(pool.dispatch().is_none());
    assert!(pool.dispatch().is_none());
    pool.complete(first);
    let third = pool.dispatch().expect("a completed worker serves again");
    assert_eq!(third, first);
    assert!(pool.dispatch().is_none());
}

#[test]
fn pool_hands_out_workers_in_announcement_order() {
    let mut pool = WorkerPool::new(3);
    assert_eq!(pool.dispatch(), Some(0));
    assert_eq!(pool.dispatch(), Some(1));
    pool.complete(0);
    assert_eq!(pool.dispatch(), Some(2));
    assert_eq!(pool.dispatch(), Some(0));
    assert_eq!(pool.dispatch(), None);
}

#[test]
fn zero_workers_never_dispatch() {
    let mut pool = WorkerPool::new(0);
    assert!(pool.dispatch().is_none());
}

#[test]
fn worker_context_copies_catalog_and_paths() {
    let files = vec![
        FileEntry { name: b"a".to_vec(), size: 1 },
        FileEntry { name: b"b".to_vec(), size: 2 },
    ];
    let paths = vec!["input/a".to_string(), "input/b".to_string()];
    let ctx = WorkerContext::new(&files, &paths);
    assert_eq!(ctx.file_list.len(), 2);
    assert_eq!(ctx.file_list[0].name, b"a".to_vec());
    assert_eq!(ctx.file_list[1].size, 2);
    assert_eq!(ctx.path_list, paths);
}

#[test]
fn format_size_buckets() {
    assert_eq!(format_size(0), "0B");
    assert_eq!(format_size(1), "1B");
    assert_eq!(format_size(1023), "1023B");
    assert_eq!(format_size(1024), "1KB");
    assert_eq!(format_size(2048), "2KB");
    assert_eq!(format_size(1048575), "1023KB");
    assert_eq!(format_size(1048576), "1MB");
    assert_eq!(format_size(1073741823), "1023MB");
    assert_eq!(format_size(1073741824), "1GB");
    // beyond gigabytes the suffix stays, the number grows
    assert_eq!(format_size(u64::MAX), "17179869183GB");
}
