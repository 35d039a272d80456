use chunkflow::priority_list;
use chunkflow::schedule::{run_pass, run_transfer, serve_file, TransferState};

#[test]
fn merge_adopts_only_paused_slots() {
    let mut current = priority_list::new(4);
    assert_eq!(current, vec![0, 0, 0, 0]);
    let activated = priority_list::merge(&mut current, &[0, 4, 0, 1]);
    assert_eq!(activated, 2);
    assert_eq!(current, vec![0, 4, 0, 1]);
    // a second merge touches only the slots still at zero
    let activated = priority_list::merge(&mut current, &[10, 10, 0, 10]);
    assert_eq!(activated, 1);
    assert_eq!(current, vec![10, 4, 0, 1]);
}

#[test]
fn merge_same_slot_twice_keeps_first_weight() {
    let mut current = priority_list::new(3);
    let activated = priority_list::merge(&mut current, &[0, 1, 0]);
    assert_eq!(activated, 1);
    assert_eq!(current[1], 1);
    let activated = priority_list::merge(&mut current, &[0, 10, 0]);
    assert_eq!(activated, 0);
    assert_eq!(current[1], 1);
}

#[test]
fn merge_of_zero_vector_changes_nothing() {
    let mut current = vec![3u8, 0, 7];
    let activated = priority_list::merge(&mut current, &[0, 0, 0]);
    assert_eq!(activated, 0);
    assert_eq!(current, vec![3, 0, 7]);
}

#[test]
fn serve_file_chunk_lengths() {
    // one pass of quantum 3 over a 2048-byte file: two full chunks, then
    // the empty terminal chunk
    let (chunks, rem, finished) = serve_file(2048, 3);
    assert_eq!(chunks, vec![1024, 1024, 0]);
    assert_eq!(rem, 0);
    assert!(finished);
    // quantum exhausted before the terminal chunk
    let (chunks, rem, finished) = serve_file(2048, 2);
    assert_eq!(chunks, vec![1024, 1024]);
    assert_eq!(rem, 0);
    assert!(!finished);
    let (chunks, _, finished) = serve_file(500, 1);
    assert_eq!(chunks, vec![500]);
    assert!(finished);
}

#[test]
fn zero_byte_file_is_one_terminal_chunk() {
    let (chunks, rem, finished) = serve_file(0, 4);
    assert_eq!(chunks, vec![0]);
    assert_eq!(rem, 0);
    assert!(finished);

    let mut st = TransferState::start(vec![0], vec![1]);
    let (passes, finish_pass) = run_transfer(&mut st);
    assert_eq!(passes.len(), 1);
    assert_eq!(passes[0].len(), 1);
    assert_eq!(passes[0][0].idx, 0);
    assert_eq!(passes[0][0].len, 0);
    assert_eq!(finish_pass, vec![1]);
}

#[test]
fn weighted_service_equal_sizes() {
    // two files of 4096 bytes (five chunks each), weights 1 and 4
    let mut st = TransferState::start(vec![4096, 4096], vec![1, 4]);
    let (passes, finish_pass) = run_transfer(&mut st);
    // the weight-4 file finishes in pass 2, the weight-1 file in pass 5
    assert_eq!(finish_pass, vec![5, 2]);
    assert!(finish_pass[1] < finish_pass[0]);
    assert_eq!(passes.len(), 5);
    // in the first pass the weight-4 file gets four chunks for one
    let first: Vec<(usize, u64)> = passes[0].iter().map(|e| (e.idx, e.len)).collect();
    assert_eq!(
        first,
        vec![(0, 1024), (1, 1024), (1, 1024), (1, 1024), (1, 1024)]
    );
    // before the weight-1 file finishes, the weight-4 file got all five
    // of its chunks against four for the other: the 4x ratio, capped by
    // the file's own size
    let to_heavy: usize = passes[..4]
        .iter()
        .flatten()
        .filter(|e| e.idx == 1)
        .count();
    let to_light: usize = passes[..4]
        .iter()
        .flatten()
        .filter(|e| e.idx == 0)
        .count();
    assert_eq!(to_heavy, 5);
    assert_eq!(to_light, 4);
}

#[test]
fn paused_and_done_files_are_never_served() {
    let mut st = TransferState::start(vec![100, 2048, 300], vec![1, 0, 1]);
    let (passes, finish_pass) = run_transfer(&mut st);
    assert_eq!(finish_pass, vec![1, 0, 1]);
    for pass in &passes {
        for e in pass {
            assert_ne!(e.idx, 1);
        }
    }
    assert_eq!(st.remaining[1], 2048);
    assert!(!st.done[1]);
}

#[test]
fn pass_serves_in_index_order() {
    let mut st = TransferState::start(vec![3000, 3000], vec![2, 2]);
    let events = run_pass(&mut st);
    let seen: Vec<(usize, u64)> = events.iter().map(|e| (e.idx, e.len)).collect();
    assert_eq!(seen, vec![(0, 1024), (0, 1024), (1, 1024), (1, 1024)]);
    assert_eq!(st.remaining, vec![3000 - 2048, 3000 - 2048]);
    assert_eq!(st.to_download, 2);
}
