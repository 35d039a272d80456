use chunkflow::catalog::{decode_catalog, encode_catalog, FileEntry};
use chunkflow::chunk::Chunk;
use chunkflow::control::priority_of_keyword;
use chunkflow::session::{run_round, Action, Session};

/// Drive one full round between a server session and a client session in
/// lockstep, over in-memory files, delivering into the client's outputs.
fn drive_round(
    server: &mut Session,
    client: &mut Session,
    files: &[Vec<u8>],
    outputs: &mut Vec<Vec<u8>>,
    desired: &[u8],
) {
    let activated_client = client.begin_round(desired);
    // the client sends its merged vector; the server merges the same values
    let wire = client.priorities.clone();
    let activated_server = server.begin_round(&wire);
    assert_eq!(activated_client, activated_server);
    assert_eq!(server.priorities, client.priorities);

    let mut offsets = vec![0usize; files.len()];
    loop {
        let server_action = server.next_action();
        let client_action = client.next_action();
        match (server_action, client_action) {
            (Action::RoundDone, Action::RoundDone) => break,
            (Action::Open(i), Action::Open(j)) => {
                assert_eq!(i, j);
                server.mark_opened(i);
                client.mark_opened(j);
            }
            (Action::Exchange(i), Action::Exchange(j)) => {
                assert_eq!(i, j);
                // server side: read up to one chunk from the file, frame it
                let chunk = Chunk::from_source(&files[i], offsets[i]);
                offsets[i] += chunk.len;
                let frame = chunk.encode();
                // client side: decode the frame, append the payload
                let (received, used) = Chunk::decode(&frame, 0).expect("frame must decode");
                assert_eq!(used, frame.len());
                let terminal = received.append_to(&mut outputs[j]);
                let len = received.len;
                let fin_server = server.record_chunk(i, chunk.len);
                let fin_client = client.record_chunk(j, len);
                assert_eq!(fin_server, fin_client);
                assert_eq!(terminal, fin_client);
            }
            (s, c) => panic!("sessions disagree: {s:?} vs {c:?}"),
        }
    }
    assert_eq!(server.to_download, 0);
    assert_eq!(client.to_download, 0);
}

#[test]
fn end_to_end_two_files_one_round() {
    // the server offers a.txt (2048 bytes) and b.txt (500 bytes)
    let a: Vec<u8> = (0..2048).map(|i| (i % 256) as u8).collect();
    let b: Vec<u8> = (0..500).map(|i| (i % 97) as u8).collect();
    let catalog = vec![
        FileEntry { name: b"a.txt".to_vec(), size: a.len() as u64 },
        FileEntry { name: b"b.txt".to_vec(), size: b.len() as u64 },
    ];

    // catalog handshake over the wire
    let wire = encode_catalog(&catalog);
    let (client_catalog, _) = decode_catalog(&wire).expect("catalog must decode");
    assert_eq!(client_catalog.len(), 2);
    assert_eq!(client_catalog[0].name, b"a.txt".to_vec());
    assert_eq!(client_catalog[1].size, 500);

    // the control file says: a.txt CRITICAL, b.txt NORMAL
    let mut desired = vec![0u8; 2];
    desired[0] = priority_of_keyword("CRITICAL").unwrap();
    desired[1] = priority_of_keyword("NORMAL").unwrap();
    assert_eq!(desired, vec![10, 1]);

    let mut server = Session::new(catalog.len());
    let mut client = Session::new(client_catalog.len());
    let files = [a.clone(), b.clone()];
    let mut outputs = vec![Vec::new(), Vec::new()];

    drive_round(&mut server, &mut client, &files, &mut outputs, &desired);

    // both output files are byte-identical to the originals, and the
    // round ended only once both were done
    assert_eq!(outputs[0], a);
    assert_eq!(outputs[1], b);
    assert!(client.done.iter().all(|d| *d));
    assert!(client.opened.iter().all(|o| !*o));
}

#[test]
fn second_round_activates_only_new_files() {
    let files = [vec![1u8; 100], vec![2u8; 200], vec![3u8; 1500]];
    let mut server = Session::new(3);
    let mut client = Session::new(3);
    let mut outputs = vec![Vec::new(), Vec::new(), Vec::new()];

    // first round: only the second file
    drive_round(&mut server, &mut client, &files, &mut outputs, &[0, 4, 0]);
    assert_eq!(outputs[1], files[1]);
    assert!(outputs[0].is_empty() && outputs[2].is_empty());

    // second round: an edit adds the other two and tries to change the
    // second file's weight, which stays as first adopted
    drive_round(&mut server, &mut client, &files, &mut outputs, &[1, 10, 1]);
    assert_eq!(client.priorities, vec![1, 4, 1]);
    assert_eq!(outputs[0], files[0]);
    assert_eq!(outputs[1], files[1]);
    assert_eq!(outputs[2], files[2]);
}

#[test]
fn idle_round_transfers_nothing() {
    let mut server = Session::new(2);
    let mut client = Session::new(2);
    let files = [vec![0u8; 10], vec![0u8; 10]];
    let mut outputs = vec![Vec::new(), Vec::new()];
    drive_round(&mut server, &mut client, &files, &mut outputs, &[0, 0]);
    assert!(outputs[0].is_empty() && outputs[1].is_empty());
}

#[test]
fn in_memory_round_reproduces_activated_files() {
    let files = vec![
        (0..2048u32).map(|i| (i % 251) as u8).collect::<Vec<u8>>(),
        vec![42u8; 500],
        vec![7u8; 3000],
    ];
    let mut s = Session::new(3);
    s.begin_round(&[10, 1, 0]);
    let mut outputs = vec![Vec::new(), Vec::new(), vec![0xEEu8; 3]];
    run_round(&mut s, &files, &mut outputs);
    assert_eq!(outputs[0], files[0]);
    assert_eq!(outputs[1], files[1]);
    // the paused file keeps whatever its output slot held
    assert_eq!(outputs[2], vec![0xEE; 3]);
    assert_eq!(s.to_download, 0);
    assert!(s.done[0] && s.done[1] && !s.done[2]);
}

#[test]
fn scheduler_walks_catalog_in_index_order() {
    // weights [2, 0, 1]: per pass, two chunks for the first file, none for
    // the paused one, one for the third
    let mut s = Session::new(3);
    s.begin_round(&[2, 0, 1]);
    let expect = [0usize, 0, 2, 0, 0, 2];
    for (step, want) in expect.iter().enumerate() {
        match s.next_action() {
            Action::Open(i) => {
                assert_eq!(i, *want, "step {step}");
                s.mark_opened(i);
                // opening does not consume the exchange
                match s.next_action() {
                    Action::Exchange(j) => {
                        assert_eq!(j, *want);
                        s.record_chunk(j, 1024);
                    }
                    other => panic!("expected an exchange, got {other:?}"),
                }
            }
            Action::Exchange(i) => {
                assert_eq!(i, *want, "step {step}");
                s.record_chunk(i, 1024);
            }
            Action::RoundDone => panic!("round ended early at step {step}"),
        }
    }
    // terminal chunks end both files and the round
    match s.next_action() {
        Action::Exchange(0) => {
            s.record_chunk(0, 10);
        }
        other => panic!("expected file 0, got {other:?}"),
    }
    match s.next_action() {
        Action::Exchange(2) => {
            s.record_chunk(2, 0);
        }
        other => panic!("expected file 2, got {other:?}"),
    }
    assert!(matches!(s.next_action(), Action::RoundDone));
}

#[test]
fn control_keywords_map_to_weights() {
    assert_eq!(priority_of_keyword("NORMAL"), Some(1));
    assert_eq!(priority_of_keyword("HIGH"), Some(4));
    assert_eq!(priority_of_keyword("CRITICAL"), Some(10));
    assert_eq!(priority_of_keyword("URGENT"), None);
    assert_eq!(priority_of_keyword("normal"), None);
    assert_eq!(priority_of_keyword(""), None);
}
