use timelapse::checkpoint::{id_text, parse_id};
use timelapse::ipc::{
    decode_frame, encode_frame, find_pin, resolve_parsed, resolve_ref, resolve_refs, ErrorTag, FrameRead,
    Handled, IpcServer, Pin, Request, ResolveError, Response, Status,
};

#[test]
fn frame_round_trip() {
    let frame = encode_frame(b"hello").unwrap();
    assert_eq!(frame, vec![5, 0, 0, 0, b'h', b'e', b'l', b'l', b'o']);
    assert_eq!(decode_frame(&frame), FrameRead::Frame { payload: b"hello".to_vec(), consumed: 9 });

    let mut two = frame.clone();
    two.extend_from_slice(&encode_frame(b"").unwrap());
    assert_eq!(decode_frame(&two), FrameRead::Frame { payload: b"hello".to_vec(), consumed: 9 });
    assert_eq!(decode_frame(&two[9..]), FrameRead::Frame { payload: Vec::new(), consumed: 4 });
}

#[test]
fn incomplete_frames() {
    assert_eq!(decode_frame(b""), FrameRead::Incomplete { missing: 4 });
    assert_eq!(decode_frame(&[1, 0, 0]), FrameRead::Incomplete { missing: 1 });
    assert_eq!(decode_frame(&[3, 0, 0, 0, b'a']), FrameRead::Incomplete { missing: 2 });
    assert_eq!(decode_frame(&[0, 1, 0, 0]), FrameRead::Incomplete { missing: 256 });
}

fn ids() -> (u128, u128, Vec<u128>) {
    let c1 = parse_id("01HN8XYZAB1AAAAAAAAAAAAAAA").unwrap();
    let c2 = parse_id("01HN8XYZAB2AAAAAAAAAAAAAAA").unwrap();
    (c1, c2, vec![c1, c2])
}

#[test]
fn prefix_resolution() {
    let (c1, c2, all) = ids();
    let pins = Vec::new();
    assert_eq!(resolve_ref("01HN", &all, &pins), Err(ResolveError::Ambiguous { matches: 2 }));
    assert_eq!(resolve_ref("01HN8XYZAB1", &all, &pins), Ok(c1));
    assert_eq!(resolve_ref("01HN8XYZAB2", &all, &pins), Ok(c2));
    assert_eq!(resolve_ref("01HN8XYZAB3", &all, &pins), Err(ResolveError::NotFound));
    // shorter than four characters: no prefix
    assert_eq!(resolve_ref("01H", &all, &pins), Err(ResolveError::NotFound));

    let refs = vec!["01HN".to_string()];
    assert_eq!(resolve_refs(&refs, &all, &pins), Err(ResolveError::Ambiguous { matches: 2 }));
    let refs = vec!["01HN8XYZAB1".to_string(), "nothing".to_string()];
    assert_eq!(resolve_refs(&refs, &all, &pins), Ok(vec![Some(c1), None]));
}

#[test]
fn full_ids_and_pins() {
    let (c1, c2, all) = ids();
    let pins = vec![
        Pin { name: "keep".to_string(), id: c2 },
        Pin { name: "01HN".to_string(), id: c1 },
        Pin { name: "keep".to_string(), id: c1 },
    ];
    let text = String::from_utf8(id_text(c1)).unwrap();
    assert_eq!(resolve_ref(&text, &all, &pins), Ok(c1));
    // a full identifier that the journal lacks is not looked up as a pin
    assert_eq!(resolve_ref("01HN8XYZAB9AAAAAAAAAAAAAAA", &all, &pins), Err(ResolveError::NotFound));
    assert_eq!(resolve_ref("keep", &all, &pins), Ok(c2));
    assert_eq!(resolve_ref("kee", &all, &pins), Err(ResolveError::NotFound));
    // a prefix of several identifiers is ambiguous even where a pin has the name
    assert_eq!(resolve_ref("01HN", &all, &pins), Err(ResolveError::Ambiguous { matches: 2 }));
    assert_eq!(find_pin(&pins, b"keep"), Some(c2));
    assert_eq!(find_pin(&pins, b"none"), None);
}

#[test]
fn resolve_parsed_on_given_texts() {
    let ids = vec![10u128, 20, 30];
    let texts = vec![b"AAAA1".to_vec(), b"AAAB2".to_vec(), b"BBBB3".to_vec()];
    let pins = vec![Pin { name: "p".to_string(), id: 30 }];
    assert_eq!(resolve_parsed(Some(20), b"whatever", &ids, &texts, &pins), Ok(20));
    assert_eq!(resolve_parsed(Some(21), b"p", &ids, &texts, &pins), Err(ResolveError::NotFound));
    assert_eq!(resolve_parsed(None, b"AAAB", &ids, &texts, &pins), Ok(20));
    assert_eq!(resolve_parsed(None, b"BBBB3", &ids, &texts, &pins), Ok(30));
    assert_eq!(resolve_parsed(None, b"AAA", &ids, &texts, &pins), Err(ResolveError::NotFound));
    assert_eq!(resolve_parsed(None, b"p", &ids, &texts, &pins), Ok(30));
    let more = vec![b"AAAA1".to_vec(), b"AAAA2".to_vec(), b"AAAA3".to_vec()];
    assert_eq!(
        resolve_parsed(None, b"AAAA", &ids, &more, &pins),
        Err(ResolveError::Ambiguous { matches: 3 })
    );
}

fn sample_checkpoint(id: u128) -> timelapse::checkpoint::Checkpoint {
    timelapse::checkpoint::Checkpoint::new(
        id,
        7,
        None,
        timelapse::hash::Blake3Hash::from_bytes([1; 32]),
        timelapse::checkpoint::CheckpointReason::Manual,
        vec![b"a".to_vec(), b"b/c".to_vec()],
        timelapse::checkpoint::CheckpointMeta { files_changed: 2, bytes_added: 3, bytes_removed: 4 },
    )
}

#[test]
fn server_answers_batched_requests_in_one_response() {
    let (c1, c2, _) = ids();
    let mut journal = timelapse::journal::Journal::new();
    journal.append(sample_checkpoint(c1)).unwrap();
    journal.append(sample_checkpoint(c2)).unwrap();
    let pins = vec![Pin { name: "keep".to_string(), id: c1 }];
    let server = IpcServer::start(42, 1000);

    assert_eq!(
        server.handle_message(&Request::GetStatus, &journal, &pins, 0),
        Handled::Reply(Response::Status(Status {
            pid: 42,
            start_time_ms: 1000,
            checkpoints_created: 0,
            last_checkpoint_time: None,
            watcher_paths: 0,
        }))
    );
    assert_eq!(
        server.handle_message(&Request::GetStatusFull, &journal, &pins, 0),
        Handled::Reply(Response::StatusFull {
            status: server.status,
            latest: Some(sample_checkpoint(c2)),
            total_count: 2,
        })
    );
    assert_eq!(
        server.handle_message(&Request::GetCheckpointBatch(vec![c2, 5, c1]), &journal, &pins, 0),
        Handled::Reply(Response::Checkpoints(vec![
            Some(sample_checkpoint(c2)),
            None,
            Some(sample_checkpoint(c1)),
        ]))
    );
    assert_eq!(
        server.handle_message(&Request::GetInfo, &journal, &pins, 12345),
        Handled::Reply(Response::Info { count: 2, ordered_ids: vec![c1, c2], approx_store_bytes: 12345 })
    );
    let refs = Request::ResolveRefs(vec!["keep".to_string(), "01HN8XYZAB2".to_string(), "x".to_string()]);
    assert_eq!(
        server.handle_message(&refs, &journal, &pins, 0),
        Handled::Reply(Response::Refs(vec![Some(c1), Some(c2), None]))
    );
    let ambiguous = Request::ResolveRefs(vec!["01HN".to_string()]);
    assert_eq!(
        server.handle_message(&ambiguous, &journal, &pins, 0),
        Handled::Reply(Response::Failed(ErrorTag::Ambiguous))
    );
    assert_eq!(server.handle_message(&Request::Flush, &journal, &pins, 0), Handled::Flush);
    assert_eq!(server.handle_message(&Request::Shutdown, &journal, &pins, 0), Handled::Shutdown);
}

#[test]
fn an_empty_journal_has_no_latest() {
    let journal = timelapse::journal::Journal::new();
    let server = IpcServer::start(1, 2);
    assert_eq!(
        server.handle_message(&Request::GetStatusFull, &journal, &Vec::new(), 0),
        Handled::Reply(Response::StatusFull { status: server.status, latest: None, total_count: 0 })
    );
}

#[test]
fn duplicate_copies_a_checkpoint() {
    let c = sample_checkpoint(9);
    assert_eq!(c.duplicate(), c);
}
