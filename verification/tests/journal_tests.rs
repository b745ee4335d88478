use timelapse::checkpoint::{id_text, id_timestamp_ms, parse_id, Checkpoint, CheckpointMeta, CheckpointReason};
use timelapse::hash::Blake3Hash;
use timelapse::journal::{Journal, JournalError, JournalRecord};

fn id_at(ts_ms: u64, n: u128) -> u128 {
    ((ts_ms as u128) << 80) | n
}

fn checkpoint(id: u128, parent: Option<u128>) -> Checkpoint {
    Checkpoint::new(
        id,
        id_timestamp_ms(id),
        parent,
        Blake3Hash::from_bytes([(id & 0xff) as u8; 32]),
        CheckpointReason::FsBatch,
        vec![b"a.txt".to_vec()],
        CheckpointMeta { files_changed: 1, bytes_added: 5, bytes_removed: 0 },
    )
}

#[test]
fn append_hands_out_dense_sequence_numbers() {
    let mut journal = Journal::new();
    assert_eq!(journal.count(), 0);
    assert!(journal.latest().is_none());
    let mut parent = None;
    for n in 1..=5u64 {
        let c = checkpoint(id_at(1000 + n, n as u128), parent);
        parent = Some(c.id);
        assert_eq!(journal.append(c.clone()), Ok(n));
        assert_eq!(journal.latest(), Some(&c));
        assert_eq!(journal.count(), n as usize);
        assert_eq!(journal.next_sequence(), n + 1);
    }
    assert_eq!(
        journal.all_checkpoint_ids(),
        (1..=5u64).map(|n| id_at(1000 + n, n as u128)).collect::<Vec<_>>()
    );
}

#[test]
fn append_refuses_a_known_id() {
    let mut journal = Journal::new();
    let c = checkpoint(id_at(1, 1), None);
    assert_eq!(journal.append(c.clone()), Ok(1));
    assert_eq!(journal.append(c.clone()), Err(JournalError::DuplicateId));
    assert_eq!(journal.count(), 1);
    assert_eq!(journal.next_sequence(), 2);
}

#[test]
fn get_finds_by_id() {
    let mut journal = Journal::new();
    let a = checkpoint(id_at(1, 1), None);
    let b = checkpoint(id_at(2, 2), Some(a.id));
    journal.append(a.clone()).unwrap();
    journal.append(b.clone()).unwrap();
    assert_eq!(journal.get(a.id), Some(&a));
    assert_eq!(journal.get(b.id), Some(&b));
    assert_eq!(journal.get(b.id).unwrap().parent, Some(a.id));
    assert_eq!(journal.get(id_at(3, 3)), None);
}

#[test]
fn last_n_gives_the_most_recent_oldest_first() {
    let mut journal = Journal::new();
    let all: Vec<Checkpoint> = (1..=4u64).map(|n| checkpoint(id_at(n, n as u128), None)).collect();
    for c in &all {
        journal.append(c.clone()).unwrap();
    }
    assert_eq!(journal.last_n(2), vec![&all[2], &all[3]]);
    assert_eq!(journal.last_n(0), Vec::<&Checkpoint>::new());
    assert_eq!(journal.last_n(10), all.iter().collect::<Vec<_>>());
}

#[test]
fn since_goes_by_the_time_in_the_id() {
    let mut journal = Journal::new();
    let all: Vec<Checkpoint> = [100u64, 200, 300].iter().map(|t| checkpoint(id_at(*t, *t as u128), None)).collect();
    for c in &all {
        journal.append(c.clone()).unwrap();
    }
    assert_eq!(journal.since(200), vec![&all[1], &all[2]]);
    assert_eq!(journal.since(201), vec![&all[2]]);
    assert_eq!(journal.since(0).len(), 3);
    assert_eq!(journal.since(301).len(), 0);
}

#[test]
fn delete_keeps_sequence_numbers_growing() {
    let mut journal = Journal::new();
    let a = checkpoint(id_at(1, 1), None);
    let b = checkpoint(id_at(2, 2), None);
    journal.append(a.clone()).unwrap();
    journal.append(b.clone()).unwrap();
    assert!(journal.delete(b.id));
    assert!(!journal.delete(b.id));
    assert_eq!(journal.count(), 1);
    assert_eq!(journal.get(b.id), None);
    assert_eq!(journal.latest(), Some(&a));
    let c = checkpoint(id_at(3, 3), None);
    assert_eq!(journal.append(c), Ok(3));
}

#[test]
fn open_rebuilds_from_records() {
    let records = vec![
        JournalRecord { seq: 3, checkpoint: checkpoint(id_at(1, 1), None) },
        JournalRecord { seq: 7, checkpoint: checkpoint(id_at(2, 2), None) },
    ];
    let mut journal = Journal::open(records.clone()).unwrap();
    assert_eq!(journal.count(), 2);
    assert_eq!(journal.next_sequence(), 8);
    assert_eq!(journal.record(1), &records[1]);
    assert_eq!(journal.append(checkpoint(id_at(3, 3), None)), Ok(8));

    let empty = Journal::open(Vec::new()).unwrap();
    assert_eq!(empty.next_sequence(), 1);
}

#[test]
fn open_reports_each_fault() {
    let a = checkpoint(id_at(1, 1), None);
    let b = checkpoint(id_at(2, 2), None);
    let out_of_order = vec![
        JournalRecord { seq: 2, checkpoint: a.clone() },
        JournalRecord { seq: 1, checkpoint: b.clone() },
    ];
    assert!(matches!(Journal::open(out_of_order), Err(JournalError::OutOfOrder)));
    let same_seq = vec![
        JournalRecord { seq: 2, checkpoint: a.clone() },
        JournalRecord { seq: 2, checkpoint: b.clone() },
    ];
    assert!(matches!(Journal::open(same_seq), Err(JournalError::OutOfOrder)));
    let same_id = vec![
        JournalRecord { seq: 1, checkpoint: a.clone() },
        JournalRecord { seq: 2, checkpoint: a.clone() },
    ];
    assert!(matches!(Journal::open(same_id), Err(JournalError::DuplicateId)));
    let full = vec![JournalRecord { seq: u64::MAX, checkpoint: a.clone() }];
    assert!(matches!(Journal::open(full), Err(JournalError::SequenceExhausted)));
}

#[test]
fn append_at_the_last_sequence_number_is_refused() {
    let a = checkpoint(id_at(1, 1), None);
    let mut journal = Journal::open(vec![JournalRecord { seq: u64::MAX - 1, checkpoint: a }]).unwrap();
    assert_eq!(journal.next_sequence(), u64::MAX);
    assert_eq!(journal.append(checkpoint(id_at(2, 2), None)), Err(JournalError::SequenceExhausted));
    assert_eq!(journal.count(), 1);
}

#[test]
fn id_text_round_trip() {
    let text = "01HXKJ7NVQW3Y2YMZK5VFZX3G8";
    let id = parse_id(text).unwrap();
    assert_eq!(String::from_utf8(id_text(id)).unwrap(), text);
}

#[test]
fn id_text_and_time() {
    let id = id_at(1_700_000_000_000, 42);
    assert_eq!(id_timestamp_ms(id), 1_700_000_000_000);
    let text = String::from_utf8(id_text(id)).unwrap();
    assert_eq!(text.len(), 26);
    assert_eq!(parse_id(&text), Some(id));
    assert_eq!(parse_id("not an id"), None);
    assert_eq!(parse_id(""), None);
    assert_eq!(id_text(0), b"00000000000000000000000000".to_vec());
    // the text order is the order of the identifiers
    let later = id_at(1_700_000_000_001, 0);
    assert!(id_text(id) < id_text(later));
}

#[test]
fn id_text_is_base_32_most_significant_digit_first() {
    assert_eq!(id_text(0x41414141414141414141414141414141), b"21850M2GA1850M2GA1850M2GA1".to_vec());
    assert_eq!(id_text(0x4d4e385051444a59454234335a413756), b"2D9RW50MA499CMAGHM6DD42DTP".to_vec());
    assert_eq!(id_text(31), b"0000000000000000000000000Z".to_vec());
    assert_eq!(id_text(32), b"00000000000000000000000010".to_vec());
    assert_eq!(id_text(u128::MAX), b"7ZZZZZZZZZZZZZZZZZZZZZZZZZ".to_vec());
    assert_eq!(parse_id("2d9rw50ma499cmaghm6dd42dtp"), Some(0x4d4e385051444a59454234335a413756));
}

#[test]
fn texts_sort_as_identifiers_do() {
    let ids = [0u128, 1, 31, 32, 1 << 80, (1 << 80) + 5, (7 << 80) | 3, u128::MAX - 1, u128::MAX];
    for pair in ids.windows(2) {
        assert!(id_text(pair[0]) < id_text(pair[1]));
    }
}

#[test]
fn parse_id_reads_26_digits_of_either_case() {
    assert_eq!(parse_id("00000000000000000000000000"), Some(0));
    assert_eq!(parse_id("0000000000000000000000000z"), Some(31));
    assert_eq!(parse_id("7ZZZZZZZZZZZZZZZZZZZZZZZZZ"), Some(u128::MAX));
    // bits beyond 128 are dropped
    assert_eq!(parse_id("80000000000000000000000000"), Some(0));
    assert_eq!(parse_id("ZZZZZZZZZZZZZZZZZZZZZZZZZZ"), Some(u128::MAX));
    // I, L, O and U are no digits
    for bad in ["I", "L", "O", "U", "i", "l", "o", "u", "-", " "] {
        assert_eq!(parse_id(&format!("0000000000000000000000000{}", bad)), None);
    }
    assert_eq!(parse_id("0000000000000000000000000"), None);
    assert_eq!(parse_id("000000000000000000000000000"), None);
    assert_eq!(parse_id("000000000000000000000000\u{e9}"), None);
    for id in [0u128, 1, 12345678901234567890, 1 << 127, u128::MAX] {
        assert_eq!(parse_id(&String::from_utf8(id_text(id)).unwrap()), Some(id));
    }
}
