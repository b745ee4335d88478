use timelapse::checkpoint::{Checkpoint, CheckpointMeta, CheckpointReason};
use timelapse::hash::{hash_bytes, Blake3Hash};
use timelapse::journal::Journal;
use timelapse::retention::{within_window, GarbageCollector, GcError, GcStats, RetentionPolicy};
use timelapse::tree::{Entry, Tree};

const HOUR: u64 = 3_600_000;

fn id(n: u64) -> u128 {
    ((n as u128) << 80) | n as u128
}

fn journal_of(count: u64, roots: &dyn Fn(u64) -> Blake3Hash) -> Journal {
    let mut journal = Journal::new();
    for n in 1..=count {
        let c = Checkpoint::new(
            id(n),
            n,
            if n == 1 { None } else { Some(id(n - 1)) },
            roots(n),
            CheckpointReason::FsBatch,
            Vec::new(),
            CheckpointMeta { files_changed: 0, bytes_added: 0, bytes_removed: 0 },
        );
        journal.append(c).unwrap();
    }
    journal
}

#[test]
fn default_policy() {
    let policy = RetentionPolicy::default();
    assert_eq!(policy.retain_count, 2000);
    assert_eq!(policy.retain_hours, 24);
    assert!(policy.retain_pins);
    assert_eq!(GarbageCollector::new(policy).policy(), policy);
}

#[test]
fn pin_and_recent_checkpoints_survive() {
    let journal = journal_of(50, &|n| Blake3Hash::from_bytes([n as u8; 32]));
    let gc = GarbageCollector::new(RetentionPolicy { retain_count: 5, retain_hours: 1, retain_pins: true });
    // long after the window of every checkpoint
    let now = 100 * HOUR;
    let plan = gc.collect(&journal, &[id(10)], &[], now).unwrap();
    assert_eq!(plan.keep, vec![id(10), id(46), id(47), id(48), id(49), id(50)]);
    let expected: Vec<u128> = (1..=45u64).filter(|n| *n != 10).map(id).collect();
    assert_eq!(plan.delete, expected);
    assert_eq!(plan.keep.len() + plan.delete.len(), 50);
    let stats = GarbageCollector::stats(&plan, &[100, 20], &[1, 2, 3]);
    assert_eq!(
        stats,
        GcStats { checkpoints_deleted: 44, trees_deleted: 2, blobs_deleted: 3, bytes_freed: 126 }
    );

    // carry the plan out
    let mut journal = journal;
    for gone in &plan.delete {
        assert!(journal.delete(*gone));
    }
    assert!(journal.get(id(10)).is_some());
    for n in 46..=50 {
        assert!(journal.get(id(n)).is_some());
    }
    for n in (1..=9).chain(11..=45) {
        assert!(journal.get(id(n)).is_none());
    }
    assert_eq!(journal.count(), 6);
}

#[test]
fn unreferenced_blobs_are_swept() {
    let shared = hash_bytes(b"shared");
    let only_30 = hash_bytes(b"only in 30");
    let only_50 = hash_bytes(b"only in 50");
    let mut t10 = Tree::new();
    t10.insert(b"shared.txt", Entry::file(0o644, shared));
    let mut t30 = Tree::new();
    t30.insert(b"own.txt", Entry::file(0o644, only_30));
    let mut t50 = Tree::new();
    t50.insert(b"shared.txt", Entry::file(0o644, shared));
    t50.insert(b"own.txt", Entry::file(0o644, only_50));

    // 10 and 50 are kept, 30 is not
    let live = GarbageCollector::mark(&vec![t10.clone(), t50.clone()]);
    assert!(live.contains(&shared));
    assert!(live.contains(&only_50));
    assert!(!live.contains(&only_30));

    let stored = vec![only_30, shared, only_50];
    assert_eq!(GarbageCollector::sweep(&stored, &live), vec![only_30]);

    let stored_trees = vec![t10.hash(), t30.hash(), t50.hash()];
    let live_trees = vec![t10.hash(), t50.hash()];
    assert_eq!(GarbageCollector::sweep(&stored_trees, &live_trees), vec![t30.hash()]);
    assert_eq!(GarbageCollector::mark(&Vec::new()), Vec::<Blake3Hash>::new());
}

#[test]
fn dangling_pin_stops_the_collection() {
    let journal = journal_of(3, &|n| Blake3Hash::from_bytes([n as u8; 32]));
    let gc = GarbageCollector::new(RetentionPolicy { retain_count: 1, retain_hours: 1, retain_pins: true });
    assert_eq!(
        gc.collect(&journal, &[id(2), id(77), id(88)], &[], 100 * HOUR),
        Err(GcError::DanglingPin { id: id(77) })
    );
}

#[test]
fn external_references_are_roots() {
    let journal = journal_of(4, &|n| Blake3Hash::from_bytes([n as u8; 32]));
    let gc = GarbageCollector::new(RetentionPolicy { retain_count: 1, retain_hours: 1, retain_pins: false });
    let plan = gc.collect(&journal, &[id(1)], &[id(2), id(99)], 100 * HOUR).unwrap();
    // pins are not kept under this policy; the outside reference is
    assert_eq!(plan.keep, vec![id(2), id(4)]);
    assert_eq!(plan.delete, vec![id(1), id(3)]);
}

#[test]
fn the_window_keeps_recent_checkpoints() {
    let journal = journal_of(4, &|n| Blake3Hash::from_bytes([n as u8; 32]));
    let gc = GarbageCollector::new(RetentionPolicy { retain_count: 0, retain_hours: 2, retain_pins: true });
    // checkpoints were made at 1, 2, 3 and 4 ms
    let plan = gc.collect(&journal, &[], &[], 2 * HOUR + 3).unwrap();
    assert_eq!(plan.keep, vec![id(3), id(4)]);
    assert_eq!(plan.delete, vec![id(1), id(2)]);

    let unlimited = GarbageCollector::new(RetentionPolicy { retain_count: 0, retain_hours: 0, retain_pins: false });
    let plan = unlimited.collect(&journal, &[], &[], u64::MAX).unwrap();
    assert_eq!(plan.keep.len(), 4);
    assert!(plan.delete.is_empty());
}

#[test]
fn window_arithmetic() {
    assert!(within_window(0, HOUR, 1));
    assert!(!within_window(0, HOUR + 1, 1));
    assert!(within_window(5, u64::MAX, 0));
    assert!(within_window(u64::MAX, u64::MAX, u64::MAX));
    assert!(!within_window(0, u64::MAX, 1));
}

#[test]
fn stats_of_an_empty_collection() {
    let journal = journal_of(2, &|n| Blake3Hash::from_bytes([n as u8; 32]));
    let gc = GarbageCollector::new(RetentionPolicy::default());
    let plan = gc.collect(&journal, &[], &[], 10).unwrap();
    assert_eq!(
        GarbageCollector::stats(&plan, &[], &[]),
        GcStats { checkpoints_deleted: 0, trees_deleted: 0, blobs_deleted: 0, bytes_freed: 0 }
    );
    assert_eq!(GarbageCollector::stats(&plan, &[u64::MAX], &[1]).bytes_freed, u64::MAX);
}
