use timelapse::watcher::{
    Coalescer, Debouncer, EventKind, Pending, PeriodicReconciler, ScannedFile, WatchEvent, WatchSignal,
    Watcher, WatcherAction, WatcherConfig, WatcherError,
};

fn pending(path: &[u8], kind: EventKind, due_ms: u64) -> Pending {
    Pending { path: path.to_vec(), kind, due_ms }
}

#[test]
fn events_for_one_path_fall_together() {
    let mut d = Debouncer::new(300);
    d.on_event(b"a", EventKind::Create, 1000);
    d.on_event(b"b", EventKind::Modify, 1100);
    d.on_event(b"a", EventKind::Modify, 1200);
    assert_eq!(d.pending, vec![pending(b"a", EventKind::Modify, 1500), pending(b"b", EventKind::Modify, 1400)]);
    // a rename does not change the kind, but restarts the quiet time
    d.on_event(b"b", EventKind::Rename, 1300);
    assert_eq!(d.pending[1], pending(b"b", EventKind::Modify, 1600));
    d.on_event(b"a", EventKind::Delete, 1300);
    assert_eq!(d.pending[0], pending(b"a", EventKind::Delete, 1600));
}

#[test]
fn drain_takes_what_is_due() {
    let mut d = Debouncer::new(300);
    d.on_event(b"a", EventKind::Create, 1000);
    d.on_event(b"b", EventKind::Modify, 1100);
    d.on_event(b"c", EventKind::Delete, 1000);
    assert_eq!(d.drain_due(1299), Vec::<Pending>::new());
    assert_eq!(
        d.drain_due(1300),
        vec![pending(b"a", EventKind::Create, 1300), pending(b"c", EventKind::Delete, 1300)]
    );
    assert_eq!(d.pending, vec![pending(b"b", EventKind::Modify, 1400)]);
    assert_eq!(d.drain_due(5000).len(), 1);
    assert!(d.pending.is_empty());
}

#[test]
fn due_time_saturates() {
    let mut d = Debouncer::new(10);
    d.on_event(b"a", EventKind::Create, u64::MAX - 3);
    assert_eq!(d.pending[0].due_ms, u64::MAX);
}

#[test]
fn coalescer_flushes_when_full_or_old() {
    let mut c = Coalescer::new(1000, 3);
    assert!(!c.should_flush(10_000));
    c.add(b"a", 100);
    c.add(b"a", 200);
    c.add(b"b", 300);
    assert_eq!(c.batch, vec![b"a".to_vec(), b"b".to_vec()]);
    assert_eq!(c.opened_at_ms, Some(100));
    assert!(!c.should_flush(1099));
    assert!(c.should_flush(1100));
    c.add(b"c", 400);
    assert!(c.should_flush(400));
    assert_eq!(c.flush(), vec![b"a".to_vec(), b"b".to_vec(), b"c".to_vec()]);
    assert!(c.batch.is_empty());
    assert_eq!(c.opened_at_ms, None);
    assert!(!c.should_flush(u64::MAX));
}

#[test]
fn watcher_signals() {
    let config = WatcherConfig { debounce_ms: 200, max_batch_age_ms: 1000, max_batch_size: 100 };
    let mut w = Watcher::new(b"/repo", config);
    assert_eq!(w.stop(), Err(WatcherError::NotRunning));
    assert_eq!(w.start(), Ok(()));
    assert_eq!(w.start(), Err(WatcherError::AlreadyRunning));

    let event = WatchSignal::Event(WatchEvent { path: b"a".to_vec(), kind: EventKind::Modify });
    assert_eq!(w.on_signal(&event, 10), WatcherAction::Wait);
    let renamed = WatchSignal::Renamed { from: b"a".to_vec(), to: b"b".to_vec() };
    assert_eq!(w.on_signal(&renamed, 20), WatcherAction::Wait);
    assert_eq!(
        w.debouncer.pending,
        vec![pending(b"a", EventKind::Delete, 220), pending(b"b", EventKind::Create, 220)]
    );
    assert_eq!(w.on_signal(&WatchSignal::Overflow, 30), WatcherAction::RescanAndReprime);
    assert_eq!(w.debouncer.pending.len(), 2);
    assert_eq!(w.stop(), Ok(()));
    assert!(!w.running);
}

#[test]
fn test_should_ignore_standard_paths() {
    assert!(PeriodicReconciler::should_ignore(b".tl/journal/db"));
    assert!(PeriodicReconciler::should_ignore(b".git/objects/ab/cd"));
    assert!(PeriodicReconciler::should_ignore(b".jj/op_store/data"));
    assert!(PeriodicReconciler::should_ignore(b"target/debug/app"));
    assert!(PeriodicReconciler::should_ignore(b"node_modules/pkg/index.js"));
    assert!(!PeriodicReconciler::should_ignore(b"src/main.rs"));
    assert!(PeriodicReconciler::should_ignore(b"a/.cache/x"));
    assert!(!PeriodicReconciler::should_ignore(b"src/targets/x"));
}

#[test]
fn scan_finds_files_newer_than_the_last_checkpoint() {
    let files = vec![
        ScannedFile { path: b"old.txt".to_vec(), mtime_ms: 999 },
        ScannedFile { path: b"same.txt".to_vec(), mtime_ms: 1000 },
        ScannedFile { path: b"new.txt".to_vec(), mtime_ms: 1001 },
        ScannedFile { path: b"target/new.o".to_vec(), mtime_ms: 5000 },
        ScannedFile { path: b"src/newer.rs".to_vec(), mtime_ms: 2000 },
    ];
    assert_eq!(
        PeriodicReconciler::scan_for_changes(&files, 1000),
        vec![b"new.txt".to_vec(), b"src/newer.rs".to_vec()]
    );
}

#[test]
fn scans_come_at_intervals() {
    let mut r = PeriodicReconciler::new(b"/repo", 300_000);
    assert!(r.scan_due(0));
    r.scanned(1_000);
    assert!(!r.scan_due(300_999));
    assert!(r.scan_due(301_000));
    assert!(!r.scan_due(500));
}

#[test]
fn overflow_then_scan_covers_the_lost_writes() {
    let config = WatcherConfig { debounce_ms: 200, max_batch_age_ms: 1000, max_batch_size: 1000 };
    let mut w = Watcher::new(b"/repo", config);
    w.start().unwrap();
    assert_eq!(w.on_signal(&WatchSignal::Overflow, 0), WatcherAction::RescanAndReprime);
    let files: Vec<ScannedFile> =
        (0..20).map(|n| ScannedFile { path: format!("f{}.txt", n).into_bytes(), mtime_ms: 50 }).collect();
    for path in PeriodicReconciler::scan_for_changes(&files, 10) {
        w.debouncer.on_event(&path, EventKind::Modify, 100);
    }
    for entry in w.debouncer.drain_due(300) {
        w.coalescer.add(&entry.path, 300);
    }
    assert!(w.coalescer.should_flush(1300));
    let batch = w.coalescer.flush();
    for n in 0..20 {
        assert!(batch.contains(&format!("f{}.txt", n).into_bytes()));
    }
}

#[test]
fn the_scan_keeps_a_file_that_only_has_a_directory_name() {
    assert!(!PeriodicReconciler::should_ignore(b"target"));
    assert!(!PeriodicReconciler::should_ignore(b"docs/node_modules"));
    assert!(PeriodicReconciler::should_ignore(b"docs/node_modules/x.js"));
    assert!(PeriodicReconciler::should_ignore(b".git"));
    assert!(PeriodicReconciler::should_ignore(b"sub/.git"));
}
