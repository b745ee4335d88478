//! From raw file events to batches of dirty paths: the debouncer, the
//! coalescer, and what the periodic reconciler decides.

use vstd::prelude::*;
use vstd::slice::slice_to_vec;
use crate::path_order::same_bytes;
use crate::store::{
    has_component, has_dir_component, path_has_component, path_has_dir_component, DIR_GIT, DIR_JJ,
    DIR_TL,
};

verus! {

/// Kind of a file system event.
#[derive(Debug, Clone, Copy, PartialEq, Eq, Structural)]
pub enum EventKind {
    /// File created
    Create,
    /// File modified
    Modify,
    /// File deleted
    Delete,
    /// File renamed
    Rename,
}

/// A file system event.
#[derive(Debug, Clone, PartialEq, Eq)]
pub struct WatchEvent {
    /// Path that changed
    pub path: Vec<u8>,
    /// Kind of change
    pub kind: EventKind,
}

/// What the platform's watcher hands over.
#[derive(Debug, Clone, PartialEq, Eq)]
pub enum WatchSignal {
    /// One event.
    Event(WatchEvent),
    /// A rename, which counts as a deletion of the old path and a creation of the new.
    Renamed { from: Vec<u8>, to: Vec<u8> },
    /// Events were lost.
    Overflow,
}

/// What the watcher asks its driver to do after a signal.
#[derive(Debug, Clone, Copy, PartialEq, Eq, Structural)]
pub enum WatcherAction {
    /// Nothing.
    Wait,
    /// Scan the working tree now and subscribe again.
    RescanAndReprime,
}

/// A path that waits for its quiet time to pass.
#[derive(Debug, Clone, PartialEq, Eq)]
pub struct Pending {
    pub path: Vec<u8>,
    pub kind: EventKind,
    pub due_ms: u64,
}

/// A pending path as a mathematical value.
pub struct PendingView {
    pub path: Seq<u8>,
    pub kind: EventKind,
    pub due_ms: u64,
}

impl View for Pending {
    type V = PendingView;

    open spec fn view(&self) -> PendingView {
        PendingView { path: self.path@, kind: self.kind, due_ms: self.due_ms }
    }
}

/// The mathematical value of a list of pending paths.
pub open spec fn pending_view(p: Seq<Pending>) -> Seq<PendingView> {
    Seq::new(p.len(), |i: int| p[i]@)
}

/// The kind of two events on one path taken together: the later one's,
/// unless that is a rename.
pub open spec fn merged_kind(earlier: EventKind, later: EventKind) -> EventKind {
    if later == EventKind::Rename {
        earlier
    } else {
        later
    }
}

/// `now_ms` plus the delay, or the largest time where that does not fit.
pub open spec fn due_time(now_ms: u64, delay_ms: u64) -> u64 {
    if now_ms + delay_ms > u64::MAX {
        u64::MAX
    } else {
        (now_ms + delay_ms) as u64
    }
}

/// No two pending entries are for one path.
pub open spec fn distinct_paths(p: Seq<PendingView>) -> bool {
    forall|i: int, j: int| 0 <= i < j < p.len() ==> p[i].path != p[j].path
}

/// The position of the pending entry for a path, where there is one.
pub open spec fn pending_at(p: Seq<PendingView>, path: Seq<u8>, i: int) -> bool {
    0 <= i < p.len() && p[i].path == path
}

/// The pending list after an event: the entry of the path takes the merged
/// kind and a new due time; a path without an entry gets one at the end.
pub open spec fn after_event(
    p: Seq<PendingView>,
    path: Seq<u8>,
    kind: EventKind,
    now_ms: u64,
    delay_ms: u64,
) -> Seq<PendingView> {
    if exists|i: int| pending_at(p, path, i) {
        let i = choose|i: int| pending_at(p, path, i);
        p.update(i, PendingView { path, kind: merged_kind(p[i].kind, kind), due_ms: due_time(now_ms, delay_ms) })
    } else {
        p.push(PendingView { path, kind, due_ms: due_time(now_ms, delay_ms) })
    }
}

/// The entries that are due at `now_ms` (`due` set) or are not (`due`
/// unset), in order.
pub open spec fn split_due(p: Seq<PendingView>, now_ms: u64, due: bool) -> Seq<PendingView>
    decreases p.len(),
{
    if p.len() == 0 {
        Seq::empty()
    } else if (p.last().due_ms <= now_ms) == due {
        split_due(p.drop_last(), now_ms, due).push(p.last())
    } else {
        split_due(p.drop_last(), now_ms, due)
    }
}

/// Holds each changed path until no event has come for it for the delay.
pub struct Debouncer {
    pub delay_ms: u64,
    pub pending: Vec<Pending>,
}

impl View for Debouncer {
    type V = Seq<PendingView>;

    open spec fn view(&self) -> Seq<PendingView> {
        pending_view(self.pending@)
    }
}

impl Debouncer {
    /// The debouncer's invariant: one entry per path.
    pub open spec fn wf(&self) -> bool {
        distinct_paths(self@)
    }

    /// A debouncer with nothing pending.
    pub fn new(delay_ms: u64) -> (d: Self)
        ensures
            d.wf(),
            d.delay_ms == delay_ms,
            d@.len() == 0,
    {
        Debouncer { delay_ms, pending: Vec::new() }
    }

    /// Takes an event for a path at time `now_ms`. Events for one path
    /// within the delay fall together into one entry.
    pub fn on_event(&mut self, path: &[u8], kind: EventKind, now_ms: u64)
        requires
            old(self).wf(),
        ensures
            final(self).wf(),
            final(self).delay_ms == old(self).delay_ms,
            final(self)@ == after_event(old(self)@, path@, kind, now_ms, old(self).delay_ms),
    {
        let due_ms = if now_ms > u64::MAX - self.delay_ms {
            u64::MAX
        } else {
            now_ms + self.delay_ms
        };
        let ghost before = self@;
        let n = self.pending.len();
        let mut i: usize = 0;
        while i < n
            invariant
                n == self.pending@.len(),
                i <= n,
                self@ == before,
                before == old(self)@,
                distinct_paths(before),
                self.delay_ms == old(self).delay_ms,
                due_ms == due_time(now_ms, self.delay_ms),
                forall|k: int| 0 <= k < i ==> before[k].path != path@,
            decreases n - i,
        {
            assert(self@[i as int] == self.pending@[i as int]@);
            if same_bytes(self.pending[i].path.as_slice(), path) {
                let merged = match kind {
                    EventKind::Rename => self.pending[i].kind,
                    _ => kind,
                };
                let entry = Pending { path: slice_to_vec(path), kind: merged, due_ms };
                self.pending.remove(i);
                self.pending.insert(i, entry);
                proof {
                    assert(pending_at(before, path@, i as int));
                    let c = choose|c: int| pending_at(before, path@, c);
                    if c < i {
                        assert(before[c].path != before[i as int].path);
                    }
                    if i < c {
                        assert(before[i as int].path != before[c].path);
                    }
                    assert(self@ =~= before.update(
                        i as int,
                        PendingView { path: path@, kind: merged_kind(before[i as int].kind, kind), due_ms },
                    ));
                    assert forall|a: int, b: int| 0 <= a < b < self@.len() implies self@[a].path
                        != self@[b].path by {
                        assert(self@[a].path == before[a].path && self@[b].path == before[b].path);
                    }
                }
                return ;
            }
            i = i + 1;
        }
        self.pending.push(Pending { path: slice_to_vec(path), kind, due_ms });
        proof {
            assert(!exists|c: int| pending_at(before, path@, c));
            assert(self@ =~= before.push(PendingView { path: path@, kind, due_ms }));
            assert forall|a: int, b: int| 0 <= a < b < self@.len() implies self@[a].path != self@[b].path by {
                if b < n {
                    assert(self@[a] == before[a] && self@[b] == before[b]);
                } else {
                    assert(self@[a] == before[a]);
                }
            }
        }
    }

    /// Takes out the entries whose quiet time has passed at `now_ms`.
    pub fn drain_due(&mut self, now_ms: u64) -> (out: Vec<Pending>)
        requires
            old(self).wf(),
        ensures
            final(self).wf(),
            final(self).delay_ms == old(self).delay_ms,
            pending_view(out@) == split_due(old(self)@, now_ms, true),
            final(self)@ == split_due(old(self)@, now_ms, false),
    {
        let ghost before = self@;
        let mut out: Vec<Pending> = Vec::new();
        let mut rest: Vec<Pending> = Vec::new();
        let n = self.pending.len();
        let mut i: usize = 0;
        assert(before.subrange(0, 0) =~= Seq::<PendingView>::empty());
        assert(pending_view(out@) =~= split_due(before.subrange(0, 0), now_ms, true));
        assert(pending_view(rest@) =~= split_due(before.subrange(0, 0), now_ms, false));
        while i < n
            invariant
                n == self.pending@.len(),
                i <= n,
                self@ == before,
                before == old(self)@,
                self.delay_ms == old(self).delay_ms,
                pending_view(out@) == split_due(before.subrange(0, i as int), now_ms, true),
                pending_view(rest@) == split_due(before.subrange(0, i as int), now_ms, false),
            decreases n - i,
        {
            proof {
                let upto = before.subrange(0, i + 1);
                assert(upto.drop_last() =~= before.subrange(0, i as int));
                assert(upto.last() == before[i as int]);
                assert(before[i as int] == self.pending@[i as int]@);
            }
            let ghost out_before = pending_view(out@);
            let ghost rest_before = pending_view(rest@);
            let entry = Pending {
                path: slice_to_vec(self.pending[i].path.as_slice()),
                kind: self.pending[i].kind,
                due_ms: self.pending[i].due_ms,
            };
            if entry.due_ms <= now_ms {
                out.push(entry);
                assert(pending_view(out@) =~= out_before.push(before[i as int]));
                assert(pending_view(rest@) =~= rest_before);
            } else {
                rest.push(entry);
                assert(pending_view(rest@) =~= rest_before.push(before[i as int]));
                assert(pending_view(out@) =~= out_before);
            }
            i = i + 1;
        }
        assert(before.subrange(0, n as int) =~= before);
        proof {
            lemma_split_keeps_distinct(before, now_ms, false);
        }
        self.pending = rest;
        out
    }
}

/// What is split off a list with one entry per path has one entry per path,
/// and each entry of it is one of the list.
pub proof fn lemma_split_keeps_distinct(p: Seq<PendingView>, now_ms: u64, due: bool)
    requires
        distinct_paths(p),
    ensures
        distinct_paths(split_due(p, now_ms, due)),
        forall|k: int|
            0 <= k < split_due(p, now_ms, due).len() ==> exists|j: int|
                0 <= j < p.len() && p[j] == #[trigger] split_due(p, now_ms, due)[k],
    decreases p.len(),
{
    if p.len() > 0 {
        let front_in = p.drop_last();
        assert forall|a: int, b: int| 0 <= a < b < front_in.len() implies front_in[a].path
            != front_in[b].path by {
            assert(front_in[a] == p[a] && front_in[b] == p[b]);
        }
        lemma_split_keeps_distinct(front_in, now_ms, due);
        let front = split_due(front_in, now_ms, due);
        let all = split_due(p, now_ms, due);
        assert forall|k: int| 0 <= k < all.len() implies exists|j: int|
            0 <= j < p.len() && p[j] == #[trigger] all[k] by {
            if k < front.len() {
                assert(all[k] == front[k]);
                let j = choose|j: int| 0 <= j < front_in.len() && front_in[j] == front[k];
                assert(p[j] == all[k]);
            } else {
                assert(p[p.len() - 1] == all[k]);
            }
        }
        assert forall|a: int, b: int| 0 <= a < b < all.len() implies all[a].path != all[b].path by {
            if b < front.len() {
                assert(all[a] == front[a] && all[b] == front[b]);
            } else {
                assert(all[a] == front[a]);
                let j = choose|j: int| 0 <= j < front_in.len() && front_in[j] == front[a];
                assert(p[j].path != p[p.len() - 1].path);
            }
        }
    }
}

/// The batch after a path was added: the path stands in it once.
pub open spec fn batch_with(batch: Seq<Seq<u8>>, path: Seq<u8>) -> Seq<Seq<u8>> {
    if batch.contains(path) {
        batch
    } else {
        batch.push(path)
    }
}

/// Gathers debounced paths into the batch for the next checkpoint.
pub struct Coalescer {
    pub max_age_ms: u64,
    pub max_size: usize,
    pub opened_at_ms: Option<u64>,
    pub batch: Vec<Vec<u8>>,
}

impl View for Coalescer {
    type V = Seq<Seq<u8>>;

    open spec fn view(&self) -> Seq<Seq<u8>> {
        Seq::new(self.batch@.len(), |i: int| self.batch@[i]@)
    }
}

impl Coalescer {
    /// The batch is to be emitted at `now_ms`: it is not empty, and it is
    /// full or old enough.
    pub open spec fn ripe(&self, now_ms: u64) -> bool {
        self@.len() > 0 && (self@.len() >= self.max_size || (self.opened_at_ms is Some && now_ms
            - self.opened_at_ms.unwrap() >= self.max_age_ms))
    }

    /// A coalescer with an empty batch.
    pub fn new(max_age_ms: u64, max_size: usize) -> (c: Self)
        ensures
            c@.len() == 0,
            c.max_age_ms == max_age_ms,
            c.max_size == max_size,
            c.opened_at_ms is None,
    {
        Coalescer { max_age_ms, max_size, opened_at_ms: None, batch: Vec::new() }
    }

    /// Adds a dirty path to the batch; the first path opens the batch at `now_ms`.
    pub fn add(&mut self, path: &[u8], now_ms: u64)
        ensures
            final(self)@ == batch_with(old(self)@, path@),
            final(self).max_age_ms == old(self).max_age_ms,
            final(self).max_size == old(self).max_size,
            final(self).opened_at_ms == (if old(self).opened_at_ms is None {
                Some(now_ms)
            } else {
                old(self).opened_at_ms
            }),
    {
        if self.opened_at_ms.is_none() {
            self.opened_at_ms = Some(now_ms);
        }
        let ghost before = self@;
        let n = self.batch.len();
        let mut i: usize = 0;
        while i < n
            invariant
                n == self.batch@.len(),
                i <= n,
                self@ == before,
                before == old(self)@,
                self.max_age_ms == old(self).max_age_ms,
                self.max_size == old(self).max_size,
                self.opened_at_ms == (if old(self).opened_at_ms is None {
                    Some(now_ms)
                } else {
                    old(self).opened_at_ms
                }),
                forall|k: int| 0 <= k < i ==> before[k] != path@,
            decreases n - i,
        {
            assert(before[i as int] == self.batch@[i as int]@);
            if same_bytes(self.batch[i].as_slice(), path) {
                assert(before.contains(path@));
                return ;
            }
            i = i + 1;
        }
        self.batch.push(slice_to_vec(path));
        assert(self@ =~= before.push(path@));
    }

    /// Whether the batch is to be emitted now.
    pub fn should_flush(&self, now_ms: u64) -> (r: bool)
        ensures
            r == self.ripe(now_ms),
    {
        if self.batch.len() == 0 {
            return false;
        }
        if self.batch.len() >= self.max_size {
            return true;
        }
        match self.opened_at_ms {
            Some(opened) => now_ms >= opened && now_ms - opened >= self.max_age_ms,
            None => false,
        }
    }

    /// Hands the batch out and starts an empty one.
    pub fn flush(&mut self) -> (out: Vec<Vec<u8>>)
        ensures
            Seq::new(out@.len(), |i: int| out@[i]@) == old(self)@,
            final(self)@.len() == 0,
            final(self).opened_at_ms is None,
            final(self).max_age_ms == old(self).max_age_ms,
            final(self).max_size == old(self).max_size,
    {
        let mut out: Vec<Vec<u8>> = Vec::new();
        core::mem::swap(&mut out, &mut self.batch);
        self.opened_at_ms = None;
        out
    }
}

/// What the watcher is set up with.
#[derive(Debug, Clone, Copy, PartialEq, Eq, Structural)]
pub struct WatcherConfig {
    /// Quiet time per path, in milliseconds
    pub debounce_ms: u64,
    /// Greatest age of a batch, in milliseconds
    pub max_batch_age_ms: u64,
    /// Greatest number of paths in a batch
    pub max_batch_size: usize,
}

/// Why the watcher refuses a call.
#[derive(Debug, Clone, Copy, PartialEq, Eq, Structural)]
pub enum WatcherError {
    AlreadyRunning,
    NotRunning,
}

/// The watcher of one working tree: its debouncer and its coalescer.
pub struct Watcher {
    pub root: Vec<u8>,
    pub running: bool,
    pub debouncer: Debouncer,
    pub coalescer: Coalescer,
}

impl Watcher {
    /// The watcher's invariant, that of its debouncer.
    pub open spec fn wf(&self) -> bool {
        self.debouncer.wf()
    }

    /// A watcher for the tree at `path`, not yet running.
    pub fn new(path: &[u8], config: WatcherConfig) -> (w: Self)
        ensures
            w.wf(),
            w.root@ == path@,
            !w.running,
            w.debouncer@.len() == 0,
            w.debouncer.delay_ms == config.debounce_ms,
            w.coalescer@.len() == 0,
            w.coalescer.max_age_ms == config.max_batch_age_ms,
            w.coalescer.max_size == config.max_batch_size,
    {
        Watcher {
            root: slice_to_vec(path),
            running: false,
            debouncer: Debouncer::new(config.debounce_ms),
            coalescer: Coalescer::new(config.max_batch_age_ms, config.max_batch_size),
        }
    }

    /// Starts watching. A watcher that runs refuses.
    pub fn start(&mut self) -> (r: Result<(), WatcherError>)
        ensures
            final(self).running,
            final(self).debouncer == old(self).debouncer,
            final(self).coalescer == old(self).coalescer,
            final(self).root == old(self).root,
            r == (if old(self).running {
                Err::<(), WatcherError>(WatcherError::AlreadyRunning)
            } else {
                Ok::<(), WatcherError>(())
            }),
    {
        if self.running {
            return Err(WatcherError::AlreadyRunning);
        }
        self.running = true;
        Ok(())
    }

    /// Stops watching. A watcher that does not run refuses.
    pub fn stop(&mut self) -> (r: Result<(), WatcherError>)
        ensures
            !final(self).running,
            final(self).debouncer == old(self).debouncer,
            final(self).coalescer == old(self).coalescer,
            final(self).root == old(self).root,
            r == (if old(self).running {
                Ok::<(), WatcherError>(())
            } else {
                Err::<(), WatcherError>(WatcherError::NotRunning)
            }),
    {
        if !self.running {
            return Err(WatcherError::NotRunning);
        }
        self.running = false;
        Ok(())
    }

    /// Takes a signal of the platform's watcher at `now_ms`. An event goes
    /// to the debouncer; a rename goes there as a deletion and a creation;
    /// an overflow changes nothing here and asks for a scan.
    pub fn on_signal(&mut self, signal: &WatchSignal, now_ms: u64) -> (action: WatcherAction)
        requires
            old(self).wf(),
        ensures
            final(self).wf(),
            final(self).running == old(self).running,
            final(self).coalescer == old(self).coalescer,
            final(self).debouncer.delay_ms == old(self).debouncer.delay_ms,
            action == (if signal is Overflow {
                WatcherAction::RescanAndReprime
            } else {
                WatcherAction::Wait
            }),
            final(self).debouncer@ == (match *signal {
                WatchSignal::Event(e) => after_event(
                    old(self).debouncer@,
                    e.path@,
                    e.kind,
                    now_ms,
                    old(self).debouncer.delay_ms,
                ),
                WatchSignal::Renamed { from, to } => after_event(
                    after_event(
                        old(self).debouncer@,
                        from@,
                        EventKind::Delete,
                        now_ms,
                        old(self).debouncer.delay_ms,
                    ),
                    to@,
                    EventKind::Create,
                    now_ms,
                    old(self).debouncer.delay_ms,
                ),
                WatchSignal::Overflow => old(self).debouncer@,
            }),
    {
        match signal {
            WatchSignal::Event(e) => {
                self.debouncer.on_event(e.path.as_slice(), e.kind, now_ms);
                WatcherAction::Wait
            },
            WatchSignal::Renamed { from, to } => {
                self.debouncer.on_event(from.as_slice(), EventKind::Delete, now_ms);
                self.debouncer.on_event(to.as_slice(), EventKind::Create, now_ms);
                WatcherAction::Wait
            },
            WatchSignal::Overflow => WatcherAction::RescanAndReprime,
        }
    }
}

/// `target`
pub const SKIP_TARGET: [u8; 6] = ['t' as u8, 'a' as u8, 'r' as u8, 'g' as u8, 'e' as u8, 't' as u8];

/// `node_modules`
pub const SKIP_NODE_MODULES: [u8; 12] = [
    'n' as u8, 'o' as u8, 'd' as u8, 'e' as u8, '_' as u8, 'm' as u8,
    'o' as u8, 'd' as u8, 'u' as u8, 'l' as u8, 'e' as u8, 's' as u8,
];

/// `.cache`
pub const SKIP_CACHE: [u8; 6] = ['.' as u8, 'c' as u8, 'a' as u8, 'c' as u8, 'h' as u8, 'e' as u8];

/// The scanner passes over the file: one of the components of its path is
/// a metadata directory, or the path passes through a directory `target`,
/// `node_modules` or `.cache`.
pub open spec fn scan_skips(p: Seq<u8>) -> bool {
    ||| has_component(p, DIR_TL@)
    ||| has_component(p, DIR_GIT@)
    ||| has_component(p, DIR_JJ@)
    ||| has_dir_component(p, SKIP_TARGET@)
    ||| has_dir_component(p, SKIP_NODE_MODULES@)
    ||| has_dir_component(p, SKIP_CACHE@)
}

/// A file that the scanner saw, with its modification time.
#[derive(Debug, Clone, PartialEq, Eq)]
pub struct ScannedFile {
    pub path: Vec<u8>,
    pub mtime_ms: u64,
}

/// The paths of the files that the scanner does not pass over and that
/// changed after the last checkpoint, in the order of the scan.
pub open spec fn changed_files(files: Seq<ScannedFile>, last_checkpoint_ms: u64) -> Seq<Seq<u8>>
    decreases files.len(),
{
    if files.len() == 0 {
        Seq::empty()
    } else if !scan_skips(files.last().path@) && files.last().mtime_ms > last_checkpoint_ms {
        changed_files(files.drop_last(), last_checkpoint_ms).push(files.last().path@)
    } else {
        changed_files(files.drop_last(), last_checkpoint_ms)
    }
}

/// Scans the working tree at intervals to find what the watcher lost.
pub struct PeriodicReconciler {
    pub repo_root: Vec<u8>,
    pub interval_ms: u64,
    pub last_scan_ms: Option<u64>,
}

impl PeriodicReconciler {
    /// A reconciler that has not scanned yet.
    pub fn new(repo_root: &[u8], interval_ms: u64) -> (r: Self)
        ensures
            r.repo_root@ == repo_root@,
            r.interval_ms == interval_ms,
            r.last_scan_ms is None,
    {
        PeriodicReconciler { repo_root: slice_to_vec(repo_root), interval_ms, last_scan_ms: None }
    }

    /// Whether a scan is due at `now_ms`: none was made yet, or the interval
    /// has passed since the last.
    pub fn scan_due(&self, now_ms: u64) -> (r: bool)
        ensures
            r == (match self.last_scan_ms {
                None => true,
                Some(last) => now_ms >= last && now_ms - last >= self.interval_ms,
            }),
    {
        match self.last_scan_ms {
            None => true,
            Some(last) => now_ms >= last && now_ms - last >= self.interval_ms,
        }
    }

    /// Notes that a scan was made at `now_ms`.
    pub fn scanned(&mut self, now_ms: u64)
        ensures
            final(self).last_scan_ms == Some(now_ms),
            final(self).interval_ms == old(self).interval_ms,
            final(self).repo_root == old(self).repo_root,
    {
        self.last_scan_ms = Some(now_ms);
    }

    /// Whether the scanner passes over a path.
    pub fn should_ignore(path: &[u8]) -> (r: bool)
        ensures
            r == scan_skips(path@),
    {
        path_has_component(path, DIR_TL.as_slice()) || path_has_component(path, DIR_GIT.as_slice())
            || path_has_component(path, DIR_JJ.as_slice())
            || path_has_dir_component(path, SKIP_TARGET.as_slice())
            || path_has_dir_component(path, SKIP_NODE_MODULES.as_slice())
            || path_has_dir_component(path, SKIP_CACHE.as_slice())
    }

    /// The dirty paths that a scan gives: the files not passed over whose
    /// modification time is later than the last checkpoint.
    pub fn scan_for_changes(files: &Vec<ScannedFile>, last_checkpoint_ms: u64) -> (changed: Vec<Vec<u8>>)
        ensures
            Seq::new(changed@.len(), |i: int| changed@[i]@) == changed_files(files@, last_checkpoint_ms),
    {
        let mut changed: Vec<Vec<u8>> = Vec::new();
        let n = files.len();
        let mut i: usize = 0;
        assert(files@.subrange(0, 0) =~= Seq::<ScannedFile>::empty());
        assert(Seq::new(changed@.len(), |k: int| changed@[k]@) =~= changed_files(
            files@.subrange(0, 0),
            last_checkpoint_ms,
        ));
        while i < n
            invariant
                n == files@.len(),
                i <= n,
                Seq::new(changed@.len(), |k: int| changed@[k]@) == changed_files(
                    files@.subrange(0, i as int),
                    last_checkpoint_ms,
                ),
            decreases n - i,
        {
            proof {
                let upto = files@.subrange(0, i + 1);
                assert(upto.drop_last() =~= files@.subrange(0, i as int));
                assert(upto.last() == files@[i as int]);
            }
            let ghost before = Seq::new(changed@.len(), |k: int| changed@[k]@);
            if !Self::should_ignore(files[i].path.as_slice()) && files[i].mtime_ms > last_checkpoint_ms {
                changed.push(slice_to_vec(files[i].path.as_slice()));
                assert(Seq::new(changed@.len(), |k: int| changed@[k]@) =~= before.push(
                    files@[i as int].path@,
                ));
            }
            i = i + 1;
        }
        assert(files@.subrange(0, n as int) =~= files@);
        changed
    }
}

} // verus!
