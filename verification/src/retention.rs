//! Retention and garbage collection: which checkpoints a collection keeps,
//! which objects they reach, and which objects go.

use vstd::prelude::*;
use crate::blob::{capped, sum_of, total_size};
use crate::hash::Blake3Hash;
use crate::journal::{has_id, Journal, JournalRecord};
use crate::tree::{Items, Tree};

verus! {

/// Milliseconds in an hour
pub const MS_PER_HOUR: u128 = 3_600_000;

/// What a collection keeps.
#[derive(Debug, Clone, Copy, PartialEq, Eq, Structural)]
pub struct RetentionPolicy {
    /// Keep this many of the most recent checkpoints (default: 2000)
    pub retain_count: usize,
    /// Keep every checkpoint made within this many hours; 0 sets no limit
    /// to the window, so that every checkpoint is kept (default: 24)
    pub retain_hours: u64,
    /// Keep pinned checkpoints (default: true)
    pub retain_pins: bool,
}

impl Default for RetentionPolicy {
    fn default() -> (p: Self)
        ensures
            p == (RetentionPolicy { retain_count: 2000, retain_hours: 24, retain_pins: true }),
    {
        RetentionPolicy { retain_count: 2000, retain_hours: 24, retain_pins: true }
    }
}

/// Why a collection does not start.
#[derive(Debug, Clone, Copy, PartialEq, Eq, Structural)]
pub enum GcError {
    /// A pin names a checkpoint that the journal does not hold.
    DanglingPin { id: u128 },
}

/// The checkpoints that a collection keeps and those that it deletes, each
/// list in journal order.
#[derive(Debug, Clone, PartialEq, Eq)]
pub struct GcPlan {
    pub keep: Vec<u128>,
    pub delete: Vec<u128>,
}

/// What a collection removed.
#[derive(Debug, Clone, Copy, PartialEq, Eq, Structural)]
pub struct GcStats {
    pub checkpoints_deleted: u64,
    pub trees_deleted: u64,
    pub blobs_deleted: u64,
    pub bytes_freed: u64,
}

/// A checkpoint made at `ts_ms` lies in the window of `hours` before `now_ms`.
pub open spec fn in_window(ts_ms: u64, now_ms: u64, hours: u64) -> bool {
    hours == 0 || ts_ms + hours * 3_600_000 >= now_ms
}

/// The record at position `i` is a root: it is among the `retain_count`
/// most recent, or was made within the window, or is pinned and pins are
/// kept, or is referenced from outside.
pub open spec fn is_root(
    records: Seq<JournalRecord>,
    i: int,
    policy: RetentionPolicy,
    pins: Seq<u128>,
    external: Seq<u128>,
    now_ms: u64,
) -> bool {
    ||| i + policy.retain_count >= records.len()
    ||| in_window(records[i].checkpoint.ts_unix_ms, now_ms, policy.retain_hours)
    ||| (policy.retain_pins && pins.contains(records[i].checkpoint.id))
    ||| external.contains(records[i].checkpoint.id)
}

/// The identifiers of the first `n` records that are roots (`roots` set) or
/// are not (`roots` unset), in journal order.
pub open spec fn chosen(
    records: Seq<JournalRecord>,
    n: nat,
    roots: bool,
    policy: RetentionPolicy,
    pins: Seq<u128>,
    external: Seq<u128>,
    now_ms: u64,
) -> Seq<u128>
    decreases n,
{
    if n == 0 {
        Seq::empty()
    } else {
        let front = chosen(records, (n - 1) as nat, roots, policy, pins, external, now_ms);
        if is_root(records, n - 1, policy, pins, external, now_ms) == roots {
            front.push(records[n - 1].checkpoint.id)
        } else {
            front
        }
    }
}

/// The first pin that names no checkpoint of the journal, if there is one.
pub open spec fn first_dangling(records: Seq<JournalRecord>, pins: Seq<u128>) -> Option<u128>
    decreases pins.len(),
{
    if pins.len() == 0 {
        None
    } else if !has_id(records, pins[0]) {
        Some(pins[0])
    } else {
        first_dangling(records, pins.drop_first())
    }
}

/// The blob hash of entry `i` of tree `t`.
pub open spec fn hash_at(trees: Seq<Tree>, t: int, i: int) -> Seq<u8> {
    trees[t].items()[i].1.blob_hash
}

/// Some entry that stands before entry `i` of tree `t`, in an earlier tree
/// or earlier in that tree, has this blob hash.
pub open spec fn referenced_before(trees: Seq<Tree>, t: int, i: int, hash: Seq<u8>) -> bool {
    exists|a: int, b: int|
        0 <= a < trees.len() && 0 <= b < trees[a].items().len() && (a < t || (a == t && b < i))
            && #[trigger] hash_at(trees, a, b) == hash
}

/// Some tree of the list has an entry with this blob hash.
pub open spec fn referenced(trees: Seq<Tree>, hash: Seq<u8>) -> bool {
    referenced_before(trees, trees.len() as int, 0, hash)
}

proof fn lemma_reference_step(trees: Seq<Tree>, t: int, i: int, hash: Seq<u8>)
    requires
        0 <= t < trees.len(),
        0 <= i < trees[t].items().len(),
    ensures
        referenced_before(trees, t, i + 1, hash) <==> (referenced_before(trees, t, i, hash) || hash_at(
            trees,
            t,
            i,
        ) == hash),
{
    if referenced_before(trees, t, i + 1, hash) {
        let (a, b) = choose|a: int, b: int|
            0 <= a < trees.len() && 0 <= b < trees[a].items().len() && (a < t || (a == t && b < i + 1))
                && #[trigger] hash_at(trees, a, b) == hash;
        if !(a == t && b == i) {
            assert(hash_at(trees, a, b) == hash);
        }
    }
    if referenced_before(trees, t, i, hash) {
        let (a, b) = choose|a: int, b: int|
            0 <= a < trees.len() && 0 <= b < trees[a].items().len() && (a < t || (a == t && b < i))
                && #[trigger] hash_at(trees, a, b) == hash;
        assert(hash_at(trees, a, b) == hash);
    }
    if hash_at(trees, t, i) == hash {
        assert(referenced_before(trees, t, i + 1, hash));
    }
}

proof fn lemma_reference_next_tree(trees: Seq<Tree>, t: int, hash: Seq<u8>)
    requires
        0 <= t < trees.len(),
    ensures
        referenced_before(trees, t, trees[t].items().len() as int, hash) <==> referenced_before(
            trees,
            t + 1,
            0,
            hash,
        ),
{
    let n = trees[t].items().len() as int;
    if referenced_before(trees, t, n, hash) {
        let (a, b) = choose|a: int, b: int|
            0 <= a < trees.len() && 0 <= b < trees[a].items().len() && (a < t || (a == t && b < n))
                && #[trigger] hash_at(trees, a, b) == hash;
        assert(hash_at(trees, a, b) == hash);
    }
    if referenced_before(trees, t + 1, 0, hash) {
        let (a, b) = choose|a: int, b: int|
            0 <= a < trees.len() && 0 <= b < trees[a].items().len() && (a < t + 1 || (a == t + 1 && b < 0))
                && #[trigger] hash_at(trees, a, b) == hash;
        assert(hash_at(trees, a, b) == hash);
    }
}

proof fn lemma_holds_after_push(before: Seq<Blake3Hash>, added: Blake3Hash, hash: Seq<u8>)
    ensures
        holds_hash(before.push(added), hash) <==> (holds_hash(before, hash) || added@ == hash),
{
    let after = before.push(added);
    if holds_hash(after, hash) {
        let k = choose|k: int| 0 <= k < after.len() && (#[trigger] after[k])@ == hash;
        if k < before.len() {
            assert(before[k]@ == hash);
        }
    }
    if holds_hash(before, hash) {
        let k = choose|k: int| 0 <= k < before.len() && (#[trigger] before[k])@ == hash;
        assert(after[k]@ == hash);
    }
    if added@ == hash {
        assert(after[before.len() as int]@ == hash);
    }
}

/// The list holds the hash.
pub open spec fn holds_hash(hashes: Seq<Blake3Hash>, hash: Seq<u8>) -> bool {
    exists|i: int| 0 <= i < hashes.len() && (#[trigger] hashes[i])@ == hash
}

/// The stored hashes that are not live, in the order in which they are stored.
pub open spec fn unreachable(stored: Seq<Blake3Hash>, live: Seq<Blake3Hash>) -> Seq<Blake3Hash>
    decreases stored.len(),
{
    if stored.len() == 0 {
        Seq::empty()
    } else if holds_hash(live, stored.last()@) {
        unreachable(stored.drop_last(), live)
    } else {
        unreachable(stored.drop_last(), live).push(stored.last())
    }
}

/// Whether the list holds the identifier.
pub fn holds_id(ids: &[u128], id: u128) -> (r: bool)
    ensures
        r == ids@.contains(id),
{
    let mut i: usize = 0;
    while i < ids.len()
        invariant
            i <= ids@.len(),
            forall|k: int| 0 <= k < i ==> ids@[k] != id,
        decreases ids@.len() - i,
    {
        if ids[i] == id {
            assert(ids@[i as int] == id);
            return true;
        }
        i = i + 1;
    }
    false
}

/// Whether the list holds the hash.
pub fn hash_in(hashes: &Vec<Blake3Hash>, hash: &Blake3Hash) -> (r: bool)
    ensures
        r == holds_hash(hashes@, hash@),
{
    let mut i: usize = 0;
    while i < hashes.len()
        invariant
            i <= hashes@.len(),
            forall|k: int| 0 <= k < i ==> hashes@[k]@ != hash@,
        decreases hashes@.len() - i,
    {
        if hashes[i].same(hash) {
            return true;
        }
        i = i + 1;
    }
    false
}

/// Whether a checkpoint made at `ts_ms` lies in the window of `hours` before `now_ms`.
pub fn within_window(ts_ms: u64, now_ms: u64, hours: u64) -> (r: bool)
    ensures
        r == in_window(ts_ms, now_ms, hours),
{
    if hours == 0 {
        return true;
    }
    let span: u128 = (hours as u128) * MS_PER_HOUR;
    (ts_ms as u128) + span >= now_ms as u128
}

/// Marks and sweeps under a retention policy.
pub struct GarbageCollector {
    policy: RetentionPolicy,
}

impl GarbageCollector {
    /// The policy of the collector.
    pub closed spec fn spec_policy(&self) -> RetentionPolicy {
        self.policy
    }

    /// A collector with the given policy.
    pub fn new(policy: RetentionPolicy) -> (gc: Self)
        ensures
            gc.spec_policy() == policy,
    {
        GarbageCollector { policy }
    }

    /// The policy of the collector.
    pub fn policy(&self) -> (p: RetentionPolicy)
        ensures
            p == self.spec_policy(),
    {
        self.policy
    }

    /// Chooses what a collection keeps. The roots are the `retain_count`
    /// most recent checkpoints, those within the time window, the pinned
    /// ones where pins are kept, and those referenced from outside; all
    /// other checkpoints are deleted. A pin that names no checkpoint of the
    /// journal stops the collection.
    pub fn collect(&self, journal: &Journal, pins: &[u128], external: &[u128], now_ms: u64) -> (r: Result<
        GcPlan,
        GcError,
    >)
        ensures
            match r {
                Ok(plan) => {
                    &&& plan.keep@.len() + plan.delete@.len() == journal@.records.len()
                    &&& first_dangling(journal@.records, pins@) is None
                    &&& plan.keep@ == chosen(
                        journal@.records,
                        journal@.records.len(),
                        true,
                        self.spec_policy(),
                        pins@,
                        external@,
                        now_ms,
                    )
                    &&& plan.delete@ == chosen(
                        journal@.records,
                        journal@.records.len(),
                        false,
                        self.spec_policy(),
                        pins@,
                        external@,
                        now_ms,
                    )
                },
                Err(e) => first_dangling(journal@.records, pins@) is Some && e == (GcError::DanglingPin {
                    id: first_dangling(journal@.records, pins@).unwrap(),
                }),
            },
    {
        let ids = journal.all_checkpoint_ids();
        let mut p: usize = 0;
        assert(pins@.subrange(0, pins@.len() as int) =~= pins@);
        while p < pins.len()
            invariant
                p <= pins@.len(),
                ids@.len() == journal@.records.len(),
                forall|i: int| 0 <= i < ids@.len() ==> ids@[i] == journal@.records[i].checkpoint.id,
                first_dangling(journal@.records, pins@) == first_dangling(
                    journal@.records,
                    pins@.subrange(p as int, pins@.len() as int),
                ),
            decreases pins@.len() - p,
        {
            let ghost rest = pins@.subrange(p as int, pins@.len() as int);
            assert(rest[0] == pins@[p as int]);
            assert(rest.drop_first() =~= pins@.subrange(p + 1, pins@.len() as int));
            let known = holds_id(ids.as_slice(), pins[p]);
            proof {
                if known {
                    let k = choose|k: int| 0 <= k < ids@.len() && ids@[k] == pins@[p as int];
                    assert(journal@.records[k].checkpoint.id == pins@[p as int]);
                } else {
                    if has_id(journal@.records, pins@[p as int]) {
                        let k = choose|k: int|
                            0 <= k < journal@.records.len() && (#[trigger] journal@.records[k]).checkpoint.id
                                == pins@[p as int];
                        assert(ids@[k] == pins@[p as int]);
                    }
                }
            }
            if !known {
                return Err(GcError::DanglingPin { id: pins[p] });
            }
            p = p + 1;
        }
        let n = journal.count();
        let mut keep: Vec<u128> = Vec::new();
        let mut delete: Vec<u128> = Vec::new();
        let mut i: usize = 0;
        while i < n
            invariant
                n == journal@.records.len(),
                i <= n,
                keep@ == chosen(
                    journal@.records,
                    i as nat,
                    true,
                    self.spec_policy(),
                    pins@,
                    external@,
                    now_ms,
                ),
                delete@ == chosen(
                    journal@.records,
                    i as nat,
                    false,
                    self.spec_policy(),
                    pins@,
                    external@,
                    now_ms,
                ),
            decreases n - i,
        {
            let record = journal.record(i);
            let id = record.checkpoint.id;
            let root = n - i <= self.policy.retain_count || within_window(
                record.checkpoint.ts_unix_ms,
                now_ms,
                self.policy.retain_hours,
            ) || (self.policy.retain_pins && holds_id(pins, id)) || holds_id(external, id);
            assert(root == is_root(journal@.records, i as int, self.spec_policy(), pins@, external@, now_ms));
            if root {
                keep.push(id);
            } else {
                delete.push(id);
            }
            i = i + 1;
        }
        proof {
            lemma_plan_partitions(
                journal@.records,
                journal@.records.len(),
                self.spec_policy(),
                pins@,
                external@,
                now_ms,
            );
        }
        Ok(GcPlan { keep, delete })
    }

    /// What a collection removed: the checkpoints that the plan deletes,
    /// and the trees and blobs that were unlinked, given by their sizes on disk.
    pub fn stats(plan: &GcPlan, dead_tree_sizes: &[u64], dead_blob_sizes: &[u64]) -> (stats: GcStats)
        ensures
            stats.checkpoints_deleted == plan.delete@.len(),
            stats.trees_deleted == dead_tree_sizes@.len(),
            stats.blobs_deleted == dead_blob_sizes@.len(),
            stats.bytes_freed == capped(sum_of(dead_tree_sizes@) + sum_of(dead_blob_sizes@)),
    {
        let trees = total_size(dead_tree_sizes);
        let blobs = total_size(dead_blob_sizes);
        let bytes_freed = if trees > u64::MAX - blobs {
            u64::MAX
        } else {
            trees + blobs
        };
        GcStats {
            checkpoints_deleted: plan.delete.len() as u64,
            trees_deleted: dead_tree_sizes.len() as u64,
            blobs_deleted: dead_blob_sizes.len() as u64,
            bytes_freed,
        }
    }

    /// The mark phase: the blob hashes that the trees reach.
    pub fn mark(trees: &Vec<Tree>) -> (live: Vec<Blake3Hash>)
        ensures
            forall|h: Seq<u8>| holds_hash(live@, h) <==> referenced(trees@, h),
    {
        let mut live: Vec<Blake3Hash> = Vec::new();
        let mut t: usize = 0;
        while t < trees.len()
            invariant
                t <= trees@.len(),
                forall|h: Seq<u8>| holds_hash(live@, h) <==> referenced_before(trees@, t as int, 0, h),
            decreases trees@.len() - t,
        {
            let tree = &trees[t];
            let n = tree.len();
            let mut i: usize = 0;
            while i < n
                invariant
                    t < trees@.len(),
                    *tree == trees@[t as int],
                    n == tree.items().len(),
                    i <= n,
                    forall|h: Seq<u8>|
                        holds_hash(live@, h) <==> referenced_before(trees@, t as int, i as int, h),
                decreases n - i,
            {
                let item = tree.item(i);
                let ghost before = live@;
                live.push(item.entry.blob_hash);
                proof {
                    assert forall|h: Seq<u8>| holds_hash(live@, h) <==> referenced_before(
                        trees@,
                        t as int,
                        i + 1,
                        h,
                    ) by {
                        lemma_holds_after_push(before, item.entry.blob_hash, h);
                        lemma_reference_step(trees@, t as int, i as int, h);
                    }
                }
                i = i + 1;
            }
            proof {
                assert forall|h: Seq<u8>| holds_hash(live@, h) <==> referenced_before(
                    trees@,
                    t + 1,
                    0,
                    h,
                ) by {
                    lemma_reference_next_tree(trees@, t as int, h);
                }
            }
            t = t + 1;
        }
        live
    }

    /// The sweep phase: the stored objects that are not live. No live
    /// object is among them.
    pub fn sweep(stored: &Vec<Blake3Hash>, live: &Vec<Blake3Hash>) -> (dead: Vec<Blake3Hash>)
        ensures
            dead@ == unreachable(stored@, live@),
            forall|i: int| 0 <= i < dead@.len() ==> !holds_hash(live@, (#[trigger] dead@[i])@),
    {
        let mut dead: Vec<Blake3Hash> = Vec::new();
        let n = stored.len();
        let mut i: usize = 0;
        assert(stored@.subrange(0, 0) =~= Seq::<Blake3Hash>::empty());
        while i < n
            invariant
                n == stored@.len(),
                i <= n,
                dead@ == unreachable(stored@.subrange(0, i as int), live@),
                forall|k: int| 0 <= k < dead@.len() ==> !holds_hash(live@, (#[trigger] dead@[k])@),
            decreases n - i,
        {
            proof {
                let upto = stored@.subrange(0, i + 1);
                assert(upto.drop_last() =~= stored@.subrange(0, i as int));
                assert(upto.last() == stored@[i as int]);
            }
            if !hash_in(live, &stored[i]) {
                dead.push(stored[i]);
            }
            i = i + 1;
        }
        assert(stored@.subrange(0, n as int) =~= stored@);
        dead
    }
}

/// A collection keeps every root and deletes none: each checkpoint of the
/// journal that is a root stands in the list kept and not in the list
/// deleted, and each other checkpoint the other way round.
pub proof fn lemma_collection_keeps_roots(
    records: Seq<JournalRecord>,
    n: nat,
    i: int,
    policy: RetentionPolicy,
    pins: Seq<u128>,
    external: Seq<u128>,
    now_ms: u64,
)
    requires
        crate::journal::unique_ids(records),
        0 <= i < n <= records.len(),
    ensures
        is_root(records, i, policy, pins, external, now_ms) ==> chosen(
            records,
            n,
            true,
            policy,
            pins,
            external,
            now_ms,
        ).contains(records[i].checkpoint.id) && !chosen(
            records,
            n,
            false,
            policy,
            pins,
            external,
            now_ms,
        ).contains(records[i].checkpoint.id),
        !is_root(records, i, policy, pins, external, now_ms) ==> chosen(
            records,
            n,
            false,
            policy,
            pins,
            external,
            now_ms,
        ).contains(records[i].checkpoint.id) && !chosen(
            records,
            n,
            true,
            policy,
            pins,
            external,
            now_ms,
        ).contains(records[i].checkpoint.id),
    decreases n,
{
    let id = records[i].checkpoint.id;
    let keep = chosen(records, n, true, policy, pins, external, now_ms);
    let delete = chosen(records, n, false, policy, pins, external, now_ms);
    let keep_front = chosen(records, (n - 1) as nat, true, policy, pins, external, now_ms);
    let delete_front = chosen(records, (n - 1) as nat, false, policy, pins, external, now_ms);
    lemma_chosen_come_from_records(records, (n - 1) as nat, true, policy, pins, external, now_ms);
    lemma_chosen_come_from_records(records, (n - 1) as nat, false, policy, pins, external, now_ms);
    if i == n - 1 {
        if is_root(records, i, policy, pins, external, now_ms) {
            assert(keep == keep_front.push(id));
            assert(keep[keep.len() - 1] == id);
            assert(delete == delete_front);
        } else {
            assert(delete == delete_front.push(id));
            assert(delete[delete.len() - 1] == id);
            assert(keep == keep_front);
        }
        if keep_front.contains(id) {
            let k = choose|k: int| 0 <= k < n - 1 && records[k].checkpoint.id == id;
            assert(records[k].checkpoint.id != records[i].checkpoint.id);
        }
        if delete_front.contains(id) {
            let k = choose|k: int| 0 <= k < n - 1 && records[k].checkpoint.id == id;
            assert(records[k].checkpoint.id != records[i].checkpoint.id);
        }
    } else {
        lemma_collection_keeps_roots(records, (n - 1) as nat, i, policy, pins, external, now_ms);
        let last = records[n - 1].checkpoint.id;
        assert(last != id);
        if keep_front.contains(id) {
            let k = choose|k: int| 0 <= k < keep_front.len() && keep_front[k] == id;
            assert(keep[k] == id);
        }
        if delete_front.contains(id) {
            let k = choose|k: int| 0 <= k < delete_front.len() && delete_front[k] == id;
            assert(delete[k] == id);
        }
        if keep.contains(id) && !keep_front.contains(id) {
            let k = choose|k: int| 0 <= k < keep.len() && keep[k] == id;
            if k < keep_front.len() {
                assert(keep_front[k] == id);
            }
        }
        if delete.contains(id) && !delete_front.contains(id) {
            let k = choose|k: int| 0 <= k < delete.len() && delete[k] == id;
            if k < delete_front.len() {
                assert(delete_front[k] == id);
            }
        }
    }
}

/// A plan parts the checkpoints in two: each is kept or deleted, so the two
/// lists together are as long as the journal.
pub proof fn lemma_plan_partitions(
    records: Seq<JournalRecord>,
    n: nat,
    policy: RetentionPolicy,
    pins: Seq<u128>,
    external: Seq<u128>,
    now_ms: u64,
)
    ensures
        chosen(records, n, true, policy, pins, external, now_ms).len() + chosen(
            records,
            n,
            false,
            policy,
            pins,
            external,
            now_ms,
        ).len() == n,
    decreases n,
{
    if n > 0 {
        lemma_plan_partitions(records, (n - 1) as nat, policy, pins, external, now_ms);
    }
}

/// Every identifier chosen is that of one of the records looked at.
pub proof fn lemma_chosen_come_from_records(
    records: Seq<JournalRecord>,
    n: nat,
    roots: bool,
    policy: RetentionPolicy,
    pins: Seq<u128>,
    external: Seq<u128>,
    now_ms: u64,
)
    requires
        n <= records.len(),
    ensures
        forall|id: u128|
            chosen(records, n, roots, policy, pins, external, now_ms).contains(id) ==> exists|k: int|
                0 <= k < n && records[k].checkpoint.id == id,
    decreases n,
{
    if n > 0 {
        lemma_chosen_come_from_records(records, (n - 1) as nat, roots, policy, pins, external, now_ms);
        let all = chosen(records, n, roots, policy, pins, external, now_ms);
        let front = chosen(records, (n - 1) as nat, roots, policy, pins, external, now_ms);
        assert forall|id: u128| all.contains(id) implies exists|k: int|
            0 <= k < n && records[k].checkpoint.id == id by {
            let x = choose|x: int| 0 <= x < all.len() && all[x] == id;
            if x < front.len() {
                assert(front[x] == id);
                assert(front.contains(id));
                let k = choose|k: int| 0 <= k < n - 1 && records[k].checkpoint.id == id;
                assert(0 <= k < n && records[k].checkpoint.id == id);
            } else {
                assert(records[n - 1].checkpoint.id == id);
            }
        }
    }
}

/// The objects that a store holds: the trees by their hash, and the hashes
/// of the blobs.
pub struct StoredObjects {
    pub trees: Map<Seq<u8>, Items>,
    pub blobs: Set<Seq<u8>>,
}

/// The store holds all that the checkpoints reach: the root tree of each,
/// and the blob of each entry of that tree.
pub open spec fn reaches_all(records: Seq<JournalRecord>, objects: StoredObjects) -> bool {
    forall|i: int|
        0 <= i < records.len() ==> {
            &&& objects.trees.contains_key((#[trigger] records[i]).checkpoint.root_tree@)
            &&& forall|k: int|
                0 <= k < objects.trees[records[i].checkpoint.root_tree@].len() ==> objects.blobs.contains(
                    (#[trigger] objects.trees[records[i].checkpoint.root_tree@][k]).1.blob_hash,
                )
        }
}

/// The store after the dead trees and the dead blobs were unlinked.
pub open spec fn after_sweep(
    objects: StoredObjects,
    dead_trees: Seq<Blake3Hash>,
    dead_blobs: Seq<Blake3Hash>,
) -> StoredObjects {
    StoredObjects {
        trees: Map::new(
            |h: Seq<u8>| objects.trees.contains_key(h) && !holds_hash(dead_trees, h),
            |h: Seq<u8>| objects.trees[h],
        ),
        blobs: Set::new(|h: Seq<u8>| objects.blobs.contains(h) && !holds_hash(dead_blobs, h)),
    }
}

/// Nothing that is swept is live.
pub proof fn lemma_swept_is_not_live(stored: Seq<Blake3Hash>, live: Seq<Blake3Hash>, hash: Seq<u8>)
    requires
        holds_hash(unreachable(stored, live), hash),
    ensures
        !holds_hash(live, hash),
        holds_hash(stored, hash),
    decreases stored.len(),
{
    let dead = unreachable(stored, live);
    let k = choose|k: int| 0 <= k < dead.len() && (#[trigger] dead[k])@ == hash;
    let front = unreachable(stored.drop_last(), live);
    if k < front.len() {
        assert(front[k]@ == hash);
        lemma_swept_is_not_live(stored.drop_last(), live, hash);
        let j = choose|j: int| 0 <= j < stored.drop_last().len() && (#[trigger] stored.drop_last()[j])@ == hash;
        assert(stored[j]@ == hash);
    } else {
        assert(stored[stored.len() - 1]@ == hash);
    }
}

/// A collection leaves every checkpoint that it keeps readable: where the
/// store held all that the kept checkpoints reach, where the live trees are
/// their root trees and the live blobs those that these trees reference, the
/// store still holds all of it after the sweep of what is not live.
pub proof fn lemma_collection_keeps_reachable_objects(
    kept: Seq<JournalRecord>,
    objects: StoredObjects,
    stored_trees: Seq<Blake3Hash>,
    live_trees: Seq<Blake3Hash>,
    stored_blobs: Seq<Blake3Hash>,
    live_blobs: Seq<Blake3Hash>,
)
    requires
        reaches_all(kept, objects),
        forall|i: int| 0 <= i < kept.len() ==> holds_hash(live_trees, (#[trigger] kept[i]).checkpoint.root_tree@),
        forall|i: int, k: int|
            0 <= i < kept.len() && 0 <= k < objects.trees[kept[i].checkpoint.root_tree@].len() ==> holds_hash(
                live_blobs,
                (#[trigger] objects.trees[kept[i].checkpoint.root_tree@][k]).1.blob_hash,
            ),
    ensures
        reaches_all(
            kept,
            after_sweep(objects, unreachable(stored_trees, live_trees), unreachable(stored_blobs, live_blobs)),
        ),
{
    let dead_trees = unreachable(stored_trees, live_trees);
    let dead_blobs = unreachable(stored_blobs, live_blobs);
    let after = after_sweep(objects, dead_trees, dead_blobs);
    assert forall|i: int| 0 <= i < kept.len() implies {
        &&& after.trees.contains_key((#[trigger] kept[i]).checkpoint.root_tree@)
        &&& forall|k: int|
            0 <= k < after.trees[kept[i].checkpoint.root_tree@].len() ==> after.blobs.contains(
                (#[trigger] after.trees[kept[i].checkpoint.root_tree@][k]).1.blob_hash,
            )
    } by {
        let root = kept[i].checkpoint.root_tree@;
        assert(objects.trees.contains_key(root));
        if holds_hash(dead_trees, root) {
            lemma_swept_is_not_live(stored_trees, live_trees, root);
        }
        assert(after.trees.contains_key(root));
        assert(after.trees[root] == objects.trees[root]);
        assert forall|k: int| 0 <= k < after.trees[root].len() implies after.blobs.contains(
            (#[trigger] after.trees[root][k]).1.blob_hash,
        ) by {
            let h = objects.trees[root][k].1.blob_hash;
            assert(objects.blobs.contains(h));
            assert(holds_hash(live_blobs, h));
            if holds_hash(dead_blobs, h) {
                lemma_swept_is_not_live(stored_blobs, live_blobs, h);
            }
        }
    }
}

/// The store holds at least what `before` holds, and the same tree under
/// each hash that `before` has.
pub open spec fn grown_from(objects: StoredObjects, before: StoredObjects) -> bool {
    &&& forall|h: Seq<u8>|
        before.trees.contains_key(h) ==> objects.trees.contains_key(h) && objects.trees[h]
            == before.trees[h]
    &&& forall|h: Seq<u8>| before.blobs.contains(h) ==> objects.blobs.contains(h)
}

/// A checkpoint that is appended after its tree and the blobs of that tree
/// were written leaves the journal with checkpoints that the store holds in whole.
pub proof fn lemma_append_keeps_reachable_objects(
    records: Seq<JournalRecord>,
    record: JournalRecord,
    before: StoredObjects,
    objects: StoredObjects,
)
    requires
        reaches_all(records, before),
        grown_from(objects, before),
        reaches_all(seq![record], objects),
    ensures
        reaches_all(records.push(record), objects),
{
    let all = records.push(record);
    assert forall|i: int| 0 <= i < all.len() implies {
        &&& objects.trees.contains_key((#[trigger] all[i]).checkpoint.root_tree@)
        &&& forall|k: int|
            0 <= k < objects.trees[all[i].checkpoint.root_tree@].len() ==> objects.blobs.contains(
                (#[trigger] objects.trees[all[i].checkpoint.root_tree@][k]).1.blob_hash,
            )
    } by {
        if i < records.len() {
            assert(all[i] == records[i]);
            let root = records[i].checkpoint.root_tree@;
            assert(before.trees.contains_key(root));
            assert forall|k: int| 0 <= k < objects.trees[root].len() implies objects.blobs.contains(
                (#[trigger] objects.trees[root][k]).1.blob_hash,
            ) by {
                assert(before.blobs.contains(before.trees[root][k].1.blob_hash));
            }
        } else {
            assert(all[i] == seq![record][0]);
        }
    }
}

} // verus!
