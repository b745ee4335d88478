//! The checkpoint pipeline's decisions: whether a batch makes a checkpoint,
//! what that checkpoint holds, and what the pipeline remembers afterwards.

use vstd::prelude::*;
use crate::blob::{capped, sum_of, total_size};
use crate::checkpoint::{Checkpoint, CheckpointMeta, CheckpointReason};
use crate::hash::Blake3Hash;
use crate::tree_diff::TreeDiff;

verus! {

/// What the pipeline remembers between batches.
#[derive(Debug, Clone, Copy, PartialEq, Eq)]
pub struct Pipeline {
    /// The checkpoint made last
    pub last_id: Option<u128>,
    /// The root tree of that checkpoint
    pub last_root: Option<Blake3Hash>,
    /// Checkpoints made since the start
    pub checkpoints_created: u64,
    /// Batches dropped because they changed nothing
    pub batches_dropped: u64,
}

/// One more than `n`, or `n` where it is the largest value.
pub open spec fn bump(n: u64) -> u64 {
    if n == u64::MAX {
        n
    } else {
        (n + 1) as u64
    }
}

/// What a tree diff and the byte counts make up: the number of paths added,
/// removed and modified, held at the largest 32-bit value where it is greater.
pub open spec fn summed_up(added: nat, removed: nat, modified: nat, bytes_added: u64, bytes_removed: u64) -> CheckpointMeta {
    CheckpointMeta {
        files_changed: if added + removed + modified > u32::MAX {
            u32::MAX
        } else {
            (added + removed + modified) as u32
        },
        bytes_added,
        bytes_removed,
    }
}

/// The metadata of a checkpoint, from the diff against its parent's tree.
pub fn checkpoint_meta(diff: &TreeDiff, bytes_added: u64, bytes_removed: u64) -> (meta: CheckpointMeta)
    ensures
        meta == summed_up(
            diff.added@.len(),
            diff.removed@.len(),
            diff.modified@.len(),
            bytes_added,
            bytes_removed,
        ),
{
    let total: u128 = diff.added.len() as u128 + diff.removed.len() as u128 + diff.modified.len() as u128;
    let files_changed: u32 = if total > 0xffff_ffff {
        0xffff_ffff
    } else {
        total as u32
    };
    CheckpointMeta { files_changed, bytes_added, bytes_removed }
}

/// The metadata of a checkpoint, from the diff against its parent's tree
/// and the sizes of the contents that the batch brought and took away.
pub fn batch_meta(diff: &TreeDiff, added_sizes: &[u64], removed_sizes: &[u64]) -> (meta: CheckpointMeta)
    ensures
        meta == summed_up(
            diff.added@.len(),
            diff.removed@.len(),
            diff.modified@.len(),
            capped(sum_of(added_sizes@)),
            capped(sum_of(removed_sizes@)),
        ),
{
    checkpoint_meta(diff, total_size(added_sizes), total_size(removed_sizes))
}

impl Pipeline {
    /// The root is that of the last checkpoint.
    pub open spec fn unchanged(&self, root: Blake3Hash) -> bool {
        self.last_root is Some && self.last_root.unwrap()@ == root@
    }

    /// A pipeline that continues after the given checkpoint, if there is one.
    pub fn new(last: Option<(u128, Blake3Hash)>) -> (p: Self)
        ensures
            p.checkpoints_created == 0,
            p.batches_dropped == 0,
            match last {
                Some((id, root)) => p.last_id == Some(id) && p.last_root == Some(root),
                None => p.last_id is None && p.last_root is None,
            },
    {
        match last {
            Some((id, root)) => Pipeline {
                last_id: Some(id),
                last_root: Some(root),
                checkpoints_created: 0,
                batches_dropped: 0,
            },
            None => Pipeline { last_id: None, last_root: None, checkpoints_created: 0, batches_dropped: 0 },
        }
    }

    /// The checkpoint for a batch whose tree has the root `new_root`. A
    /// batch that leaves the root as it was makes no checkpoint; else the
    /// checkpoint follows the last one.
    pub fn plan(
        &self,
        new_root: Blake3Hash,
        id: u128,
        ts_unix_ms: u64,
        reason: CheckpointReason,
        touched_paths: Vec<Vec<u8>>,
        meta: CheckpointMeta,
    ) -> (r: Option<Checkpoint>)
        ensures
            r == (if self.unchanged(new_root) {
                None
            } else {
                Some(
                    Checkpoint {
                        id,
                        parent: self.last_id,
                        root_tree: new_root,
                        ts_unix_ms,
                        reason,
                        touched_paths,
                        meta,
                    },
                )
            }),
    {
        let same = match &self.last_root {
            Some(root) => root.same(&new_root),
            None => false,
        };
        if same {
            None
        } else {
            Some(Checkpoint::new(id, ts_unix_ms, self.last_id, new_root, reason, touched_paths, meta))
        }
    }

    /// Notes that the checkpoint was appended to the journal: it is the last one now.
    pub fn committed(&mut self, id: u128, root_tree: Blake3Hash)
        ensures
            final(self).last_id == Some(id),
            final(self).last_root == Some(root_tree),
            final(self).checkpoints_created == bump(old(self).checkpoints_created),
            final(self).batches_dropped == old(self).batches_dropped,
    {
        self.last_id = Some(id);
        self.last_root = Some(root_tree);
        if self.checkpoints_created < u64::MAX {
            self.checkpoints_created = self.checkpoints_created + 1;
        }
    }

    /// Notes that a batch was dropped because it changed nothing.
    pub fn dropped(&mut self)
        ensures
            final(self).last_id == old(self).last_id,
            final(self).last_root == old(self).last_root,
            final(self).checkpoints_created == old(self).checkpoints_created,
            final(self).batches_dropped == bump(old(self).batches_dropped),
    {
        if self.batches_dropped < u64::MAX {
            self.batches_dropped = self.batches_dropped + 1;
        }
    }
}

} // verus!
