//! The object store's memory and decisions: a cache of trees by hash, what
//! a tree write puts on disk, and the check of what a read found there.

use vstd::prelude::*;
use vstd::slice::slice_to_vec;
use crate::blob_store::BlobStore;
use crate::hash::{blake3_digest, hash_bytes, Blake3Hash};
use crate::store::{object_path, object_rel_path, ObjectKind};
use crate::tree::{Items, Tree};
use crate::tree_format::{parse_tree, tree_bytes, tree_hash, TreeError};

verus! {

/// Number of trees that the cache holds at most.
pub const DEFAULT_CACHED_TREES: usize = 64;

/// `/.tl`
pub const STATE_DIR_SUFFIX: [u8; 4] = ['/' as u8, '.' as u8, 't' as u8, 'l' as u8];

/// Why the store refuses a tree.
#[derive(Debug, Clone, Copy, PartialEq, Eq)]
pub enum StoreError {
    /// What was found on disk does not have the hash under which it is stored.
    HashMismatch,
    /// What was found on disk has the right hash and is no tree.
    Damaged(TreeError),
    /// The tree has more entries than the wire format can count.
    TooManyEntries,
}

/// One cached tree.
#[derive(Debug, Clone, PartialEq, Eq)]
pub struct CachedTree {
    pub hash: Blake3Hash,
    pub tree: Tree,
}

/// A cached tree as a mathematical value: its hash and its listing.
pub type CachedTreeView = (Seq<u8>, Items);

/// The mathematical value of a list of cached trees.
pub open spec fn trees_view(e: Seq<CachedTree>) -> Seq<CachedTreeView> {
    Seq::new(e.len(), |i: int| (e[i].hash@, e[i].tree.items()))
}

/// An entry for the hash stands at `i`.
pub open spec fn tree_cached_at(e: Seq<CachedTreeView>, hash: Seq<u8>, i: int) -> bool {
    0 <= i < e.len() && e[i].0 == hash
}

/// The cache holds a tree for the hash.
pub open spec fn tree_is_cached(e: Seq<CachedTreeView>, hash: Seq<u8>) -> bool {
    exists|i: int| tree_cached_at(e, hash, i)
}

/// How many of the oldest entries go so that one more fits under `max`.
pub open spec fn overflow(len: nat, max: nat) -> nat {
    if len >= max {
        (len - max + 1) as nat
    } else {
        0
    }
}

/// The cache after a tree was offered to it. A tree that it holds changes
/// nothing, and neither does any tree where the cache holds none; else the
/// oldest entries make room and the tree becomes the most recent entry.
pub open spec fn after_tree_put(e: Seq<CachedTreeView>, max: nat, hash: Seq<u8>, items: Items) -> Seq<
    CachedTreeView,
> {
    if tree_is_cached(e, hash) || max == 0 {
        e
    } else {
        e.subrange(overflow(e.len(), max) as int, e.len() as int).push((hash, items))
    }
}

/// A cache of trees. The entries stand in the order of their last use, the
/// oldest first.
pub struct TreeCache {
    pub max_trees: usize,
    pub entries: Vec<CachedTree>,
}

impl View for TreeCache {
    type V = Seq<CachedTreeView>;

    open spec fn view(&self) -> Seq<CachedTreeView> {
        trees_view(self.entries@)
    }
}

impl TreeCache {
    /// The cache's invariant: one entry per hash, no more entries than the
    /// limit, and each tree well formed.
    pub open spec fn wf(&self) -> bool {
        &&& forall|i: int, j: int| 0 <= i < j < self@.len() ==> self@[i].0 != self@[j].0
        &&& self@.len() <= self.max_trees
        &&& forall|i: int| 0 <= i < self.entries@.len() ==> (#[trigger] self.entries@[i]).tree.wf()
    }

    /// An empty cache for `max_trees` trees at most.
    pub fn new(max_trees: usize) -> (c: Self)
        ensures
            c.wf(),
            c.max_trees == max_trees,
            c@.len() == 0,
    {
        TreeCache { max_trees, entries: Vec::new() }
    }

    /// Where the entry for the hash stands.
    pub fn position(&self, hash: &Blake3Hash) -> (r: Option<usize>)
        ensures
            match r {
                Some(i) => tree_cached_at(self@, hash@, i as int),
                None => !tree_is_cached(self@, hash@),
            },
    {
        let n = self.entries.len();
        let mut i: usize = 0;
        while i < n
            invariant
                n == self.entries@.len(),
                i <= n,
                forall|k: int| 0 <= k < i ==> self@[k].0 != hash@,
            decreases n - i,
        {
            assert(self@[i as int] == (self.entries@[i as int].hash@, self.entries@[i as int].tree.items()));
            if self.entries[i].hash.same(hash) {
                return Some(i);
            }
            i = i + 1;
        }
        None
    }

    /// The tree cached for the hash. A hit makes the entry the most recent.
    pub fn get(&mut self, hash: &Blake3Hash) -> (r: Option<Tree>)
        requires
            old(self).wf(),
        ensures
            final(self).wf(),
            final(self).max_trees == old(self).max_trees,
            match r {
                Some(tree) => tree.wf() && exists|i: int|
                    tree_cached_at(old(self)@, hash@, i) && tree.items() == old(self)@[i].1
                        && final(self)@ == old(self)@.remove(i).push(old(self)@[i]),
                None => !tree_is_cached(old(self)@, hash@) && final(self)@ == old(self)@,
            },
    {
        match self.position(hash) {
            None => None,
            Some(i) => {
                let ghost before = self@;
                let ghost before_entries = self.entries@;
                let entry = self.entries.remove(i);
                let tree = entry.tree.duplicate();
                self.entries.push(entry);
                proof {
                    assert(before[i as int] == (before_entries[i as int].hash@, before_entries[i as int].tree.items()));
                    assert(self@ =~= before.remove(i as int).push(before[i as int]));
                    assert forall|a: int, b: int| 0 <= a < b < self@.len() implies self@[a].0
                        != self@[b].0 by {
                        let oa = if a < i { a } else { a + 1 };
                        assert(self@[a] == before[oa]);
                        if b < self@.len() - 1 {
                            let ob = if b < i { b } else { b + 1 };
                            assert(self@[b] == before[ob]);
                        } else {
                            assert(self@[b] == before[i as int]);
                            if oa < i {
                                assert(before[oa].0 != before[i as int].0);
                            } else {
                                assert(before[i as int].0 != before[oa].0);
                            }
                        }
                    }
                    assert forall|k: int| 0 <= k < self.entries@.len() implies (#[trigger] self.entries@[k]).tree.wf() by {
                        if k < self.entries@.len() - 1 {
                            let ok = if k < i { k } else { k + 1 };
                            assert(self.entries@[k] == before_entries[ok]);
                        } else {
                            assert(self.entries@[k] == before_entries[i as int]);
                        }
                    }
                }
                Some(tree)
            },
        }
    }

    /// Offers a tree to the cache. A tree that the cache holds already
    /// leaves it unchanged.
    pub fn put(&mut self, hash: Blake3Hash, tree: &Tree)
        requires
            old(self).wf(),
            tree.wf(),
        ensures
            final(self).wf(),
            final(self).max_trees == old(self).max_trees,
            final(self)@ == after_tree_put(old(self)@, old(self).max_trees as nat, hash@, tree.items()),
    {
        if self.position(&hash).is_some() || self.max_trees == 0 {
            return ;
        }
        let ghost start = self@;
        let ghost mut gone: int = 0;
        while self.entries.len() >= self.max_trees
            invariant
                self.wf(),
                self.max_trees == old(self).max_trees,
                self.max_trees > 0,
                start == old(self)@,
                gone <= start.len(),
                0 <= gone,
                self@ == start.subrange(gone, start.len() as int),
                gone <= overflow(start.len(), self.max_trees as nat),
                !tree_is_cached(self@, hash@),
            decreases self.entries@.len(),
        {
            let ghost before = self@;
            let ghost before_entries = self.entries@;
            self.entries.remove(0);
            proof {
                assert(before.len() == start.len() - gone);
                assert(self@ =~= before.subrange(1, before.len() as int));
                assert(self@ =~= start.subrange(gone + 1, start.len() as int));
                assert forall|a: int, b: int| 0 <= a < b < self@.len() implies self@[a].0
                    != self@[b].0 by {
                    assert(self@[a] == before[a + 1] && self@[b] == before[b + 1]);
                }
                assert forall|k: int| 0 <= k < self.entries@.len() implies (#[trigger] self.entries@[k]).tree.wf() by {
                    assert(self.entries@[k] == before_entries[k + 1]);
                }
                if tree_is_cached(self@, hash@) {
                    let k = choose|k: int| tree_cached_at(self@, hash@, k);
                    assert(tree_cached_at(before, hash@, k + 1));
                }
            }
            proof {
                gone = gone + 1;
            }
        }
        let ghost kept = self@;
        let ghost kept_entries = self.entries@;
        self.entries.push(CachedTree { hash, tree: tree.duplicate() });
        proof {
            assert(gone == overflow(start.len(), self.max_trees as nat));
            assert(self@ =~= kept.push((hash@, tree.items())));
            assert forall|a: int, b: int| 0 <= a < b < self@.len() implies self@[a].0 != self@[b].0 by {
                assert(self@[a] == kept[a]);
                if b < kept.len() {
                    assert(self@[b] == kept[b]);
                } else {
                    assert(!tree_cached_at(kept, hash@, a));
                }
            }
            assert forall|k: int| 0 <= k < self.entries@.len() implies (#[trigger] self.entries@[k]).tree.wf() by {
                if k < kept_entries.len() {
                    assert(self.entries@[k] == kept_entries[k]);
                }
            }
        }
    }
}

/// What a tree write has to put on disk, unless it is there.
#[derive(Debug, Clone, PartialEq, Eq)]
pub struct TreeWrite {
    /// Where the tree goes, below the state directory
    pub path: Vec<u8>,
    /// The wire form of the tree
    pub bytes: Vec<u8>,
}

/// The store of one repository: where it lies, its blob store, and its
/// cache of trees.
pub struct Store {
    pub root: Vec<u8>,
    pub tl_dir: Vec<u8>,
    pub blob_store: BlobStore,
    pub tree_cache: TreeCache,
}

impl Store {
    /// The store's invariant, that of its caches.
    pub open spec fn wf(&self) -> bool {
        self.blob_store.wf() && self.tree_cache.wf()
    }

    /// The store of the repository at `repo_root`, with empty caches. Its
    /// state directory is `.tl` below the root.
    pub fn open(repo_root: &[u8]) -> (s: Self)
        ensures
            s.wf(),
            s.root@ == repo_root@,
            s.tl_dir@ == repo_root@ + STATE_DIR_SUFFIX@,
            s.blob_store.cache@.len() == 0,
            s.tree_cache@.len() == 0,
            s.tree_cache.max_trees == DEFAULT_CACHED_TREES,
    {
        let mut tl_dir = slice_to_vec(repo_root);
        tl_dir.extend_from_slice(STATE_DIR_SUFFIX.as_slice());
        assert(tl_dir@ =~= repo_root@ + STATE_DIR_SUFFIX@);
        Store {
            root: slice_to_vec(repo_root),
            tl_dir,
            blob_store: BlobStore::new(),
            tree_cache: TreeCache::new(DEFAULT_CACHED_TREES),
        }
    }

    /// The blob store.
    pub fn blob_store(&self) -> (b: &BlobStore)
        ensures
            *b == self.blob_store,
    {
        &self.blob_store
    }

    /// The state directory.
    pub fn tl_dir(&self) -> (d: &[u8])
        ensures
            d@ == self.tl_dir@,
    {
        self.tl_dir.as_slice()
    }

    /// The repository root.
    pub fn root(&self) -> (d: &[u8])
        ensures
            d@ == self.root@,
    {
        self.root.as_slice()
    }

    /// Where the tree with the hash is stored, below the state directory.
    pub fn tree_path(hash: &Blake3Hash) -> (path: Vec<u8>)
        ensures
            path@ == object_path(ObjectKind::Tree, hash@),
    {
        object_rel_path(ObjectKind::Tree, hash)
    }

    /// Writes a tree: returns its hash and what has to go to disk unless it
    /// is there, and caches the tree.
    pub fn write_tree(&mut self, tree: &Tree) -> (r: Result<(Blake3Hash, TreeWrite), StoreError>)
        requires
            old(self).wf(),
            tree.wf(),
        ensures
            final(self).wf(),
            final(self).blob_store == old(self).blob_store,
            final(self).root == old(self).root,
            final(self).tl_dir == old(self).tl_dir,
            final(self).tree_cache.max_trees == old(self).tree_cache.max_trees,
            match r {
                Ok((hash, write)) => {
                    &&& tree.items().len() <= u32::MAX
                    &&& hash@ == tree_hash(tree.items())
                    &&& write.bytes@ == tree_bytes(tree.items())
                    &&& write.path@ == object_path(ObjectKind::Tree, hash@)
                    &&& final(self).tree_cache@ == after_tree_put(
                        old(self).tree_cache@,
                        old(self).tree_cache.max_trees as nat,
                        hash@,
                        tree.items(),
                    )
                },
                Err(e) => e == StoreError::TooManyEntries && tree.items().len() > u32::MAX
                    && final(self).tree_cache@ == old(self).tree_cache@,
            },
    {
        if tree.len() > 0xffff_ffff {
            return Err(StoreError::TooManyEntries);
        }
        let bytes = tree.serialize();
        let hash = hash_bytes(bytes.as_slice());
        let path = Self::tree_path(&hash);
        self.tree_cache.put(hash, tree);
        Ok((hash, TreeWrite { path, bytes }))
    }

    /// Reads a tree from the cache.
    pub fn cached_tree(&mut self, hash: &Blake3Hash) -> (r: Option<Tree>)
        requires
            old(self).wf(),
        ensures
            final(self).wf(),
            final(self).blob_store == old(self).blob_store,
            final(self).tree_cache.max_trees == old(self).tree_cache.max_trees,
            match r {
                Some(tree) => tree.wf() && exists|i: int|
                    tree_cached_at(old(self).tree_cache@, hash@, i) && tree.items() == old(
                        self,
                    ).tree_cache@[i].1 && final(self).tree_cache@ == old(self).tree_cache@.remove(i).push(
                        old(self).tree_cache@[i],
                    ),
                None => !tree_is_cached(old(self).tree_cache@, hash@) && final(self).tree_cache@ == old(
                    self,
                ).tree_cache@,
            },
    {
        self.tree_cache.get(hash)
    }

    /// Reads a tree from its wire form, as found on disk after a miss of
    /// the cache, and caches it. Bytes that do not have the hash are
    /// refused, and so are bytes that are no tree.
    pub fn read_tree(&mut self, hash: Blake3Hash, stored: &[u8]) -> (r: Result<Tree, StoreError>)
        requires
            old(self).wf(),
        ensures
            final(self).wf(),
            final(self).blob_store == old(self).blob_store,
            final(self).tree_cache.max_trees == old(self).tree_cache.max_trees,
            match r {
                Ok(tree) => {
                    &&& tree.wf()
                    &&& blake3_digest(stored@) == hash@
                    &&& parse_tree(stored@) == Ok::<Items, TreeError>(tree.items())
                    &&& final(self).tree_cache@ == after_tree_put(
                        old(self).tree_cache@,
                        old(self).tree_cache.max_trees as nat,
                        hash@,
                        tree.items(),
                    )
                },
                Err(e) => final(self).tree_cache@ == old(self).tree_cache@ && (if blake3_digest(stored@)
                    != hash@ {
                    e == StoreError::HashMismatch
                } else {
                    parse_tree(stored@) is Err && e == StoreError::Damaged(parse_tree(stored@)->Err_0)
                }),
            },
    {
        if !hash_bytes(stored).same(&hash) {
            return Err(StoreError::HashMismatch);
        }
        match Tree::deserialize(stored) {
            Err(e) => Err(StoreError::Damaged(e)),
            Ok(tree) => {
                self.tree_cache.put(hash, &tree);
                Ok(tree)
            },
        }
    }
}

} // verus!
