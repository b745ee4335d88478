//! The blob store's memory: a cache of blob contents with least-recently-used
//! eviction, and what the store decides around each read and write.

use vstd::prelude::*;
use vstd::slice::slice_to_vec;
use crate::blob::{
    blob_content, flag_compressed, framed, parse_header, stored_payload, Blob, BlobError,
    COMPRESS_THRESHOLD,
};
use crate::hash::{blake3_digest, hash_bytes, Blake3Hash};
use crate::store::{object_path, object_rel_path, ObjectKind};

verus! {

/// Bytes of blob contents that the cache holds at most: 50 MiB.
pub const DEFAULT_CACHE_BYTES: usize = 52_428_800;

/// One cached blob.
#[derive(Debug, Clone, PartialEq, Eq)]
pub struct CacheEntry {
    pub hash: Blake3Hash,
    pub data: Vec<u8>,
}

/// A cached blob as a mathematical value: its hash and its contents.
pub type CachedView = (Seq<u8>, Seq<u8>);

/// The mathematical value of a list of cache entries.
pub open spec fn entries_view(e: Seq<CacheEntry>) -> Seq<CachedView> {
    Seq::new(e.len(), |i: int| (e[i].hash@, e[i].data@))
}

/// The bytes of contents that the entries hold together.
pub open spec fn total_bytes(e: Seq<CachedView>) -> nat
    decreases e.len(),
{
    if e.len() == 0 {
        0
    } else {
        e[0].1.len() + total_bytes(e.drop_first())
    }
}

/// No two entries are for one hash.
pub open spec fn distinct_hashes(e: Seq<CachedView>) -> bool {
    forall|i: int, j: int| 0 <= i < j < e.len() ==> e[i].0 != e[j].0
}

/// An entry for the hash stands at `i`.
pub open spec fn cached_at(e: Seq<CachedView>, hash: Seq<u8>, i: int) -> bool {
    0 <= i < e.len() && e[i].0 == hash
}

/// The cache holds the hash.
pub open spec fn is_cached(e: Seq<CachedView>, hash: Seq<u8>) -> bool {
    exists|i: int| cached_at(e, hash, i)
}

/// The entries without the oldest ones, as many as must go so that `need`
/// more bytes fit under `max`.
pub open spec fn evicted(e: Seq<CachedView>, max: nat, need: nat) -> Seq<CachedView>
    decreases e.len(),
{
    if e.len() == 0 || total_bytes(e) + need <= max {
        e
    } else {
        evicted(e.drop_first(), max, need)
    }
}

/// The cache after contents were offered to it. Contents that it holds, or
/// that are larger than the whole cache, change nothing; else the oldest
/// entries make room and the new entry becomes the most recent.
pub open spec fn after_put(e: Seq<CachedView>, max: nat, hash: Seq<u8>, data: Seq<u8>) -> Seq<CachedView> {
    if is_cached(e, hash) || data.len() > max {
        e
    } else {
        evicted(e, max, data.len()).push((hash, data))
    }
}

/// The cache after a hit at `i`: that entry becomes the most recent.
pub open spec fn after_hit(e: Seq<CachedView>, i: int) -> Seq<CachedView> {
    e.remove(i).push(e[i])
}

pub proof fn lemma_total_push(e: Seq<CachedView>, x: CachedView)
    ensures
        total_bytes(e.push(x)) == total_bytes(e) + x.1.len(),
    decreases e.len(),
{
    let all = e.push(x);
    if e.len() == 0 {
        assert(all.drop_first() =~= Seq::<CachedView>::empty());
        assert(total_bytes(all.drop_first()) == 0);
    } else {
        assert(all.drop_first() =~= e.drop_first().push(x));
        lemma_total_push(e.drop_first(), x);
    }
}

pub proof fn lemma_total_remove(e: Seq<CachedView>, i: int)
    requires
        0 <= i < e.len(),
    ensures
        total_bytes(e.remove(i)) + e[i].1.len() == total_bytes(e),
    decreases e.len(),
{
    if i == 0 {
        assert(e.remove(0) =~= e.drop_first());
    } else {
        assert(e.remove(i).drop_first() =~= e.drop_first().remove(i - 1));
        assert(e.remove(i)[0] == e[0]);
        lemma_total_remove(e.drop_first(), i - 1);
    }
}

/// A cache of blob contents. The entries stand in the order of their last
/// use, the oldest first.
pub struct BlobCache {
    pub max_bytes: usize,
    pub used_bytes: usize,
    pub entries: Vec<CacheEntry>,
}

impl View for BlobCache {
    type V = Seq<CachedView>;

    open spec fn view(&self) -> Seq<CachedView> {
        entries_view(self.entries@)
    }
}

impl BlobCache {
    /// The cache's invariant: one entry per hash, and the contents held
    /// are counted right and fit the limit.
    pub open spec fn wf(&self) -> bool {
        &&& distinct_hashes(self@)
        &&& self.used_bytes == total_bytes(self@)
        &&& self.used_bytes <= self.max_bytes
    }

    /// An empty cache that holds `max_bytes` of contents at most.
    pub fn new(max_bytes: usize) -> (c: Self)
        ensures
            c.wf(),
            c.max_bytes == max_bytes,
            c@.len() == 0,
    {
        BlobCache { max_bytes, used_bytes: 0, entries: Vec::new() }
    }

    /// Where the entry for the hash stands.
    pub fn position(&self, hash: &Blake3Hash) -> (r: Option<usize>)
        ensures
            match r {
                Some(i) => cached_at(self@, hash@, i as int),
                None => !is_cached(self@, hash@),
            },
    {
        let n = self.entries.len();
        let mut i: usize = 0;
        while i < n
            invariant
                n == self.entries@.len(),
                i <= n,
                forall|k: int| 0 <= k < i ==> self@[k].0 != hash@,
            decreases n - i,
        {
            assert(self@[i as int] == (self.entries@[i as int].hash@, self.entries@[i as int].data@));
            if self.entries[i].hash.same(hash) {
                return Some(i);
            }
            i = i + 1;
        }
        None
    }

    /// Whether the cache holds the hash.
    pub fn contains(&self, hash: &Blake3Hash) -> (r: bool)
        ensures
            r == is_cached(self@, hash@),
    {
        self.position(hash).is_some()
    }

    /// The contents cached for the hash. A hit makes the entry the most recent.
    pub fn get(&mut self, hash: &Blake3Hash) -> (r: Option<Vec<u8>>)
        requires
            old(self).wf(),
        ensures
            final(self).wf(),
            final(self).max_bytes == old(self).max_bytes,
            match r {
                Some(data) => exists|i: int|
                    cached_at(old(self)@, hash@, i) && data@ == old(self)@[i].1 && final(self)@
                        == after_hit(old(self)@, i),
                None => !is_cached(old(self)@, hash@) && final(self)@ == old(self)@,
            },
    {
        match self.position(hash) {
            None => None,
            Some(i) => {
                let ghost before = self@;
                let entry = self.entries.remove(i);
                let data = slice_to_vec(entry.data.as_slice());
                self.entries.push(entry);
                proof {
                    assert(self@ =~= after_hit(before, i as int));
                    lemma_total_remove(before, i as int);
                    lemma_total_push(before.remove(i as int), before[i as int]);
                    assert forall|a: int, b: int| 0 <= a < b < self@.len() implies self@[a].0
                        != self@[b].0 by {
                        let oa = if a < i { a } else { a + 1 };
                        assert(self@[a] == before[oa]);
                        if b < self@.len() - 1 {
                            let ob = if b < i { b } else { b + 1 };
                            assert(self@[b] == before[ob]);
                        } else {
                            assert(self@[b] == before[i as int]);
                            if oa < i {
                                assert(before[oa].0 != before[i as int].0);
                            } else {
                                assert(before[i as int].0 != before[oa].0);
                            }
                        }
                    }
                }
                Some(data)
            },
        }
    }

    /// Offers contents to the cache. Contents that the cache holds already
    /// leave it unchanged, and so do contents larger than the whole cache.
    pub fn put(&mut self, hash: Blake3Hash, data: &[u8])
        requires
            old(self).wf(),
        ensures
            final(self).wf(),
            final(self).max_bytes == old(self).max_bytes,
            final(self)@ == after_put(old(self)@, old(self).max_bytes as nat, hash@, data@),
    {
        if self.contains(&hash) || data.len() > self.max_bytes {
            return ;
        }
        let need = data.len();
        let ghost start = self@;
        while self.entries.len() > 0 && self.used_bytes > self.max_bytes - need
            invariant
                self.wf(),
                self.max_bytes == old(self).max_bytes,
                need == data@.len(),
                need <= self.max_bytes,
                !is_cached(self@, hash@),
                evicted(start, self.max_bytes as nat, need as nat) == evicted(
                    self@,
                    self.max_bytes as nat,
                    need as nat,
                ),
            decreases self.entries@.len(),
        {
            let ghost before = self@;
            let gone = self.entries.remove(0);
            proof {
                assert(self@ =~= before.drop_first());
                assert(before.remove(0) =~= before.drop_first());
                lemma_total_remove(before, 0);
                assert(before[0].1.len() == gone.data@.len());
                assert forall|a: int, b: int| 0 <= a < b < self@.len() implies self@[a].0
                    != self@[b].0 by {
                    assert(self@[a] == before[a + 1] && self@[b] == before[b + 1]);
                }
                if is_cached(self@, hash@) {
                    let k = choose|k: int| cached_at(self@, hash@, k);
                    assert(cached_at(before, hash@, k + 1));
                }
            }
            self.used_bytes = self.used_bytes - gone.data.len();
        }
        let ghost kept = self@;
        proof {
            if self.entries@.len() == 0 {
                assert(total_bytes(kept) == 0);
            }
            assert(evicted(kept, self.max_bytes as nat, need as nat) == kept);
            lemma_total_push(kept, (hash@, data@));
        }
        self.entries.push(CacheEntry { hash, data: slice_to_vec(data) });
        self.used_bytes = self.used_bytes + need;
        proof {
            assert(self@ =~= kept.push((hash@, data@)));
            assert forall|a: int, b: int| 0 <= a < b < self@.len() implies self@[a].0 != self@[b].0 by {
                assert(self@[a] == kept[a]);
                if b < kept.len() {
                    assert(self@[b] == kept[b]);
                } else {
                    assert(!cached_at(kept, hash@, a));
                }
            }
        }
    }
}

/// The blob store's state in memory.
pub struct BlobStore {
    pub cache: BlobCache,
}

/// What a write has to put on disk.
#[derive(Debug, Clone, PartialEq, Eq)]
pub struct BlobWrite {
    /// Where the blob goes, below the state directory
    pub path: Vec<u8>,
    /// The stored form of the blob
    pub bytes: Vec<u8>,
}

impl BlobStore {
    /// The store's invariant, that of its cache.
    pub open spec fn wf(&self) -> bool {
        self.cache.wf()
    }

    /// A store with an empty cache of the default size.
    pub fn new() -> (s: Self)
        ensures
            s.wf(),
            s.cache@.len() == 0,
            s.cache.max_bytes == DEFAULT_CACHE_BYTES,
    {
        BlobStore { cache: BlobCache::new(DEFAULT_CACHE_BYTES) }
    }

    /// Where the blob with the hash is stored, below the state directory.
    pub fn blob_path(hash: &Blake3Hash) -> (path: Vec<u8>)
        ensures
            path@ == object_path(ObjectKind::Blob, hash@),
    {
        object_rel_path(ObjectKind::Blob, hash)
    }

    /// Whether the store has the blob: in its cache, or on disk as `on_disk` says.
    pub fn has_blob(&self, hash: &Blake3Hash, on_disk: bool) -> (r: bool)
        ensures
            r == (on_disk || is_cached(self.cache@, hash@)),
    {
        on_disk || self.cache.contains(hash)
    }

    /// Writes a blob: returns what has to go to disk, and caches the
    /// contents. A blob that the store has already is not written again, and
    /// the store stays as it is. Contents below the compression threshold
    /// are always written; longer ones fail where the compressor does.
    pub fn write_blob(&mut self, hash: Blake3Hash, data: &[u8], on_disk: bool) -> (r: Result<
        Option<BlobWrite>,
        BlobError,
    >)
        requires
            old(self).wf(),
        ensures
            final(self).wf(),
            final(self).cache.max_bytes == old(self).cache.max_bytes,
            on_disk || is_cached(old(self).cache@, hash@) ==> r == Ok::<Option<BlobWrite>, BlobError>(None)
                && final(self).cache@ == old(self).cache@,
            data@.len() < COMPRESS_THRESHOLD ==> r is Ok,
            !(on_disk || is_cached(old(self).cache@, hash@)) ==> match r {
                Ok(w) => {
                    &&& w is Some
                    &&& w.unwrap().path@ == object_path(ObjectKind::Blob, hash@)
                    &&& w.unwrap().bytes@ == framed(
                        data@.len() as u64,
                        stored_payload(data@, data@.len() >= COMPRESS_THRESHOLD),
                        data@.len() >= COMPRESS_THRESHOLD,
                    )
                    &&& blob_content(w.unwrap().bytes@) == Ok::<Seq<u8>, BlobError>(data@)
                    &&& final(self).cache@ == after_put(
                        old(self).cache@,
                        old(self).cache.max_bytes as nat,
                        hash@,
                        data@,
                    )
                },
                Err(e) => e == BlobError::CompressionFailed && final(self).cache@ == old(self).cache@,
            },
    {
        if self.has_blob(&hash, on_disk) {
            return Ok(None);
        }
        let bytes = match Blob::from_bytes(data) {
            Err(e) => {
                return Err(e);
            },
            Ok((_, bytes)) => bytes,
        };
        let path = Self::blob_path(&hash);
        self.cache.put(hash, data);
        Ok(Some(BlobWrite { path, bytes }))
    }

    /// Reads a blob from the cache.
    pub fn read_cached(&mut self, hash: &Blake3Hash) -> (r: Option<Vec<u8>>)
        requires
            old(self).wf(),
        ensures
            final(self).wf(),
            final(self).cache.max_bytes == old(self).cache.max_bytes,
            match r {
                Some(data) => exists|i: int|
                    cached_at(old(self).cache@, hash@, i) && data@ == old(self).cache@[i].1
                        && final(self).cache@ == after_hit(old(self).cache@, i),
                None => !is_cached(old(self).cache@, hash@) && final(self).cache@ == old(self).cache@,
            },
    {
        self.cache.get(hash)
    }

    /// Reads a blob from its stored form, as found on disk after a miss of
    /// the cache, and caches the contents. Contents that do not have the hash
    /// are refused. A well-formed blob that has the hash is always read,
    /// unless it is compressed and its header gives an original length that
    /// no buffer of this machine can have.
    pub fn read_blob(&mut self, hash: Blake3Hash, stored: &[u8]) -> (r: Result<Vec<u8>, BlobError>)
        requires
            old(self).wf(),
        ensures
            final(self).wf(),
            final(self).cache.max_bytes == old(self).cache.max_bytes,
            match r {
                Ok(data) => {
                    &&& blob_content(stored@) == Ok::<Seq<u8>, BlobError>(data@)
                    &&& blake3_digest(data@) == hash@
                    &&& final(self).cache@ == after_put(
                        old(self).cache@,
                        old(self).cache.max_bytes as nat,
                        hash@,
                        data@,
                    )
                },
                Err(e) => final(self).cache@ == old(self).cache@ && (match blob_content(stored@) {
                    Err(fault) => e == fault,
                    Ok(data) => (e == BlobError::HashMismatch && blake3_digest(data) != hash@) || (e
                        == BlobError::Corrupted && parse_header(stored@) is Ok && flag_compressed(
                        parse_header(stored@).unwrap().flags,
                    ) && parse_header(stored@).unwrap().orig_len > isize::MAX),
                }),
            },
    {
        match Blob::decode(stored) {
            Err(e) => Err(e),
            Ok(data) => {
                if !hash_bytes(data.as_slice()).same(&hash) {
                    return Err(BlobError::HashMismatch);
                }
                self.cache.put(hash, data.as_slice());
                Ok(data)
            },
        }
    }
}

/// A blob that was written is not written again: on disk or in the cache,
/// the second write finds it, and `after_put` leaves a cache that holds the
/// hash as it is.
pub proof fn lemma_put_is_idempotent(e: Seq<CachedView>, max: nat, hash: Seq<u8>, data: Seq<u8>)
    ensures
        after_put(after_put(e, max, hash, data), max, hash, data) == after_put(e, max, hash, data),
{
    let once = after_put(e, max, hash, data);
    if !(is_cached(e, hash) || data.len() > max) {
        let kept = evicted(e, max, data.len());
        assert(cached_at(once, hash, kept.len() as int));
    }
}

} // verus!
