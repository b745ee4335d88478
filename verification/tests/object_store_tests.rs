use timelapse::blob::{Blob, BlobError};
use timelapse::blob_store::BlobStore;
use timelapse::hash::{hash_bytes, Blake3Hash};
use timelapse::object_store::{Store, StoreError, TreeCache};
use timelapse::tree::{Entry, Tree};
use timelapse::tree_format::TreeError;

fn tree_with(n: u8) -> Tree {
    let mut tree = Tree::new();
    tree.insert(b"file", Entry::file(0o644, Blake3Hash::from_bytes([n; 32])));
    tree
}

#[test]
fn test_store_init() {
    let store = Store::open(b"/work/repo");
    assert_eq!(store.root(), b"/work/repo");
    assert_eq!(store.tl_dir(), b"/work/repo/.tl");
    assert!(store.blob_store().cache.entries.is_empty());
    assert!(store.tree_cache.entries.is_empty());
}

#[test]
fn write_tree_then_read_tree() {
    let mut store = Store::open(b"/repo");
    let tree = tree_with(1);
    let (hash, write) = store.write_tree(&tree).unwrap();
    assert_eq!(hash, tree.hash());
    assert_eq!(write.bytes, tree.serialize());
    assert_eq!(write.path, Store::tree_path(&hash));
    assert_eq!(
        String::from_utf8(write.path.clone()).unwrap(),
        format!("objects/trees/{}/{}", &hash.to_hex()[..2], &hash.to_hex()[2..])
    );
    // served from the cache
    assert_eq!(store.cached_tree(&hash), Some(tree.clone()));
    // and from disk by a store that starts cold
    let mut cold = Store::open(b"/repo");
    assert_eq!(cold.cached_tree(&hash), None);
    assert_eq!(cold.read_tree(hash, &write.bytes), Ok(tree.clone()));
    assert_eq!(cold.cached_tree(&hash), Some(tree));
}

#[test]
fn writing_a_tree_twice_changes_nothing() {
    let mut store = Store::open(b"/repo");
    let tree = tree_with(1);
    let first = store.write_tree(&tree).unwrap();
    let cached = store.tree_cache.entries.clone();
    let second = store.write_tree(&tree).unwrap();
    assert_eq!(first, second);
    assert_eq!(store.tree_cache.entries, cached);
}

#[test]
fn read_tree_checks_the_hash() {
    let mut store = Store::open(b"/repo");
    let bytes = tree_with(1).serialize();
    let other = tree_with(2).hash();
    assert_eq!(store.read_tree(other, &bytes), Err(StoreError::HashMismatch));
    let garbage = b"not a tree";
    assert_eq!(
        store.read_tree(hash_bytes(garbage), garbage),
        Err(StoreError::Damaged(TreeError::BadMagic))
    );
    assert!(store.tree_cache.entries.is_empty());
}

#[test]
fn tree_cache_evicts_the_least_recently_used() {
    let mut cache = TreeCache::new(2);
    let (a, b, c) = (tree_with(1), tree_with(2), tree_with(3));
    cache.put(a.hash(), &a);
    cache.put(b.hash(), &b);
    cache.put(a.hash(), &a);
    assert_eq!(cache.entries.len(), 2);
    assert_eq!(cache.get(&a.hash()), Some(a.clone()));
    cache.put(c.hash(), &c);
    assert_eq!(cache.get(&b.hash()), None);
    assert_eq!(cache.get(&a.hash()), Some(a));
    assert_eq!(cache.get(&c.hash()), Some(c.clone()));

    let mut none = TreeCache::new(0);
    none.put(c.hash(), &c);
    assert!(none.entries.is_empty());
}

#[test]
fn read_blob_checks_the_hash() {
    let mut store = BlobStore::new();
    let (_, stored) = Blob::from_bytes(b"contents").unwrap();
    assert_eq!(store.read_blob(hash_bytes(b"other"), &stored), Err(BlobError::HashMismatch));
    assert!(store.cache.entries.is_empty());
    assert_eq!(store.read_blob(hash_bytes(b"contents"), &stored), Ok(b"contents".to_vec()));
    assert_eq!(store.read_blob(hash_bytes(b"contents"), b"SNB1"), Err(BlobError::Truncated));
}
