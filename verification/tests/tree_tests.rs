use timelapse::hash::{hash_bytes, Blake3Hash};
use timelapse::path_order::{compare_paths, PathOrder};
use timelapse::tree::{Entry, EntryKind, Tree};
use timelapse::tree_diff::TreeDiff;
use timelapse::tree_format::TreeError;

fn entry(n: u8) -> Entry {
    Entry::file(0o644, Blake3Hash::from_bytes([n; 32]))
}

fn sample() -> Tree {
    let mut tree = Tree::new();
    tree.insert(b"src/main.rs", entry(1));
    tree.insert(b"README.md", entry(2));
    tree.insert(b"link", Entry::symlink(Blake3Hash::from_bytes([3; 32])));
    tree
}

#[test]
fn test_tree_serialization_deterministic() {
    let tree = sample();
    let first = tree.serialize();
    let second = tree.serialize();
    assert_eq!(first, second);

    // the order of insertion does not show
    let mut other = Tree::new();
    other.insert(b"link", Entry::symlink(Blake3Hash::from_bytes([3; 32])));
    other.insert(b"README.md", entry(2));
    other.insert(b"src/main.rs", entry(1));
    assert_eq!(other.serialize(), first);
}

#[test]
fn test_tree_hash_deterministic() {
    let a = sample();
    let b = sample();
    assert_eq!(a.hash(), b.hash());
    assert_eq!(a.hash(), hash_bytes(&a.serialize()));

    let mut c = sample();
    c.insert(b"README.md", entry(9));
    assert_ne!(a.hash(), c.hash());
}

#[test]
fn test_tree_diff() {
    let mut old = Tree::new();
    old.insert(b"a.txt", entry(1));
    old.insert(b"b.txt", entry(2));
    old.insert(b"c.txt", entry(3));
    let mut new = Tree::new();
    new.insert(b"b.txt", entry(2));
    new.insert(b"c.txt", entry(30));
    new.insert(b"d.txt", entry(4));
    new.insert(b"0.txt", entry(5));

    let diff = TreeDiff::diff(&old, &new);
    assert_eq!(
        diff.added,
        vec![(b"0.txt".to_vec(), entry(5)), (b"d.txt".to_vec(), entry(4))]
    );
    assert_eq!(diff.removed, vec![(b"a.txt".to_vec(), entry(1))]);
    assert_eq!(diff.modified, vec![(b"c.txt".to_vec(), entry(3), entry(30))]);
    assert!(!diff.is_empty());

    let none = TreeDiff::diff(&old, &old);
    assert!(none.is_empty());
}

#[test]
fn test_tree_update_entries() {
    let base = sample();
    let changes = vec![
        (b"README.md".to_vec(), None),
        (b"new.txt".to_vec(), Some(entry(7))),
        (b"src/main.rs".to_vec(), Some(entry(8))),
        (b"missing".to_vec(), None),
    ];
    let updated = Tree::update_entries(&base, changes);
    assert_eq!(updated.len(), 3);
    assert_eq!(updated.get(b"README.md"), None);
    assert_eq!(updated.get(b"new.txt"), Some(&entry(7)));
    assert_eq!(updated.get(b"src/main.rs"), Some(&entry(8)));
    assert!(updated.get(b"link").is_some());
    // the base is untouched
    assert_eq!(base.len(), 3);
    assert_eq!(base.get(b"src/main.rs"), Some(&entry(1)));
}

#[test]
fn update_entries_last_change_wins() {
    let base = Tree::new();
    let changes = vec![
        (b"a".to_vec(), Some(entry(1))),
        (b"a".to_vec(), Some(entry(2))),
        (b"b".to_vec(), Some(entry(3))),
        (b"b".to_vec(), None),
    ];
    let updated = Tree::update_entries(&base, changes);
    assert_eq!(updated.len(), 1);
    assert_eq!(updated.get(b"a"), Some(&entry(2)));
}

#[test]
fn empty_tree_is_eight_bytes() {
    let tree = Tree::new();
    assert!(tree.is_empty());
    assert_eq!(tree.serialize(), vec![b'S', b'N', b'T', b'1', 0, 0, 0, 0]);
    assert_eq!(tree.hash(), Tree::new().hash());
    assert_eq!(tree.hash(), hash_bytes(b"SNT1\0\0\0\0"));
}

#[test]
fn wire_form_layout() {
    let mut tree = Tree::new();
    tree.insert(b"b", Entry { kind: EntryKind::Submodule, mode: 0x01020304, blob_hash: Blake3Hash::from_bytes([9; 32]) });
    tree.insert(b"a", entry(7));
    let bytes = tree.serialize();
    let mut expected = b"SNT1".to_vec();
    expected.extend_from_slice(&2u32.to_le_bytes());
    expected.extend_from_slice(&1u16.to_le_bytes());
    expected.push(b'a');
    expected.push(0);
    expected.extend_from_slice(&0o644u32.to_le_bytes());
    expected.extend_from_slice(&[7; 32]);
    expected.extend_from_slice(&1u16.to_le_bytes());
    expected.push(b'b');
    expected.push(2);
    expected.extend_from_slice(&[4, 3, 2, 1]);
    expected.extend_from_slice(&[9; 32]);
    assert_eq!(bytes, expected);
}

#[test]
fn serialize_then_deserialize_round_trips() {
    let tree = sample();
    let bytes = tree.serialize();
    let back = Tree::deserialize(&bytes).unwrap();
    assert_eq!(back, tree);
    assert_eq!(back.serialize(), bytes);
    assert_eq!(back.get(b"link"), Some(&Entry::symlink(Blake3Hash::from_bytes([3; 32]))));
    assert_eq!(back.get(b"link").unwrap().mode, 0o120000);
}

#[test]
fn deserialize_reports_each_fault() {
    assert_eq!(Tree::deserialize(b"SN"), Err(TreeError::Truncated));
    assert_eq!(Tree::deserialize(b"SNB1\0\0\0\0"), Err(TreeError::BadMagic));
    assert_eq!(Tree::deserialize(b"SNT1\0\0"), Err(TreeError::Truncated));
    assert_eq!(Tree::deserialize(b"SNT1\x01\0\0\0"), Err(TreeError::Truncated));
    assert_eq!(Tree::deserialize(b"SNT1\0\0\0\0x"), Err(TreeError::TrailingBytes));

    let good = sample().serialize();
    assert_eq!(Tree::deserialize(&good[..good.len() - 1]), Err(TreeError::Truncated));

    let mut one = Tree::new();
    one.insert(b"a", entry(1));
    let mut bad_kind = one.serialize();
    bad_kind[8 + 2 + 1] = 7;
    assert_eq!(Tree::deserialize(&bad_kind), Err(TreeError::BadKind { byte: 7 }));

    // two entries in descending order
    let mut two = Tree::new();
    two.insert(b"a", entry(1));
    two.insert(b"b", entry(2));
    let mut swapped = two.serialize();
    swapped[10] = b'b';
    swapped[10 + 40] = b'a';
    assert_eq!(Tree::deserialize(&swapped), Err(TreeError::Unsorted));
    // the same path twice
    swapped[10] = b'a';
    assert_eq!(Tree::deserialize(&swapped), Err(TreeError::Unsorted));
}

#[test]
fn insert_get_remove() {
    let mut tree = Tree::new();
    assert_eq!(tree.len(), 0);
    tree.insert(b"x", entry(1));
    tree.insert(b"x", entry(2));
    assert_eq!(tree.len(), 1);
    assert_eq!(tree.get(b"x"), Some(&entry(2)));
    assert_eq!(tree.get(b"y"), None);
    assert_eq!(tree.remove(b"y"), None);
    assert_eq!(tree.remove(b"x"), Some(entry(2)));
    assert!(tree.is_empty());
}

#[test]
fn items_come_in_byte_order() {
    let mut tree = Tree::new();
    for p in [&b"b"[..], b"a/b", b"a", b"B", b"a.b", b"ab"] {
        tree.insert(p, entry(1));
    }
    let paths: Vec<Vec<u8>> = (0..tree.len()).map(|i| tree.item(i).path.clone()).collect();
    assert_eq!(
        paths,
        vec![b"B".to_vec(), b"a".to_vec(), b"a.b".to_vec(), b"a/b".to_vec(), b"ab".to_vec(), b"b".to_vec()]
    );
}

#[test]
fn compare_paths_is_lexicographic() {
    assert_eq!(compare_paths(b"a", b"b"), PathOrder::Before);
    assert_eq!(compare_paths(b"b", b"a"), PathOrder::After);
    assert_eq!(compare_paths(b"a", b"a"), PathOrder::Same);
    assert_eq!(compare_paths(b"a", b"ab"), PathOrder::Before);
    assert_eq!(compare_paths(b"", b""), PathOrder::Same);
    assert_eq!(compare_paths(b"\xff", b"a"), PathOrder::After);
}

#[test]
fn independent_builds_of_one_file_set_agree() {
    let files: [(&[u8], &[u8]); 3] = [(b"a.txt", b"hello"), (b"dir/b.txt", b"world"), (b"c", b"")];
    let mut first = Tree::new();
    for (path, data) in files.iter() {
        first.insert(path, Entry::file(0o644, hash_bytes(data)));
    }
    let mut second = Tree::new();
    for (path, data) in files.iter().rev() {
        second.insert(path, Entry::file(0o644, hash_bytes(data)));
    }
    assert_eq!(first.hash(), second.hash());
}

#[test]
fn the_default_tree_is_empty() {
    let tree = Tree::default();
    assert!(tree.is_empty());
    assert_eq!(tree, Tree::new());
    assert_eq!(tree.hash(), Tree::new().hash());
}
