use timelapse::hash::{hash_bytes, Blake3Hash};
use timelapse::pathmap::{incremental_update, is_under, normalize_dirty_paths, Found, Observation, PathMap};
use timelapse::tree::{Entry, Tree};
use timelapse::tree_format::TreeError;

fn file(data: &[u8]) -> Found {
    Found::File { mode: 0o644, hash: hash_bytes(data) }
}

fn seen(path: &[u8], found: Found) -> Observation {
    Observation { path: path.to_vec(), found }
}

#[test]
fn update_and_get() {
    let root = Blake3Hash::from_bytes([1; 32]);
    let mut map = PathMap::new(root);
    assert_eq!(map.root_tree, root);
    assert_eq!(map.len(), 0);
    let e = Entry::file(0o755, hash_bytes(b"x"));
    map.update(b"bin/x", Some(e));
    assert_eq!(map.get(b"bin/x"), Some(&e));
    map.update(b"bin/x", None);
    assert_eq!(map.get(b"bin/x"), None);
    map.update(b"never", None);
    assert_eq!(map.len(), 0);
}

#[test]
fn save_then_load_round_trips() {
    let mut map = PathMap::new(Blake3Hash::from_bytes([7; 32]));
    map.update(b"a", Some(Entry::file(0o644, hash_bytes(b"a"))));
    map.update(b"l", Some(Entry::symlink(hash_bytes(b"a"))));
    let bytes = map.save();
    assert_eq!(&bytes[..32], &[7; 32]);
    assert_eq!(&bytes[32..], &map.tree().serialize()[..]);
    let back = PathMap::load(&bytes).unwrap();
    assert_eq!(back.root_tree, map.root_tree);
    assert_eq!(back.tree(), map.tree());
}

#[test]
fn load_faults() {
    assert!(matches!(PathMap::load(&[0u8; 31]), Err(TreeError::Truncated)));
    assert!(matches!(PathMap::load(&[0u8; 32]), Err(TreeError::Truncated)));
    assert!(matches!(PathMap::load(&[0u8; 40]), Err(TreeError::BadMagic)));
}

#[test]
fn incremental_update_applies_what_was_found() {
    let mut base_tree = Tree::new();
    base_tree.insert(b"keep.txt", Entry::file(0o644, hash_bytes(b"k")));
    base_tree.insert(b"dir/a", Entry::file(0o644, hash_bytes(b"a")));
    base_tree.insert(b"dir/sub/b", Entry::file(0o644, hash_bytes(b"b")));
    base_tree.insert(b"dir2", Entry::file(0o644, hash_bytes(b"c")));
    base_tree.insert(b"gone", Entry::file(0o644, hash_bytes(b"g")));
    let base = PathMap::from_tree(base_tree.hash(), base_tree.clone());

    let observations = vec![
        seen(b"new.txt", file(b"hello")),
        seen(b"dir", Found::Missing),
        seen(b"gone", Found::Missing),
        seen(b"link", Found::Symlink { hash: hash_bytes(b"keep.txt") }),
        seen(b"keep.txt", file(b"k2")),
    ];
    let (tree, root) = incremental_update(&base, &observations).unwrap();
    assert_eq!(tree.len(), 4);
    assert_eq!(tree.get(b"new.txt"), Some(&Entry::file(0o644, hash_bytes(b"hello"))));
    assert_eq!(tree.get(b"keep.txt"), Some(&Entry::file(0o644, hash_bytes(b"k2"))));
    assert_eq!(tree.get(b"link"), Some(&Entry::symlink(hash_bytes(b"keep.txt"))));
    assert!(tree.get(b"dir2").is_some());
    assert!(tree.get(b"dir/a").is_none());
    assert!(tree.get(b"dir/sub/b").is_none());
    assert!(tree.get(b"gone").is_none());
    assert_eq!(root, tree.hash());
    // the base is untouched
    assert_eq!(base.tree(), &base_tree);
}

#[test]
fn a_dirty_set_that_changed_nothing_keeps_the_root() {
    let mut base_tree = Tree::new();
    base_tree.insert(b"a.txt", Entry::file(0o644, hash_bytes(b"hello")));
    let last_root = base_tree.hash();
    let base = PathMap::from_tree(last_root, base_tree);

    let (_, root) = incremental_update(&base, &Vec::new()).unwrap();
    assert_eq!(root, last_root);
    let touched = vec![seen(b"a.txt", file(b"hello")), seen(b"never-there", Found::Missing)];
    let (_, root) = incremental_update(&base, &touched).unwrap();
    assert_eq!(root, last_root);
}

#[test]
fn two_daemons_fed_the_same_files_agree() {
    let files: [(&[u8], &[u8]); 3] = [(b"a.txt", b"hello"), (b"b/c.txt", b"world"), (b"d", b"!")];
    let forward: Vec<Observation> = files.iter().map(|(p, d)| seen(p, file(d))).collect();
    let backward: Vec<Observation> = files.iter().rev().map(|(p, d)| seen(p, file(d))).collect();
    let empty = PathMap::new(Tree::new().hash());
    let (_, one) = incremental_update(&empty, &forward).unwrap();
    let (_, two) = incremental_update(&PathMap::new(Tree::new().hash()), &backward).unwrap();
    assert_eq!(one, two);
}

#[test]
fn dirty_paths_are_made_relative_and_deduplicated() {
    let paths = vec![
        b"/repo/src/main.rs".to_vec(),
        b"./src/main.rs".to_vec(),
        b"/repo/.tl/journal/db".to_vec(),
        b".git/HEAD".to_vec(),
        b"/repo".to_vec(),
        b"/elsewhere/x".to_vec(),
        b"../x".to_vec(),
        b"/repo/a/../b".to_vec(),
        b"/repo/README.md".to_vec(),
        b"src\\main.rs".to_vec(),
        b"/repository/x".to_vec(),
    ];
    assert_eq!(
        normalize_dirty_paths(&paths, b"/repo"),
        vec![b"src/main.rs".to_vec(), b"README.md".to_vec()]
    );
    assert_eq!(normalize_dirty_paths(&Vec::new(), b"/repo"), Vec::<Vec<u8>>::new());
}

#[test]
fn under_is_by_components() {
    assert!(is_under(b"dir", b"dir"));
    assert!(is_under(b"dir/a", b"dir"));
    assert!(!is_under(b"dir2", b"dir"));
    assert!(!is_under(b"di", b"dir"));
    assert!(!is_under(b"a/dir/b", b"dir"));
}

#[test]
fn a_map_for_another_root_is_stale() {
    let root = hash_bytes(b"root");
    let map = PathMap::new(root);
    assert!(map.reflects(&root));
    assert!(!map.reflects(&hash_bytes(b"later root")));
}

#[test]
fn a_confirming_dirty_set_gives_the_base_tree_back() {
    let mut base_tree = Tree::new();
    base_tree.insert(b"a.txt", Entry::file(0o644, hash_bytes(b"hello")));
    base_tree.insert(b"l", Entry::symlink(hash_bytes(b"a.txt")));
    let base = PathMap::from_tree(base_tree.hash(), base_tree.clone());
    let observations = vec![
        seen(b"a.txt", file(b"hello")),
        seen(b"l", Found::Symlink { hash: hash_bytes(b"a.txt") }),
        seen(b"absent", Found::Missing),
    ];
    let (tree, root) = incremental_update(&base, &observations).unwrap();
    assert_eq!(tree, base_tree);
    assert_eq!(root, base.root_tree);
    assert_eq!(base.tree(), &base_tree);
    // ignored paths never reach the update
    assert_eq!(
        normalize_dirty_paths(&vec![b".tl/x".to_vec(), b".git/HEAD".to_vec()], b"/repo"),
        Vec::<Vec<u8>>::new()
    );
}

#[test]
fn metadata_paths_behind_extra_separators_are_not_tracked() {
    let paths = vec![b".//.tl/config".to_vec(), b"/repo//.git/HEAD".to_vec(), b".//src/a.rs".to_vec()];
    assert_eq!(normalize_dirty_paths(&paths, b"/repo"), vec![b"src/a.rs".to_vec()]);
}
