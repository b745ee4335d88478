//! The path map: the tree of the latest checkpoint held in memory, and its
//! update from what was found at each dirty path.

use vstd::prelude::*;
use vstd::slice::{slice_subrange, slice_to_vec};
use crate::hash::Blake3Hash;
use crate::path_order::same_bytes;
use crate::store::{in_metadata_dir, normalize_path, normalized, should_ignore, SLASH};
use crate::tree::{
    has_path, lemma_listing_is_canonical, lemma_listing_of_map, listing_of, Entry, EntryView, Items,
    Tree, MAX_PATH_LEN,
};
use crate::tree_format::{parse_tree, tree_bytes, tree_hash, TreeError};

verus! {

/// `p` is `d` or lies below it.
pub open spec fn under(p: Seq<u8>, d: Seq<u8>) -> bool {
    p == d || (p.len() > d.len() && p.subrange(0, d.len() as int) == d && p[d.len() as int] == SLASH)
}

/// Whether `p` is `d` or lies below it.
pub fn is_under(p: &[u8], d: &[u8]) -> (r: bool)
    ensures
        r == under(p@, d@),
{
    if same_bytes(p, d) {
        return true;
    }
    let n = d.len();
    if p.len() <= n {
        return false;
    }
    same_bytes(slice_subrange(p, 0, n), d) && p[n] == SLASH
}

/// The map without `d` and without every path below it.
pub open spec fn without_subtree(m: Map<Seq<u8>, EntryView>, d: Seq<u8>) -> Map<Seq<u8>, EntryView> {
    Map::new(|p: Seq<u8>| m.contains_key(p) && !under(p, d), |p: Seq<u8>| m[p])
}

/// What was found at a dirty path.
#[derive(Debug, Clone, Copy, PartialEq, Eq)]
pub enum Found {
    /// Nothing is there.
    Missing,
    /// A regular file with this mode and content hash.
    File { mode: u32, hash: Blake3Hash },
    /// A symlink; the hash is that of its target text.
    Symlink { hash: Blake3Hash },
}

/// A dirty path, normalized, with what was found there.
#[derive(Debug, Clone, PartialEq, Eq)]
pub struct Observation {
    pub path: Vec<u8>,
    pub found: Found,
}

/// The map after one observation: a file or symlink is bound to its entry,
/// a missing path is removed with all that lay below it.
pub open spec fn observe(m: Map<Seq<u8>, EntryView>, o: Observation) -> Map<Seq<u8>, EntryView> {
    match o.found {
        Found::Missing => without_subtree(m, o.path@),
        Found::File { mode, hash } => m.insert(o.path@, Entry::file_view(mode, hash@)),
        Found::Symlink { hash } => m.insert(o.path@, Entry::symlink_view(hash@)),
    }
}

/// The map after the observations, in order.
pub open spec fn observe_all(m: Map<Seq<u8>, EntryView>, obs: Seq<Observation>) -> Map<Seq<u8>, EntryView>
    decreases obs.len(),
{
    if obs.len() == 0 {
        m
    } else {
        observe(observe_all(m, obs.drop_last()), obs.last())
    }
}

impl Tree {
    /// Removes `dir` and every path below it.
    pub fn remove_under(&mut self, dir: &[u8])
        requires
            old(self).wf(),
        ensures
            final(self).wf(),
            final(self)@ == without_subtree(old(self)@, dir@),
    {
        let before = self.duplicate();
        let n = before.len();
        let mut i: usize = 0;
        proof {
            before.lemma_view_is_map();
            assert(self@ =~= Map::new(
                |p: Seq<u8>|
                    before@.contains_key(p) && !(under(p, dir@) && exists|k: int|
                        0 <= k < 0 && (#[trigger] before.items()[k]).0 == p),
                |p: Seq<u8>| before@[p],
            ));
        }
        while i < n
            invariant
                self.wf(),
                before.wf(),
                before@ == old(self)@,
                n == before.items().len(),
                i <= n,
                self@ == Map::new(
                    |p: Seq<u8>|
                        before@.contains_key(p) && !(under(p, dir@) && exists|k: int|
                            0 <= k < i && (#[trigger] before.items()[k]).0 == p),
                    |p: Seq<u8>| before@[p],
                ),
            decreases n - i,
        {
            let item = before.item(i);
            let ghost prev = self@;
            if is_under(item.path.as_slice(), dir) {
                self.remove(item.path.as_slice());
            }
            proof {
                let q = before.items()[i as int].0;
                let target = Map::new(
                    |p: Seq<u8>|
                        before@.contains_key(p) && !(under(p, dir@) && exists|k: int|
                            0 <= k < i + 1 && (#[trigger] before.items()[k]).0 == p),
                    |p: Seq<u8>| before@[p],
                );
                assert forall|p: Seq<u8>| self@.contains_key(p) == target.contains_key(p) by {
                    if p == q {
                        assert(before.items()[i as int].0 == p);
                    } else {
                        if exists|k: int| 0 <= k < i + 1 && (#[trigger] before.items()[k]).0 == p {
                            let k = choose|k: int| 0 <= k < i + 1 && (#[trigger] before.items()[k]).0 == p;
                            assert(k < i);
                        }
                    }
                }
                assert(self@ =~= target);
            }
            i = i + 1;
        }
        proof {
            before.lemma_view_is_map();
            assert forall|p: Seq<u8>| self@.contains_key(p) == without_subtree(
                old(self)@,
                dir@,
            ).contains_key(p) by {
                if before@.contains_key(p) && under(p, dir@) {
                    assert(has_path(before.items(), p));
                    let k = crate::tree::index_of(before.items(), p);
                    assert(before.items()[k].0 == p);
                }
            }
            assert(self@ =~= without_subtree(old(self)@, dir@));
        }
    }
}

impl Entry {
    /// The entry of a regular file as a mathematical value.
    pub open spec fn file_view(mode: u32, hash: Seq<u8>) -> EntryView {
        EntryView { kind: crate::tree::EntryKind::File, mode, blob_hash: hash }
    }

    /// The entry of a symlink as a mathematical value.
    pub open spec fn symlink_view(hash: Seq<u8>) -> EntryView {
        EntryView { kind: crate::tree::EntryKind::Symlink, mode: crate::tree::SYMLINK_MODE, blob_hash: hash }
    }
}

/// The tree that a root hash stands for, held in memory.
pub struct PathMap {
    /// Hash of the tree that the map reflects
    pub root_tree: Blake3Hash,
    /// The entries
    pub tree: Tree,
}

impl View for PathMap {
    type V = Map<Seq<u8>, EntryView>;

    open spec fn view(&self) -> Map<Seq<u8>, EntryView> {
        self.tree@
    }
}

impl PathMap {
    /// The entries in canonical order.
    pub open spec fn items(&self) -> Items {
        self.tree.items()
    }

    /// The map's invariant, that of its tree.
    pub open spec fn wf(&self) -> bool {
        self.tree.wf()
    }

    /// An empty map for the given root.
    pub fn new(root_tree: Blake3Hash) -> (m: Self)
        ensures
            m.wf(),
            m.root_tree == root_tree,
            m@ == Map::<Seq<u8>, EntryView>::empty(),
    {
        PathMap { root_tree, tree: Tree::new() }
    }

    /// The map of a tree that was read from the store.
    pub fn from_tree(root_tree: Blake3Hash, tree: Tree) -> (m: Self)
        requires
            tree.wf(),
        ensures
            m.wf(),
            m.root_tree == root_tree,
            m@ == tree@,
            m.items() == tree.items(),
    {
        PathMap { root_tree, tree }
    }

    /// Binds the path to the entry, or removes the path where there is none.
    pub fn update(&mut self, path: &[u8], entry: Option<Entry>)
        requires
            old(self).wf(),
            path@.len() <= MAX_PATH_LEN,
        ensures
            final(self).wf(),
            final(self).root_tree == old(self).root_tree,
            final(self)@ == (match entry {
                Some(e) => old(self)@.insert(path@, e@),
                None => old(self)@.remove(path@),
            }),
    {
        match entry {
            Some(e) => {
                self.tree.insert(path, e);
            },
            None => {
                self.tree.remove(path);
            },
        }
    }

    /// The entry of the path, if it has one.
    pub fn get(&self, path: &[u8]) -> (r: Option<&Entry>)
        requires
            self.wf(),
        ensures
            match r {
                Some(e) => self@.contains_key(path@) && self@[path@] == e@,
                None => !self@.contains_key(path@),
            },
    {
        self.tree.get(path)
    }

    /// The number of entries.
    pub fn len(&self) -> (n: usize)
        ensures
            n == self.items().len(),
    {
        self.tree.len()
    }

    /// Whether the map reflects the tree with the given root. A persisted
    /// map that does not reflect the latest checkpoint is stale, and the map
    /// is built anew from that checkpoint's tree.
    pub fn reflects(&self, root: &Blake3Hash) -> (r: bool)
        ensures
            r == (self.root_tree@ == root@),
    {
        self.root_tree.same(root)
    }

    /// The tree of the map.
    pub fn tree(&self) -> (t: &Tree)
        ensures
            t@ == self@,
            t.items() == self.items(),
            t.wf() == self.wf(),
    {
        &self.tree
    }

    /// The persisted form: the root hash, then the wire form of the tree.
    pub fn save(&self) -> (out: Vec<u8>)
        requires
            self.wf(),
            self.items().len() <= u32::MAX,
        ensures
            out@ == self.root_tree@ + tree_bytes(self.items()),
    {
        let mut out: Vec<u8> = Vec::new();
        out.extend_from_slice(self.root_tree.as_bytes().as_slice());
        let body = self.tree.serialize();
        out.extend_from_slice(body.as_slice());
        assert(out@ =~= self.root_tree@ + tree_bytes(self.items()));
        out
    }

    /// Reads a persisted map. Fewer than 32 bytes are `Truncated`; what
    /// follows the root hash is read as a tree.
    pub fn load(bytes: &[u8]) -> (r: Result<Self, TreeError>)
        ensures
            match r {
                Ok(m) => bytes@.len() >= 32 && m.wf() && m.root_tree@ == bytes@.subrange(0, 32)
                    && parse_tree(bytes@.subrange(32, bytes@.len() as int)) == Ok::<Items, TreeError>(
                    m.items(),
                ),
                Err(e) => if bytes@.len() < 32 {
                    e == TreeError::Truncated
                } else {
                    parse_tree(bytes@.subrange(32, bytes@.len() as int)) == Err::<Items, TreeError>(e)
                },
            },
    {
        if bytes.len() < 32 {
            return Err(TreeError::Truncated);
        }
        let mut root = [0u8; 32];
        let mut i: usize = 0;
        while i < 32
            invariant
                i <= 32,
                bytes@.len() >= 32,
                forall|k: int| 0 <= k < i ==> root@[k] == bytes@[k],
            decreases 32 - i,
        {
            root[i] = bytes[i];
            i = i + 1;
        }
        assert(root@ =~= bytes@.subrange(0, 32));
        match Tree::deserialize(slice_subrange(bytes, 32, bytes.len())) {
            Err(e) => Err(e),
            Ok(tree) => Ok(PathMap { root_tree: Blake3Hash::from_bytes(root), tree }),
        }
    }

    /// Applies one observation.
    pub fn observe(&mut self, o: &Observation)
        requires
            old(self).wf(),
            o.path@.len() <= MAX_PATH_LEN,
        ensures
            final(self).wf(),
            final(self).root_tree == old(self).root_tree,
            final(self)@ == observe(old(self)@, *o),
    {
        match o.found {
            Found::Missing => {
                self.tree.remove_under(o.path.as_slice());
            },
            Found::File { mode, hash } => {
                self.tree.insert(o.path.as_slice(), Entry::file(mode, hash));
            },
            Found::Symlink { hash } => {
                self.tree.insert(o.path.as_slice(), Entry::symlink(hash));
            },
        }
    }
}

/// A map that is saved and loaded again has the same root and the same entries.
pub proof fn lemma_pathmap_round_trip(m: PathMap)
    requires
        m.wf(),
        m.items().len() <= u32::MAX,
    ensures
        (m.root_tree@ + tree_bytes(m.items())).subrange(0, 32) == m.root_tree@,
        parse_tree(
            (m.root_tree@ + tree_bytes(m.items())).subrange(
                32,
                (m.root_tree@ + tree_bytes(m.items())).len() as int,
            ),
        ) == Ok::<Items, TreeError>(m.items()),
{
    let all = m.root_tree@ + tree_bytes(m.items());
    assert(all.subrange(0, 32) =~= m.root_tree@);
    assert(all.subrange(32, all.len() as int) =~= tree_bytes(m.items()));
    crate::tree_format::lemma_parse_serialized(m.items());
}

/// The new tree and its root hash, from the base map and what was found at
/// each dirty path. The observations are applied in order; the tree is built
/// from the map, and its hash is that of its wire form. The update fails
/// only where the new tree has more entries than the wire format can count.
/// Observations that find what the base map holds already give the tree and
/// the root hash of the base map; the base map is never changed.
pub fn incremental_update(base_map: &PathMap, observations: &Vec<Observation>) -> (r: Result<
    (Tree, Blake3Hash),
    TreeError,
>)
    requires
        base_map.wf(),
        forall|i: int|
            0 <= i < observations@.len() ==> (#[trigger] observations@[i]).path@.len() <= MAX_PATH_LEN,
    ensures
        match r {
            Ok((tree, root)) => {
                &&& tree.wf()
                &&& tree@ == observe_all(base_map@, observations@)
                &&& tree.items().len() <= u32::MAX
                &&& root@ == tree_hash(tree.items())
            },
            Err(e) => e == TreeError::TooManyEntries && listing_of(
                observe_all(base_map@, observations@),
            ).len() > u32::MAX,
        },
        (forall|i: int| 0 <= i < observations@.len() ==> confirms(base_map@, #[trigger] observations@[i]))
            && base_map.items().len() <= u32::MAX ==> r is Ok && r.unwrap().0.items()
            == base_map.items() && r.unwrap().0@ == base_map@ && r.unwrap().1@ == tree_hash(
            base_map.items(),
        ),
{
    let mut map = PathMap { root_tree: base_map.root_tree, tree: base_map.tree.duplicate() };
    let n = observations.len();
    let mut i: usize = 0;
    assert(observations@.subrange(0, 0) =~= Seq::<Observation>::empty());
    while i < n
        invariant
            n == observations@.len(),
            i <= n,
            map.wf(),
            forall|k: int|
                0 <= k < observations@.len() ==> (#[trigger] observations@[k]).path@.len()
                    <= MAX_PATH_LEN,
            map@ == observe_all(base_map@, observations@.subrange(0, i as int)),
        decreases n - i,
    {
        proof {
            let upto = observations@.subrange(0, i + 1);
            assert(upto.drop_last() =~= observations@.subrange(0, i as int));
            assert(upto.last() == observations@[i as int]);
        }
        map.observe(&observations[i]);
        i = i + 1;
    }
    assert(observations@.subrange(0, n as int) =~= observations@);
    let tree = map.tree;
    proof {
        tree.lemma_view_is_map();
        lemma_listing_of_map(tree.items());
        if forall|i: int| 0 <= i < observations@.len() ==> confirms(base_map@, #[trigger] observations@[i]) {
            lemma_confirming_observations(base_map@, observations@);
            base_map.tree.lemma_view_is_map();
            lemma_listing_is_canonical(tree.items(), base_map.items());
        }
    }
    if tree.len() > 0xffff_ffff {
        return Err(TreeError::TooManyEntries);
    }
    let hash = tree.hash();
    Ok((tree, hash))
}

/// What a path is tracked as: the path made relative to the repository
/// root and normalized, or nothing where it is refused, empty, or lies in a
/// metadata directory.
pub open spec fn tracked_form(path: Seq<u8>, repo_root: Seq<u8>) -> Option<Seq<u8>> {
    let rel = relative_to(path, repo_root);
    match normalized(rel) {
        Err(_) => None,
        Ok(p) => if p.len() == 0 || in_metadata_dir(p) {
            None
        } else {
            Some(p)
        },
    }
}

/// The path without the repository root in front of it, where it lies below
/// the root; else the path as it is.
pub open spec fn relative_to(path: Seq<u8>, repo_root: Seq<u8>) -> Seq<u8> {
    if path == repo_root {
        Seq::empty()
    } else if under(path, repo_root) {
        path.subrange(repo_root.len() as int + 1, path.len() as int)
    } else {
        path
    }
}

/// The tracked forms of the paths, each once, in the order in which they
/// first occur.
pub open spec fn tracked_set(paths: Seq<Vec<u8>>, repo_root: Seq<u8>) -> Seq<Seq<u8>>
    decreases paths.len(),
{
    if paths.len() == 0 {
        Seq::empty()
    } else {
        let front = tracked_set(paths.drop_last(), repo_root);
        match tracked_form(paths.last()@, repo_root) {
            Some(p) => if front.contains(p) {
                front
            } else {
                front.push(p)
            },
            None => front,
        }
    }
}

/// The mathematical value of a list of paths.
pub open spec fn paths_view(paths: Seq<Vec<u8>>) -> Seq<Seq<u8>> {
    Seq::new(paths.len(), |i: int| paths[i]@)
}

/// Whether the list holds the path.
fn holds_path(paths: &Vec<Vec<u8>>, path: &[u8]) -> (r: bool)
    ensures
        r == paths_view(paths@).contains(path@),
{
    let mut i: usize = 0;
    while i < paths.len()
        invariant
            i <= paths@.len(),
            forall|k: int| 0 <= k < i ==> paths_view(paths@)[k] != path@,
        decreases paths@.len() - i,
    {
        if same_bytes(paths[i].as_slice(), path) {
            assert(paths_view(paths@)[i as int] == path@);
            return true;
        }
        i = i + 1;
    }
    false
}

/// Makes dirty paths relative to the repository root, normalizes them, and
/// drops those that are refused, those under a metadata directory, and
/// duplicates.
pub fn normalize_dirty_paths(paths: &Vec<Vec<u8>>, repo_root: &[u8]) -> (out: Vec<Vec<u8>>)
    ensures
        paths_view(out@) == tracked_set(paths@, repo_root@),
{
    let mut out: Vec<Vec<u8>> = Vec::new();
    let n = paths.len();
    let mut i: usize = 0;
    assert(paths@.subrange(0, 0) =~= Seq::<Vec<u8>>::empty());
    assert(paths_view(out@) =~= tracked_set(paths@.subrange(0, 0), repo_root@));
    while i < n
        invariant
            n == paths@.len(),
            i <= n,
            paths_view(out@) == tracked_set(paths@.subrange(0, i as int), repo_root@),
        decreases n - i,
    {
        proof {
            let upto = paths@.subrange(0, i + 1);
            assert(upto.drop_last() =~= paths@.subrange(0, i as int));
            assert(upto.last() == paths@[i as int]);
        }
        let ghost before = paths_view(out@);
        let path = paths[i].as_slice();
        let path_len = path.len();
        let root_len = repo_root.len();
        let rel: &[u8] = if same_bytes(path, repo_root) {
            slice_subrange(path, 0, 0)
        } else if is_under(path, repo_root) {
            assert(root_len < path_len);
            slice_subrange(path, root_len + 1, path_len)
        } else {
            path
        };
        assert(rel@ =~= relative_to(path@, repo_root@));
        match normalize_path(rel) {
            Err(_) => {},
            Ok(p) => {
                if p.len() > 0 && !should_ignore(p.as_slice()) && !holds_path(&out, p.as_slice()) {
                    let ghost pv = p@;
                    out.push(p);
                    assert(paths_view(out@) =~= before.push(pv));
                }
            },
        }
        i = i + 1;
    }
    assert(paths@.subrange(0, n as int) =~= paths@);
    out
}

/// The observation finds at its path what the map has there already.
pub open spec fn confirms(m: Map<Seq<u8>, EntryView>, o: Observation) -> bool {
    match o.found {
        Found::Missing => forall|p: Seq<u8>| m.contains_key(p) ==> !under(p, o.path@),
        Found::File { mode, hash } => m.contains_key(o.path@) && m[o.path@] == Entry::file_view(
            mode,
            hash@,
        ),
        Found::Symlink { hash } => m.contains_key(o.path@) && m[o.path@] == Entry::symlink_view(hash@),
    }
}

/// Observations that find nothing new leave the map as it is.
pub proof fn lemma_confirming_observations(m: Map<Seq<u8>, EntryView>, obs: Seq<Observation>)
    requires
        forall|i: int| 0 <= i < obs.len() ==> confirms(m, #[trigger] obs[i]),
    ensures
        observe_all(m, obs) == m,
    decreases obs.len(),
{
    if obs.len() > 0 {
        let front = obs.drop_last();
        assert forall|i: int| 0 <= i < front.len() implies confirms(m, #[trigger] front[i]) by {
            assert(front[i] == obs[i]);
        }
        lemma_confirming_observations(m, front);
        assert(confirms(m, obs[obs.len() - 1]));
        assert(observe(m, obs.last()) =~= m);
    }
}

/// An update from a dirty set that changed nothing gives the root hash of the base.
pub proof fn lemma_noop_update_keeps_root(base: Tree, after: Tree, obs: Seq<Observation>)
    requires
        base.wf(),
        after.wf(),
        base.items().len() <= u32::MAX,
        after.items().len() <= u32::MAX,
        forall|i: int| 0 <= i < obs.len() ==> confirms(base@, #[trigger] obs[i]),
        after@ == observe_all(base@, obs),
    ensures
        after@ == base@,
        tree_hash(after.items()) == tree_hash(base.items()),
{
    lemma_confirming_observations(base@, obs);
    crate::tree_format::lemma_hash_is_determined_by_entries(after, base);
}

/// Two updates that end in the same map give the same tree and the same
/// root hash, whatever the base maps were and in whatever order, and how
/// often, the paths were observed.
pub proof fn lemma_same_map_same_root(
    first_base: Map<Seq<u8>, EntryView>,
    first: Seq<Observation>,
    first_tree: Tree,
    second_base: Map<Seq<u8>, EntryView>,
    second: Seq<Observation>,
    second_tree: Tree,
)
    requires
        first_tree.wf(),
        second_tree.wf(),
        first_tree.items().len() <= u32::MAX,
        second_tree.items().len() <= u32::MAX,
        first_tree@ == observe_all(first_base, first),
        second_tree@ == observe_all(second_base, second),
        observe_all(first_base, first) == observe_all(second_base, second),
    ensures
        first_tree.items() == second_tree.items(),
        tree_bytes(first_tree.items()) == tree_bytes(second_tree.items()),
        tree_hash(first_tree.items()) == tree_hash(second_tree.items()),
{
    first_tree.lemma_view_is_map();
    second_tree.lemma_view_is_map();
    lemma_listing_is_canonical(first_tree.items(), second_tree.items());
}

} // verus!
