//! The tree model: an ordered map from path to entry, kept as a list sorted
//! by raw path bytes.

use vstd::prelude::*;
use vstd::slice::slice_to_vec;
use crate::hash::Blake3Hash;
use crate::path_order::{
    bytes_lt, compare_paths, lemma_bytes_lt_asymmetric, lemma_bytes_lt_transitive, PathOrder,
};

verus! {

/// Longest path, in bytes, that a tree can hold: the wire format stores the
/// length in 16 bits.
pub const MAX_PATH_LEN: usize = 65535;

/// Mode bits of every symlink entry.
pub const SYMLINK_MODE: u32 = 0o120000;

/// What a tree entry is.
#[derive(Debug, Clone, Copy, PartialEq, Eq, Structural)]
pub enum EntryKind {
    /// Regular file
    File,
    /// Symbolic link; the blob holds the target
    Symlink,
    /// Submodule
    Submodule,
}

/// One entry of a tree.
#[derive(Debug, Clone, Copy, PartialEq, Eq)]
pub struct Entry {
    /// Kind of entry
    pub kind: EntryKind,
    /// Unix permission bits
    pub mode: u32,
    /// Hash of the blob with the entry's content
    pub blob_hash: Blake3Hash,
}

/// An entry as a mathematical value.
pub struct EntryView {
    pub kind: EntryKind,
    pub mode: u32,
    pub blob_hash: Seq<u8>,
}

impl View for Entry {
    type V = EntryView;

    open spec fn view(&self) -> EntryView {
        EntryView { kind: self.kind, mode: self.mode, blob_hash: self.blob_hash@ }
    }
}

impl Entry {
    /// A regular file with the given mode and content.
    pub fn file(mode: u32, blob_hash: Blake3Hash) -> (e: Self)
        ensures
            e@ == (EntryView { kind: EntryKind::File, mode, blob_hash: blob_hash@ }),
    {
        Entry { kind: EntryKind::File, mode, blob_hash }
    }

    /// A symlink whose target is the content of the given blob.
    pub fn symlink(blob_hash: Blake3Hash) -> (e: Self)
        ensures
            e@ == (EntryView { kind: EntryKind::Symlink, mode: SYMLINK_MODE, blob_hash: blob_hash@ }),
    {
        Entry { kind: EntryKind::Symlink, mode: SYMLINK_MODE, blob_hash }
    }

    /// Whether two entries have the same kind, mode and blob.
    pub fn same(&self, other: &Entry) -> (r: bool)
        ensures
            r == (self@ == other@),
    {
        self.kind == other.kind && self.mode == other.mode && self.blob_hash.same(&other.blob_hash)
    }
}

/// A path with its entry.
#[derive(Debug, Clone, PartialEq, Eq)]
pub struct TreeItem {
    pub path: Vec<u8>,
    pub entry: Entry,
}

impl View for TreeItem {
    type V = (Seq<u8>, EntryView);

    open spec fn view(&self) -> (Seq<u8>, EntryView) {
        (self.path@, self.entry@)
    }
}

/// A listing of a tree: pairs of path and entry.
pub type Items = Seq<(Seq<u8>, EntryView)>;

/// The paths of a listing ascend strictly.
pub open spec fn sorted(items: Items) -> bool {
    forall|i: int, j: int|
        0 <= i < j < items.len() ==> bytes_lt((#[trigger] items[i]).0, (#[trigger] items[j]).0)
}

/// No path of a listing is longer than the wire format allows, and every
/// hash has 32 bytes.
pub open spec fn well_sized(items: Items) -> bool {
    forall|i: int|
        0 <= i < items.len() ==> (#[trigger] items[i]).0.len() <= MAX_PATH_LEN
            && items[i].1.blob_hash.len() == 32
}

/// The listing holds an entry for `path`.
pub open spec fn has_path(items: Items, path: Seq<u8>) -> bool {
    exists|i: int| 0 <= i < items.len() && (#[trigger] items[i]).0 == path
}

/// A position of `path` in the listing.
pub open spec fn index_of(items: Items, path: Seq<u8>) -> int {
    choose|i: int| 0 <= i < items.len() && (#[trigger] items[i]).0 == path
}

/// The map that a listing stands for.
pub open spec fn items_map(items: Items) -> Map<Seq<u8>, EntryView> {
    Map::new(|p: Seq<u8>| has_path(items, p), |p: Seq<u8>| items[index_of(items, p)].1)
}

/// In a sorted listing a path stands at one position only.
pub proof fn lemma_index_unique(items: Items, i: int)
    requires
        sorted(items),
        0 <= i < items.len(),
    ensures
        has_path(items, items[i].0),
        index_of(items, items[i].0) == i,
        items_map(items).contains_key(items[i].0),
        items_map(items)[items[i].0] == items[i].1,
{
    let p = items[i].0;
    let j = index_of(items, p);
    assert(0 <= j < items.len() && items[j].0 == p);
    lemma_bytes_lt_asymmetric(p, p);
    if j < i {
        assert(bytes_lt(items[j].0, items[i].0));
    }
    if i < j {
        assert(bytes_lt(items[i].0, items[j].0));
    }
}

/// A path that falls strictly between two neighbours of a sorted listing is
/// not in it.
pub proof fn lemma_absent(items: Items, path: Seq<u8>, p: int)
    requires
        0 <= p <= items.len(),
        forall|i: int| 0 <= i < p ==> bytes_lt((#[trigger] items[i]).0, path),
        forall|i: int| p <= i < items.len() ==> bytes_lt(path, (#[trigger] items[i]).0),
    ensures
        !has_path(items, path),
        !items_map(items).contains_key(path),
{
    lemma_bytes_lt_asymmetric(path, path);
    if has_path(items, path) {
        let i = index_of(items, path);
        assert(items[i].0 == path);
        if i < p {
            assert(bytes_lt(items[i].0, path));
        } else {
            assert(bytes_lt(path, items[i].0));
        }
    }
}

/// Putting a new path at its place keeps the listing sorted and adds one
/// binding to the map.
pub proof fn lemma_insert_new(items: Items, p: int, path: Seq<u8>, e: EntryView)
    requires
        sorted(items),
        0 <= p <= items.len(),
        forall|i: int| 0 <= i < p ==> bytes_lt((#[trigger] items[i]).0, path),
        forall|i: int| p <= i < items.len() ==> bytes_lt(path, (#[trigger] items[i]).0),
    ensures
        sorted(items.insert(p, (path, e))),
        items_map(items.insert(p, (path, e))) == items_map(items).insert(path, e),
{
    let after = items.insert(p, (path, e));
    assert forall|i: int, j: int| 0 <= i < j < after.len() implies bytes_lt(
        (#[trigger] after[i]).0,
        (#[trigger] after[j]).0,
    ) by {
        let oi = if i < p { i } else { i - 1 };
        let oj = if j < p { j } else { j - 1 };
        if i != p && j != p {
            assert(after[i] == items[oi] && after[j] == items[oj]);
            assert(bytes_lt(items[oi].0, items[oj].0));
        } else if i == p {
            assert(after[j] == items[oj]);
        } else {
            assert(after[i] == items[oi]);
        }
    }
    let m1 = items_map(after);
    let m2 = items_map(items).insert(path, e);
    lemma_index_unique(after, p);
    assert forall|k: Seq<u8>| m1.contains_key(k) == m2.contains_key(k) by {
        if has_path(after, k) {
            let i = index_of(after, k);
            if i < p {
                assert(items[i].0 == k);
            } else if i > p {
                assert(items[i - 1].0 == k);
            }
        }
        if has_path(items, k) {
            let j = index_of(items, k);
            let i = if j < p { j } else { j + 1 };
            assert(after[i].0 == k);
        }
    }
    assert forall|k: Seq<u8>| m1.contains_key(k) implies m1[k] == m2[k] by {
        if k != path {
            let j = index_of(items, k);
            assert(has_path(items, k));
            let i = if j < p { j } else { j + 1 };
            assert(after[i] == items[j]);
            lemma_index_unique(after, i);
        }
    }
    assert(m1 =~= m2);
}

/// Replacing the entry at a position keeps the listing sorted and rebinds
/// that path in the map.
pub proof fn lemma_replace(items: Items, p: int, e: EntryView)
    requires
        sorted(items),
        0 <= p < items.len(),
    ensures
        sorted(items.update(p, (items[p].0, e))),
        items_map(items.update(p, (items[p].0, e))) == items_map(items).insert(items[p].0, e),
{
    let path = items[p].0;
    let after = items.update(p, (path, e));
    assert forall|i: int, j: int| 0 <= i < j < after.len() implies bytes_lt(
        (#[trigger] after[i]).0,
        (#[trigger] after[j]).0,
    ) by {
        assert(after[i].0 == items[i].0 && after[j].0 == items[j].0);
        assert(bytes_lt(items[i].0, items[j].0));
    }
    let m1 = items_map(after);
    let m2 = items_map(items).insert(path, e);
    lemma_index_unique(after, p);
    assert forall|k: Seq<u8>| m1.contains_key(k) == m2.contains_key(k) by {
        if has_path(after, k) {
            let i = index_of(after, k);
            assert(items[i].0 == k);
        }
        if has_path(items, k) {
            let j = index_of(items, k);
            assert(after[j].0 == k);
        }
    }
    assert forall|k: Seq<u8>| m1.contains_key(k) implies m1[k] == m2[k] by {
        if k != path {
            let j = index_of(items, k);
            assert(has_path(items, k));
            assert(after[j] == items[j]);
            lemma_index_unique(after, j);
        }
    }
    assert(m1 =~= m2);
}

/// Taking the item at a position out keeps the listing sorted and removes
/// that path from the map.
pub proof fn lemma_remove_at(items: Items, p: int)
    requires
        sorted(items),
        0 <= p < items.len(),
    ensures
        sorted(items.remove(p)),
        items_map(items.remove(p)) == items_map(items).remove(items[p].0),
{
    let path = items[p].0;
    let after = items.remove(p);
    assert forall|i: int, j: int| 0 <= i < j < after.len() implies bytes_lt(
        (#[trigger] after[i]).0,
        (#[trigger] after[j]).0,
    ) by {
        let oi = if i < p { i } else { i + 1 };
        let oj = if j < p { j } else { j + 1 };
        assert(after[i] == items[oi] && after[j] == items[oj]);
        assert(bytes_lt(items[oi].0, items[oj].0));
    }
    let m1 = items_map(after);
    let m2 = items_map(items).remove(path);
    lemma_bytes_lt_asymmetric(path, path);
    assert forall|k: Seq<u8>| m1.contains_key(k) == m2.contains_key(k) by {
        if has_path(after, k) {
            let i = index_of(after, k);
            let oi = if i < p { i } else { i + 1 };
            assert(items[oi].0 == k);
            if k == path {
                if oi < p {
                    assert(bytes_lt(items[oi].0, items[p].0));
                } else {
                    assert(bytes_lt(items[p].0, items[oi].0));
                }
            }
        }
        if has_path(items, k) && k != path {
            let j = index_of(items, k);
            let i = if j < p { j } else { j - 1 };
            assert(after[i].0 == k);
        }
    }
    assert forall|k: Seq<u8>| m1.contains_key(k) implies m1[k] == m2[k] by {
        let j = index_of(items, k);
        assert(has_path(items, k));
        let i = if j < p { j } else { j - 1 };
        assert(after[i] == items[j]);
        lemma_index_unique(after, i);
    }
    assert(m1 =~= m2);
}

/// Two sorted listings of one map are the same listing.
pub proof fn lemma_listing_is_canonical(a: Items, b: Items)
    requires
        sorted(a),
        sorted(b),
        items_map(a) == items_map(b),
    ensures
        a == b,
    decreases a.len(),
{
    if a.len() == 0 {
        if b.len() > 0 {
            lemma_index_unique(b, 0);
            assert(items_map(a).contains_key(b[0].0));
            let i = index_of(a, b[0].0);
        }
        assert(a =~= b);
    } else if b.len() == 0 {
        lemma_index_unique(a, 0);
        assert(items_map(b).contains_key(a[0].0));
        let i = index_of(b, a[0].0);
    } else {
        // the last item of each listing holds the greatest path of the map
        let la = a.len() - 1;
        let lb = b.len() - 1;
        lemma_index_unique(a, la);
        lemma_index_unique(b, lb);
        assert(items_map(b).contains_key(a[la].0));
        assert(items_map(a).contains_key(b[lb].0));
        let ib = index_of(b, a[la].0);
        let ia = index_of(a, b[lb].0);
        assert(b[ib].0 == a[la].0);
        assert(a[ia].0 == b[lb].0);
        lemma_bytes_lt_asymmetric(a[la].0, b[lb].0);
        if ib < lb {
            assert(bytes_lt(b[ib].0, b[lb].0));
        }
        if ia < la {
            assert(bytes_lt(a[ia].0, a[la].0));
        }
        assert(a[la].0 == b[lb].0);
        assert(a[la].1 == b[lb].1);
        lemma_remove_at(a, la);
        lemma_remove_at(b, lb);
        assert(a.remove(la) =~= a.drop_last());
        assert(b.remove(lb) =~= b.drop_last());
        lemma_listing_is_canonical(a.drop_last(), b.drop_last());
        assert(a =~= a.drop_last().push(a[la]));
        assert(b =~= b.drop_last().push(b[lb]));
    }
}

/// The sorted listing of a map: its entries in ascending path order.
pub open spec fn listing_of(m: Map<Seq<u8>, EntryView>) -> Items {
    choose|items: Items| sorted(items) && items_map(items) == m
}

/// The sorted listing of the map of a sorted listing is that listing.
pub proof fn lemma_listing_of_map(items: Items)
    requires
        sorted(items),
    ensures
        listing_of(items_map(items)) == items,
{
    let found = listing_of(items_map(items));
    assert(sorted(found) && items_map(found) == items_map(items));
    lemma_listing_is_canonical(found, items);
}

/// The listing that a vector of items stands for.
pub open spec fn listing(v: Seq<TreeItem>) -> Items {
    Seq::new(v.len(), |i: int| v[i]@)
}

/// A snapshot of the working tree: a map from path to entry.
#[derive(Debug, Clone, PartialEq, Eq)]
pub struct Tree {
    entries: Vec<TreeItem>,
}

impl Default for Tree {
    /// An empty tree.
    fn default() -> (t: Self)
        ensures
            t.wf(),
            t.items() == Seq::<(Seq<u8>, EntryView)>::empty(),
            t@ == Map::<Seq<u8>, EntryView>::empty(),
    {
        Tree::new()
    }
}

impl View for Tree {
    type V = Map<Seq<u8>, EntryView>;

    /// The map from path to entry.
    closed spec fn view(&self) -> Map<Seq<u8>, EntryView> {
        items_map(self.items())
    }
}

impl Tree {
    /// The entries in canonical order: ascending by raw path bytes.
    pub closed spec fn items(&self) -> Items {
        listing(self.entries@)
    }

    /// The tree's invariant: the listing is strictly sorted, and every path
    /// fits the wire format.
    pub open spec fn wf(&self) -> bool {
        &&& sorted(self.items())
        &&& well_sized(self.items())
    }

    /// The view is the map of the listing.
    pub proof fn lemma_view_is_map(&self)
        ensures
            self@ == items_map(self.items()),
    {
    }

    /// An empty tree.
    pub fn new() -> (t: Self)
        ensures
            t.wf(),
            t.items() == Seq::<(Seq<u8>, EntryView)>::empty(),
            t@ == Map::<Seq<u8>, EntryView>::empty(),
    {
        let t = Tree { entries: Vec::new() };
        assert(t.items() =~= Seq::<(Seq<u8>, EntryView)>::empty());
        assert(t@ =~= Map::<Seq<u8>, EntryView>::empty());
        t
    }

    /// The tree with the given items, which ascend strictly by path.
    pub fn from_sorted(entries: Vec<TreeItem>) -> (t: Self)
        requires
            sorted(listing(entries@)),
            well_sized(listing(entries@)),
        ensures
            t.wf(),
            t.items() == listing(entries@),
    {
        Tree { entries }
    }

    /// The number of entries.
    pub fn len(&self) -> (n: usize)
        ensures
            n == self.items().len(),
    {
        self.entries.len()
    }

    /// Whether the tree has no entry.
    pub fn is_empty(&self) -> (r: bool)
        ensures
            r == (self.items().len() == 0),
    {
        self.entries.len() == 0
    }

    /// The item at position `i` of the canonical listing.
    pub fn item(&self, i: usize) -> (it: &TreeItem)
        requires
            i < self.items().len(),
        ensures
            it@ == self.items()[i as int],
    {
        &self.entries[i]
    }

    /// Where `path` stands in the listing, or where it would be put.
    fn locate(&self, path: &[u8]) -> (r: (bool, usize))
        requires
            self.wf(),
        ensures
            r.1 <= self.items().len(),
            forall|i: int| 0 <= i < r.1 ==> bytes_lt((#[trigger] self.items()[i]).0, path@),
            r.0 ==> r.1 < self.items().len() && self.items()[r.1 as int].0 == path@,
            !r.0 ==> forall|i: int|
                r.1 <= i < self.items().len() ==> bytes_lt(path@, (#[trigger] self.items()[i]).0),
    {
        let mut lo: usize = 0;
        let mut hi: usize = self.entries.len();
        while lo < hi
            invariant
                self.wf(),
                lo <= hi <= self.items().len(),
                hi <= self.entries@.len(),
                forall|i: int| 0 <= i < lo ==> bytes_lt((#[trigger] self.items()[i]).0, path@),
                forall|i: int|
                    hi <= i < self.items().len() ==> bytes_lt(path@, (#[trigger] self.items()[i]).0),
            decreases hi - lo,
        {
            let mid = lo + (hi - lo) / 2;
            let here = &self.entries[mid];
            assert(here@ == self.items()[mid as int]);
            match compare_paths(here.path.as_slice(), path) {
                PathOrder::Same => {
                    return (true, mid);
                },
                PathOrder::Before => {
                    assert forall|i: int| 0 <= i < mid + 1 implies bytes_lt(
                        (#[trigger] self.items()[i]).0,
                        path@,
                    ) by {
                        if i < mid {
                            assert(bytes_lt(self.items()[i].0, self.items()[mid as int].0));
                            lemma_bytes_lt_transitive(self.items()[i].0, here.path@, path@);
                        }
                    }
                    lo = mid + 1;
                },
                PathOrder::After => {
                    assert forall|i: int| mid <= i < self.items().len() implies bytes_lt(
                        path@,
                        (#[trigger] self.items()[i]).0,
                    ) by {
                        if mid < i {
                            assert(bytes_lt(self.items()[mid as int].0, self.items()[i].0));
                            lemma_bytes_lt_transitive(path@, here.path@, self.items()[i].0);
                        }
                    }
                    hi = mid;
                },
            }
        }
        (false, lo)
    }

    /// Binds `path` to `entry`, in place of any entry that it had.
    pub fn insert(&mut self, path: &[u8], entry: Entry)
        requires
            old(self).wf(),
            path@.len() <= MAX_PATH_LEN,
        ensures
            final(self).wf(),
            final(self)@ == old(self)@.insert(path@, entry@),
    {
        let (found, p) = self.locate(path);
        let ghost before = self.items();
        let item = TreeItem { path: slice_to_vec(path), entry };
        if found {
            self.entries.remove(p);
            self.entries.insert(p, item);
            proof {
                assert(self.items() =~= before.update(p as int, (before[p as int].0, entry@)));
                lemma_replace(before, p as int, entry@);
            }
        } else {
            self.entries.insert(p, item);
            proof {
                assert(self.items() =~= before.insert(p as int, (path@, entry@)));
                lemma_insert_new(before, p as int, path@, entry@);
            }
        }
    }

    /// The entry of `path`, if it has one.
    pub fn get(&self, path: &[u8]) -> (r: Option<&Entry>)
        requires
            self.wf(),
        ensures
            match r {
                Some(e) => self@.contains_key(path@) && self@[path@] == e@,
                None => !self@.contains_key(path@),
            },
    {
        let (found, p) = self.locate(path);
        if found {
            proof {
                lemma_index_unique(self.items(), p as int);
            }
            Some(&self.entries[p].entry)
        } else {
            proof {
                lemma_absent(self.items(), path@, p as int);
            }
            None
        }
    }

    /// Takes the entry of `path` out and returns it; a path without an entry
    /// leaves the tree as it is.
    pub fn remove(&mut self, path: &[u8]) -> (r: Option<Entry>)
        requires
            old(self).wf(),
        ensures
            final(self).wf(),
            final(self)@ == old(self)@.remove(path@),
            match r {
                Some(e) => old(self)@.contains_key(path@) && old(self)@[path@] == e@,
                None => !old(self)@.contains_key(path@),
            },
    {
        let (found, p) = self.locate(path);
        let ghost before = self.items();
        if found {
            let item = self.entries.remove(p);
            proof {
                assert(self.items() =~= before.remove(p as int));
                lemma_index_unique(before, p as int);
                lemma_remove_at(before, p as int);
            }
            Some(item.entry)
        } else {
            proof {
                lemma_absent(before, path@, p as int);
                assert(self@ =~= self@.remove(path@));
            }
            None
        }
    }
}

} // verus!
