//! Applying a set of changes to a tree, and telling two trees apart.

use vstd::prelude::*;
use vstd::slice::slice_to_vec;
use crate::path_order::{
    bytes_lt, compare_paths, lemma_bytes_lt_transitive, PathOrder,
};
use crate::tree::{
    has_path, items_map, lemma_absent, lemma_index_unique, sorted, Entry, EntryView, Items, Tree,
    TreeItem, MAX_PATH_LEN,
};

verus! {

/// A change as a mathematical value: a path, and its new entry or `None`
/// where the path goes away.
pub type ChangeView = (Seq<u8>, Option<EntryView>);

/// The mathematical value of a list of changes.
pub open spec fn changes_view(changes: Seq<(Vec<u8>, Option<Entry>)>) -> Seq<ChangeView> {
    Seq::new(
        changes.len(),
        |i: int|
            (
                changes[i].0@,
                match changes[i].1 {
                    Some(e) => Some(e@),
                    None => None,
                },
            ),
    )
}

/// The map after the changes, applied in order: the last change to a path wins.
pub open spec fn apply_changes(m: Map<Seq<u8>, EntryView>, changes: Seq<ChangeView>) -> Map<
    Seq<u8>,
    EntryView,
>
    decreases changes.len(),
{
    if changes.len() == 0 {
        m
    } else {
        let before = apply_changes(m, changes.drop_last());
        match changes.last().1 {
            Some(e) => before.insert(changes.last().0, e),
            None => before.remove(changes.last().0),
        }
    }
}

/// The items of `a` whose path has no entry in `b`, in the order of `a`.
pub open spec fn only_in(a: Items, b: Items) -> Items
    decreases a.len(),
{
    if a.len() == 0 {
        Seq::empty()
    } else if has_path(b, a.last().0) {
        only_in(a.drop_last(), b)
    } else {
        only_in(a.drop_last(), b).push(a.last())
    }
}

/// The paths of `a` that `b` binds to another entry, each with the entry in
/// `a` and the entry in `b`, in the order of `a`.
pub open spec fn changed_in(a: Items, b: Items) -> Seq<(Seq<u8>, EntryView, EntryView)>
    decreases a.len(),
{
    if a.len() == 0 {
        Seq::empty()
    } else if has_path(b, a.last().0) && items_map(b)[a.last().0] != a.last().1 {
        changed_in(a.drop_last(), b).push((a.last().0, a.last().1, items_map(b)[a.last().0]))
    } else {
        changed_in(a.drop_last(), b)
    }
}

/// The mathematical value of a list of paths with entries.
pub open spec fn pairs_view(v: Seq<(Vec<u8>, Entry)>) -> Items {
    Seq::new(v.len(), |i: int| (v[i].0@, v[i].1@))
}

/// The mathematical value of a list of paths with two entries each.
pub open spec fn triples_view(v: Seq<(Vec<u8>, Entry, Entry)>) -> Seq<(Seq<u8>, EntryView, EntryView)> {
    Seq::new(v.len(), |i: int| (v[i].0@, v[i].1@, v[i].2@))
}

/// What differs between two trees.
#[derive(Debug, Clone, PartialEq, Eq)]
pub struct TreeDiff {
    /// Entries of the new tree whose path the old tree lacks
    pub added: Vec<(Vec<u8>, Entry)>,
    /// Entries of the old tree whose path the new tree lacks
    pub removed: Vec<(Vec<u8>, Entry)>,
    /// Paths of both trees whose entry changed, with the old and the new entry
    pub modified: Vec<(Vec<u8>, Entry, Entry)>,
}

impl Tree {
    /// A tree with the same entries.
    pub fn duplicate(&self) -> (t: Tree)
        requires
            self.wf(),
        ensures
            t.wf(),
            t.items() == self.items(),
            t@ == self@,
    {
        let mut entries: Vec<TreeItem> = Vec::new();
        let n = self.len();
        let mut i: usize = 0;
        while i < n
            invariant
                self.wf(),
                n == self.items().len(),
                i <= n,
                crate::tree::listing(entries@) == self.items().subrange(0, i as int),
            decreases n - i,
        {
            let item = self.item(i);
            let ghost before = crate::tree::listing(entries@);
            entries.push(TreeItem { path: slice_to_vec(item.path.as_slice()), entry: item.entry });
            assert(crate::tree::listing(entries@) =~= before.push(item@));
            assert(self.items().subrange(0, i + 1) =~= before.push(item@));
            i = i + 1;
        }
        assert(self.items().subrange(0, n as int) =~= self.items());
        let t = Tree::from_sorted(entries);
        proof {
            t.lemma_view_is_map();
            self.lemma_view_is_map();
        }
        t
    }

    /// The tree that `base` becomes when the changes are applied in order: a
    /// change with an entry binds its path to it, a change without one
    /// removes the path.
    pub fn update_entries(base: &Tree, changes: Vec<(Vec<u8>, Option<Entry>)>) -> (t: Tree)
        requires
            base.wf(),
            forall|i: int| 0 <= i < changes@.len() ==> (#[trigger] changes@[i]).0@.len() <= MAX_PATH_LEN,
        ensures
            t.wf(),
            t@ == apply_changes(base@, changes_view(changes@)),
    {
        let mut t = base.duplicate();
        let mut i: usize = 0;
        let ghost all = changes_view(changes@);
        assert(all.subrange(0, 0) =~= Seq::<ChangeView>::empty());
        while i < changes.len()
            invariant
                i <= changes@.len(),
                t.wf(),
                all == changes_view(changes@),
                forall|k: int|
                    0 <= k < changes@.len() ==> (#[trigger] changes@[k]).0@.len() <= MAX_PATH_LEN,
                t@ == apply_changes(base@, all.subrange(0, i as int)),
            decreases changes@.len() - i,
        {
            let change = &changes[i];
            proof {
                let upto = all.subrange(0, i + 1);
                assert(upto.drop_last() =~= all.subrange(0, i as int));
                assert(upto.last() == all[i as int]);
            }
            match change.1 {
                Some(entry) => {
                    t.insert(change.0.as_slice(), entry);
                },
                None => {
                    t.remove(change.0.as_slice());
                },
            }
            i = i + 1;
        }
        assert(all.subrange(0, changes@.len() as int) =~= all);
        t
    }
}

impl TreeDiff {
    /// The entries added, removed and modified between `old` and `new`, each
    /// list in ascending path order.
    pub fn diff(old: &Tree, new: &Tree) -> (d: TreeDiff)
        requires
            old.wf(),
            new.wf(),
        ensures
            pairs_view(d.added@) == only_in(new.items(), old.items()),
            pairs_view(d.removed@) == only_in(old.items(), new.items()),
            triples_view(d.modified@) == changed_in(old.items(), new.items()),
    {
        let mut added: Vec<(Vec<u8>, Entry)> = Vec::new();
        let mut removed: Vec<(Vec<u8>, Entry)> = Vec::new();
        let mut modified: Vec<(Vec<u8>, Entry, Entry)> = Vec::new();
        let n = old.len();
        let m = new.len();
        let mut i: usize = 0;
        let mut j: usize = 0;
        let ghost a = old.items();
        let ghost b = new.items();
        assert(a.subrange(0, 0) =~= Seq::<(Seq<u8>, EntryView)>::empty());
        assert(b.subrange(0, 0) =~= Seq::<(Seq<u8>, EntryView)>::empty());
        assert(pairs_view(added@) =~= only_in(b.subrange(0, 0), a));
        assert(pairs_view(removed@) =~= only_in(a.subrange(0, 0), b));
        assert(triples_view(modified@) =~= changed_in(a.subrange(0, 0), b));
        while i < n || j < m
            invariant
                old.wf(),
                new.wf(),
                a == old.items(),
                b == new.items(),
                n == a.len(),
                m == b.len(),
                i <= n,
                j <= m,
                pairs_view(added@) == only_in(b.subrange(0, j as int), a),
                pairs_view(removed@) == only_in(a.subrange(0, i as int), b),
                triples_view(modified@) == changed_in(a.subrange(0, i as int), b),
                forall|x: int, y: int|
                    0 <= x < i && j <= y < m ==> bytes_lt((#[trigger] a[x]).0, (#[trigger] b[y]).0),
                forall|x: int, y: int|
                    i <= x < n && 0 <= y < j ==> bytes_lt((#[trigger] b[y]).0, (#[trigger] a[x]).0),
            decreases (n - i) + (m - j),
        {
            let ghost added_before = pairs_view(added@);
            let ghost removed_before = pairs_view(removed@);
            let ghost modified_before = triples_view(modified@);
            let order = if i >= n {
                PathOrder::After
            } else if j >= m {
                PathOrder::Before
            } else {
                compare_paths(old.item(i).path.as_slice(), new.item(j).path.as_slice())
            };
            match order {
                PathOrder::Before => {
                    // the old path has no partner in the new tree
                    let it = old.item(i);
                    proof {
                        assert forall|y: int| j <= y < m implies bytes_lt(a[i as int].0, (#[trigger] b[y]).0) by {
                            if y > j {
                                assert(bytes_lt(b[j as int].0, b[y].0));
                                lemma_bytes_lt_transitive(a[i as int].0, b[j as int].0, b[y].0);
                            }
                        }
                        lemma_absent(b, a[i as int].0, j as int);
                        assert(a.subrange(0, i + 1).drop_last() =~= a.subrange(0, i as int));
                        assert(a.subrange(0, i + 1).last() == a[i as int]);
                    }
                    removed.push((slice_to_vec(it.path.as_slice()), it.entry));
                    assert(pairs_view(removed@) =~= removed_before.push(a[i as int]));
                    i = i + 1;
                },
                PathOrder::After => {
                    let it = new.item(j);
                    proof {
                        assert forall|x: int| i <= x < n implies bytes_lt(b[j as int].0, (#[trigger] a[x]).0) by {
                            if x > i {
                                assert(bytes_lt(a[i as int].0, a[x].0));
                                lemma_bytes_lt_transitive(b[j as int].0, a[i as int].0, a[x].0);
                            }
                        }
                        lemma_absent(a, b[j as int].0, i as int);
                        assert(b.subrange(0, j + 1).drop_last() =~= b.subrange(0, j as int));
                        assert(b.subrange(0, j + 1).last() == b[j as int]);
                    }
                    added.push((slice_to_vec(it.path.as_slice()), it.entry));
                    assert(pairs_view(added@) =~= added_before.push(b[j as int]));
                    j = j + 1;
                },
                PathOrder::Same => {
                    let was = old.item(i);
                    let now = new.item(j);
                    proof {
                        lemma_index_unique(a, i as int);
                        lemma_index_unique(b, j as int);
                        assert(a.subrange(0, i + 1).drop_last() =~= a.subrange(0, i as int));
                        assert(b.subrange(0, j + 1).drop_last() =~= b.subrange(0, j as int));
                        assert(a.subrange(0, i + 1).last() == a[i as int]);
                        assert(b.subrange(0, j + 1).last() == b[j as int]);
                        assert forall|x: int, y: int| 0 <= x < i + 1 && j + 1 <= y < m implies bytes_lt(
                            (#[trigger] a[x]).0,
                            (#[trigger] b[y]).0,
                        ) by {
                            if x == i {
                                assert(bytes_lt(b[j as int].0, b[y].0));
                            }
                        }
                        assert forall|x: int, y: int| i + 1 <= x < n && 0 <= y < j + 1 implies bytes_lt(
                            (#[trigger] b[y]).0,
                            (#[trigger] a[x]).0,
                        ) by {
                            if y == j {
                                assert(bytes_lt(a[i as int].0, a[x].0));
                            }
                        }
                    }
                    if !was.entry.same(&now.entry) {
                        modified.push((slice_to_vec(was.path.as_slice()), was.entry, now.entry));
                        assert(triples_view(modified@) =~= modified_before.push(
                            (a[i as int].0, a[i as int].1, b[j as int].1),
                        ));
                    }
                    i = i + 1;
                    j = j + 1;
                },
            }
        }
        assert(a.subrange(0, n as int) =~= a);
        assert(b.subrange(0, m as int) =~= b);
        TreeDiff { added, removed, modified }
    }

    /// Whether the two trees had the same entries.
    pub fn is_empty(&self) -> (r: bool)
        ensures
            r == (self.added@.len() == 0 && self.removed@.len() == 0 && self.modified@.len() == 0),
    {
        self.added.len() == 0 && self.removed.len() == 0 && self.modified.len() == 0
    }
}

} // verus!
