//! The wire format of a tree: a magic number, the entry count, then the
//! entries in ascending path order.

use vstd::prelude::*;
use vstd::bytes::{
    lemma_auto_spec_u16_to_from_le_bytes, lemma_auto_spec_u32_to_from_le_bytes,
    spec_u16_from_le_bytes, spec_u16_to_le_bytes, spec_u32_from_le_bytes, spec_u32_to_le_bytes,
    u16_from_le_bytes, u16_to_le_bytes, u32_from_le_bytes, u32_to_le_bytes,
};
use vstd::slice::{slice_subrange, slice_to_vec};
use crate::hash::{hash_bytes, blake3_digest, Blake3Hash};
use crate::path_order::{bytes_lt, compare_paths, lemma_bytes_lt_transitive, PathOrder};
use crate::tree::{
    listing, sorted, well_sized, Entry, EntryKind, EntryView, Items, Tree, TreeItem, MAX_PATH_LEN,
};

verus! {

/// Bytes of an entry besides its path: length (2), kind (1), mode (4), hash (32).
pub const ENTRY_FIXED_LEN: usize = 39;

/// Why bytes are not a serialized tree.
#[derive(Clone, Copy, Debug, PartialEq, Eq)]
pub enum TreeError {
    /// The bytes end before the header or an entry is complete.
    Truncated,
    /// The first four bytes are not the magic number.
    BadMagic,
    /// An entry's kind byte is none of 0, 1, 2.
    BadKind { byte: u8 },
    /// An entry's path does not sort after the path before it.
    Unsorted,
    /// Bytes follow the last entry.
    TrailingBytes,
    /// The tree has more entries than the count field can hold.
    TooManyEntries,
}

/// The magic number, `SNT1`.
pub open spec fn magic() -> Seq<u8> {
    seq![0x53u8, 0x4eu8, 0x54u8, 0x31u8]
}

/// The byte that stands for a kind.
pub open spec fn kind_byte(k: EntryKind) -> u8 {
    match k {
        EntryKind::File => 0,
        EntryKind::Symlink => 1,
        EntryKind::Submodule => 2,
    }
}

/// The kind that a byte stands for.
pub open spec fn byte_kind(b: u8) -> Option<EntryKind> {
    if b == 0 {
        Some(EntryKind::File)
    } else if b == 1 {
        Some(EntryKind::Symlink)
    } else if b == 2 {
        Some(EntryKind::Submodule)
    } else {
        None
    }
}

/// One entry on the wire: path length, path, kind, mode, hash.
pub open spec fn entry_bytes(item: (Seq<u8>, EntryView)) -> Seq<u8> {
    spec_u16_to_le_bytes(item.0.len() as u16) + item.0 + seq![kind_byte(item.1.kind)]
        + spec_u32_to_le_bytes(item.1.mode) + item.1.blob_hash
}

/// The entries of a listing on the wire, one after the other.
pub open spec fn entries_bytes(items: Items) -> Seq<u8>
    decreases items.len(),
{
    if items.len() == 0 {
        Seq::empty()
    } else {
        entry_bytes(items[0]) + entries_bytes(items.drop_first())
    }
}

/// A tree on the wire.
pub open spec fn tree_bytes(items: Items) -> Seq<u8> {
    magic() + spec_u32_to_le_bytes(items.len() as u32) + entries_bytes(items)
}

/// The entry that starts at `pos`, with the position behind it.
pub open spec fn parse_entry(bytes: Seq<u8>, pos: int) -> Result<((Seq<u8>, EntryView), int), TreeError> {
    if pos + 2 > bytes.len() {
        Err(TreeError::Truncated)
    } else {
        let n = spec_u16_from_le_bytes(bytes.subrange(pos, pos + 2)) as int;
        if pos + n + 39 > bytes.len() {
            Err(TreeError::Truncated)
        } else {
            match byte_kind(bytes[pos + 2 + n]) {
                None => Err(TreeError::BadKind { byte: bytes[pos + 2 + n] }),
                Some(kind) => Ok(
                    (
                        (
                            bytes.subrange(pos + 2, pos + 2 + n),
                            EntryView {
                                kind,
                                mode: spec_u32_from_le_bytes(bytes.subrange(pos + 3 + n, pos + 7 + n)),
                                blob_hash: bytes.subrange(pos + 7 + n, pos + 39 + n),
                            },
                        ),
                        pos + 39 + n,
                    ),
                ),
            }
        }
    }
}

/// A parse result with `front` put before the items parsed.
pub open spec fn prepend(front: Items, r: Result<Items, TreeError>) -> Result<Items, TreeError> {
    match r {
        Ok(rest) => Ok(front + rest),
        Err(e) => Err(e),
    }
}

/// `count` entries from `pos` to the end of the bytes, each path sorting
/// after the one before it; `prev` is the path before the first.
pub open spec fn parse_entries(bytes: Seq<u8>, pos: int, count: nat, prev: Option<Seq<u8>>) -> Result<
    Items,
    TreeError,
>
    decreases count,
{
    if count == 0 {
        if pos == bytes.len() {
            Ok(Seq::empty())
        } else {
            Err(TreeError::TrailingBytes)
        }
    } else {
        match parse_entry(bytes, pos) {
            Err(e) => Err(e),
            Ok((item, next)) => {
                if prev is Some && !bytes_lt(prev.unwrap(), item.0) {
                    Err(TreeError::Unsorted)
                } else {
                    prepend(seq![item], parse_entries(bytes, next, (count - 1) as nat, Some(item.0)))
                }
            },
        }
    }
}

/// What reading bytes as a tree gives: the listing, or the first fault.
pub open spec fn parse_tree(bytes: Seq<u8>) -> Result<Items, TreeError> {
    if bytes.len() < 4 {
        Err(TreeError::Truncated)
    } else if bytes.subrange(0, 4) != magic() {
        Err(TreeError::BadMagic)
    } else if bytes.len() < 8 {
        Err(TreeError::Truncated)
    } else {
        parse_entries(bytes, 8, spec_u32_from_le_bytes(bytes.subrange(4, 8)) as nat, None)
    }
}

/// The hash of a tree: the digest of its wire form.
pub open spec fn tree_hash(items: Items) -> Seq<u8> {
    blake3_digest(tree_bytes(items))
}

proof fn lemma_entries_bytes_push(items: Items, item: (Seq<u8>, EntryView))
    ensures
        entries_bytes(items.push(item)) == entries_bytes(items) + entry_bytes(item),
    decreases items.len(),
{
    let all = items.push(item);
    if items.len() == 0 {
        assert(all.drop_first() =~= Seq::<(Seq<u8>, EntryView)>::empty());
        assert(entries_bytes(all.drop_first()) =~= Seq::<u8>::empty());
        assert(entries_bytes(items) =~= Seq::<u8>::empty());
        assert(all[0] == item);
        assert(entries_bytes(all) =~= entries_bytes(items) + entry_bytes(item));
    } else {
        assert(all.drop_first() =~= items.drop_first().push(item));
        lemma_entries_bytes_push(items.drop_first(), item);
        assert(entries_bytes(all) =~= entries_bytes(items) + entry_bytes(item));
    }
}

/// Reading the wire form of one entry gives the entry back.
proof fn lemma_parse_entry(bytes: Seq<u8>, pos: int, item: (Seq<u8>, EntryView), tail: Seq<u8>)
    requires
        0 <= pos <= bytes.len(),
        bytes.subrange(pos, bytes.len() as int) == entry_bytes(item) + tail,
        item.0.len() <= MAX_PATH_LEN,
        item.1.blob_hash.len() == 32,
    ensures
        parse_entry(bytes, pos) == Ok::<((Seq<u8>, EntryView), int), TreeError>(
            (item, pos + item.0.len() + 39),
        ),
        bytes.subrange(pos + item.0.len() + 39, bytes.len() as int) == tail,
{
    lemma_auto_spec_u16_to_from_le_bytes();
    lemma_auto_spec_u32_to_from_le_bytes();
    let n = item.0.len() as int;
    let whole = bytes.subrange(pos, bytes.len() as int);
    let e = entry_bytes(item);
    let a = spec_u16_to_le_bytes(n as u16);
    let d = spec_u32_to_le_bytes(item.1.mode);
    assert(e.len() == n + 39);
    assert(whole.len() == e.len() + tail.len());
    assert forall|k: int| 0 <= k < whole.len() implies bytes[pos + k] == whole[k] by {}
    assert forall|k: int| 0 <= k < 2 implies e[k] == a[k] by {}
    assert forall|k: int| 0 <= k < n implies e[2 + k] == item.0[k] by {}
    assert(e[2 + n] == kind_byte(item.1.kind));
    assert forall|k: int| 0 <= k < 4 implies e[3 + n + k] == d[k] by {}
    assert forall|k: int| 0 <= k < 32 implies e[7 + n + k] == item.1.blob_hash[k] by {}
    assert forall|k: int| 0 <= k < e.len() implies whole[k] == e[k] by {}
    assert(bytes.subrange(pos, pos + 2) =~= a);
    assert(spec_u16_from_le_bytes(a) == n as u16);
    assert(bytes.subrange(pos + 2, pos + 2 + n) =~= item.0);
    assert(bytes[pos + 2 + n] == whole[2 + n]);
    assert(byte_kind(kind_byte(item.1.kind)) == Some(item.1.kind));
    assert(bytes.subrange(pos + 3 + n, pos + 7 + n) =~= d);
    assert(bytes.subrange(pos + 7 + n, pos + 39 + n) =~= item.1.blob_hash);
    assert forall|k: int| 0 <= k < tail.len() implies whole[e.len() + k] == tail[k] by {}
    assert(bytes.subrange(pos + n + 39, bytes.len() as int) =~= tail);
}

proof fn lemma_parse_entries(bytes: Seq<u8>, pos: int, items: Items, prev: Option<Seq<u8>>)
    requires
        0 <= pos <= bytes.len(),
        bytes.subrange(pos, bytes.len() as int) == entries_bytes(items),
        sorted(items),
        well_sized(items),
        prev is Some && items.len() > 0 ==> bytes_lt(prev.unwrap(), items[0].0),
    ensures
        parse_entries(bytes, pos, items.len(), prev) == Ok::<Items, TreeError>(items),
    decreases items.len(),
{
    if items.len() == 0 {
        assert(bytes.subrange(pos, bytes.len() as int).len() == 0);
        assert(items =~= Seq::<(Seq<u8>, EntryView)>::empty());
    } else {
        let item = items[0];
        let rest = items.drop_first();
        lemma_parse_entry(bytes, pos, item, entries_bytes(rest));
        let next = pos + item.0.len() + 39;
        assert(sorted(rest)) by {
            assert forall|i: int, j: int| 0 <= i < j < rest.len() implies bytes_lt(
                (#[trigger] rest[i]).0,
                (#[trigger] rest[j]).0,
            ) by {
                assert(rest[i] == items[i + 1] && rest[j] == items[j + 1]);
                assert(bytes_lt(items[i + 1].0, items[j + 1].0));
            }
        }
        assert(well_sized(rest)) by {
            assert forall|i: int| 0 <= i < rest.len() implies (#[trigger] rest[i]).0.len()
                <= MAX_PATH_LEN && rest[i].1.blob_hash.len() == 32 by {
                assert(rest[i] == items[i + 1]);
            }
        }
        if rest.len() > 0 {
            assert(rest[0] == items[1]);
            assert(bytes_lt(items[0].0, items[1].0));
        }
        lemma_parse_entries(bytes, next, rest, Some(item.0));
        assert(seq![item] + rest =~= items);
    }
}

/// Reading the wire form of a tree gives its listing back.
pub proof fn lemma_parse_serialized(items: Items)
    requires
        sorted(items),
        well_sized(items),
        items.len() <= u32::MAX,
    ensures
        parse_tree(tree_bytes(items)) == Ok::<Items, TreeError>(items),
{
    lemma_auto_spec_u32_to_from_le_bytes();
    let bytes = tree_bytes(items);
    let c = spec_u32_to_le_bytes(items.len() as u32);
    assert(bytes.subrange(0, 4) =~= magic());
    assert(bytes.subrange(4, 8) =~= c);
    assert(bytes.subrange(8, bytes.len() as int) =~= entries_bytes(items));
    lemma_parse_entries(bytes, 8, items, None);
}

/// Two trees with the same wire form have the same listing.
pub proof fn lemma_wire_form_is_injective(a: Items, b: Items)
    requires
        sorted(a),
        well_sized(a),
        a.len() <= u32::MAX,
        sorted(b),
        well_sized(b),
        b.len() <= u32::MAX,
        tree_bytes(a) == tree_bytes(b),
    ensures
        a == b,
{
    lemma_parse_serialized(a);
    lemma_parse_serialized(b);
}

/// The empty tree has a wire form of 8 bytes: the magic number and a count of zero.
pub proof fn lemma_empty_tree_bytes()
    ensures
        tree_bytes(Seq::empty()).len() == 8,
        tree_bytes(Seq::empty()) == magic() + spec_u32_to_le_bytes(0),
{
    lemma_auto_spec_u32_to_from_le_bytes();
    assert(tree_bytes(Seq::empty()) =~= magic() + spec_u32_to_le_bytes(0));
}


/// The 32 hash bytes that start at `at`.
fn read_hash(bytes: &[u8], at: usize) -> (h: Blake3Hash)
    requires
        at + 32 <= bytes@.len(),
    ensures
        h@ == bytes@.subrange(at as int, at + 32),
{
    let mut out = [0u8; 32];
    let mut i: usize = 0;
    let total = bytes.len();
    while i < 32
        invariant
            i <= 32,
            total == bytes@.len(),
            at + 32 <= total,
            forall|k: int| 0 <= k < i ==> out@[k] == bytes@[at + k],
        decreases 32 - i,
    {
        out[i] = bytes[at + i];
        i = i + 1;
    }
    assert(out@ =~= bytes@.subrange(at as int, at + 32));
    Blake3Hash::from_bytes(out)
}

/// The byte that stands for a kind.
fn kind_to_byte(k: EntryKind) -> (b: u8)
    ensures
        b == kind_byte(k),
{
    match k {
        EntryKind::File => 0,
        EntryKind::Symlink => 1,
        EntryKind::Submodule => 2,
    }
}

/// The kind that a byte stands for.
fn kind_from_byte(b: u8) -> (k: Option<EntryKind>)
    ensures
        k == byte_kind(b),
{
    if b == 0 {
        Some(EntryKind::File)
    } else if b == 1 {
        Some(EntryKind::Symlink)
    } else if b == 2 {
        Some(EntryKind::Submodule)
    } else {
        None
    }
}

/// Reads the entry that starts at `pos`.
fn read_entry(bytes: &[u8], pos: usize) -> (r: Result<(TreeItem, usize), TreeError>)
    requires
        pos <= bytes@.len(),
    ensures
        match r {
            Ok((item, next)) => parse_entry(bytes@, pos as int) == Ok::<
                ((Seq<u8>, EntryView), int),
                TreeError,
            >((item@, next as int)) && pos < next <= bytes@.len() && item.path@.len()
                <= MAX_PATH_LEN && item.entry.blob_hash@.len() == 32,
            Err(e) => parse_entry(bytes@, pos as int) == Err::<((Seq<u8>, EntryView), int), TreeError>(e),
        },
{
    let left = bytes.len() - pos;
    if left < 2 {
        return Err(TreeError::Truncated);
    }
    let n16 = u16_from_le_bytes(slice_subrange(bytes, pos, pos + 2));
    let n = n16 as usize;
    if left - 2 < n || left - 2 - n < 37 {
        return Err(TreeError::Truncated);
    }
    let kind = match kind_from_byte(bytes[pos + 2 + n]) {
        None => {
            return Err(TreeError::BadKind { byte: bytes[pos + 2 + n] });
        },
        Some(k) => k,
    };
    let path = slice_to_vec(slice_subrange(bytes, pos + 2, pos + 2 + n));
    let mode = u32_from_le_bytes(slice_subrange(bytes, pos + 3 + n, pos + 7 + n));
    let blob_hash = read_hash(bytes, pos + 7 + n);
    Ok((TreeItem { path, entry: Entry { kind, mode, blob_hash } }, pos + 39 + n))
}

impl Tree {
    /// The wire form of the tree: the magic number, the entry count, and the
    /// entries in ascending path order.
    pub fn serialize(&self) -> (out: Vec<u8>)
        requires
            self.wf(),
            self.items().len() <= u32::MAX,
        ensures
            out@ == tree_bytes(self.items()),
    {
        let count = self.len();
        let mut out: Vec<u8> = Vec::new();
        out.push(0x53u8);
        out.push(0x4eu8);
        out.push(0x54u8);
        out.push(0x31u8);
        assert(out@ =~= magic());
        let count_bytes = u32_to_le_bytes(count as u32);
        out.extend_from_slice(count_bytes.as_slice());
        let ghost head = out@;
        let mut i: usize = 0;
        assert(self.items().subrange(0, 0) =~= Seq::<(Seq<u8>, EntryView)>::empty());
        assert(out@ =~= head + entries_bytes(self.items().subrange(0, 0)));
        while i < count
            invariant
                self.wf(),
                count == self.items().len(),
                i <= count,
                head == magic() + spec_u32_to_le_bytes(count as u32),
                out@ == head + entries_bytes(self.items().subrange(0, i as int)),
            decreases count - i,
        {
            let item = self.item(i);
            let ghost before = out@;
            let len_bytes = u16_to_le_bytes(item.path.len() as u16);
            out.extend_from_slice(len_bytes.as_slice());
            out.extend_from_slice(item.path.as_slice());
            out.push(kind_to_byte(item.entry.kind));
            let mode_bytes = u32_to_le_bytes(item.entry.mode);
            out.extend_from_slice(mode_bytes.as_slice());
            out.extend_from_slice(item.entry.blob_hash.as_bytes().as_slice());
            proof {
                let done = self.items().subrange(0, i as int);
                assert(out@ =~= before + entry_bytes(item@));
                lemma_entries_bytes_push(done, item@);
                assert(self.items().subrange(0, i + 1) =~= done.push(item@));
                assert(out@ =~= head + entries_bytes(self.items().subrange(0, i + 1)));
            }
            i = i + 1;
        }
        assert(self.items().subrange(0, count as int) =~= self.items());
        out
    }

    /// Reads a tree from its wire form. Bytes that are no wire form of a tree
    /// are refused with the first fault found.
    pub fn deserialize(bytes: &[u8]) -> (r: Result<Tree, TreeError>)
        ensures
            match r {
                Ok(t) => t.wf() && parse_tree(bytes@) == Ok::<Items, TreeError>(t.items()),
                Err(e) => parse_tree(bytes@) == Err::<Items, TreeError>(e),
            },
    {
        if bytes.len() < 4 {
            return Err(TreeError::Truncated);
        }
        if bytes[0] != 0x53u8 || bytes[1] != 0x4eu8 || bytes[2] != 0x54u8 || bytes[3] != 0x31u8 {
            assert(bytes@.subrange(0, 4)[0] == bytes@[0]);
            assert(bytes@.subrange(0, 4)[1] == bytes@[1]);
            assert(bytes@.subrange(0, 4)[2] == bytes@[2]);
            assert(bytes@.subrange(0, 4)[3] == bytes@[3]);
            return Err(TreeError::BadMagic);
        }
        assert(bytes@.subrange(0, 4) =~= magic());
        if bytes.len() < 8 {
            return Err(TreeError::Truncated);
        }
        let count = u32_from_le_bytes(slice_subrange(bytes, 4, 8));
        let mut entries: Vec<TreeItem> = Vec::new();
        let mut pos: usize = 8;
        let mut i: u32 = 0;
        let ghost goal = parse_entries(bytes@, 8, count as nat, None);
        assert(prepend(listing(entries@), parse_entries(bytes@, 8, count as nat, None)) == goal) by {
            let r = parse_entries(bytes@, 8, count as nat, None);
            if r is Ok {
                assert(listing(entries@) + r.unwrap() =~= r.unwrap());
            }
        }
        while i < count
            invariant
                i <= count,
                8 <= pos <= bytes@.len(),
                goal == parse_tree(bytes@),
                entries@.len() == i,
                sorted(listing(entries@)),
                well_sized(listing(entries@)),
                goal == prepend(
                    listing(entries@),
                    parse_entries(
                        bytes@,
                        pos as int,
                        (count - i) as nat,
                        if i == 0 {
                            None
                        } else {
                            Some(entries@[i - 1].path@)
                        },
                    ),
                ),
            decreases count - i,
        {
            let ghost prev = if i == 0 {
                None
            } else {
                Some(entries@[i - 1].path@)
            };
            let ghost done = listing(entries@);
            let (item, next) = match read_entry(bytes, pos) {
                Err(e) => {
                    return Err(e);
                },
                Ok(found) => found,
            };
            if i > 0 {
                match compare_paths(entries[(i - 1) as usize].path.as_slice(), item.path.as_slice()) {
                    PathOrder::Before => {},
                    _ => {
                        return Err(TreeError::Unsorted);
                    },
                }
            }
            let ghost item_view = item@;
            entries.push(item);
            proof {
                let after = listing(entries@);
                assert(after =~= done.push(item_view));
                assert forall|a: int, b: int| 0 <= a < b < after.len() implies bytes_lt(
                    (#[trigger] after[a]).0,
                    (#[trigger] after[b]).0,
                ) by {
                    if b < i {
                        assert(bytes_lt(done[a].0, done[b].0));
                    } else if a < i - 1 {
                        assert(bytes_lt(done[a].0, done[i - 1].0));
                        lemma_bytes_lt_transitive(done[a].0, done[i - 1].0, item_view.0);
                    }
                }
                assert forall|a: int| 0 <= a < after.len() implies (#[trigger] after[a]).0.len()
                    <= MAX_PATH_LEN && after[a].1.blob_hash.len() == 32 by {
                    if a < i {
                        assert(after[a] == done[a]);
                    }
                }
                let tail = parse_entries(
                    bytes@,
                    next as int,
                    (count - i - 1) as nat,
                    Some(item_view.0),
                );
                assert(parse_entries(bytes@, pos as int, (count - i) as nat, prev) == prepend(
                    seq![item_view],
                    tail,
                ));
                if tail is Ok {
                    assert(done + (seq![item_view] + tail.unwrap()) =~= after + tail.unwrap());
                }
            }
            pos = next;
            i = i + 1;
        }
        if pos != bytes.len() {
            return Err(TreeError::TrailingBytes);
        }
        assert(listing(entries@) + Seq::<(Seq<u8>, EntryView)>::empty() =~= listing(entries@));
        Ok(Tree::from_sorted(entries))
    }

    /// The hash of the tree: the digest of its wire form. Trees with the same
    /// entries have the same hash.
    pub fn hash(&self) -> (h: Blake3Hash)
        requires
            self.wf(),
            self.items().len() <= u32::MAX,
        ensures
            h@ == tree_hash(self.items()),
    {
        let bytes = self.serialize();
        hash_bytes(bytes.as_slice())
    }
}

/// A tree that is read back from its own wire form is the same tree.
pub proof fn lemma_round_trip(t: Tree)
    requires
        t.wf(),
        t.items().len() <= u32::MAX,
    ensures
        parse_tree(tree_bytes(t.items())) == Ok::<Items, TreeError>(t.items()),
{
    lemma_parse_serialized(t.items());
}

/// Trees with the same entries have the same wire form and the same hash;
/// trees with the same wire form have the same entries.
pub proof fn lemma_hash_is_determined_by_entries(a: Tree, b: Tree)
    requires
        a.wf(),
        b.wf(),
        a.items().len() <= u32::MAX,
        b.items().len() <= u32::MAX,
    ensures
        a@ == b@ ==> tree_bytes(a.items()) == tree_bytes(b.items()) && tree_hash(a.items())
            == tree_hash(b.items()),
        tree_bytes(a.items()) == tree_bytes(b.items()) ==> a@ == b@,
{
    a.lemma_view_is_map();
    b.lemma_view_is_map();
    if a@ == b@ {
        crate::tree::lemma_listing_is_canonical(a.items(), b.items());
    }
    if tree_bytes(a.items()) == tree_bytes(b.items()) {
        lemma_wire_form_is_injective(a.items(), b.items());
    }
}

} // verus!
