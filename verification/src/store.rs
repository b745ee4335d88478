//! Rules of the object store that need no disk: how a user path is
//! normalized, which paths are never stored, and where an object lives.

use vstd::prelude::*;
use crate::hash::{hex_of, Blake3Hash};

verus! {

/// `/`, the separator of path components
pub const SLASH: u8 = 47;

/// `\\`
pub const BACKSLASH: u8 = 92;

/// `.`
pub const DOT: u8 = 46;

/// Why a path is refused.
#[derive(Clone, Copy, Debug, PartialEq, Eq)]
pub enum PathError {
    /// The path starts at the root.
    Absolute,
    /// A component of the path is `..`.
    ParentComponent,
}

/// The path with every backslash turned into a forward slash.
pub open spec fn with_forward_slashes(p: Seq<u8>) -> Seq<u8> {
    Seq::new(
        p.len(),
        |i: int|
            if p[i] == BACKSLASH {
                SLASH
            } else {
                p[i]
            },
    )
}

/// The path starts with a separator.
pub open spec fn is_absolute(p: Seq<u8>) -> bool {
    p.len() > 0 && p[0] == SLASH
}

/// A component starts at `i`: at the front, or right behind a separator.
pub open spec fn component_starts(p: Seq<u8>, i: int) -> bool {
    0 <= i <= p.len() && (i == 0 || p[i - 1] == SLASH)
}

/// The component `name` stands at `i`: it starts there, and ends at the end
/// of the path or before a separator.
pub open spec fn component_at(p: Seq<u8>, name: Seq<u8>, i: int) -> bool {
    &&& component_starts(p, i)
    &&& i + name.len() <= p.len()
    &&& p.subrange(i, i + name.len()) == name
    &&& (i + name.len() == p.len() || p[i + name.len()] == SLASH)
}

/// Some component of the path is `name`.
pub open spec fn has_component(p: Seq<u8>, name: Seq<u8>) -> bool {
    exists|i: int| #[trigger] component_at(p, name, i)
}

/// The directory `name` stands at `i`: the component is followed by a separator.
pub open spec fn dir_component_at(p: Seq<u8>, name: Seq<u8>, i: int) -> bool {
    component_at(p, name, i) && i + name.len() < p.len()
}

/// The path passes through a directory `name`: some component of it is
/// `name` and is followed by a separator.
pub open spec fn has_dir_component(p: Seq<u8>, name: Seq<u8>) -> bool {
    exists|i: int| #[trigger] dir_component_at(p, name, i)
}

/// The path lies in a directory `name` at any depth, or is such a
/// directory itself; `is_dir` says whether the path is a directory.
pub open spec fn names_dir(p: Seq<u8>, name: Seq<u8>, is_dir: bool) -> bool {
    has_dir_component(p, name) || (is_dir && has_component(p, name))
}

/// The component `..`.
pub open spec fn dot_dot() -> Seq<u8> {
    seq![DOT, DOT]
}

/// The path without the `./` and the separators at its front: each is
/// dropped until the path starts with a component or is empty.
pub open spec fn strip_dot_slash(p: Seq<u8>) -> Seq<u8>
    decreases p.len(),
{
    if p.len() >= 2 && p[0] == DOT && p[1] == SLASH {
        strip_dot_slash(p.subrange(2, p.len() as int))
    } else if p.len() >= 1 && p[0] == SLASH {
        strip_dot_slash(p.subrange(1, p.len() as int))
    } else {
        p
    }
}

/// How many bytes `strip_dot_slash` drops.
pub open spec fn stripped_len(p: Seq<u8>) -> int
    decreases p.len(),
{
    if p.len() >= 2 && p[0] == DOT && p[1] == SLASH {
        2 + stripped_len(p.subrange(2, p.len() as int))
    } else if p.len() >= 1 && p[0] == SLASH {
        1 + stripped_len(p.subrange(1, p.len() as int))
    } else {
        0
    }
}

/// The path neither starts with `./` nor with a separator.
pub open spec fn starts_clean(p: Seq<u8>) -> bool {
    !(p.len() >= 2 && p[0] == DOT && p[1] == SLASH) && !is_absolute(p)
}

/// What normalizing a path gives: the path with forward slashes and without
/// `./` or separators at its front, or the reason for which it is refused.
pub open spec fn normalized(p: Seq<u8>) -> Result<Seq<u8>, PathError> {
    let s = with_forward_slashes(p);
    if is_absolute(s) {
        Err(PathError::Absolute)
    } else if has_component(s, dot_dot()) {
        Err(PathError::ParentComponent)
    } else {
        Ok(strip_dot_slash(s))
    }
}

/// Whether `name` stands at `i` in `p`, followed by a separator or the end.
fn name_at(p: &[u8], name: &[u8], i: usize) -> (r: bool)
    requires
        i <= p@.len(),
    ensures
        r == (i + name@.len() <= p@.len() && p@.subrange(i as int, i + name@.len()) == name@ && (i
            + name@.len() == p@.len() || p@[i + name@.len()] == SLASH)),
{
    let n = name.len();
    let total = p.len();
    if total - i < n {
        return false;
    }
    let mut k: usize = 0;
    while k < n
        invariant
            k <= n,
            n == name@.len(),
            total == p@.len(),
            i + n <= total,
            forall|j: int| 0 <= j < k ==> p@[i + j] == name@[j],
        decreases n - k,
    {
        if p[i + k] != name[k] {
            assert(p@.subrange(i as int, i + n)[k as int] == p@[i + k]);
            return false;
        }
        k = k + 1;
    }
    assert(p@.subrange(i as int, i + n) =~= name@);
    i + n == p.len() || p[i + n] == SLASH
}

/// Whether some component of the path is `name`.
pub fn path_has_component(p: &[u8], name: &[u8]) -> (r: bool)
    ensures
        r == has_component(p@, name@),
{
    let total = p.len();
    let mut i: usize = 0;
    while i < total
        invariant
            total == p@.len(),
            i <= total,
            forall|j: int| 0 <= j < i ==> !component_at(p@, name@, j),
        decreases total - i,
    {
        if (i == 0 || p[i - 1] == SLASH) && name_at(p, name, i) {
            assert(component_at(p@, name@, i as int));
            return true;
        }
        i = i + 1;
    }
    if (total == 0 || p[total - 1] == SLASH) && name_at(p, name, total) {
        assert(component_at(p@, name@, total as int));
        return true;
    }
    assert forall|j: int| !component_at(p@, name@, j) by {
        if 0 <= j <= p@.len() {
        }
    }
    false
}

/// Whether the path passes through a directory `name`.
pub fn path_has_dir_component(p: &[u8], name: &[u8]) -> (r: bool)
    ensures
        r == has_dir_component(p@, name@),
{
    let total = p.len();
    let n = name.len();
    let mut i: usize = 0;
    while i < total
        invariant
            total == p@.len(),
            n == name@.len(),
            i <= total,
            forall|j: int| 0 <= j < i ==> !dir_component_at(p@, name@, j),
        decreases total - i,
    {
        if (i == 0 || p[i - 1] == SLASH) && name_at(p, name, i) && n < total - i {
            assert(dir_component_at(p@, name@, i as int));
            return true;
        }
        i = i + 1;
    }
    assert forall|j: int| !dir_component_at(p@, name@, j) by {
        if 0 <= j < p@.len() {
        }
    }
    false
}

/// Whether the path lies in a directory `name` or is such a directory.
pub fn path_names_dir(p: &[u8], name: &[u8], is_dir: bool) -> (r: bool)
    ensures
        r == names_dir(p@, name@, is_dir),
{
    path_has_dir_component(p, name) || (is_dir && path_has_component(p, name))
}

/// Normalizes a path that a user gave. Backslashes become forward slashes,
/// and every `./` at the front is dropped with the separators that follow
/// it. A path that starts at the root is refused, and so is one with a `..`
/// component. What is returned is relative, has no `..` component, and is
/// its own normal form.
pub fn normalize_path(path: &[u8]) -> (r: Result<Vec<u8>, PathError>)
    ensures
        match r {
            Ok(v) => {
                &&& normalized(path@) == Ok::<Seq<u8>, PathError>(v@)
                &&& starts_clean(v@)
                &&& !has_component(v@, dot_dot())
                &&& normalized(v@) == Ok::<Seq<u8>, PathError>(v@)
            },
            Err(e) => normalized(path@) == Err::<Seq<u8>, PathError>(e),
        },
{
    let mut s: Vec<u8> = Vec::with_capacity(path.len());
    let mut i: usize = 0;
    while i < path.len()
        invariant
            i <= path@.len(),
            s@.len() == i,
            forall|k: int| 0 <= k < i ==> s@[k] == with_forward_slashes(path@)[k],
        decreases path@.len() - i,
    {
        let b = path[i];
        s.push(if b == BACKSLASH { SLASH } else { b });
        i = i + 1;
    }
    assert(s@ =~= with_forward_slashes(path@));
    if s.len() > 0 && s[0] == SLASH {
        return Err(PathError::Absolute);
    }
    let parent: [u8; 2] = [DOT, DOT];
    assert(parent@ =~= dot_dot());
    if path_has_component(s.as_slice(), parent.as_slice()) {
        return Err(PathError::ParentComponent);
    }
    let total = s.len();
    let mut start: usize = 0;
    let mut clean = false;
    assert(s@.subrange(0, s@.len() as int) =~= s@);
    while !clean
        invariant
            total == s@.len(),
            start <= total,
            strip_dot_slash(s@) == strip_dot_slash(s@.subrange(start as int, total as int)),
            clean ==> starts_clean(s@.subrange(start as int, total as int)),
        decreases total - start + (if clean { 0int } else { 1int }),
    {
        proof {
            let cur = s@.subrange(start as int, total as int);
            if cur.len() >= 2 {
                assert(cur.subrange(2, cur.len() as int) =~= s@.subrange(start + 2, total as int));
            }
            if cur.len() >= 1 {
                assert(cur.subrange(1, cur.len() as int) =~= s@.subrange(start + 1, total as int));
            }
            assert(cur.len() >= 1 ==> cur[0] == s@[start as int]);
            assert(cur.len() >= 2 ==> cur[1] == s@[start + 1]);
        }
        if total - start >= 2 && s[start] == DOT && s[start + 1] == SLASH {
            start = start + 2;
        } else if total - start >= 1 && s[start] == SLASH {
            start = start + 1;
        } else {
            clean = true;
        }
    }
    assert(strip_dot_slash(s@) == s@.subrange(start as int, total as int));
    let mut out: Vec<u8> = Vec::with_capacity(s.len() - start);
    let mut k: usize = start;
    while k < s.len()
        invariant
            start <= k <= s@.len(),
            out@ == s@.subrange(start as int, k as int),
        decreases s@.len() - k,
    {
        out.push(s[k]);
        assert(out@ =~= s@.subrange(start as int, k + 1));
        k = k + 1;
    }
    proof {
        lemma_normalized_is_clean(path@);
    }
    Ok(out)
}

/// A normalized path is relative, starts with no `./`, has no `..`
/// component, and is its own normal form.
pub proof fn lemma_normalized_is_clean(p: Seq<u8>)
    ensures
        normalized(p) is Ok ==> {
            &&& starts_clean(normalized(p).unwrap())
            &&& !has_component(normalized(p).unwrap(), dot_dot())
            &&& normalized(normalized(p).unwrap()) == normalized(p)
        },
{
    if normalized(p) is Ok {
        let s = with_forward_slashes(p);
        let v = strip_dot_slash(s);
        let k = stripped_len(s);
        lemma_strip_is_clean_suffix(s);
        if has_component(v, dot_dot()) {
            let i = choose|i: int| #[trigger] component_at(v, dot_dot(), i);
            assert(v.subrange(i, i + 2) =~= s.subrange(i + k, i + k + 2));
            assert(component_at(s, dot_dot(), i + k));
        }
        assert(with_forward_slashes(v) =~= v) by {
            assert forall|j: int| 0 <= j < v.len() implies v[j] != BACKSLASH by {
                assert(v[j] == s[j + k]);
            }
        }
    }
}

/// What `strip_dot_slash` gives is the rest of the path from a place where
/// a component starts, and starts clean.
proof fn lemma_strip_is_clean_suffix(p: Seq<u8>)
    ensures
        0 <= stripped_len(p) <= p.len(),
        strip_dot_slash(p) == p.subrange(stripped_len(p), p.len() as int),
        stripped_len(p) == 0 || p[stripped_len(p) - 1] == SLASH,
        starts_clean(strip_dot_slash(p)),
        strip_dot_slash(strip_dot_slash(p)) == strip_dot_slash(p),
    decreases p.len(),
{
    if p.len() >= 2 && p[0] == DOT && p[1] == SLASH {
        let rest = p.subrange(2, p.len() as int);
        lemma_strip_is_clean_suffix(rest);
        assert(rest.subrange(stripped_len(rest), rest.len() as int) =~= p.subrange(
            2 + stripped_len(rest),
            p.len() as int,
        ));
    } else if p.len() >= 1 && p[0] == SLASH {
        let rest = p.subrange(1, p.len() as int);
        lemma_strip_is_clean_suffix(rest);
        assert(rest.subrange(stripped_len(rest), rest.len() as int) =~= p.subrange(
            1 + stripped_len(rest),
            p.len() as int,
        ));
    } else {
        assert(p.subrange(0, p.len() as int) =~= p);
    }
}

/// `.tl`, the state directory
pub const DIR_TL: [u8; 3] = ['.' as u8, 't' as u8, 'l' as u8];

/// `.git`
pub const DIR_GIT: [u8; 4] = ['.' as u8, 'g' as u8, 'i' as u8, 't' as u8];

/// `.jj`
pub const DIR_JJ: [u8; 3] = ['.' as u8, 'j' as u8, 'j' as u8];

/// `objects/blobs/`
pub const BLOBS_DIR: [u8; 14] = [
    'o' as u8, 'b' as u8, 'j' as u8, 'e' as u8, 'c' as u8, 't' as u8, 's' as u8, '/' as u8,
    'b' as u8, 'l' as u8, 'o' as u8, 'b' as u8, 's' as u8, '/' as u8,
];

/// `objects/trees/`
pub const TREES_DIR: [u8; 14] = [
    'o' as u8, 'b' as u8, 'j' as u8, 'e' as u8, 'c' as u8, 't' as u8, 's' as u8, '/' as u8,
    't' as u8, 'r' as u8, 'e' as u8, 'e' as u8, 's' as u8, '/' as u8,
];

/// The path lies in a metadata directory at the top of the repository: its
/// first component is `.tl`, `.git` or `.jj`.
pub open spec fn in_metadata_dir(p: Seq<u8>) -> bool {
    component_at(p, DIR_TL@, 0) || component_at(p, DIR_GIT@, 0) || component_at(p, DIR_JJ@, 0)
}

/// Whether a repository-relative path is never stored: anything under
/// `.tl/`, `.git/` or `.jj/`, and those directories themselves.
pub fn should_ignore(path: &[u8]) -> (r: bool)
    ensures
        r == in_metadata_dir(path@),
{
    name_at(path, DIR_TL.as_slice(), 0) || name_at(path, DIR_GIT.as_slice(), 0) || name_at(
        path,
        DIR_JJ.as_slice(),
        0,
    )
}

/// Which kind of object a path is for.
#[derive(Clone, Copy, Debug, PartialEq, Eq, Structural)]
pub enum ObjectKind {
    Blob,
    Tree,
}

/// The directory of a kind of object.
pub open spec fn object_dir(kind: ObjectKind) -> Seq<u8> {
    match kind {
        ObjectKind::Blob => BLOBS_DIR@,
        ObjectKind::Tree => TREES_DIR@,
    }
}

/// Where an object lives below the state directory: the directory of its
/// kind, the first two hex digits of its hash, a slash, and the other 62.
pub open spec fn object_path(kind: ObjectKind, hash: Seq<u8>) -> Seq<u8> {
    object_dir(kind) + hex_of(hash).subrange(0, 2) + seq![SLASH] + hex_of(hash).subrange(2, 64)
}

/// The path of an object below the state directory, as ASCII bytes.
pub fn object_rel_path(kind: ObjectKind, hash: &Blake3Hash) -> (out: Vec<u8>)
    ensures
        out@ == object_path(kind, hash@),
        out@.len() == 79,
{
    let mut out: Vec<u8> = Vec::with_capacity(79);
    match kind {
        ObjectKind::Blob => {
            out.extend_from_slice(BLOBS_DIR.as_slice());
        },
        ObjectKind::Tree => {
            out.extend_from_slice(TREES_DIR.as_slice());
        },
    }
    assert(out@ =~= object_dir(kind));
    let hex = hash.to_hex();
    let digits = hex.as_str().as_bytes();
    assert(digits@ == hex_of(hash@));
    let mut i: usize = 0;
    while i < 64
        invariant
            i <= 64,
            digits@ == hex_of(hash@),
            digits@.len() == 64,
            out@.len() == 14 + i + (if i >= 2 { 1int } else { 0int }),
            i < 2 ==> out@ == object_dir(kind) + digits@.subrange(0, i as int),
            i >= 2 ==> out@ == object_dir(kind) + digits@.subrange(0, 2) + seq![SLASH]
                + digits@.subrange(2, i as int),
        decreases 64 - i,
    {
        let ghost before = out@;
        out.push(digits[i]);
        if i == 1 {
            out.push(SLASH);
            assert(out@ =~= object_dir(kind) + digits@.subrange(0, 2) + seq![SLASH]
                + digits@.subrange(2, 2));
        } else if i < 1 {
            assert(out@ =~= object_dir(kind) + digits@.subrange(0, i + 1));
        } else {
            assert(out@ =~= object_dir(kind) + digits@.subrange(0, 2) + seq![SLASH]
                + digits@.subrange(2, i + 1));
        }
        i = i + 1;
    }
    out
}

} // verus!
