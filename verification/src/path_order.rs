//! The order of paths: raw bytes, compared lexicographically.

use vstd::prelude::*;

verus! {

/// How one path stands to another in the byte order.
#[derive(Clone, Copy, Debug, PartialEq, Eq)]
pub enum PathOrder {
    Before,
    Same,
    After,
}

/// `a` sorts before `b`, given that the two agree on every byte before `i`.
pub open spec fn bytes_lt_from(a: Seq<u8>, b: Seq<u8>, i: int) -> bool
    decreases a.len() - i,
{
    if i < 0 || i >= b.len() {
        false
    } else if i >= a.len() {
        true
    } else if a[i] != b[i] {
        a[i] < b[i]
    } else {
        bytes_lt_from(a, b, i + 1)
    }
}

/// `a` sorts strictly before `b`: at the first byte where they differ `a` has
/// the smaller one, or `a` is a proper prefix of `b`.
pub open spec fn bytes_lt(a: Seq<u8>, b: Seq<u8>) -> bool {
    bytes_lt_from(a, b, 0)
}

pub proof fn lemma_lt_from_asymmetric(a: Seq<u8>, b: Seq<u8>, i: int)
    requires
        0 <= i,
        bytes_lt_from(a, b, i),
    ensures
        !bytes_lt_from(b, a, i),
    decreases a.len() - i,
{
    if i < a.len() && i < b.len() && a[i] == b[i] {
        lemma_lt_from_asymmetric(a, b, i + 1);
    }
}

pub proof fn lemma_lt_from_total(a: Seq<u8>, b: Seq<u8>, i: int)
    requires
        0 <= i <= a.len(),
        i <= b.len(),
        forall|j: int| 0 <= j < i ==> a[j] == b[j],
        !bytes_lt_from(a, b, i),
        !bytes_lt_from(b, a, i),
    ensures
        a == b,
    decreases a.len() - i,
{
    if i < a.len() && i < b.len() {
        assert(a[i] == b[i]);
        lemma_lt_from_total(a, b, i + 1);
    } else {
        assert(a.len() == b.len());
        assert(a =~= b);
    }
}

pub proof fn lemma_lt_from_transitive(a: Seq<u8>, b: Seq<u8>, c: Seq<u8>, i: int)
    requires
        0 <= i,
        bytes_lt_from(a, b, i),
        bytes_lt_from(b, c, i),
    ensures
        bytes_lt_from(a, c, i),
    decreases a.len() - i,
{
    if i < a.len() && i < b.len() && i < c.len() && a[i] == b[i] && b[i] == c[i] {
        lemma_lt_from_transitive(a, b, c, i + 1);
    }
}

/// No path sorts before itself, and of two paths at most one sorts before the other.
pub proof fn lemma_bytes_lt_asymmetric(a: Seq<u8>, b: Seq<u8>)
    ensures
        bytes_lt(a, b) ==> !bytes_lt(b, a),
        !bytes_lt(a, a),
{
    if bytes_lt(a, b) {
        lemma_lt_from_asymmetric(a, b, 0);
    }
    if bytes_lt(a, a) {
        lemma_lt_from_asymmetric(a, a, 0);
    }
}

/// Two paths of which neither sorts before the other are the same path.
pub proof fn lemma_bytes_lt_total(a: Seq<u8>, b: Seq<u8>)
    ensures
        bytes_lt(a, b) || bytes_lt(b, a) || a == b,
{
    if !bytes_lt(a, b) && !bytes_lt(b, a) {
        lemma_lt_from_total(a, b, 0);
    }
}

/// The order is transitive.
pub proof fn lemma_bytes_lt_transitive(a: Seq<u8>, b: Seq<u8>, c: Seq<u8>)
    requires
        bytes_lt(a, b),
        bytes_lt(b, c),
    ensures
        bytes_lt(a, c),
{
    lemma_lt_from_transitive(a, b, c, 0);
}

/// Compares two paths byte by byte.
pub fn compare_paths(a: &[u8], b: &[u8]) -> (r: PathOrder)
    ensures
        r == PathOrder::Before <==> bytes_lt(a@, b@),
        r == PathOrder::Same <==> a@ == b@,
        r == PathOrder::After <==> bytes_lt(b@, a@),
{
    let mut i: usize = 0;
    while i < a.len() && i < b.len()
        invariant
            i <= a@.len(),
            i <= b@.len(),
            forall|j: int| 0 <= j < i ==> a@[j] == b@[j],
            bytes_lt(a@, b@) == bytes_lt_from(a@, b@, i as int),
            bytes_lt(b@, a@) == bytes_lt_from(b@, a@, i as int),
        decreases a@.len() - i,
    {
        if a[i] < b[i] {
            proof {
                lemma_bytes_lt_asymmetric(a@, b@);
            }
            return PathOrder::Before;
        }
        if a[i] > b[i] {
            proof {
                lemma_bytes_lt_asymmetric(b@, a@);
            }
            return PathOrder::After;
        }
        i = i + 1;
    }
    proof {
        lemma_bytes_lt_asymmetric(a@, b@);
        lemma_bytes_lt_asymmetric(b@, a@);
    }
    if a.len() < b.len() {
        PathOrder::Before
    } else if a.len() > b.len() {
        PathOrder::After
    } else {
        proof {
            assert(a@ =~= b@);
        }
        PathOrder::Same
    }
}

/// Whether two byte strings are equal.
pub fn same_bytes(a: &[u8], b: &[u8]) -> (r: bool)
    ensures
        r == (a@ == b@),
{
    if a.len() != b.len() {
        return false;
    }
    let mut i: usize = 0;
    while i < a.len()
        invariant
            a@.len() == b@.len(),
            i <= a@.len(),
            forall|j: int| 0 <= j < i ==> a@[j] == b@[j],
        decreases a@.len() - i,
    {
        if a[i] != b[i] {
            return false;
        }
        i = i + 1;
    }
    assert(a@ =~= b@);
    true
}

} // verus!
