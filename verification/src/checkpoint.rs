//! Checkpoints: immutable records that name a snapshot of the whole tree.

use vstd::prelude::*;
use crate::hash::Blake3Hash;

verus! {

/// Why a checkpoint was made.
#[derive(Debug, Clone, Copy, PartialEq, Eq, Structural)]
pub enum CheckpointReason {
    /// A batch of file system changes
    FsBatch,
    /// Asked for by hand
    Manual,
    /// A restore of an earlier checkpoint
    Restore,
    /// Publishing to an outside version control system
    Publish,
    /// Compaction by the garbage collector
    GcCompact,
}

/// What a checkpoint changed.
#[derive(Debug, Clone, Copy, PartialEq, Eq, Structural)]
pub struct CheckpointMeta {
    /// Number of files changed
    pub files_changed: u32,
    /// Bytes added
    pub bytes_added: u64,
    /// Bytes removed
    pub bytes_removed: u64,
}

/// A snapshot of the repository at a point in time.
#[derive(Debug, Clone, PartialEq, Eq)]
pub struct Checkpoint {
    /// 128-bit identifier; its upper 48 bits are the creation time in milliseconds
    pub id: u128,
    /// The checkpoint before this one
    pub parent: Option<u128>,
    /// Hash of the tree of the whole working state
    pub root_tree: Blake3Hash,
    /// Wall-clock creation time, Unix milliseconds
    pub ts_unix_ms: u64,
    /// Why the checkpoint was made
    pub reason: CheckpointReason,
    /// Paths changed since the parent
    pub touched_paths: Vec<Vec<u8>>,
    /// What the checkpoint changed
    pub meta: CheckpointMeta,
}

/// Number of random bits below the timestamp of an identifier.
pub const ID_RANDOM_BITS: u32 = 80;

/// Number of characters of an identifier's text form.
pub const ID_TEXT_LEN: usize = 26;

/// The creation time that an identifier embeds: its upper 48 bits.
pub open spec fn id_timestamp(id: u128) -> u64 {
    (id >> 80) as u64
}

/// The creation time, in Unix milliseconds, that an identifier embeds.
pub fn id_timestamp_ms(id: u128) -> (ms: u64)
    ensures
        ms == id_timestamp(id),
{
    assert(id >> 80 <= 0xffff_ffff_ffff) by (bit_vector);
    (id >> 80) as u64
}

/// An identifier made later embeds a time that is not earlier.
pub proof fn lemma_id_order_is_time_order(a: u128, b: u128)
    requires
        a <= b,
    ensures
        id_timestamp(a) <= id_timestamp(b),
{
    assert(a <= b ==> a >> 80 <= b >> 80) by (bit_vector);
    assert(a >> 80 <= 0xffff_ffff_ffff) by (bit_vector);
    assert(b >> 80 <= 0xffff_ffff_ffff) by (bit_vector);
}

/// The digits of Crockford's base 32, in ascending order of their value.
pub const BASE32_DIGITS: [u8; 32] = [
    '0' as u8, '1' as u8, '2' as u8, '3' as u8, '4' as u8, '5' as u8, '6' as u8, '7' as u8,
    '8' as u8, '9' as u8, 'A' as u8, 'B' as u8, 'C' as u8, 'D' as u8, 'E' as u8, 'F' as u8,
    'G' as u8, 'H' as u8, 'J' as u8, 'K' as u8, 'M' as u8, 'N' as u8, 'P' as u8, 'Q' as u8,
    'R' as u8, 'S' as u8, 'T' as u8, 'V' as u8, 'W' as u8, 'X' as u8, 'Y' as u8, 'Z' as u8,
];

/// 32 to the power `n`.
pub open spec fn pow32(n: nat) -> nat
    decreases n,
{
    if n == 0 {
        1
    } else {
        32 * pow32((n - 1) as nat)
    }
}

/// The value of the digit at position `i` of an identifier's text: the
/// identifier is written as a number of 26 digits in base 32, the most
/// significant first.
pub open spec fn base32_digit_value(id: u128, i: int) -> int {
    (id as int / pow32((25 - i) as nat) as int) % 32
}

/// The canonical text of an identifier: its 26 digits in Crockford's base 32.
pub open spec fn ulid_text(id: u128) -> Seq<u8> {
    Seq::new(26, |i: int| BASE32_DIGITS@[base32_digit_value(id, i)])
}

/// The number that the first `i` digits of an identifier's text stand for.
pub open spec fn digits_prefix(id: u128, i: int) -> int {
    id as int / pow32((26 - i) as nat) as int
}

proof fn lemma_pow32_positive(n: nat)
    ensures
        pow32(n) > 0,
    decreases n,
{
    if n > 0 {
        lemma_pow32_positive((n - 1) as nat);
    }
}

proof fn lemma_prefix_step(id: u128, i: int)
    requires
        0 <= i < 26,
    ensures
        digits_prefix(id, i + 1) == 32 * digits_prefix(id, i) + base32_digit_value(id, i),
        0 <= base32_digit_value(id, i) < 32,
{
    let p = pow32((25 - i) as nat) as int;
    lemma_pow32_positive((25 - i) as nat);
    assert(pow32((26 - i) as nat) == 32 * pow32((25 - i) as nat));
    vstd::arithmetic::div_mod::lemma_div_denominator(id as int, p, 32);
    assert(p * 32 == 32 * p) by (nonlinear_arith);
    vstd::arithmetic::div_mod::lemma_fundamental_div_mod(id as int / p, 32);
}

proof fn lemma_prefix_ends(id: u128)
    ensures
        digits_prefix(id, 0) == 0,
        digits_prefix(id, 26) == id,
{
    assert(pow32(26) == 1361129467683753853853498429727072845824) by {
        reveal_with_fuel(pow32, 27);
    }
    assert(pow32(0) == 1);
    let x = id as int;
    let top = pow32(26) as int;
    assert(x / top == 0) by (nonlinear_arith)
        requires
            0 <= x < top,
    ;
    assert(x / 1 == x) by (nonlinear_arith);
    assert(pow32((26 - 0) as nat) == pow32(26));
    assert(pow32((26 - 26) as nat) == pow32(0));
}

proof fn lemma_digits_ascend(u: int, v: int)
    requires
        0 <= u < v < 32,
    ensures
        BASE32_DIGITS@[u] < BASE32_DIGITS@[v],
{
}

proof fn lemma_text_order_from(a: u128, b: u128, i: int)
    requires
        a < b,
        0 <= i <= 26,
        digits_prefix(a, i) == digits_prefix(b, i),
    ensures
        crate::path_order::bytes_lt_from(ulid_text(a), ulid_text(b), i),
    decreases 26 - i,
{
    lemma_prefix_ends(a);
    lemma_prefix_ends(b);
    if i < 26 {
        lemma_prefix_step(a, i);
        lemma_prefix_step(b, i);
        let da = base32_digit_value(a, i);
        let db = base32_digit_value(b, i);
        lemma_pow32_positive((25 - i) as nat);
        vstd::arithmetic::div_mod::lemma_div_is_ordered(a as int, b as int, pow32((25 - i) as nat) as int);
        assert(digits_prefix(a, i + 1) <= digits_prefix(b, i + 1));
        assert(ulid_text(a)[i] == BASE32_DIGITS@[da]);
        assert(ulid_text(b)[i] == BASE32_DIGITS@[db]);
        if da < db {
            lemma_digits_ascend(da, db);
        } else {
            assert(da == db);
            lemma_text_order_from(a, b, i + 1);
        }
    }
}

/// The order of the texts is the order of the identifiers: of two
/// identifiers the smaller one has the text that sorts first, so that texts
/// sort by creation time as identifiers do.
pub proof fn lemma_text_order_is_id_order(a: u128, b: u128)
    requires
        a < b,
    ensures
        crate::path_order::bytes_lt(ulid_text(a), ulid_text(b)),
{
    lemma_prefix_ends(a);
    lemma_prefix_ends(b);
    lemma_text_order_from(a, b, 0);
}

/// The value of a base-32 digit of either case, `None` for any other byte.
/// The letters I, L, O and U are no digits.
pub open spec fn base32_value(b: u8) -> Option<int> {
    let u = if 97 <= b <= 122 {
        b - 32
    } else {
        b as int
    };
    if 48 <= u <= 57 {
        Some(u - 48)
    } else if 65 <= u <= 72 {
        Some(u - 55)
    } else if 74 <= u <= 75 {
        Some(u - 56)
    } else if 77 <= u <= 78 {
        Some(u - 57)
    } else if 80 <= u <= 84 {
        Some(u - 58)
    } else if 86 <= u <= 90 {
        Some(u - 59)
    } else {
        None
    }
}

/// The number that the digits from position `i` on add to `acc`, kept to
/// 128 bits; `None` where a byte is no digit.
pub open spec fn digits_value(text: Seq<u8>, i: int, acc: int) -> Option<int>
    decreases 26 - i,
{
    if i < 0 || i >= 26 {
        Some(acc)
    } else {
        match base32_value(text[i]) {
            None => None,
            Some(v) => digits_value(text, i + 1, (acc * 32 + v) % (u128::MAX + 1)),
        }
    }
}

/// The identifier that 26 base-32 digits stand for; `None` for any other
/// number of bytes and where a byte is no digit.
pub open spec fn ulid_value(text: Seq<u8>) -> Option<u128> {
    if text.len() != 26 {
        None
    } else {
        match digits_value(text, 0, 0) {
            None => None,
            Some(v) => Some(v as u128),
        }
    }
}

/// The identifier that a text stands for, if it stands for one.
pub open spec fn ulid_parse(text: Seq<char>) -> Option<u128> {
    ulid_value(vstd::utf8::encode_utf8(text))
}

proof fn lemma_digit_value_of_digit(d: int)
    requires
        0 <= d < 32,
    ensures
        base32_value(BASE32_DIGITS@[d]) == Some(d),
{
}

proof fn lemma_digits_value_of_text(id: u128, i: int)
    requires
        0 <= i <= 26,
    ensures
        digits_value(ulid_text(id), i, digits_prefix(id, i)) == Some(id as int),
    decreases 26 - i,
{
    lemma_prefix_ends(id);
    if i < 26 {
        lemma_prefix_step(id, i);
        let d = base32_digit_value(id, i);
        lemma_digit_value_of_digit(d);
        assert(ulid_text(id)[i] == BASE32_DIGITS@[d]);
        let next = digits_prefix(id, i + 1);
        lemma_pow32_positive((25 - i) as nat);
        let p = pow32((25 - i) as nat) as int;
        let x = id as int;
        assert(0 <= x / p) by (nonlinear_arith)
            requires
                p >= 1,
                x >= 0,
        ;
        assert(x / p <= x) by (nonlinear_arith)
            requires
                p >= 1,
                x >= 0,
        ;
        assert(0 <= next <= id);
        lemma_digits_value_of_text(id, i + 1);
    }
}

/// The text of an identifier stands for that identifier.
pub proof fn lemma_text_round_trip(id: u128)
    ensures
        ulid_value(ulid_text(id)) == Some(id),
{
    lemma_prefix_ends(id);
    lemma_digits_value_of_text(id, 0);
}

/// `Ulid::to_string`: the canonical text of the identifier. The crate
/// writes the identifier's 26 base-32 digits from the least significant
/// one at the end to the most significant one at the front, each as the
/// character of that value in `0123456789ABCDEFGHJKMNPQRSTVWXYZ`.
#[verifier::external_body]
fn ulid_to_text(id: u128) -> (text: Vec<u8>)
    ensures
        text@ == ulid_text(id),
        text@.len() == ID_TEXT_LEN,
{
    ulid::Ulid(id).to_string().into_bytes()
}

/// `Ulid::from_string`: the identifier that the text stands for, `None`
/// where the text is no identifier. The crate asks for exactly 26 bytes,
/// looks each up as a base-32 digit of either case, and shifts the digits
/// into 128 bits, the first digit first; bits beyond 128 are dropped.
#[verifier::external_body]
fn ulid_from_text(text: &str) -> (id: Option<u128>)
    ensures
        id == ulid_parse(text@),
{
    match ulid::Ulid::from_string(text) {
        Ok(id) => Some(id.0),
        Err(_) => None,
    }
}

/// The canonical text of an identifier.
pub fn id_text(id: u128) -> (text: Vec<u8>)
    ensures
        text@ == ulid_text(id),
        text@.len() == ID_TEXT_LEN,
{
    ulid_to_text(id)
}

/// Reads an identifier from its text.
pub fn parse_id(text: &str) -> (id: Option<u128>)
    ensures
        id == ulid_parse(text@),
{
    ulid_from_text(text)
}

/// A checkpoint as a mathematical value.
pub struct CheckpointView {
    pub id: u128,
    pub parent: Option<u128>,
    pub root_tree: Seq<u8>,
    pub ts_unix_ms: u64,
    pub reason: CheckpointReason,
    pub touched_paths: Seq<Seq<u8>>,
    pub meta: CheckpointMeta,
}

impl View for Checkpoint {
    type V = CheckpointView;

    open spec fn view(&self) -> CheckpointView {
        CheckpointView {
            id: self.id,
            parent: self.parent,
            root_tree: self.root_tree@,
            ts_unix_ms: self.ts_unix_ms,
            reason: self.reason,
            touched_paths: Seq::new(self.touched_paths@.len(), |i: int| self.touched_paths@[i]@),
            meta: self.meta,
        }
    }
}

impl Checkpoint {
    /// A checkpoint with the same contents.
    pub fn duplicate(&self) -> (c: Self)
        ensures
            c@ == self@,
    {
        let mut touched_paths: Vec<Vec<u8>> = Vec::with_capacity(self.touched_paths.len());
        let n = self.touched_paths.len();
        let mut i: usize = 0;
        while i < n
            invariant
                n == self.touched_paths@.len(),
                i <= n,
                touched_paths@.len() == i,
                forall|k: int| 0 <= k < i ==> touched_paths@[k]@ == self.touched_paths@[k]@,
            decreases n - i,
        {
            touched_paths.push(vstd::slice::slice_to_vec(self.touched_paths[i].as_slice()));
            i = i + 1;
        }
        let c = Checkpoint {
            id: self.id,
            parent: self.parent,
            root_tree: self.root_tree,
            ts_unix_ms: self.ts_unix_ms,
            reason: self.reason,
            touched_paths,
            meta: self.meta,
        };
        assert(c@.touched_paths =~= self@.touched_paths);
        c
    }

    /// A checkpoint with the given identifier and creation time.
    pub fn new(
        id: u128,
        ts_unix_ms: u64,
        parent: Option<u128>,
        root_tree: Blake3Hash,
        reason: CheckpointReason,
        touched_paths: Vec<Vec<u8>>,
        meta: CheckpointMeta,
    ) -> (c: Self)
        ensures
            c == (Checkpoint { id, parent, root_tree, ts_unix_ms, reason, touched_paths, meta }),
    {
        Checkpoint { id, parent, root_tree, ts_unix_ms, reason, touched_paths, meta }
    }
}

} // verus!
