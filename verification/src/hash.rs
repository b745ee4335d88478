//! Content hashes: the 32-byte digest type, its hex text form, and hashing of
//! byte buffers in one piece or in chunks.

use vstd::prelude::*;
use vstd::string::StringSliceAdditionalSpecFns;

verus! {

/// Number of bytes in a content hash.
pub const HASH_LEN: usize = 32;

/// Number of characters in the hex form of a content hash.
pub const HEX_LEN: usize = 64;

/// The hasher state of the `blake3` crate; what it holds is not seen here.
#[verifier::external_type_specification]
#[verifier::external_body]
pub struct ExHasher(blake3::Hasher);

/// A 32-byte content hash.
#[derive(Copy, Clone, Hash, Eq, PartialEq, Ord, PartialOrd, Debug)]
pub struct Blake3Hash(pub [u8; 32]);

/// Why a hex string is not a hash.
#[derive(Copy, Clone, Debug, PartialEq, Eq)]
pub enum HexError {
    /// The text does not have exactly 64 bytes; `got` is its length.
    InvalidLength { got: usize },
    /// The text has 64 bytes and `byte`, at `index`, is the first that is no hex digit.
    InvalidChar { index: usize, byte: u8 },
}

impl View for Blake3Hash {
    type V = Seq<u8>;

    open spec fn view(&self) -> Seq<u8> {
        self.0@
    }
}

/// The lowercase hex digit, as an ASCII byte, of a value below 16.
pub open spec fn hex_digit(n: int) -> u8 {
    if n < 10 {
        (48 + n) as u8
    } else {
        (87 + n) as u8
    }
}

/// The value of an ASCII hex digit of either case, `None` for any other byte.
pub open spec fn nibble_value(c: u8) -> Option<u8> {
    if 48 <= c <= 57 {
        Some((c - 48) as u8)
    } else if 97 <= c <= 102 {
        Some((c - 87) as u8)
    } else if 65 <= c <= 70 {
        Some((c - 55) as u8)
    } else {
        None
    }
}

/// The lowercase hex text of a byte sequence: two digits per byte, high nibble first.
pub open spec fn hex_of(bytes: Seq<u8>) -> Seq<u8> {
    Seq::new(
        2 * bytes.len(),
        |i: int|
            if i % 2 == 0 {
                hex_digit(bytes[i / 2] as int / 16)
            } else {
                hex_digit(bytes[i / 2] as int % 16)
            },
    )
}

/// Every byte of `s` before `n` is a hex digit.
pub open spec fn all_hex_before(s: Seq<u8>, n: int) -> bool {
    forall|i: int| 0 <= i < n ==> (#[trigger] nibble_value(s[i])) is Some
}

/// The 32 bytes that 64 hex digits stand for.
pub open spec fn hex_value(s: Seq<u8>) -> Seq<u8> {
    Seq::new(
        32,
        |i: int| (nibble_value(s[2 * i]).unwrap() * 16 + nibble_value(s[2 * i + 1]).unwrap()) as u8,
    )
}

/// What parsing the text `s` as a hash gives: the hash bytes, or the reason
/// for the refusal.
pub open spec fn decode_hex(s: Seq<u8>) -> Result<Seq<u8>, HexError> {
    if s.len() != 64 {
        Err(HexError::InvalidLength { got: s.len() as usize })
    } else if all_hex_before(s, 64) {
        Ok(hex_value(s))
    } else {
        let k = first_bad_digit(s);
        Err(HexError::InvalidChar { index: k as usize, byte: s[k] })
    }
}

/// Index of the first byte of `s` that is no hex digit.
pub open spec fn first_bad_digit(s: Seq<u8>) -> int {
    choose|k: int| 0 <= k < s.len() && nibble_value(s[k]) is None && all_hex_before(s, k)
}

/// Value of one hex digit, or `None` for a byte that is none.
pub fn hex_char_to_nibble(c: u8) -> (r: Option<u8>)
    ensures
        r == nibble_value(c),
{
    if 48 <= c && c <= 57 {
        Some(c - 48)
    } else if 97 <= c && c <= 102 {
        Some(c - 87)
    } else if 65 <= c && c <= 70 {
        Some(c - 55)
    } else {
        None
    }
}

/// The lowercase hex digit of a value below 16.
fn nibble_to_hex_char(n: u8) -> (c: u8)
    requires
        n < 16,
    ensures
        c == hex_digit(n as int),
        c < 128,
{
    if n < 10 {
        48 + n
    } else {
        87 + n
    }
}

/// `String::from_utf8` on ASCII bytes: the string has exactly these bytes.
/// The conversion cannot fail, since every byte below 128 is a whole character.
#[verifier::external_body]
fn ascii_into_string(bytes: Vec<u8>) -> (s: String)
    requires
        forall|i: int| 0 <= i < bytes@.len() ==> bytes@[i] < 128,
    ensures
        vstd::utf8::encode_utf8(s@) == bytes@,
{
    String::from_utf8(bytes).unwrap()
}

impl Blake3Hash {
    /// The hash with the given bytes.
    pub fn from_bytes(bytes: [u8; 32]) -> (h: Self)
        ensures
            h@ == bytes@,
            h.0 == bytes,
    {
        Blake3Hash(bytes)
    }

    /// The bytes of the hash.
    pub fn as_bytes(&self) -> (b: &[u8; 32])
        ensures
            b@ == self@,
            *b == self.0,
    {
        &self.0
    }

    /// The 64 lowercase hex digits of the hash.
    pub fn to_hex(&self) -> (hex: String)
        ensures
            vstd::utf8::encode_utf8(hex@) == hex_of(self@),
            vstd::utf8::encode_utf8(hex@).len() == 64,
    {
        let mut out: Vec<u8> = Vec::with_capacity(64);
        let mut i: usize = 0;
        while i < 32
            invariant
                i <= 32,
                out@.len() == 2 * i,
                forall|k: int| 0 <= k < out@.len() ==> out@[k] == hex_of(self@)[k],
                forall|k: int| 0 <= k < out@.len() ==> out@[k] < 128,
            decreases 32 - i,
        {
            let byte = self.0[i];
            let hi = nibble_to_hex_char(byte / 16);
            let lo = nibble_to_hex_char(byte % 16);
            out.push(hi);
            out.push(lo);
            i = i + 1;
        }
        assert(out@ =~= hex_of(self@));
        ascii_into_string(out)
    }

    /// Parses 64 hex digits of either case. Any other length is refused, and
    /// so is any byte that is no hex digit; the error names the first such byte.
    pub fn from_hex(hex: &str) -> (r: Result<Self, HexError>)
        ensures
            match r {
                Ok(h) => decode_hex(hex.spec_bytes()) == Ok::<Seq<u8>, HexError>(h@),
                Err(e) => decode_hex(hex.spec_bytes()) == Err::<Seq<u8>, HexError>(e),
            },
    {
        let text = hex.as_bytes();
        if text.len() != 64 {
            return Err(HexError::InvalidLength { got: text.len() });
        }
        let mut bytes = [0u8; 32];
        let mut i: usize = 0;
        while i < 32
            invariant
                i <= 32,
                text@.len() == 64,
                text@ == hex.spec_bytes(),
                all_hex_before(text@, 2 * i),
                forall|k: int| 0 <= k < i ==> bytes@[k] == hex_value(text@)[k],
            decreases 32 - i,
        {
            let high = match hex_char_to_nibble(text[2 * i]) {
                Some(v) => v,
                None => {
                    proof {
                        lemma_first_bad_digit(text@, 2 * i as int);
                    }
                    return Err(HexError::InvalidChar { index: 2 * i, byte: text[2 * i] });
                },
            };
            let low = match hex_char_to_nibble(text[2 * i + 1]) {
                Some(v) => v,
                None => {
                    proof {
                        lemma_first_bad_digit(text@, 2 * i as int + 1);
                    }
                    return Err(HexError::InvalidChar { index: 2 * i + 1, byte: text[2 * i + 1] });
                },
            };
            bytes[i] = high * 16 + low;
            i = i + 1;
        }
        assert(bytes@ =~= hex_value(text@));
        Ok(Blake3Hash(bytes))
    }

    /// Whether two hashes have the same bytes.
    pub fn same(&self, other: &Blake3Hash) -> (r: bool)
        ensures
            r == (self@ == other@),
    {
        let mut i: usize = 0;
        while i < 32
            invariant
                i <= 32,
                forall|k: int| 0 <= k < i ==> self@[k] == other@[k],
            decreases 32 - i,
        {
            if self.0[i] != other.0[i] {
                return false;
            }
            i = i + 1;
        }
        assert(self@ =~= other@);
        true
    }
}

/// The first non-digit of a text is the one before which all bytes are digits.
proof fn lemma_first_bad_digit(s: Seq<u8>, k: int)
    requires
        0 <= k < s.len(),
        nibble_value(s[k]) is None,
        all_hex_before(s, k),
    ensures
        first_bad_digit(s) == k,
        !all_hex_before(s, s.len() as int),
{
    let j = first_bad_digit(s);
    assert(0 <= j < s.len() && nibble_value(s[j]) is None && all_hex_before(s, j));
    if j < k {
        assert(nibble_value(s[j]) is Some);
    }
    if k < j {
        assert(nibble_value(s[k]) is Some);
    }
}

/// Parsing the hex text of any 32 bytes gives those bytes back.
pub proof fn lemma_hex_round_trip(bytes: Seq<u8>)
    requires
        bytes.len() == 32,
    ensures
        decode_hex(hex_of(bytes)) == Ok::<Seq<u8>, HexError>(bytes),
{
    let s = hex_of(bytes);
    assert forall|i: int| 0 <= i < 64 implies (#[trigger] nibble_value(s[i])) is Some by {
        let b = bytes[i / 2] as int;
        assert(0 <= b / 16 < 16 && 0 <= b % 16 < 16);
    }
    assert forall|i: int| 0 <= i < 32 implies hex_value(s)[i] == bytes[i] by {
        let b = bytes[i] as int;
        assert((2 * i) / 2 == i && (2 * i + 1) / 2 == i);
        assert((2 * i) % 2 == 0 && (2 * i + 1) % 2 == 1);
        assert(0 <= b / 16 < 16 && 0 <= b % 16 < 16);
        assert(nibble_value(hex_digit(b / 16)).unwrap() == b / 16);
        assert(nibble_value(hex_digit(b % 16)).unwrap() == b % 16);
        assert(b == (b / 16) * 16 + b % 16);
    }
    assert(hex_value(s) =~= bytes);
}

/// The hex text of a hash has only digits and lowercase letters `a` to `f`.
pub proof fn lemma_hex_is_lowercase(bytes: Seq<u8>, i: int)
    requires
        0 <= i < 2 * bytes.len(),
    ensures
        48 <= hex_of(bytes)[i] <= 57 || 97 <= hex_of(bytes)[i] <= 102,
{
    let b = bytes[i / 2] as int;
    assert(0 <= b / 16 < 16 && 0 <= b % 16 < 16);
}

/// The BLAKE3 digest (32 bytes) of a byte sequence.
pub uninterp spec fn blake3_digest(data: Seq<u8>) -> Seq<u8>;

/// `blake3::hash`: the 32-byte BLAKE3 digest of the input, a function of the
/// input bytes alone.
#[verifier::external_body]
fn blake3_hash(data: &[u8]) -> (out: [u8; 32])
    ensures
        out@ == blake3_digest(data@),
{
    *blake3::hash(data).as_bytes()
}

/// The content hash of a byte buffer.
pub fn hash_bytes(data: &[u8]) -> (h: Blake3Hash)
    ensures
        h@ == blake3_digest(data@),
{
    Blake3Hash::from_bytes(blake3_hash(data))
}


/// The bytes fed so far to a BLAKE3 hasher state.
pub uninterp spec fn hasher_input(h: blake3::Hasher) -> Seq<u8>;

/// `blake3::Hasher::new`: a hasher state that has been fed nothing.
#[verifier::external_body]
fn hasher_new() -> (h: blake3::Hasher)
    ensures
        hasher_input(h) == Seq::<u8>::empty(),
{
    blake3::Hasher::new()
}

/// `blake3::Hasher::update`: feeds the bytes to the state, after those fed before.
#[verifier::external_body]
fn hasher_update(h: &mut blake3::Hasher, data: &[u8])
    ensures
        hasher_input(*final(h)) == hasher_input(*old(h)) + data@,
{
    h.update(data);
}

/// `blake3::Hasher::finalize`: the digest of all bytes fed, the same that
/// `blake3::hash` gives for them in one piece.
#[verifier::external_body]
fn hasher_finalize(h: &blake3::Hasher) -> (out: [u8; 32])
    ensures
        out@ == blake3_digest(hasher_input(*h)),
{
    *h.finalize().as_bytes()
}

/// Hashes a byte stream that arrives in chunks.
pub struct IncrementalHasher {
    inner: blake3::Hasher,
}

impl Default for IncrementalHasher {
    /// A hasher that has been fed nothing.
    fn default() -> (h: Self)
        ensures
            h@ == Seq::<u8>::empty(),
    {
        IncrementalHasher::new()
    }
}

impl View for IncrementalHasher {
    type V = Seq<u8>;

    /// The bytes fed so far.
    closed spec fn view(&self) -> Seq<u8> {
        hasher_input(self.inner)
    }
}

impl IncrementalHasher {
    /// A hasher that has been fed nothing.
    pub fn new() -> (h: Self)
        ensures
            h@ == Seq::<u8>::empty(),
    {
        IncrementalHasher { inner: hasher_new() }
    }

    /// Feeds the next chunk.
    pub fn update(&mut self, data: &[u8])
        ensures
            final(self)@ == old(self)@ + data@,
    {
        hasher_update(&mut self.inner, data);
    }

    /// The hash of all chunks fed, in order: the hash of their concatenation.
    pub fn finalize(self) -> (h: Blake3Hash)
        ensures
            h@ == blake3_digest(self@),
    {
        Blake3Hash::from_bytes(hasher_finalize(&self.inner))
    }
}

/// Size and modification time of a file, as read before or after hashing it.
#[derive(Clone, Copy, Debug, PartialEq, Eq, Structural)]
pub struct FileStamp {
    pub len: u64,
    pub mtime_ns: u128,
}

/// What to do after one attempt to hash a file that may be changing.
#[derive(Clone, Copy, Debug, PartialEq, Eq, Structural)]
pub enum StableStep {
    /// The file did not change while it was read: the hash stands.
    Accept,
    /// The file changed: wait this many milliseconds, then hash again.
    Retry { backoff_ms: u64 },
    /// The file changed and no attempt is left: the file is unstable.
    GiveUp,
}

/// Delays up to this attempt fit in 64 bits.
pub const MAX_BACKOFF_ATTEMPT: u8 = 58;

/// Two to the power `n`.
pub open spec fn pow2(n: nat) -> nat
    decreases n,
{
    if n == 0 {
        1
    } else {
        2 * pow2((n - 1) as nat)
    }
}

/// Milliseconds to wait after the failed attempt `attempt`, counted from 0:
/// 50, 100, 200 and so on; from the attempt at which that exceeds 64 bits
/// on, the largest 64-bit value.
pub open spec fn backoff_delay(attempt: u8) -> nat {
    if attempt <= MAX_BACKOFF_ATTEMPT {
        50 * pow2(attempt as nat)
    } else {
        u64::MAX as nat
    }
}

/// The delay after a failed attempt.
pub fn backoff_ms(attempt: u8) -> (ms: u64)
    ensures
        ms == backoff_delay(attempt),
{
    if attempt > MAX_BACKOFF_ATTEMPT {
        return u64::MAX;
    }
    let mut ms: u64 = 50;
    let mut i: u8 = 0;
    proof {
        lemma_pow2_58();
        lemma_pow2_monotonic(0, 58);
    }
    while i < attempt
        invariant
            i <= attempt <= MAX_BACKOFF_ATTEMPT,
            ms == 50 * pow2(i as nat),
            ms <= 50 * pow2(58),
        decreases attempt - i,
    {
        proof {
            lemma_pow2_monotonic((i + 1) as nat, 58);
            lemma_pow2_58();
        }
        ms = ms * 2;
        i = i + 1;
    }
    ms
}

proof fn lemma_pow2_monotonic(a: nat, b: nat)
    requires
        a <= b,
    ensures
        pow2(a) <= pow2(b),
    decreases b,
{
    if a < b {
        lemma_pow2_monotonic(a, (b - 1) as nat);
    }
}

proof fn lemma_pow2_58()
    ensures
        pow2(58) == 288230376151711744,
{
    reveal_with_fuel(pow2, 60);
}

/// Decides what follows one attempt of the double-stat pattern: the stamp
/// read before hashing is compared with the one read after. `attempt` counts
/// from 0, and `max_retries` attempts are made at most.
pub fn stable_step(attempt: u8, max_retries: u8, before: FileStamp, after: FileStamp) -> (step: StableStep)
    requires
        attempt < max_retries,
    ensures
        step == (if before == after {
            StableStep::Accept
        } else if attempt + 1 < max_retries {
            StableStep::Retry { backoff_ms: backoff_delay(attempt) as u64 }
        } else {
            StableStep::GiveUp
        }),
{
    if before.len == after.len && before.mtime_ns == after.mtime_ns {
        StableStep::Accept
    } else if attempt < max_retries - 1 {
        StableStep::Retry { backoff_ms: backoff_ms(attempt) }
    } else {
        StableStep::GiveUp
    }
}

} // verus!
