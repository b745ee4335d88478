//! The daemon lock's decisions: when a lock that another process holds is
//! stale, and what follows each attempt to take the lock.

use vstd::prelude::*;

verus! {

/// What the lock file holds.
#[derive(Debug, Clone, Copy, PartialEq, Eq, Structural)]
pub struct LockContent {
    pub pid: u32,
    pub started_at_ms: u64,
}

/// What an attempt to take the lock found.
#[derive(Debug, Clone, Copy, PartialEq, Eq, Structural)]
pub enum LockProbe {
    /// The lock was free and is taken now.
    Acquired,
    /// Another holder has the lock. `content` is what the file holds, if
    /// that could be read; `owner_alive` says whether the process named
    /// there lives.
    Held { content: Option<LockContent>, owner_alive: bool },
}

/// What to do after an attempt to take the lock.
#[derive(Debug, Clone, Copy, PartialEq, Eq, Structural)]
pub enum LockStep {
    /// Write this process's content into the file and keep it open.
    WriteContent,
    /// The lock is stale: remove the file and try once more.
    RemoveStaleAndRetry,
    /// A daemon is running already.
    DaemonAlreadyRunning,
}

/// A held lock is stale: its content cannot be read, or the process named
/// there does not live.
pub open spec fn stale(content: Option<LockContent>, owner_alive: bool) -> bool {
    content is None || !owner_alive
}

/// Whether a held lock is stale.
pub fn is_stale_lock(content: Option<LockContent>, owner_alive: bool) -> (r: bool)
    ensures
        r == stale(content, owner_alive),
{
    content.is_none() || !owner_alive
}

/// Decides what follows an attempt to take the lock. A stale lock is
/// removed and the attempt repeated once; `retried` says that this was done
/// already.
pub fn lock_step(retried: bool, probe: LockProbe) -> (step: LockStep)
    ensures
        step == (match probe {
            LockProbe::Acquired => LockStep::WriteContent,
            LockProbe::Held { content, owner_alive } => if stale(content, owner_alive) && !retried {
                LockStep::RemoveStaleAndRetry
            } else {
                LockStep::DaemonAlreadyRunning
            },
        }),
{
    match probe {
        LockProbe::Acquired => LockStep::WriteContent,
        LockProbe::Held { content, owner_alive } => {
            if is_stale_lock(content, owner_alive) && !retried {
                LockStep::RemoveStaleAndRetry
            } else {
                LockStep::DaemonAlreadyRunning
            }
        },
    }
}

/// `{"pid":`
pub const PID_KEY: [u8; 7] = ['{' as u8, '"' as u8, 'p' as u8, 'i' as u8, 'd' as u8, '"' as u8, ':' as u8];

/// `,"started_at_ms":`
pub const STARTED_KEY: [u8; 17] = [
    ',' as u8, '"' as u8, 's' as u8, 't' as u8, 'a' as u8, 'r' as u8, 't' as u8, 'e' as u8, 'd' as u8,
    '_' as u8, 'a' as u8, 't' as u8, '_' as u8, 'm' as u8, 's' as u8, '"' as u8, ':' as u8,
];

/// `}`
pub const CLOSING_BRACE: u8 = 125;

/// The byte is a decimal digit.
pub open spec fn is_digit(b: u8) -> bool {
    48 <= b <= 57
}

/// The number that decimal digits stand for; 0 for none.
pub open spec fn number_of(digits: Seq<u8>) -> nat
    decreases digits.len(),
{
    if digits.len() == 0 {
        0
    } else {
        number_of(digits.drop_last()) * 10 + (digits.last() - 48) as nat
    }
}

/// Where the run of digits that starts at `i` ends.
pub open spec fn digits_end(bytes: Seq<u8>, i: int) -> int
    decreases bytes.len() - i,
{
    if 0 <= i < bytes.len() && is_digit(bytes[i]) {
        digits_end(bytes, i + 1)
    } else {
        i
    }
}

/// What a lock file holds, read from its bytes: `{"pid":`, the process id
/// in decimal digits, `,"started_at_ms":`, the start time in decimal
/// digits, and `}`, with nothing before, between or behind. Anything else
/// holds nothing, and so does a number too great for its field.
pub open spec fn lock_content_of(bytes: Seq<u8>) -> Option<LockContent> {
    let pid_from = 7int;
    let pid_to = digits_end(bytes, pid_from);
    let started_from = pid_to + 17;
    let started_to = digits_end(bytes, started_from);
    if bytes.len() < 7 || bytes.subrange(0, 7) != PID_KEY@ || pid_to == pid_from {
        None
    } else if started_from > bytes.len() || bytes.subrange(pid_to, started_from) != STARTED_KEY@
        || started_to == started_from {
        None
    } else if started_to + 1 != bytes.len() || bytes[started_to] != CLOSING_BRACE {
        None
    } else if number_of(bytes.subrange(pid_from, pid_to)) > u32::MAX || number_of(
        bytes.subrange(started_from, started_to),
    ) > u64::MAX {
        None
    } else {
        Some(
            LockContent {
                pid: number_of(bytes.subrange(pid_from, pid_to)) as u32,
                started_at_ms: number_of(bytes.subrange(started_from, started_to)) as u64,
            },
        )
    }
}

/// Whether `key` stands in `bytes` at `at`.
fn key_at(bytes: &[u8], key: &[u8], at: usize) -> (r: bool)
    ensures
        r == (at + key@.len() <= bytes@.len() && bytes@.subrange(at as int, at + key@.len()) == key@),
{
    let n = key.len();
    let total = bytes.len();
    if at > total || total - at < n {
        return false;
    }
    let mut k: usize = 0;
    while k < n
        invariant
            k <= n,
            n == key@.len(),
            total == bytes@.len(),
            at + n <= total,
            forall|j: int| 0 <= j < k ==> bytes@[at + j] == key@[j],
        decreases n - k,
    {
        if bytes[at + k] != key[k] {
            assert(bytes@.subrange(at as int, at + n)[k as int] == bytes@[at + k]);
            return false;
        }
        k = k + 1;
    }
    assert(bytes@.subrange(at as int, at + n) =~= key@);
    true
}

/// Reads the run of digits that starts at `from`: where it ends, and the
/// number it stands for unless that is greater than `max`.
fn read_number(bytes: &[u8], from: usize, max: u64) -> (r: (usize, Option<u64>))
    requires
        from <= bytes@.len(),
        max >= 9,
    ensures
        r.0 == digits_end(bytes@, from as int),
        from <= r.0 <= bytes@.len(),
        r.1 == (if number_of(bytes@.subrange(from as int, r.0 as int)) <= max {
            Some(number_of(bytes@.subrange(from as int, r.0 as int)) as u64)
        } else {
            None
        }),
{
    let total = bytes.len();
    let mut i: usize = from;
    let mut value: u64 = 0;
    let mut fits = true;
    assert(bytes@.subrange(from as int, from as int) =~= Seq::<u8>::empty());
    while i < total && bytes[i] >= 48 && bytes[i] <= 57
        invariant
            total == bytes@.len(),
            from <= i <= total,
            max >= 9,
            digits_end(bytes@, from as int) == digits_end(bytes@, i as int),
            fits ==> value == number_of(bytes@.subrange(from as int, i as int)) && value <= max,
            !fits ==> number_of(bytes@.subrange(from as int, i as int)) > max,
        decreases total - i,
    {
        proof {
            let upto = bytes@.subrange(from as int, i + 1);
            assert(upto.drop_last() =~= bytes@.subrange(from as int, i as int));
            assert(upto.last() == bytes@[i as int]);
        }
        let digit = (bytes[i] - 48) as u64;
        if fits {
            if value > (max - digit) / 10 {
                fits = false;
            } else {
                value = value * 10 + digit;
            }
        }
        i = i + 1;
    }
    if fits {
        (i, Some(value))
    } else {
        (i, None)
    }
}

/// Reads what a lock file holds.
pub fn parse_lock_content(bytes: &[u8]) -> (r: Option<LockContent>)
    ensures
        r == lock_content_of(bytes@),
{
    if !key_at(bytes, PID_KEY.as_slice(), 0) {
        return None;
    }
    let (pid_to, pid) = read_number(bytes, 7, 0xffff_ffff);
    if pid_to == 7 {
        return None;
    }
    if !key_at(bytes, STARTED_KEY.as_slice(), pid_to) {
        return None;
    }
    let total = bytes.len();
    assert(STARTED_KEY@.len() == 17 && pid_to + 17 <= total);
    let started_from = pid_to + 17;
    let (started_to, started) = read_number(bytes, started_from, 0xffff_ffff_ffff_ffff);
    if started_to == started_from {
        return None;
    }
    if started_to >= bytes.len() || started_to + 1 != bytes.len() || bytes[started_to] != CLOSING_BRACE {
        return None;
    }
    match (pid, started) {
        (Some(pid), Some(started_at_ms)) => Some(LockContent { pid: pid as u32, started_at_ms }),
        _ => None,
    }
}

/// The decimal digits of a number, without leading zeros.
pub open spec fn decimal(n: nat) -> Seq<u8>
    decreases n,
{
    if n < 10 {
        seq![(48 + n) as u8]
    } else {
        decimal(n / 10).push((48 + n % 10) as u8)
    }
}

/// What is written into the lock file for its content.
pub open spec fn lock_text(c: LockContent) -> Seq<u8> {
    PID_KEY@ + decimal(c.pid as nat) + STARTED_KEY@ + decimal(c.started_at_ms as nat) + seq![
        CLOSING_BRACE,
    ]
}

/// Appends the decimal digits of a number.
fn push_decimal(out: &mut Vec<u8>, n: u64)
    ensures
        final(out)@ == old(out)@ + decimal(n as nat),
    decreases n,
{
    let ghost before = out@;
    if n >= 10 {
        push_decimal(out, n / 10);
    }
    out.push(48 + (n % 10) as u8);
    assert(out@ =~= before + decimal(n as nat));
}

/// The bytes to write into the lock file for its content.
pub fn lock_content_text(content: LockContent) -> (out: Vec<u8>)
    ensures
        out@ == lock_text(content),
{
    let mut out: Vec<u8> = Vec::new();
    out.extend_from_slice(PID_KEY.as_slice());
    push_decimal(&mut out, content.pid as u64);
    out.extend_from_slice(STARTED_KEY.as_slice());
    push_decimal(&mut out, content.started_at_ms);
    out.push(CLOSING_BRACE);
    assert(out@ =~= lock_text(content));
    out
}

proof fn lemma_decimal(n: nat)
    ensures
        decimal(n).len() >= 1,
        forall|i: int| 0 <= i < decimal(n).len() ==> is_digit(#[trigger] decimal(n)[i]),
        number_of(decimal(n)) == n,
    decreases n,
{
    if n < 10 {
        let s = decimal(n);
        assert(s.drop_last() =~= Seq::<u8>::empty());
        assert(number_of(s.drop_last()) == 0);
    } else {
        lemma_decimal(n / 10);
        let s = decimal(n);
        assert(s.drop_last() =~= decimal(n / 10));
        assert(s.last() == (48 + n % 10) as u8);
    }
}

proof fn lemma_digits_run(bytes: Seq<u8>, from: int, to: int, i: int)
    requires
        0 <= from <= i <= to <= bytes.len(),
        forall|k: int| from <= k < to ==> is_digit(#[trigger] bytes[k]),
        to == bytes.len() || !is_digit(bytes[to]),
    ensures
        digits_end(bytes, i) == to,
    decreases to - i,
{
    if i < to {
        lemma_digits_run(bytes, from, to, i + 1);
    }
}

/// What is written for a lock content reads back as that content.
pub proof fn lemma_lock_text_round_trip(c: LockContent)
    ensures
        lock_content_of(lock_text(c)) == Some(c),
{
    let a = decimal(c.pid as nat);
    let b = decimal(c.started_at_ms as nat);
    lemma_decimal(c.pid as nat);
    lemma_decimal(c.started_at_ms as nat);
    let text = lock_text(c);
    let pid_to = 7 + a.len() as int;
    let started_from = pid_to + 17;
    let started_to = started_from + b.len() as int;
    assert(PID_KEY@.len() == 7 && STARTED_KEY@.len() == 17);
    assert(text.len() == started_to + 1);
    assert(text.subrange(0, 7) =~= PID_KEY@);
    assert(text.subrange(7, pid_to) =~= a);
    assert(text.subrange(pid_to, started_from) =~= STARTED_KEY@);
    assert(text.subrange(started_from, started_to) =~= b);
    assert(text[started_to] == CLOSING_BRACE);
    assert(text[pid_to] == STARTED_KEY@[0]);
    assert forall|k: int| 7 <= k < pid_to implies is_digit(#[trigger] text[k]) by {
        assert(text[k] == a[k - 7]);
    }
    assert forall|k: int| started_from <= k < started_to implies is_digit(#[trigger] text[k]) by {
        assert(text[k] == b[k - started_from]);
    }
    lemma_digits_run(text, 7, pid_to, 7);
    lemma_digits_run(text, started_from, started_to, started_from);
}

} // verus!
