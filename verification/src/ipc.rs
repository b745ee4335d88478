//! The protocol between the daemon and its clients: length-prefixed frames,
//! the operations, and how a checkpoint reference is resolved.

use vstd::prelude::*;
use vstd::bytes::{
    lemma_auto_spec_u32_to_from_le_bytes, spec_u32_from_le_bytes, spec_u32_to_le_bytes,
    u32_from_le_bytes, u32_to_le_bytes,
};
use vstd::slice::{slice_subrange, slice_to_vec};
use vstd::string::StringSliceAdditionalSpecFns;
use crate::checkpoint::{id_text, parse_id, ulid_parse, ulid_text, Checkpoint, CheckpointView};
use crate::journal::{has_id, Journal, JournalRecord, JournalView};
use crate::ignore_rules::{bytes_start_with, starts_with, text_bytes};
use crate::path_order::same_bytes;

verus! {

/// Bytes of the length prefix of a frame.
pub const FRAME_PREFIX_LEN: usize = 4;

/// Shortest prefix of an identifier that is looked up.
pub const MIN_PREFIX_LEN: usize = 4;

/// What the daemon reports of itself.
#[derive(Debug, Clone, Copy, PartialEq, Eq, Structural)]
pub struct Status {
    pub pid: u32,
    pub start_time_ms: u64,
    pub checkpoints_created: u64,
    pub last_checkpoint_time: Option<u64>,
    pub watcher_paths: u64,
}

/// An operation that a client asks for.
#[derive(Debug, Clone, PartialEq, Eq)]
pub enum Request {
    GetStatus,
    GetStatusFull,
    ResolveRefs(Vec<String>),
    GetCheckpointBatch(Vec<u128>),
    GetInfo,
    Flush,
    Shutdown,
}

/// What the daemon answers.
#[derive(Debug, Clone, PartialEq, Eq)]
pub enum Response {
    Status(Status),
    StatusFull { status: Status, latest: Option<Checkpoint>, total_count: u64 },
    Refs(Vec<Option<u128>>),
    Checkpoints(Vec<Option<Checkpoint>>),
    Info { count: u64, ordered_ids: Vec<u128>, approx_store_bytes: u64 },
    Flushed { checkpoint: Option<u128> },
    ShuttingDown,
    Failed(ErrorTag),
}

/// The kinds of failure, as stable tags of the response frame.
#[derive(Debug, Clone, Copy, PartialEq, Eq, Structural)]
pub enum ErrorTag {
    Validation,
    NotFound,
    Ambiguous,
    UnstableFile,
    Io,
    LockHeld,
    Corrupted,
    Fatal,
}

/// A frame: the payload length in 4 little-endian bytes, then the payload.
pub open spec fn frame_bytes(payload: Seq<u8>) -> Seq<u8> {
    spec_u32_to_le_bytes(payload.len() as u32) + payload
}

/// What the front of a receive buffer holds.
#[derive(Debug, Clone, PartialEq, Eq)]
pub enum FrameRead {
    /// No whole frame yet; at least `missing` more bytes are needed.
    Incomplete { missing: usize },
    /// A whole frame, which took `consumed` bytes of the buffer.
    Frame { payload: Vec<u8>, consumed: usize },
}

/// The payload length that the first four bytes of a buffer give.
pub open spec fn announced_len(buf: Seq<u8>) -> int {
    spec_u32_from_le_bytes(buf.subrange(0, 4)) as int
}

/// Frames a payload. A payload too long for the 32-bit length gets no frame.
pub fn encode_frame(payload: &[u8]) -> (r: Option<Vec<u8>>)
    ensures
        match r {
            Some(frame) => payload@.len() <= u32::MAX && frame@ == frame_bytes(payload@),
            None => payload@.len() > u32::MAX,
        },
{
    if payload.len() > 0xffff_ffff {
        return None;
    }
    let mut out = u32_to_le_bytes(payload.len() as u32);
    out.extend_from_slice(payload);
    assert(out@ =~= frame_bytes(payload@));
    Some(out)
}

/// Takes the first frame off a receive buffer, if it is there in whole.
pub fn decode_frame(buf: &[u8]) -> (r: FrameRead)
    ensures
        match r {
            FrameRead::Incomplete { missing } => if buf@.len() < 4 {
                missing == 4 - buf@.len()
            } else {
                buf@.len() < 4 + announced_len(buf@) && missing == 4 + announced_len(buf@) - buf@.len()
            },
            FrameRead::Frame { payload, consumed } => {
                &&& buf@.len() >= 4
                &&& consumed == 4 + announced_len(buf@)
                &&& consumed <= buf@.len()
                &&& payload@ == buf@.subrange(4, consumed as int)
            },
        },
{
    let have = buf.len();
    if have < 4 {
        return FrameRead::Incomplete { missing: 4 - have };
    }
    let announced = u32_from_le_bytes(slice_subrange(buf, 0, 4));
    let n = announced as usize;
    if have - 4 < n {
        return FrameRead::Incomplete { missing: n - (have - 4) };
    }
    FrameRead::Frame { payload: slice_to_vec(slice_subrange(buf, 4, 4 + n)), consumed: 4 + n }
}

/// A frame that is decoded gives its payload, and takes exactly its own
/// bytes off the buffer, whatever follows it.
pub proof fn lemma_frame_round_trip(payload: Seq<u8>, rest: Seq<u8>)
    requires
        payload.len() <= u32::MAX,
    ensures
        (frame_bytes(payload) + rest).len() >= 4 + payload.len(),
        announced_len(frame_bytes(payload) + rest) == payload.len(),
        (frame_bytes(payload) + rest).subrange(4, 4 + payload.len() as int) == payload,
{
    lemma_auto_spec_u32_to_from_le_bytes();
    let all = frame_bytes(payload) + rest;
    assert(all.subrange(0, 4) =~= spec_u32_to_le_bytes(payload.len() as u32));
    assert(all.subrange(4, 4 + payload.len() as int) =~= payload);
}

/// A name for a checkpoint.
#[derive(Debug, Clone, PartialEq, Eq)]
pub struct Pin {
    pub name: String,
    pub id: u128,
}

/// Why a reference names no checkpoint.
#[derive(Debug, Clone, Copy, PartialEq, Eq, Structural)]
pub enum ResolveError {
    /// No checkpoint and no pin goes by the reference.
    NotFound,
    /// The reference is a prefix of the identifiers of this many checkpoints.
    Ambiguous { matches: usize },
}

/// The number of the first `n` texts that start with `prefix`.
pub open spec fn prefix_matches(texts: Seq<Seq<u8>>, prefix: Seq<u8>, n: int) -> nat
    decreases n,
{
    if n <= 0 {
        0
    } else if starts_with(texts[n - 1], prefix) {
        1 + prefix_matches(texts, prefix, n - 1)
    } else {
        prefix_matches(texts, prefix, n - 1)
    }
}

/// The position of the first text that starts with `prefix`.
pub open spec fn first_match(texts: Seq<Seq<u8>>, prefix: Seq<u8>) -> int {
    choose|i: int|
        0 <= i < texts.len() && starts_with(texts[i], prefix) && forall|k: int|
            0 <= k < i ==> !starts_with(#[trigger] texts[k], prefix)
}

/// The identifier of the first pin with the name.
pub open spec fn pin_named(pins: Seq<Pin>, name: Seq<u8>) -> Option<u128>
    decreases pins.len(),
{
    if pins.len() == 0 {
        None
    } else if text_bytes(pins[0].name@) == name {
        Some(pins[0].id)
    } else {
        pin_named(pins.drop_first(), name)
    }
}

/// What a reference resolves to. `parsed` is the identifier that the
/// reference is the full text of, if it is one; `texts` are the texts of the
/// journal's identifiers `ids`. A full identifier resolves to itself if the
/// journal holds it, and to nothing else. A reference of four bytes or more
/// that is a prefix of exactly one identifier's text resolves to that; one
/// that is a prefix of several is ambiguous. Else the reference resolves as
/// a pin name.
pub open spec fn resolution(
    parsed: Option<u128>,
    reference: Seq<u8>,
    ids: Seq<u128>,
    texts: Seq<Seq<u8>>,
    pins: Seq<Pin>,
) -> Result<u128, ResolveError> {
    if parsed is Some {
        if ids.contains(parsed.unwrap()) {
            Ok(parsed.unwrap())
        } else {
            Err(ResolveError::NotFound)
        }
    } else {
        let matches = if reference.len() >= MIN_PREFIX_LEN {
            prefix_matches(texts, reference, texts.len() as int)
        } else {
            0
        };
        if matches == 1 {
            Ok(ids[first_match(texts, reference)])
        } else if matches > 1 {
            Err(ResolveError::Ambiguous { matches: matches as usize })
        } else {
            match pin_named(pins, reference) {
                Some(id) => Ok(id),
                None => Err(ResolveError::NotFound),
            }
        }
    }
}

/// The mathematical value of a list of texts.
pub open spec fn texts_view(texts: Seq<Vec<u8>>) -> Seq<Seq<u8>> {
    Seq::new(texts.len(), |i: int| texts[i]@)
}

/// The texts of the identifiers.
pub open spec fn id_texts(ids: Seq<u128>) -> Seq<Seq<u8>> {
    Seq::new(ids.len(), |i: int| ulid_text(ids[i]))
}

/// The identifier of the first pin with the name.
pub fn find_pin(pins: &Vec<Pin>, name: &[u8]) -> (r: Option<u128>)
    ensures
        r == pin_named(pins@, name@),
{
    let mut i: usize = 0;
    assert(pins@.subrange(0, pins@.len() as int) =~= pins@);
    while i < pins.len()
        invariant
            i <= pins@.len(),
            pin_named(pins@, name@) == pin_named(pins@.subrange(i as int, pins@.len() as int), name@),
        decreases pins@.len() - i,
    {
        let ghost rest = pins@.subrange(i as int, pins@.len() as int);
        assert(rest[0] == pins@[i as int]);
        assert(rest.drop_first() =~= pins@.subrange(i + 1, pins@.len() as int));
        if same_bytes(pins[i].name.as_str().as_bytes(), name) {
            return Some(pins[i].id);
        }
        i = i + 1;
    }
    None
}

/// Resolves a reference from the parts that `resolution` names.
pub fn resolve_parsed(
    parsed: Option<u128>,
    reference: &[u8],
    ids: &Vec<u128>,
    texts: &Vec<Vec<u8>>,
    pins: &Vec<Pin>,
) -> (r: Result<u128, ResolveError>)
    requires
        ids@.len() == texts@.len(),
    ensures
        r == resolution(parsed, reference@, ids@, texts_view(texts@), pins@),
{
    match parsed {
        Some(id) => {
            if crate::retention::holds_id(ids.as_slice(), id) {
                return Ok(id);
            }
            return Err(ResolveError::NotFound);
        },
        None => {},
    }
    let n = texts.len();
    let mut matches: usize = 0;
    let mut first: usize = 0;
    if reference.len() >= MIN_PREFIX_LEN {
        let mut i: usize = 0;
        while i < n
            invariant
                n == texts@.len(),
                i <= n,
                matches == prefix_matches(texts_view(texts@), reference@, i as int),
                matches <= i,
                matches == 0 ==> forall|k: int|
                    0 <= k < i ==> !starts_with(#[trigger] texts_view(texts@)[k], reference@),
                matches > 0 ==> first < i && starts_with(texts_view(texts@)[first as int], reference@)
                    && forall|k: int|
                    0 <= k < first ==> !starts_with(#[trigger] texts_view(texts@)[k], reference@),
            decreases n - i,
        {
            assert(texts_view(texts@)[i as int] == texts@[i as int]@);
            if bytes_start_with(texts[i].as_slice(), reference) {
                if matches == 0 {
                    first = i;
                }
                matches = matches + 1;
            }
            i = i + 1;
        }
    }
    if matches == 1 {
        proof {
            let tv = texts_view(texts@);
            let f = first_match(tv, reference@);
            assert(0 <= f < tv.len() && starts_with(tv[f], reference@) && forall|k: int|
                0 <= k < f ==> !starts_with(#[trigger] tv[k], reference@));
            if f < first {
                assert(!starts_with(tv[f], reference@));
            }
            if first < f {
                assert(!starts_with(tv[first as int], reference@));
            }
        }
        Ok(ids[first])
    } else if matches > 1 {
        Err(ResolveError::Ambiguous { matches })
    } else {
        match find_pin(pins, reference) {
            Some(id) => Ok(id),
            None => Err(ResolveError::NotFound),
        }
    }
}

/// Resolves a reference to a checkpoint: a full identifier, a prefix of
/// four characters or more of exactly one identifier, or a pin name.
pub fn resolve_ref(reference: &str, ids: &Vec<u128>, pins: &Vec<Pin>) -> (r: Result<u128, ResolveError>)
    ensures
        r == resolution(ulid_parse(reference@), text_bytes(reference@), ids@, id_texts(ids@), pins@),
{
    let parsed = parse_id(reference);
    let mut texts: Vec<Vec<u8>> = Vec::with_capacity(ids.len());
    let mut i: usize = 0;
    while i < ids.len()
        invariant
            i <= ids@.len(),
            texts@.len() == i,
            forall|k: int| 0 <= k < i ==> texts@[k]@ == ulid_text(ids@[k]),
        decreases ids@.len() - i,
    {
        texts.push(id_text(ids[i]));
        i = i + 1;
    }
    assert(texts_view(texts@) =~= id_texts(ids@));
    resolve_parsed(parsed, reference.as_bytes(), ids, &texts, pins)
}

/// Resolves each reference; one that names nothing resolves to `None`. A
/// prefix of several identifiers fails the whole request.
pub fn resolve_refs(references: &Vec<String>, ids: &Vec<u128>, pins: &Vec<Pin>) -> (r: Result<
    Vec<Option<u128>>,
    ResolveError,
>)
    ensures
        match r {
            Ok(out) => out@.len() == references@.len() && forall|i: int|
                0 <= i < out@.len() ==> out@[i] == (match one_resolution(
                    #[trigger] references@[i],
                    ids@,
                    pins@,
                ) {
                    Ok(id) => Some(id),
                    Err(_) => None,
                }) && !(one_resolution(references@[i], ids@, pins@) is Err && one_resolution(
                    references@[i],
                    ids@,
                    pins@,
                )->Err_0 is Ambiguous),
            Err(e) => e is Ambiguous && exists|i: int|
                0 <= i < references@.len() && one_resolution(#[trigger] references@[i], ids@, pins@)
                    == Err::<u128, ResolveError>(e),
        },
{
    let mut out: Vec<Option<u128>> = Vec::with_capacity(references.len());
    let mut i: usize = 0;
    while i < references.len()
        invariant
            i <= references@.len(),
            out@.len() == i,
            forall|k: int|
                0 <= k < i ==> out@[k] == (match one_resolution(#[trigger] references@[k], ids@, pins@) {
                    Ok(id) => Some(id),
                    Err(_) => None,
                }) && !(one_resolution(references@[k], ids@, pins@) is Err && one_resolution(
                    references@[k],
                    ids@,
                    pins@,
                )->Err_0 is Ambiguous),
        decreases references@.len() - i,
    {
        match resolve_ref(references[i].as_str(), ids, pins) {
            Ok(id) => {
                out.push(Some(id));
            },
            Err(ResolveError::NotFound) => {
                out.push(None);
            },
            Err(e) => {
                return Err(e);
            },
        }
        i = i + 1;
    }
    Ok(out)
}

/// What one reference of a request resolves to.
pub open spec fn one_resolution(reference: String, ids: Seq<u128>, pins: Seq<Pin>) -> Result<
    u128,
    ResolveError,
> {
    resolution(ulid_parse(reference@), text_bytes(reference@), ids, id_texts(ids), pins)
}

/// What the daemon does with a request.
#[derive(Debug, Clone, PartialEq, Eq)]
pub enum Handled {
    /// Answer at once.
    Reply(Response),
    /// Drain the pending dirty paths, make at most one checkpoint, then answer `Flushed`.
    Flush,
    /// Answer `ShuttingDown` and exit cleanly.
    Shutdown,
}

/// The checkpoint with the identifier, as a mathematical value, if the records hold it.
pub open spec fn found_checkpoint(records: Seq<JournalRecord>, id: u128) -> Option<CheckpointView> {
    if has_id(records, id) {
        Some(records[choose|i: int| 0 <= i < records.len() && (#[trigger] records[i]).checkpoint.id == id].checkpoint@)
    } else {
        None
    }
}

/// The mathematical value of an optional checkpoint.
pub open spec fn opt_checkpoint_view(c: Option<Checkpoint>) -> Option<CheckpointView> {
    match c {
        Some(c) => Some(c@),
        None => None,
    }
}

/// The answer to a request that reads the journal, over mathematical
/// values: the batched shapes answer for all that they were asked in one
/// response.
pub open spec fn is_answer(
    request: Request,
    status: Status,
    journal: JournalView,
    pins: Seq<Pin>,
    approx_store_bytes: u64,
    handled: Handled,
) -> bool {
    match request {
        Request::GetStatus => handled == Handled::Reply(Response::Status(status)),
        Request::GetStatusFull => match handled {
            Handled::Reply(Response::StatusFull { status: s, latest, total_count }) => s == status
                && total_count == journal.records.len() && opt_checkpoint_view(latest) == (if journal.records.len()
                == 0 {
                None
            } else {
                Some(journal.records.last().checkpoint@)
            }),
            _ => false,
        },
        Request::ResolveRefs(references) => match handled {
            Handled::Reply(Response::Refs(out)) => out@.len() == references@.len() && forall|i: int|
                0 <= i < out@.len() ==> out@[i] == (match one_resolution(
                    #[trigger] references@[i],
                    ids_of(journal.records),
                    pins,
                ) {
                    Ok(id) => Some(id),
                    Err(_) => None,
                }) && !(one_resolution(references@[i], ids_of(journal.records), pins) is Err && one_resolution(
                    references@[i],
                    ids_of(journal.records),
                    pins,
                )->Err_0 is Ambiguous),
            Handled::Reply(Response::Failed(tag)) => tag == ErrorTag::Ambiguous && exists|i: int|
                0 <= i < references@.len() && one_resolution(
                    #[trigger] references@[i],
                    ids_of(journal.records),
                    pins,
                ) is Err && one_resolution(references@[i], ids_of(journal.records), pins)->Err_0 is Ambiguous,
            _ => false,
        },
        Request::GetCheckpointBatch(ids) => match handled {
            Handled::Reply(Response::Checkpoints(out)) => out@.len() == ids@.len() && forall|i: int|
                0 <= i < out@.len() ==> opt_checkpoint_view(#[trigger] out@[i]) == found_checkpoint(
                    journal.records,
                    ids@[i],
                ),
            _ => false,
        },
        Request::GetInfo => match handled {
            Handled::Reply(Response::Info { count, ordered_ids, approx_store_bytes: bytes }) => count
                == journal.records.len() && ordered_ids@ == ids_of(journal.records) && bytes
                == approx_store_bytes,
            _ => false,
        },
        Request::Flush => handled == Handled::Flush,
        Request::Shutdown => handled == Handled::Shutdown,
    }
}

/// The identifiers of the records, in journal order.
pub open spec fn ids_of(records: Seq<JournalRecord>) -> Seq<u128> {
    Seq::new(records.len(), |i: int| records[i].checkpoint.id)
}

/// The daemon's side of the protocol.
pub struct IpcServer {
    pub status: Status,
}

impl IpcServer {
    /// A server for the daemon with the given process id and start time.
    pub fn start(pid: u32, start_time_ms: u64) -> (s: Self)
        ensures
            s.status == (Status {
                pid,
                start_time_ms,
                checkpoints_created: 0,
                last_checkpoint_time: None,
                watcher_paths: 0,
            }),
    {
        IpcServer {
            status: Status {
                pid,
                start_time_ms,
                checkpoints_created: 0,
                last_checkpoint_time: None,
                watcher_paths: 0,
            },
        }
    }

    /// Handles one request against the journal and the pins.
    pub fn handle_message(
        &self,
        request: &Request,
        journal: &Journal,
        pins: &Vec<Pin>,
        approx_store_bytes: u64,
    ) -> (handled: Handled)
        requires
            journal.wf(),
        ensures
            is_answer(*request, self.status, journal@, pins@, approx_store_bytes, handled),
    {
        match request {
            Request::GetStatus => Handled::Reply(Response::Status(self.status)),
            Request::GetStatusFull => {
                let latest = match journal.latest() {
                    Some(c) => Some(c.duplicate()),
                    None => None,
                };
                Handled::Reply(
                    Response::StatusFull { status: self.status, latest, total_count: journal.count() as u64 },
                )
            },
            Request::ResolveRefs(references) => {
                let ids = journal.all_checkpoint_ids();
                assert(ids@ =~= ids_of(journal@.records));
                match resolve_refs(references, &ids, pins) {
                    Ok(out) => Handled::Reply(Response::Refs(out)),
                    Err(_) => Handled::Reply(Response::Failed(ErrorTag::Ambiguous)),
                }
            },
            Request::GetCheckpointBatch(ids) => {
                let mut out: Vec<Option<Checkpoint>> = Vec::with_capacity(ids.len());
                let mut i: usize = 0;
                while i < ids.len()
                    invariant
                        journal.wf(),
                        i <= ids@.len(),
                        out@.len() == i,
                        forall|k: int|
                            0 <= k < i ==> opt_checkpoint_view(#[trigger] out@[k]) == found_checkpoint(
                                journal@.records,
                                ids@[k],
                            ),
                    decreases ids@.len() - i,
                {
                    let found = match journal.get(ids[i]) {
                        Some(c) => {
                            proof {
                                let records = journal@.records;
                                let id = ids@[i as int];
                                let at = choose|at: int|
                                    0 <= at < records.len() && (#[trigger] records[at]).checkpoint == *c;
                                let chosen = choose|x: int|
                                    0 <= x < records.len() && (#[trigger] records[x]).checkpoint.id == id;
                                assert(records[at].checkpoint.id == id);
                                if chosen < at {
                                    assert(records[chosen].checkpoint.id != records[at].checkpoint.id);
                                }
                                if at < chosen {
                                    assert(records[at].checkpoint.id != records[chosen].checkpoint.id);
                                }
                            }
                            Some(c.duplicate())
                        },
                        None => None,
                    };
                    out.push(found);
                    i = i + 1;
                }
                Handled::Reply(Response::Checkpoints(out))
            },
            Request::GetInfo => {
                let ordered_ids = journal.all_checkpoint_ids();
                assert(ordered_ids@ =~= ids_of(journal@.records));
                Handled::Reply(
                    Response::Info { count: journal.count() as u64, ordered_ids, approx_store_bytes },
                )
            },
            Request::Flush => Handled::Flush,
            Request::Shutdown => Handled::Shutdown,
        }
    }
}

/// The full text of an identifier that the journal holds resolves to that
/// identifier, whatever the pins are.
pub proof fn lemma_full_text_resolves(reference: Seq<char>, id: u128, ids: Seq<u128>, pins: Seq<Pin>)
    requires
        text_bytes(reference) == ulid_text(id),
        ids.contains(id),
    ensures
        resolution(ulid_parse(reference), text_bytes(reference), ids, id_texts(ids), pins) == Ok::<
            u128,
            ResolveError,
        >(id),
{
    crate::checkpoint::lemma_text_round_trip(id);
}

} // verus!
