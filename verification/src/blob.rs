//! Blobs: file contents framed by a 21-byte header, stored raw or compressed.

use vstd::prelude::*;
use vstd::bytes::{
    lemma_auto_spec_u64_to_from_le_bytes, spec_u64_from_le_bytes, spec_u64_to_le_bytes,
    u64_from_le_bytes, u64_to_le_bytes,
};
use vstd::slice::{slice_subrange, slice_to_vec};
use crate::hash::{blake3_digest, hash_bytes, Blake3Hash};

verus! {

/// Length of the blob header in bytes.
pub const HEADER_LEN: usize = 21;

/// Payloads of at least this many bytes are stored compressed.
pub const COMPRESS_THRESHOLD: usize = 4096;

/// Flag bit of a compressed payload.
pub const FLAG_COMPRESSED: u8 = 1;

/// Compression level handed to the compressor.
pub const COMPRESSION_LEVEL: i32 = 3;

/// Why bytes are not a stored blob, or why one could not be made.
#[derive(Clone, Copy, Debug, PartialEq, Eq)]
pub enum BlobError {
    /// Fewer than 21 bytes.
    Truncated,
    /// The first four bytes are not the magic number.
    BadMagic,
    /// The payload does not have the length that the header gives.
    LengthMismatch,
    /// The payload did not decompress to the original length.
    Corrupted,
    /// The compressor gave no output.
    CompressionFailed,
    /// The contents do not have the hash under which they are stored.
    HashMismatch,
}

/// The magic number, `SNB1`.
pub open spec fn blob_magic() -> Seq<u8> {
    seq![0x53u8, 0x4eu8, 0x42u8, 0x31u8]
}

/// Header of a stored blob.
#[derive(Debug, Clone, Copy, PartialEq, Eq)]
pub struct BlobHeaderV1 {
    /// Magic bytes: "SNB1"
    pub magic: [u8; 4],
    /// Flags: bit 0 = compressed
    pub flags: u8,
    /// Length of the contents
    pub orig_len: u64,
    /// Length of the payload as stored
    pub stored_len: u64,
}

/// A header as a mathematical value.
pub struct HeaderView {
    pub magic: Seq<u8>,
    pub flags: u8,
    pub orig_len: u64,
    pub stored_len: u64,
}

impl View for BlobHeaderV1 {
    type V = HeaderView;

    open spec fn view(&self) -> HeaderView {
        HeaderView {
            magic: self.magic@,
            flags: self.flags,
            orig_len: self.orig_len,
            stored_len: self.stored_len,
        }
    }
}

/// Whether bit 0 of the flags is set.
pub open spec fn flag_compressed(flags: u8) -> bool {
    flags % 2 == 1
}

/// The 21 bytes of a header.
pub open spec fn header_bytes(h: HeaderView) -> Seq<u8> {
    h.magic + seq![h.flags] + spec_u64_to_le_bytes(h.orig_len) + spec_u64_to_le_bytes(h.stored_len)
}

/// The header that bytes start with.
pub open spec fn parse_header(bytes: Seq<u8>) -> Result<HeaderView, BlobError> {
    if bytes.len() < 21 {
        Err(BlobError::Truncated)
    } else if bytes.subrange(0, 4) != blob_magic() {
        Err(BlobError::BadMagic)
    } else {
        Ok(
            HeaderView {
                magic: bytes.subrange(0, 4),
                flags: bytes[4],
                orig_len: spec_u64_from_le_bytes(bytes.subrange(5, 13)),
                stored_len: spec_u64_from_le_bytes(bytes.subrange(13, 21)),
            },
        )
    }
}

/// The compressed form of `data` at the given level.
pub uninterp spec fn zstd_frame(data: Seq<u8>, level: int) -> Seq<u8>;

/// What a compressed frame holds; `None` for bytes that are no frame.
pub uninterp spec fn zstd_content(frame: Seq<u8>) -> Option<Seq<u8>>;

/// `zstd::bulk::compress`: the compressed form of the data, which is a
/// function of the data and the level; `None` where the compressor reports
/// an error. Compression is lossless: the frame holds the data.
#[verifier::external_body]
fn zstd_compress(data: &[u8], level: i32) -> (r: Option<Vec<u8>>)
    ensures
        r is Some ==> r.unwrap()@ == zstd_frame(data@, level as int),
        r is Some ==> zstd_content(r.unwrap()@) == Some(data@),
{
    zstd::bulk::compress(data, level).ok()
}

/// `zstd::bulk::decompress`: the contents of a frame, decompressed into a
/// buffer made for `capacity` bytes. What comes back is what the frame
/// holds; bytes that are no frame give `None`; contents that fit into
/// `capacity` bytes always come back. Contents that are longer come back
/// only where the buffer happens to have more room than was asked for.
#[verifier::external_body]
fn zstd_decompress(frame: &[u8], capacity: usize) -> (r: Option<Vec<u8>>)
    requires
        capacity <= isize::MAX,
    ensures
        r is Some ==> zstd_content(frame@) == Some(r.unwrap()@),
        zstd_content(frame@) is None ==> r is None,
        zstd_content(frame@) is Some && zstd_content(frame@).unwrap().len() <= capacity ==> r is Some,
{
    zstd::bulk::decompress(frame, capacity).ok()
}

/// The payload as stored: the contents, raw or compressed.
pub open spec fn stored_payload(data: Seq<u8>, compressed: bool) -> Seq<u8> {
    if compressed {
        zstd_frame(data, COMPRESSION_LEVEL as int)
    } else {
        data
    }
}

/// A stored blob: the header, then the payload.
pub open spec fn framed(orig_len: u64, payload: Seq<u8>, compressed: bool) -> Seq<u8> {
    header_bytes(
        HeaderView {
            magic: blob_magic(),
            flags: if compressed {
                FLAG_COMPRESSED
            } else {
                0
            },
            orig_len,
            stored_len: payload.len() as u64,
        },
    ) + payload
}

/// The contents behind a header and its payload, given what decompressing
/// the payload gives. A raw payload is the contents; a compressed one must
/// decompress to the original length.
pub open spec fn decode_outcome(h: HeaderView, payload: Seq<u8>, unpacked: Option<Seq<u8>>) -> Result<
    Seq<u8>,
    BlobError,
> {
    if payload.len() != h.stored_len {
        Err(BlobError::LengthMismatch)
    } else if !flag_compressed(h.flags) {
        if h.orig_len == h.stored_len {
            Ok(payload)
        } else {
            Err(BlobError::LengthMismatch)
        }
    } else if unpacked is Some && unpacked.unwrap().len() == h.orig_len {
        Ok(unpacked.unwrap())
    } else {
        Err(BlobError::Corrupted)
    }
}

/// The contents of a stored blob, or why it has none.
pub open spec fn blob_content(bytes: Seq<u8>) -> Result<Seq<u8>, BlobError> {
    match parse_header(bytes) {
        Err(e) => Err(e),
        Ok(h) => {
            let payload = bytes.subrange(21, bytes.len() as int);
            decode_outcome(h, payload, zstd_content(payload))
        },
    }
}

/// The mathematical value of an optional byte vector.
pub open spec fn opt_view(v: Option<Vec<u8>>) -> Option<Seq<u8>> {
    match v {
        Some(b) => Some(b@),
        None => None,
    }
}

impl BlobHeaderV1 {
    /// A header for contents of `orig_len` bytes stored in `stored_len` bytes.
    pub fn new(orig_len: u64, stored_len: u64, compressed: bool) -> (h: Self)
        ensures
            h@ == (HeaderView {
                magic: blob_magic(),
                flags: if compressed {
                    FLAG_COMPRESSED
                } else {
                    0
                },
                orig_len,
                stored_len,
            }),
    {
        let flags = if compressed {
            FLAG_COMPRESSED
        } else {
            0
        };
        let magic = [0x53u8, 0x4eu8, 0x42u8, 0x31u8];
        assert(magic@ =~= blob_magic());
        BlobHeaderV1 { magic, flags, orig_len, stored_len }
    }

    /// Whether the payload is compressed.
    pub fn is_compressed(&self) -> (r: bool)
        ensures
            r == flag_compressed(self.flags),
    {
        self.flags % 2 == 1
    }

    /// The 21 bytes of the header: magic, flags, original and stored length
    /// in little-endian order.
    pub fn to_bytes(&self) -> (out: Vec<u8>)
        ensures
            out@ == header_bytes(self@),
            out@.len() == 21,
    {
        let mut out: Vec<u8> = Vec::with_capacity(21);
        out.push(self.magic[0]);
        out.push(self.magic[1]);
        out.push(self.magic[2]);
        out.push(self.magic[3]);
        assert(out@ =~= self.magic@);
        out.push(self.flags);
        let a = u64_to_le_bytes(self.orig_len);
        out.extend_from_slice(a.as_slice());
        let b = u64_to_le_bytes(self.stored_len);
        out.extend_from_slice(b.as_slice());
        assert(out@ =~= header_bytes(self@));
        out
    }

    /// Reads the header that the bytes start with.
    pub fn from_bytes(bytes: &[u8]) -> (r: Result<Self, BlobError>)
        ensures
            match r {
                Ok(h) => parse_header(bytes@) == Ok::<HeaderView, BlobError>(h@),
                Err(e) => parse_header(bytes@) == Err::<HeaderView, BlobError>(e),
            },
    {
        if bytes.len() < 21 {
            return Err(BlobError::Truncated);
        }
        if bytes[0] != 0x53u8 || bytes[1] != 0x4eu8 || bytes[2] != 0x42u8 || bytes[3] != 0x31u8 {
            assert(bytes@.subrange(0, 4)[0] == bytes@[0]);
            assert(bytes@.subrange(0, 4)[1] == bytes@[1]);
            assert(bytes@.subrange(0, 4)[2] == bytes@[2]);
            assert(bytes@.subrange(0, 4)[3] == bytes@[3]);
            return Err(BlobError::BadMagic);
        }
        let magic = [bytes[0], bytes[1], bytes[2], bytes[3]];
        assert(magic@ =~= bytes@.subrange(0, 4));
        assert(magic@ =~= blob_magic());
        let orig_len = u64_from_le_bytes(slice_subrange(bytes, 5, 13));
        let stored_len = u64_from_le_bytes(slice_subrange(bytes, 13, 21));
        Ok(BlobHeaderV1 { magic, flags: bytes[4], orig_len, stored_len })
    }
}

/// Reading the bytes of a header gives the header back, whatever follows them.
pub proof fn lemma_header_round_trip(h: HeaderView, rest: Seq<u8>)
    requires
        h.magic == blob_magic(),
    ensures
        header_bytes(h).len() == 21,
        parse_header(header_bytes(h) + rest) == Ok::<HeaderView, BlobError>(h),
        (header_bytes(h) + rest).subrange(21, (header_bytes(h) + rest).len() as int) == rest,
{
    lemma_auto_spec_u64_to_from_le_bytes();
    let hb = header_bytes(h);
    let all = hb + rest;
    assert(hb.len() == 21);
    assert(all.subrange(0, 4) =~= h.magic);
    assert(all[4] == h.flags);
    assert(all.subrange(5, 13) =~= spec_u64_to_le_bytes(h.orig_len));
    assert(all.subrange(13, 21) =~= spec_u64_to_le_bytes(h.stored_len));
    assert(all.subrange(21, all.len() as int) =~= rest);
}

/// A blob stored raw reads back as its contents, and its header gives their length.
pub proof fn lemma_raw_blob_round_trip(data: Seq<u8>)
    requires
        data.len() <= u64::MAX,
    ensures
        blob_content(framed(data.len() as u64, data, false)) == Ok::<Seq<u8>, BlobError>(data),
        parse_header(framed(data.len() as u64, data, false)) is Ok,
        parse_header(framed(data.len() as u64, data, false)).unwrap().orig_len == data.len(),
        !flag_compressed(parse_header(framed(data.len() as u64, data, false)).unwrap().flags),
{
    let h = HeaderView {
        magic: blob_magic(),
        flags: 0,
        orig_len: data.len() as u64,
        stored_len: data.len() as u64,
    };
    lemma_header_round_trip(h, data);
}

/// What is known of a stored file's contents.
#[derive(Debug, Clone, Copy, PartialEq, Eq)]
pub struct Blob {
    /// Hash of the contents
    pub hash: Blake3Hash,
    /// Length of the contents
    pub size: u64,
    /// Whether the payload is stored compressed
    pub compressed: bool,
}

impl Blob {
    /// The stored form of a payload: the header for it, then the payload.
    pub fn frame(orig_len: u64, payload: &[u8], compressed: bool) -> (out: Vec<u8>)
        ensures
            out@ == framed(orig_len, payload@, compressed),
            payload@.len() <= u64::MAX,
    {
        let header = BlobHeaderV1::new(orig_len, payload.len() as u64, compressed);
        let mut out = header.to_bytes();
        out.extend_from_slice(payload);
        assert(out@ =~= framed(orig_len, payload@, compressed));
        out
    }

    /// Hashes the contents and frames them for storage. Contents of 4 KiB or
    /// more are compressed, shorter ones are stored raw and always framed.
    /// The bytes returned read back as the contents.
    pub fn from_bytes(data: &[u8]) -> (r: Result<(Blob, Vec<u8>), BlobError>)
        ensures
            data@.len() < COMPRESS_THRESHOLD ==> r is Ok,
            match r {
                Ok((blob, bytes)) => {
                    &&& blob.hash@ == blake3_digest(data@)
                    &&& blob.size == data@.len()
                    &&& blob.compressed == (data@.len() >= COMPRESS_THRESHOLD)
                    &&& bytes@ == framed(blob.size, stored_payload(data@, blob.compressed), blob.compressed)
                    &&& stored_payload(data@, blob.compressed).len() <= u64::MAX
                    &&& blob_content(bytes@) == Ok::<Seq<u8>, BlobError>(data@)
                    &&& parse_header(bytes@) is Ok
                    &&& parse_header(bytes@).unwrap().orig_len == data@.len()
                },
                Err(e) => e == BlobError::CompressionFailed,
            },
    {
        let blob = Blob {
            hash: hash_bytes(data),
            size: data.len() as u64,
            compressed: data.len() >= COMPRESS_THRESHOLD,
        };
        match blob.to_bytes(data) {
            Ok(bytes) => Ok((blob, bytes)),
            Err(e) => Err(e),
        }
    }

    /// Frames the contents of this blob for storage, compressed if the blob
    /// says so. The bytes returned read back as the contents.
    pub fn to_bytes(&self, data: &[u8]) -> (r: Result<Vec<u8>, BlobError>)
        ensures
            !self.compressed ==> r is Ok,
            match r {
                Ok(bytes) => {
                    &&& bytes@ == framed(
                        data@.len() as u64,
                        stored_payload(data@, self.compressed),
                        self.compressed,
                    )
                    &&& stored_payload(data@, self.compressed).len() <= u64::MAX
                    &&& blob_content(bytes@) == Ok::<Seq<u8>, BlobError>(data@)
                    &&& parse_header(bytes@) is Ok
                    &&& parse_header(bytes@).unwrap().orig_len == data@.len()
                },
                Err(e) => e == BlobError::CompressionFailed,
            },
    {
        let orig_len = data.len() as u64;
        if self.compressed {
            match zstd_compress(data, COMPRESSION_LEVEL) {
                None => Err(BlobError::CompressionFailed),
                Some(packed) => {
                    let out = Blob::frame(orig_len, packed.as_slice(), true);
                    proof {
                        lemma_header_round_trip(
                            HeaderView {
                                magic: blob_magic(),
                                flags: FLAG_COMPRESSED,
                                orig_len,
                                stored_len: packed@.len() as u64,
                            },
                            packed@,
                        );
                    }
                    Ok(out)
                },
            }
        } else {
            let out = Blob::frame(orig_len, data, false);
            proof {
                lemma_raw_blob_round_trip(data@);
            }
            Ok(out)
        }
    }

    /// The contents of a stored blob, given what decompressing its payload
    /// gave (`None` for a raw payload, or where decompressing failed).
    pub fn finish_decode(header: &BlobHeaderV1, payload: &[u8], unpacked: Option<Vec<u8>>) -> (r: Result<
        Vec<u8>,
        BlobError,
    >)
        ensures
            match r {
                Ok(data) => decode_outcome(header@, payload@, opt_view(unpacked)) == Ok::<
                    Seq<u8>,
                    BlobError,
                >(data@),
                Err(e) => decode_outcome(header@, payload@, opt_view(unpacked)) == Err::<
                    Seq<u8>,
                    BlobError,
                >(e),
            },
    {
        if payload.len() as u64 != header.stored_len {
            return Err(BlobError::LengthMismatch);
        }
        if !header.is_compressed() {
            if header.orig_len == header.stored_len {
                return Ok(slice_to_vec(payload));
            }
            return Err(BlobError::LengthMismatch);
        }
        match unpacked {
            Some(data) => {
                if data.len() as u64 == header.orig_len {
                    Ok(data)
                } else {
                    Err(BlobError::Corrupted)
                }
            },
            None => Err(BlobError::Corrupted),
        }
    }

    /// The contents of a stored blob, exactly as `blob_content` has them:
    /// bytes that are no stored blob are refused with the fault named there.
    /// The one exception is a compressed blob whose header gives an original
    /// length that no buffer of this machine can have: it is `Corrupted`.
    pub fn decode(bytes: &[u8]) -> (r: Result<Vec<u8>, BlobError>)
        ensures
            match r {
                Ok(data) => blob_content(bytes@) == Ok::<Seq<u8>, BlobError>(data@),
                Err(e) => blob_content(bytes@) == Err::<Seq<u8>, BlobError>(e) || (e
                    == BlobError::Corrupted && blob_content(bytes@) is Ok && parse_header(bytes@) is Ok
                    && flag_compressed(parse_header(bytes@).unwrap().flags) && parse_header(
                    bytes@,
                ).unwrap().orig_len > isize::MAX),
            },
    {
        let header = match BlobHeaderV1::from_bytes(bytes) {
            Err(e) => {
                return Err(e);
            },
            Ok(h) => h,
        };
        let payload = slice_subrange(bytes, 21, bytes.len());
        let unpacked = if header.is_compressed() && header.orig_len <= isize::MAX as u64 {
            zstd_decompress(payload, header.orig_len as usize)
        } else {
            None
        };
        Blob::finish_decode(&header, payload, unpacked)
    }
}

/// Number of bytes at the front of a file that decide whether it is binary.
pub const BINARY_PROBE_LEN: usize = 8192;

/// Some byte among the first 8192 is zero.
pub open spec fn has_early_zero(content: Seq<u8>) -> bool {
    exists|i: int| 0 <= i < content.len() && i < BINARY_PROBE_LEN && #[trigger] content[i] == 0
}

/// Whether contents count as binary: a zero byte stands among the first 8192.
pub fn is_binary(content: &[u8]) -> (r: bool)
    ensures
        r == has_early_zero(content@),
{
    let mut i: usize = 0;
    while i < content.len() && i < BINARY_PROBE_LEN
        invariant
            i <= content@.len(),
            i <= BINARY_PROBE_LEN,
            forall|k: int| 0 <= k < i ==> content@[k] != 0,
        decreases content@.len() - i,
    {
        if content[i] == 0 {
            return true;
        }
        i = i + 1;
    }
    false
}

/// The sizes taken together.
pub open spec fn sum_of(sizes: Seq<u64>) -> nat
    decreases sizes.len(),
{
    if sizes.len() == 0 {
        0
    } else {
        sum_of(sizes.drop_last()) + sizes.last() as nat
    }
}

/// A count of bytes as 64 bits hold it: the count, or the largest value
/// where the count is greater.
pub open spec fn capped(n: nat) -> u64 {
    if n > u64::MAX {
        u64::MAX
    } else {
        n as u64
    }
}

/// The bytes that contents of these sizes take together, held at the
/// largest 64-bit value where they take more.
pub fn total_size(sizes: &[u64]) -> (total: u64)
    ensures
        total == capped(sum_of(sizes@)),
{
    let n = sizes.len();
    let mut total: u64 = 0;
    let mut i: usize = 0;
    assert(sizes@.subrange(0, 0) =~= Seq::<u64>::empty());
    while i < n
        invariant
            n == sizes@.len(),
            i <= n,
            total == capped(sum_of(sizes@.subrange(0, i as int))),
        decreases n - i,
    {
        proof {
            let upto = sizes@.subrange(0, i + 1);
            assert(upto.drop_last() =~= sizes@.subrange(0, i as int));
            assert(upto.last() == sizes@[i as int]);
        }
        if total > u64::MAX - sizes[i] {
            total = u64::MAX;
        } else {
            total = total + sizes[i];
        }
        i = i + 1;
    }
    assert(sizes@.subrange(0, n as int) =~= sizes@);
    total
}

} // verus!
