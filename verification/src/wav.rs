//! Minimal WAV (RIFF/WAVE) reading and writing.
//!
//! This module decides everything about the two ends of the pipeline except
//! the reading and writing itself:
//!
//! * [`HeaderParser`] walks the chunks of a file.  It says how many bytes it
//!   wants next, is handed those bytes, and ends with the size of the `data`
//!   chunk or with the reason why the file is rejected.
//! * [`WavReader`] turns the bytes of the `data` chunk into samples.
//! * [`WavWriter`] turns samples into bytes and knows the header.
//!
//! Only 16-bit signed PCM, one channel, 44100 Hz is accepted.  Anything else
//! is rejected with a descriptive error instead of being converted, resampled
//! or guessed at.

use crate::text::decimal;
use vstd::prelude::*;

verus! {

/// The one and only sample rate this program accepts.
pub const REQUIRED_SAMPLE_RATE: u32 = 44_100;

/// The one and only channel count this program accepts.
pub const REQUIRED_CHANNELS: u16 = 1;

/// The one and only sample format this program accepts.
pub const REQUIRED_BITS_PER_SAMPLE: u16 = 16;

/// `WAVE_FORMAT_PCM`, the only format tag we accept.
pub const FORMAT_TAG_PCM: u16 = 1;

/// Size of the fixed header the writer emits: 12 bytes of RIFF/WAVE, a
/// 24-byte `fmt ` chunk and an 8-byte `data` chunk header.
pub const HEADER_LEN: u64 = 44;

/// Largest number of bytes asked for at once while a chunk is skipped.
pub const SKIP_CHUNK: u64 = 512;

// ---------------------------------------------------------------------------
// Little endian numbers
// ---------------------------------------------------------------------------

/// The unsigned 16-bit number at position `at`.
pub open spec fn le16(bytes: Seq<u8>, at: int) -> int {
    bytes[at] + 256 * bytes[at + 1]
}

/// The unsigned 32-bit number at position `at`.
pub open spec fn le32(bytes: Seq<u8>, at: int) -> int {
    bytes[at] + 256 * bytes[at + 1] + 65536 * bytes[at + 2] + 16777216 * bytes[at + 3]
}

/// The signed 16-bit number at position `at`, in two's complement.
pub open spec fn le_i16(bytes: Seq<u8>, at: int) -> int {
    if le16(bytes, at) < 32768 {
        le16(bytes, at)
    } else {
        le16(bytes, at) - 65536
    }
}

/// The two bytes of an unsigned number below 65536.
pub open spec fn bytes16(value: int) -> Seq<u8> {
    seq![(value % 256) as u8, (value / 256 % 256) as u8]
}

/// The four bytes of an unsigned number below 4294967296.
pub open spec fn bytes32(value: int) -> Seq<u8> {
    seq![
        (value % 256) as u8,
        (value / 256 % 256) as u8,
        (value / 65536 % 256) as u8,
        (value / 16777216 % 256) as u8,
    ]
}

/// The two bytes of a signed number.
pub open spec fn bytes_i16(value: int) -> Seq<u8> {
    if value < 0 {
        bytes16(value + 65536)
    } else {
        bytes16(value)
    }
}

/// Decodes the unsigned 16-bit number at position `at`.
pub fn read_u16(bytes: &[u8], at: usize) -> (value: u16)
    requires
        at + 2 <= bytes@.len(),
    ensures
        value == le16(bytes@, at as int),
{
    bytes[at] as u16 + 256 * bytes[at + 1] as u16
}

/// Decodes the unsigned 32-bit number at position `at`.
pub fn read_u32(bytes: &[u8], at: usize) -> (value: u32)
    requires
        at + 4 <= bytes@.len(),
    ensures
        value == le32(bytes@, at as int),
{
    bytes[at] as u32 + 256 * bytes[at + 1] as u32 + 65536 * bytes[at + 2] as u32 + 16777216
        * bytes[at + 3] as u32
}

/// Appends the two bytes of `value`.
fn write_u16(out: &mut Vec<u8>, value: u16)
    ensures
        final(out)@ == old(out)@ + bytes16(value as int),
{
    out.push((value % 256) as u8);
    out.push((value / 256) as u8);
    assert(out@ =~= old(out)@ + bytes16(value as int));
}

/// Appends the four bytes of `value`.
fn write_u32(out: &mut Vec<u8>, value: u32)
    ensures
        final(out)@ == old(out)@ + bytes32(value as int),
{
    out.push((value % 256) as u8);
    out.push((value / 256 % 256) as u8);
    out.push((value / 65536 % 256) as u8);
    out.push((value / 16777216) as u8);
    assert(out@ =~= old(out)@ + bytes32(value as int));
}

// ---------------------------------------------------------------------------
// What a header says
// ---------------------------------------------------------------------------

/// The reasons for which a file is rejected.
#[derive(Clone, Copy, PartialEq, Eq, Structural, Debug)]
pub enum WavError {
    /// The file does not start with `RIFF`.
    NotRiff,
    /// The RIFF file does not contain `WAVE` data.
    NotWave,
    /// The file ends where a chunk should start, and no `data` chunk was seen.
    NoData,
    /// The file ends in the middle of the header or of a chunk.
    UnexpectedEnd,
    /// The `fmt ` chunk is too short to describe the format.
    FormatTooShort,
    /// The samples are not uncompressed PCM; carries the format tag.
    FormatTag(u16),
    /// The number of channels is not the required one.
    Channels(u16),
    /// The sample rate is not the required one.
    SampleRate(u32),
    /// The sample size is not the required one.
    BitsPerSample(u16),
    /// The `data` chunk comes before any `fmt ` chunk.
    DataBeforeFormat,
}

/// The fields of a `fmt ` chunk that matter.
#[derive(Clone, Copy, PartialEq, Eq, Structural, Debug)]
pub struct Format {
    pub tag: u16,
    pub channels: u16,
    pub sample_rate: u32,
    pub bits_per_sample: u16,
}

/// A `data` chunk that was found: its size in bytes, and how many bytes lie
/// before its first sample.
pub struct DataChunk {
    pub at: nat,
    pub size: u32,
}

/// The letters `RIFF`.
pub open spec fn riff_id() -> Seq<u8> {
    seq![0x52u8, 0x49u8, 0x46u8, 0x46u8]
}

/// The letters `WAVE`.
pub open spec fn wave_id() -> Seq<u8> {
    seq![0x57u8, 0x41u8, 0x56u8, 0x45u8]
}

/// The letters `fmt` and a blank.
pub open spec fn format_id() -> Seq<u8> {
    seq![0x66u8, 0x6du8, 0x74u8, 0x20u8]
}

/// The letters `data`.
pub open spec fn data_id() -> Seq<u8> {
    seq![0x64u8, 0x61u8, 0x74u8, 0x61u8]
}

/// The format that the body of a `fmt ` chunk describes.
pub open spec fn format_of(body: Seq<u8>) -> Format {
    Format {
        tag: le16(body, 0) as u16,
        channels: le16(body, 2) as u16,
        sample_rate: le32(body, 4) as u32,
        bits_per_sample: le16(body, 14) as u16,
    }
}

/// Why a format is rejected, if it is: the first of its fields that differs
/// from what is required.
pub open spec fn format_error(format: Format) -> Option<WavError> {
    if format.tag != FORMAT_TAG_PCM {
        Some(WavError::FormatTag(format.tag))
    } else if format.channels != REQUIRED_CHANNELS {
        Some(WavError::Channels(format.channels))
    } else if format.sample_rate != REQUIRED_SAMPLE_RATE {
        Some(WavError::SampleRate(format.sample_rate))
    } else if format.bits_per_sample != REQUIRED_BITS_PER_SAMPLE {
        Some(WavError::BitsPerSample(format.bits_per_sample))
    } else {
        None
    }
}

/// The same finding, seen from `count` bytes further ahead.
pub open spec fn past(count: int, found: Result<DataChunk, WavError>) -> Result<
    DataChunk,
    WavError,
> {
    match found {
        Ok(chunk) => Ok(DataChunk { at: (chunk.at + count) as nat, size: chunk.size }),
        Err(error) => Err(error),
    }
}

/// What follows a `fmt ` chunk that is complete and describes `format`.
pub open spec fn after_format(format: Format, rest: Seq<u8>) -> Result<DataChunk, WavError>
    decreases rest.len(), 2int,
{
    match format_error(format) {
        Some(error) => Err(error),
        None => find_data(rest, true),
    }
}

/// What a chunk named `id` leads to; `rest` starts with its size.
pub open spec fn after_id(id: Seq<u8>, rest: Seq<u8>, format_seen: bool) -> Result<
    DataChunk,
    WavError,
>
    decreases rest.len(), 1int,
{
    if rest.len() < 4 {
        Err(WavError::UnexpectedEnd)
    } else {
        let size = le32(rest, 0);
        let body = rest.skip(4);
        // The payload is followed by a pad byte when its size is odd.
        let padded = size + size % 2;
        if id == format_id() {
            if size < 16 {
                Err(WavError::FormatTooShort)
            } else if body.len() < padded {
                Err(WavError::UnexpectedEnd)
            } else {
                past(4 + padded, after_format(format_of(body), body.skip(padded)))
            }
        } else if id == data_id() {
            if format_seen {
                Ok(DataChunk { at: 4, size: size as u32 })
            } else {
                Err(WavError::DataBeforeFormat)
            }
        } else if body.len() < padded {
            Err(WavError::UnexpectedEnd)
        } else {
            past(4 + padded, find_data(body.skip(padded), format_seen))
        }
    }
}

/// Walks the chunks in `rest` until `data` is found.
pub open spec fn find_data(rest: Seq<u8>, format_seen: bool) -> Result<DataChunk, WavError>
    decreases rest.len(), 0int,
{
    if rest.len() < 4 {
        Err(WavError::NoData)
    } else {
        past(4, after_id(rest.take(4), rest.skip(4), format_seen))
    }
}

/// The form type that follows the `RIFF` letters, after the total size, which
/// is of no interest to a reader that streams.
pub open spec fn after_riff(rest: Seq<u8>) -> Result<DataChunk, WavError> {
    if rest.len() < 8 {
        Err(WavError::UnexpectedEnd)
    } else if rest.subrange(4, 8) != wave_id() {
        Err(WavError::NotWave)
    } else {
        past(8, find_data(rest.skip(8), false))
    }
}

/// What the header of a file says: where its samples are, or why it is
/// rejected.
pub open spec fn parse_header(bytes: Seq<u8>) -> Result<DataChunk, WavError> {
    if bytes.len() < 4 {
        Err(WavError::UnexpectedEnd)
    } else if bytes.take(4) != riff_id() {
        Err(WavError::NotRiff)
    } else {
        past(4, after_riff(bytes.skip(4)))
    }
}

// ---------------------------------------------------------------------------
// Parsing the header
// ---------------------------------------------------------------------------

/// Where in the header the parser is.
#[derive(Clone, Copy, PartialEq, Eq, Structural, Debug)]
pub enum HeaderParser {
    /// At the start of the file.
    Riff,
    /// After the `RIFF` letters.
    Wave,
    /// Where a chunk starts.
    ChunkId { format_seen: bool },
    /// Before the size of a chunk.
    ChunkSize { format_seen: bool, kind: ChunkKind },
    /// Before the fields of a `fmt ` chunk that has `rest` bytes after them,
    /// pad byte and all.
    FormatBody { rest: u64 },
    /// In the remainder of a `fmt ` chunk.
    FormatRest { format: Format, left: u64 },
    /// In the payload of a chunk that is skipped.
    OtherBody { format_seen: bool, left: u64 },
}

/// The chunks that are told apart.
#[derive(Clone, Copy, PartialEq, Eq, Structural, Debug)]
pub enum ChunkKind {
    Format,
    Data,
    Other,
}

/// What became of the bytes handed to a [`HeaderParser`].
#[derive(Clone, Copy, PartialEq, Eq, Structural, Debug)]
pub enum HeaderStep {
    /// The header goes on.
    More(HeaderParser),
    /// The samples follow; carries the size of the `data` chunk in bytes.
    Data(u32),
    /// The file is rejected.
    Rejected(WavError),
}

impl ChunkKind {
    /// True of the names that this kind stands for.
    pub open spec fn names(self, id: Seq<u8>) -> bool {
        match self {
            ChunkKind::Format => id == format_id(),
            ChunkKind::Data => id == data_id(),
            ChunkKind::Other => id != format_id() && id != data_id(),
        }
    }

    /// One name of this kind.
    pub open spec fn name(self) -> Seq<u8> {
        match self {
            ChunkKind::Format => format_id(),
            ChunkKind::Data => data_id(),
            ChunkKind::Other => seq![0u8, 0u8, 0u8, 0u8],
        }
    }
}

/// True if the four bytes at position `at` are `a`, `b`, `c` and `d`.
fn has_id(bytes: &[u8], at: usize, a: u8, b: u8, c: u8, d: u8) -> (same: bool)
    requires
        at + 4 <= bytes@.len(),
    ensures
        same == (bytes@.subrange(at as int, at + 4) =~= seq![a, b, c, d]),
{
    let same = bytes[at] == a && bytes[at + 1] == b && bytes[at + 2] == c && bytes[at + 3] == d;
    proof {
        let part = bytes@.subrange(at as int, at + 4);
        assert(part[0] == bytes@[at as int]);
        assert(part[1] == bytes@[at + 1]);
        assert(part[2] == bytes@[at + 2]);
        assert(part[3] == bytes@[at + 3]);
    }
    same
}

/// Tells what kind of chunk the four bytes of `id` announce.
fn chunk_kind(id: &[u8]) -> (kind: ChunkKind)
    requires
        id@.len() == 4,
    ensures
        kind.names(id@),
{
    assert(id@.subrange(0, 4) =~= id@);
    if has_id(id, 0, 0x66, 0x6d, 0x74, 0x20) {
        ChunkKind::Format
    } else if has_id(id, 0, 0x64, 0x61, 0x74, 0x61) {
        ChunkKind::Data
    } else {
        ChunkKind::Other
    }
}

/// Number of bytes to discard next when `left` bytes are still to be skipped.
pub fn skip(left: u64) -> (count: usize)
    ensures
        count == if left < SKIP_CHUNK {
            left as int
        } else {
            SKIP_CHUNK as int
        },
{
    if left < SKIP_CHUNK {
        left as usize
    } else {
        SKIP_CHUNK as usize
    }
}

/// Checks a format against what is required.
pub fn check_format(format: Format) -> (checked: Result<(), WavError>)
    ensures
        match format_error(format) {
            Some(error) => checked == Err::<(), WavError>(error),
            None => checked is Ok,
        },
        checked is Ok <==> format.tag == 1 && format.channels == 1 && format.sample_rate == 44100
            && format.bits_per_sample == 16,
{
    if format.tag != FORMAT_TAG_PCM {
        return Err(WavError::FormatTag(format.tag));
    }
    if format.channels != REQUIRED_CHANNELS {
        return Err(WavError::Channels(format.channels));
    }
    if format.sample_rate != REQUIRED_SAMPLE_RATE {
        return Err(WavError::SampleRate(format.sample_rate));
    }
    if format.bits_per_sample != REQUIRED_BITS_PER_SAMPLE {
        return Err(WavError::BitsPerSample(format.bits_per_sample));
    }
    Ok(())
}

impl HeaderParser {
    /// Nothing is skipped once it has been skipped.
    pub open spec fn wf(self) -> bool {
        match self {
            HeaderParser::FormatRest { format, left } => left > 0,
            HeaderParser::OtherBody { format_seen, left } => left > 0,
            _ => true,
        }
    }

    /// What the file says if `rest` is all that is still to come.
    #[verifier::opaque]
    pub open spec fn outcome(self, rest: Seq<u8>) -> Result<DataChunk, WavError> {
        match self {
            HeaderParser::Riff => parse_header(rest),
            HeaderParser::Wave => after_riff(rest),
            HeaderParser::ChunkId { format_seen } => find_data(rest, format_seen),
            HeaderParser::ChunkSize { format_seen, kind } => after_id(
                kind.name(),
                rest,
                format_seen,
            ),
            HeaderParser::FormatBody { rest: extra } => if rest.len() < 16 + extra {
                Err(WavError::UnexpectedEnd)
            } else {
                past(16 + extra, after_format(format_of(rest), rest.skip(16 + extra)))
            },
            HeaderParser::FormatRest { format, left } => if rest.len() < left {
                Err(WavError::UnexpectedEnd)
            } else {
                past(left as int, after_format(format, rest.skip(left as int)))
            },
            HeaderParser::OtherBody { format_seen, left } => if rest.len() < left {
                Err(WavError::UnexpectedEnd)
            } else {
                past(left as int, find_data(rest.skip(left as int), format_seen))
            },
        }
    }

    /// Number of bytes that [`HeaderParser::accept`] takes next.
    pub open spec fn wants(self) -> int {
        match self {
            HeaderParser::Riff => 4,
            HeaderParser::Wave => 8,
            HeaderParser::ChunkId { .. } => 4,
            HeaderParser::ChunkSize { .. } => 4,
            HeaderParser::FormatBody { .. } => 16,
            HeaderParser::FormatRest { format, left } => if left < SKIP_CHUNK {
                left as int
            } else {
                SKIP_CHUNK as int
            },
            HeaderParser::OtherBody { format_seen, left } => if left < SKIP_CHUNK {
                left as int
            } else {
                SKIP_CHUNK as int
            },
        }
    }

    /// What the header goes on with after `bytes`, whatever comes after them:
    /// the outcome of the rest is the outcome of the whole, seen from further
    /// ahead.
    pub open spec fn leads_to(self, bytes: Seq<u8>, step: HeaderStep) -> bool {
        match step {
            HeaderStep::More(next) => {
                &&& next.wf()
                &&& forall|rest: Seq<u8>| #[trigger]
                    self.outcome(bytes + rest) == past(bytes.len() as int, next.outcome(rest))
            },
            HeaderStep::Data(size) => forall|rest: Seq<u8>| #[trigger]
                self.outcome(bytes + rest) == Ok::<DataChunk, WavError>(
                    (DataChunk { at: bytes.len(), size }),
                ),
            HeaderStep::Rejected(error) => forall|rest: Seq<u8>| #[trigger]
                self.outcome(bytes + rest) == Err::<DataChunk, WavError>(error),
        }
    }

    /// Starts at the beginning of a file.
    pub fn new() -> (parser: HeaderParser)
        ensures
            parser == HeaderParser::Riff,
            parser.wf(),
    {
        HeaderParser::Riff
    }

    /// Number of bytes that [`HeaderParser::accept`] takes next.
    pub fn wanted(&self) -> (count: usize)
        ensures
            count == self.wants(),
            self.wf() ==> 0 < count <= SKIP_CHUNK,
    {
        match self {
            HeaderParser::Riff => 4,
            HeaderParser::Wave => 8,
            HeaderParser::ChunkId { .. } => 4,
            HeaderParser::ChunkSize { .. } => 4,
            HeaderParser::FormatBody { .. } => 16,
            HeaderParser::FormatRest { left, .. } => skip(*left),
            HeaderParser::OtherBody { left, .. } => skip(*left),
        }
    }

    /// The reason for the rejection of a file that ends before the wanted
    /// bytes are complete.
    pub fn end_of_file(&self) -> (error: WavError)
        requires
            self.wf(),
        ensures
            error == if *self is ChunkId {
                WavError::NoData
            } else {
                WavError::UnexpectedEnd
            },
            forall|rest: Seq<u8>|
                rest.len() < self.wants() ==> #[trigger] self.outcome(rest) == Err::<
                    DataChunk,
                    WavError,
                >(error),
    {
        proof {
            reveal(HeaderParser::outcome);
        }
        match self {
            HeaderParser::ChunkId { .. } => WavError::NoData,
            _ => WavError::UnexpectedEnd,
        }
    }
}

/// Only the kind of a chunk decides what it leads to.
proof fn lemma_kind_decides(kind: ChunkKind, id: Seq<u8>, rest: Seq<u8>, format_seen: bool)
    requires
        kind.names(id),
    ensures
        after_id(id, rest, format_seen) == after_id(kind.name(), rest, format_seen),
{
    let other = ChunkKind::Other.name();
    assert(other[0] == 0 && format_id()[0] == 0x66 && data_id()[0] == 0x64);
}

/// Reading `first` and then `rest` is reading one after the other.
proof fn lemma_split(first: Seq<u8>, rest: Seq<u8>)
    ensures
        (first + rest).take(first.len() as int) =~= first,
        (first + rest).skip(first.len() as int) =~= rest,
        forall|n: int|
            first.len() <= n <= first.len() + rest.len() ==> #[trigger] (first + rest).skip(n)
                =~= rest.skip(n - first.len()),
{
}

/// The size of a chunk decides what it leads to, together with its kind.
proof fn lemma_size_first(kind: ChunkKind, first: Seq<u8>, rest: Seq<u8>, format_seen: bool)
    requires
        first.len() == 4,
    ensures
        after_id(kind.name(), first + rest, format_seen) == {
            let size = le32(first, 0);
            let padded = size + size % 2;
            match kind {
                ChunkKind::Format => if size < 16 {
                    Err(WavError::FormatTooShort)
                } else if rest.len() < padded {
                    Err(WavError::UnexpectedEnd)
                } else {
                    past(4 + padded, after_format(format_of(rest), rest.skip(padded)))
                },
                ChunkKind::Data => if format_seen {
                    Ok((DataChunk { at: 4, size: size as u32 }))
                } else {
                    Err(WavError::DataBeforeFormat)
                },
                ChunkKind::Other => if rest.len() < padded {
                    Err(WavError::UnexpectedEnd)
                } else {
                    past(4 + padded, find_data(rest.skip(padded), format_seen))
                },
            }
        },
{
    let other = ChunkKind::Other.name();
    assert(other[0] == 0 && format_id()[0] == 0x66 && data_id()[0] == 0x64);
    lemma_split(first, rest);
    assert(le32(first + rest, 0) == le32(first, 0));
}

/// How the header goes on after the size of a chunk.
spec fn step_after_size(kind: ChunkKind, size: u32, format_seen: bool) -> HeaderStep {
    let padded = (size + size as int % 2) as u64;
    match kind {
        ChunkKind::Format => if size < 16 {
            HeaderStep::Rejected(WavError::FormatTooShort)
        } else {
            HeaderStep::More(HeaderParser::FormatBody { rest: (padded - 16) as u64 })
        },
        ChunkKind::Data => if format_seen {
            HeaderStep::Data(size)
        } else {
            HeaderStep::Rejected(WavError::DataBeforeFormat)
        },
        ChunkKind::Other => if padded == 0 {
            HeaderStep::More(HeaderParser::ChunkId { format_seen })
        } else {
            HeaderStep::More(HeaderParser::OtherBody { format_seen, left: padded })
        },
    }
}

/// A `fmt ` chunk goes on with its fields.
proof fn lemma_format_goes_on(rest: Seq<u8>, padded: int)
    requires
        16 <= padded <= u32::MAX + 1,
    ensures
        (HeaderParser::FormatBody { rest: (padded - 16) as u64 }).outcome(rest) == if rest.len()
            < padded {
            Err(WavError::UnexpectedEnd)
        } else {
            past(padded, after_format(format_of(rest), rest.skip(padded)))
        },
{
    reveal(HeaderParser::outcome);
}

/// A chunk that is skipped goes on with its payload, or with the next chunk.
proof fn lemma_other_goes_on(rest: Seq<u8>, padded: int, format_seen: bool)
    requires
        0 <= padded <= u32::MAX + 1,
    ensures
        (if padded == 0 {
            HeaderParser::ChunkId { format_seen }
        } else {
            HeaderParser::OtherBody { format_seen, left: padded as u64 }
        }).outcome(rest) == if rest.len() < padded {
            Err(WavError::UnexpectedEnd)
        } else {
            past(padded, find_data(rest.skip(padded), format_seen))
        },
{
    reveal(HeaderParser::outcome);
    assert(rest.skip(0) =~= rest);
    lemma_past_nothing(find_data(rest, format_seen));
}

proof fn lemma_step_after_size(
    kind: ChunkKind,
    size: u32,
    first: Seq<u8>,
    rest: Seq<u8>,
    format_seen: bool,
)
    requires
        first.len() == 4,
        size == le32(first, 0),
    ensures
        (HeaderParser::ChunkSize { format_seen, kind }).outcome(first + rest)
            == match step_after_size(kind, size, format_seen) {
            HeaderStep::More(next) => past(4, next.outcome(rest)),
            HeaderStep::Data(size) => Ok((DataChunk { at: 4, size })),
            HeaderStep::Rejected(error) => Err(error),
        },
{
    let padded = size + size as int % 2;
    assert((HeaderParser::ChunkSize { format_seen, kind }).outcome(first + rest) == after_id(
        kind.name(),
        first + rest,
        format_seen,
    )) by {
        reveal(HeaderParser::outcome);
    }
    lemma_size_first(kind, first, rest, format_seen);
    match kind {
        ChunkKind::Format => {
            if size >= 16 {
                lemma_format_goes_on(rest, padded);
                lemma_past_twice(4, padded, after_format(format_of(rest), rest.skip(padded)));
            }
        },
        ChunkKind::Data => {},
        ChunkKind::Other => {
            lemma_other_goes_on(rest, padded, format_seen);
            lemma_past_twice(4, padded, find_data(rest.skip(padded), format_seen));
        },
    }
}

impl HeaderParser {
    /// Takes the wanted bytes and says how the header goes on.
    pub fn accept(self, bytes: &[u8]) -> (step: HeaderStep)
        requires
            self.wf(),
            bytes@.len() == self.wants(),
        ensures
            self.leads_to(bytes@, step),
    {
        match self {
            HeaderParser::Riff => self.accept_riff(bytes),
            HeaderParser::Wave => self.accept_wave(bytes),
            HeaderParser::ChunkId { format_seen } => self.accept_id(bytes, format_seen),
            HeaderParser::ChunkSize { format_seen, kind } => self.accept_size(
                bytes,
                format_seen,
                kind,
            ),
            HeaderParser::FormatBody { rest } => self.accept_format(bytes, rest),
            HeaderParser::FormatRest { format, left } => self.accept_format_rest(
                bytes,
                format,
                left,
            ),
            HeaderParser::OtherBody { format_seen, left } => self.accept_other(
                bytes,
                format_seen,
                left,
            ),
        }
    }

    fn accept_riff(self, bytes: &[u8]) -> (step: HeaderStep)
        requires
            self is Riff,
            bytes@.len() == 4,
        ensures
            self.leads_to(bytes@, step),
    {
        proof {
            reveal(HeaderParser::outcome);
            assert(bytes@.subrange(0, 4) =~= bytes@);
            assert forall|rest: Seq<u8>| #[trigger]
                self.outcome(bytes@ + rest) == parse_header(bytes@ + rest) && (bytes@ + rest).take(
                    4,
                ) == bytes@ && (bytes@ + rest).skip(4) == rest by {
                lemma_split(bytes@, rest);
            }
        }
        if has_id(bytes, 0, 0x52, 0x49, 0x46, 0x46) {
            HeaderStep::More(HeaderParser::Wave)
        } else {
            HeaderStep::Rejected(WavError::NotRiff)
        }
    }

    fn accept_wave(self, bytes: &[u8]) -> (step: HeaderStep)
        requires
            self is Wave,
            bytes@.len() == 8,
        ensures
            self.leads_to(bytes@, step),
    {
        proof {
            reveal(HeaderParser::outcome);
            assert forall|rest: Seq<u8>| #[trigger]
                self.outcome(bytes@ + rest) == after_riff(bytes@ + rest) && (bytes@
                    + rest).subrange(4, 8) == bytes@.subrange(4, 8) && (bytes@ + rest).skip(8)
                    == rest by {
                lemma_split(bytes@, rest);
                assert((bytes@ + rest).subrange(4, 8) =~= bytes@.subrange(4, 8));
            }
        }
        if has_id(bytes, 4, 0x57, 0x41, 0x56, 0x45) {
            HeaderStep::More(HeaderParser::ChunkId { format_seen: false })
        } else {
            HeaderStep::Rejected(WavError::NotWave)
        }
    }

    fn accept_id(self, bytes: &[u8], format_seen: bool) -> (step: HeaderStep)
        requires
            self == (HeaderParser::ChunkId { format_seen }),
            bytes@.len() == 4,
        ensures
            self.leads_to(bytes@, step),
    {
        let kind = chunk_kind(bytes);
        proof {
            reveal(HeaderParser::outcome);
            assert forall|rest: Seq<u8>| #[trigger]
                self.outcome(bytes@ + rest) == past(4, after_id(kind.name(), rest, format_seen)) by {
                lemma_split(bytes@, rest);
                lemma_kind_decides(kind, bytes@, rest, format_seen);
            }
        }
        HeaderStep::More(HeaderParser::ChunkSize { format_seen, kind })
    }

    fn accept_size(self, bytes: &[u8], format_seen: bool, kind: ChunkKind) -> (step: HeaderStep)
        requires
            self == (HeaderParser::ChunkSize { format_seen, kind }),
            bytes@.len() == 4,
        ensures
            self.leads_to(bytes@, step),
    {
        let size = read_u32(bytes, 0);
        // The payload, plus the pad byte that RIFF inserts after odd-sized
        // chunks.
        let padded = size as u64 + size as u64 % 2;
        let step = match kind {
            ChunkKind::Format => {
                if size < 16 {
                    HeaderStep::Rejected(WavError::FormatTooShort)
                } else {
                    HeaderStep::More(HeaderParser::FormatBody { rest: padded - 16 })
                }
            },
            ChunkKind::Data => {
                if format_seen {
                    HeaderStep::Data(size)
                } else {
                    HeaderStep::Rejected(WavError::DataBeforeFormat)
                }
            },
            ChunkKind::Other => {
                if padded == 0 {
                    HeaderStep::More(HeaderParser::ChunkId { format_seen })
                } else {
                    HeaderStep::More(HeaderParser::OtherBody { format_seen, left: padded })
                }
            },
        };
        proof {
            assert(step == step_after_size(kind, size, format_seen));
            assert forall|rest: Seq<u8>| #[trigger] self.outcome(bytes@ + rest) == match step {
                HeaderStep::More(next) => past(4, next.outcome(rest)),
                HeaderStep::Data(size) => Ok((DataChunk { at: 4, size })),
                HeaderStep::Rejected(error) => Err(error),
            } by {
                lemma_step_after_size(kind, size, bytes@, rest, format_seen);
            }
        }
        step
    }

    fn accept_format(self, bytes: &[u8], extra: u64) -> (step: HeaderStep)
        requires
            self == (HeaderParser::FormatBody { rest: extra }),
            bytes@.len() == 16,
        ensures
            self.leads_to(bytes@, step),
    {
        let format = Format {
            tag: read_u16(bytes, 0),
            channels: read_u16(bytes, 2),
            sample_rate: read_u32(bytes, 4),
            bits_per_sample: read_u16(bytes, 14),
        };
        proof {
            reveal(HeaderParser::outcome);
            assert forall|rest: Seq<u8>|
                format_of(bytes@ + rest) == format && (extra <= rest.len() ==> #[trigger] (bytes@
                    + rest).skip(16 + extra) == rest.skip(extra as int)) by {
                lemma_split(bytes@, rest);
            }
        }
        if extra == 0 {
            proof {
                assert forall|rest: Seq<u8>|
                    #![trigger self.outcome(bytes@ + rest)]
                    self.outcome(bytes@ + rest) == past(16, after_format(format, rest)) by {
                    assert((bytes@ + rest).skip(16 + extra) == rest.skip(extra as int));
                    assert(rest.skip(0) =~= rest);
                }
            }
            match check_format(format) {
                Ok(()) => HeaderStep::More(HeaderParser::ChunkId { format_seen: true }),
                Err(error) => HeaderStep::Rejected(error),
            }
        } else {
            proof {
                let next = HeaderParser::FormatRest { format, left: extra };
                assert forall|rest: Seq<u8>|
                    #![trigger self.outcome(bytes@ + rest)]
                    self.outcome(bytes@ + rest) == past(16, next.outcome(rest)) by {
                    if extra <= rest.len() {
                        assert((bytes@ + rest).skip(16 + extra) == rest.skip(extra as int));
                    }
                }
            }
            HeaderStep::More(HeaderParser::FormatRest { format, left: extra })
        }
    }

    fn accept_format_rest(self, bytes: &[u8], format: Format, left: u64) -> (step: HeaderStep)
        requires
            self == (HeaderParser::FormatRest { format, left }),
            self.wf(),
            bytes@.len() == self.wants(),
        ensures
            self.leads_to(bytes@, step),
    {
        let still = left - bytes.len() as u64;
        proof {
            reveal(HeaderParser::outcome);
            assert forall|rest: Seq<u8>|
                #![trigger self.outcome(bytes@ + rest)]
                self.outcome(bytes@ + rest) == if rest.len() < still {
                    Err(WavError::UnexpectedEnd)
                } else {
                    past(left as int, after_format(format, rest.skip(still as int)))
                } by {
                lemma_split(bytes@, rest);
            }
        }
        if still == 0 {
            proof {
                assert forall|rest: Seq<u8>| #[trigger] rest.skip(0) == rest by {
                    assert(rest.skip(0) =~= rest);
                }
            }
            match check_format(format) {
                Ok(()) => HeaderStep::More(HeaderParser::ChunkId { format_seen: true }),
                Err(error) => HeaderStep::Rejected(error),
            }
        } else {
            HeaderStep::More(HeaderParser::FormatRest { format, left: still })
        }
    }

    fn accept_other(self, bytes: &[u8], format_seen: bool, left: u64) -> (step: HeaderStep)
        requires
            self == (HeaderParser::OtherBody { format_seen, left }),
            self.wf(),
            bytes@.len() == self.wants(),
        ensures
            self.leads_to(bytes@, step),
    {
        let still = left - bytes.len() as u64;
        proof {
            reveal(HeaderParser::outcome);
            assert forall|rest: Seq<u8>|
                #![trigger self.outcome(bytes@ + rest)]
                self.outcome(bytes@ + rest) == if rest.len() < still {
                    Err(WavError::UnexpectedEnd)
                } else {
                    past(left as int, find_data(rest.skip(still as int), format_seen))
                } by {
                lemma_split(bytes@, rest);
            }
        }
        if still == 0 {
            proof {
                assert forall|rest: Seq<u8>| #[trigger] rest.skip(0) == rest by {
                    assert(rest.skip(0) =~= rest);
                }
            }
            HeaderStep::More(HeaderParser::ChunkId { format_seen })
        } else {
            HeaderStep::More(HeaderParser::OtherBody { format_seen, left: still })
        }
    }
}

impl WavError {
    /// The text of [`WavError::message`].
    pub open spec fn message_chars(self) -> Seq<char> {
        match self {
            WavError::NotRiff => "not a RIFF file (missing 'RIFF' magic)"@,
            WavError::NotWave => "not a WAVE file (missing 'WAVE' magic)"@,
            WavError::NoData => "no 'data' chunk found"@,
            WavError::UnexpectedEnd => "failed to fill whole buffer"@,
            WavError::FormatTooShort => "'fmt ' chunk is too short"@,
            WavError::FormatTag(tag) => "unsupported WAV format tag "@ + crate::text::decimal_chars(tag as nat)
                + " (only uncompressed PCM = 1 is supported)"@,
            WavError::Channels(channels) => "expected "@ + crate::text::decimal_chars(REQUIRED_CHANNELS as nat)
                + " channel, found "@ + crate::text::decimal_chars(channels as nat),
            WavError::SampleRate(rate) => "expected "@ + crate::text::decimal_chars(REQUIRED_SAMPLE_RATE as nat)
                + " Hz, found "@ + crate::text::decimal_chars(rate as nat) + " Hz"@,
            WavError::BitsPerSample(bits) => "expected "@ + crate::text::decimal_chars(
                REQUIRED_BITS_PER_SAMPLE as nat,
            ) + " bits per sample, found "@ + crate::text::decimal_chars(bits as nat),
            WavError::DataBeforeFormat => "'data' chunk appears before 'fmt '"@,
        }
    }

    /// The reason in words.
    pub fn message(&self) -> (text: String)
        ensures
            text@ == self.message_chars(),
    {
        match self {
            WavError::NotRiff => String::from_str("not a RIFF file (missing 'RIFF' magic)"),
            WavError::NotWave => String::from_str("not a WAVE file (missing 'WAVE' magic)"),
            WavError::NoData => String::from_str("no 'data' chunk found"),
            WavError::UnexpectedEnd => String::from_str("failed to fill whole buffer"),
            WavError::FormatTooShort => String::from_str("'fmt ' chunk is too short"),
            WavError::FormatTag(tag) => {
                let mut text = String::from_str("unsupported WAV format tag ");
                text.append(decimal(*tag as u64).as_str());
                text.append(" (only uncompressed PCM = 1 is supported)");
                text
            },
            WavError::Channels(channels) => {
                let mut text = String::from_str("expected ");
                text.append(decimal(REQUIRED_CHANNELS as u64).as_str());
                text.append(" channel, found ");
                text.append(decimal(*channels as u64).as_str());
                text
            },
            WavError::SampleRate(rate) => {
                let mut text = String::from_str("expected ");
                text.append(decimal(REQUIRED_SAMPLE_RATE as u64).as_str());
                text.append(" Hz, found ");
                text.append(decimal(*rate as u64).as_str());
                text.append(" Hz");
                text
            },
            WavError::BitsPerSample(bits) => {
                let mut text = String::from_str("expected ");
                text.append(decimal(REQUIRED_BITS_PER_SAMPLE as u64).as_str());
                text.append(" bits per sample, found ");
                text.append(decimal(*bits as u64).as_str());
                text
            },
            WavError::DataBeforeFormat => String::from_str("'data' chunk appears before 'fmt '"),
        }
    }
}

// ---------------------------------------------------------------------------
// Source
// ---------------------------------------------------------------------------

/// Streaming reader for the samples of a `data` chunk.
///
/// The samples are decoded two bytes at a time, so memory use does not depend
/// on the length of the file.
///
/// A read error of type `E` stops the iteration and is stored inside the
/// reader.  Callers must ask for it with [`WavReader::take_error`] once the
/// pipeline has finished, otherwise a truncated file would silently look like
/// a short file.
pub struct WavReader<E> {
    /// Number of samples not yet returned.
    remaining: u64,
    /// Total number of samples in the `data` chunk.
    total: u64,
    error: Option<E>,
}

impl<E> WavReader<E> {
    /// Number of samples not yet returned.
    pub closed spec fn left(&self) -> nat {
        self.remaining as nat
    }

    /// Total number of samples in the `data` chunk.
    pub closed spec fn size(&self) -> nat {
        self.total as nat
    }

    /// The read error that stopped the iteration.
    pub closed spec fn failure(&self) -> Option<E> {
        self.error
    }

    /// No more samples are outstanding than there are.
    pub closed spec fn wf(&self) -> bool {
        self.remaining <= self.total
    }

    /// A reader at the first sample of a `data` chunk of `size` bytes.
    pub fn at_data(size: u32) -> (reader: WavReader<E>)
        ensures
            reader.wf(),
            reader.size() == size as nat / 2,
            reader.left() == size as nat / 2,
            reader.failure() is None,
    {
        let samples = (size / 2) as u64;
        WavReader { remaining: samples, total: samples, error: None }
    }

    /// Parses and validates the RIFF header of a file that is held in memory.
    ///
    /// Returns the reader together with the position of the first sample.
    pub fn new(bytes: &[u8]) -> (opened: Result<(WavReader<E>, usize), WavError>)
        ensures
            match parse_header(bytes@) {
                Ok(chunk) => {
                    &&& opened matches Ok((reader, at))
                    &&& at == chunk.at
                    &&& reader.wf()
                    &&& reader.size() == chunk.size as nat / 2
                    &&& reader.left() == chunk.size as nat / 2
                    &&& reader.failure() is None
                },
                Err(error) => opened == Err::<(WavReader<E>, usize), WavError>(error),
            },
    {
        let mut parser = HeaderParser::new();
        let mut at: usize = 0;
        assert(bytes@.skip(0) =~= bytes@);
        proof {
            reveal(HeaderParser::outcome);
            lemma_past_nothing(parse_header(bytes@));
        }
        loop
            invariant
                parser.wf(),
                at <= bytes@.len(),
                parse_header(bytes@) == past(at as int, parser.outcome(bytes@.skip(at as int))),
            decreases bytes@.len() - at,
        {
            let wanted = parser.wanted();
            let ghost rest = bytes@.skip(at as int);
            if bytes.len() - at < wanted {
                return Err(parser.end_of_file());
            }
            let next = at + wanted;
            let part = &bytes[at..next];
            proof {
                assert(rest =~= part@ + bytes@.skip(next as int));
            }
            match parser.accept(part) {
                HeaderStep::More(more) => {
                    proof {
                        lemma_past_twice(
                            at as int,
                            wanted as int,
                            more.outcome(bytes@.skip(next as int)),
                        );
                    }
                    parser = more;
                    at = next;
                },
                HeaderStep::Data(size) => {
                    return Ok((WavReader::at_data(size), next));
                },
                HeaderStep::Rejected(error) => {
                    return Err(error);
                },
            }
        }
    }

    /// Total number of samples in the file.
    pub fn len(&self) -> (total: u64)
        ensures
            total == self.size(),
    {
        self.total
    }

    /// Returns the read error that stopped the iteration, if any.
    pub fn take_error(&mut self) -> (error: Option<E>)
        ensures
            error == old(self).failure(),
            final(self).failure() is None,
            final(self).left() == old(self).left(),
            final(self).size() == old(self).size(),
            final(self).wf() == old(self).wf(),
    {
        self.error.take()
    }

    /// True if [`WavReader::next`] is to be called with two more bytes.
    pub fn wants_sample(&self) -> (wants: bool)
        ensures
            wants == (self.left() > 0 && self.failure() is None),
    {
        self.remaining > 0 && self.error.is_none()
    }

    /// Takes the result of reading the two bytes of the next sample, and
    /// returns that sample.
    ///
    /// Without outstanding samples, or once a read has failed, nothing is
    /// returned and nothing changes.
    pub fn next(&mut self, read: Result<[u8; 2], E>) -> (sample: Option<i16>)
        requires
            old(self).wf(),
        ensures
            final(self).wf(),
            final(self).size() == old(self).size(),
            if old(self).left() == 0 || old(self).failure() is Some {
                &&& sample is None
                &&& final(self).left() == old(self).left()
                &&& final(self).failure() == old(self).failure()
            } else {
                match read {
                    Ok(bytes) => {
                        &&& sample matches Some(raw) && raw == le_i16(bytes@, 0)
                        &&& final(self).left() == old(self).left() - 1
                        &&& final(self).failure() is None
                    },
                    Err(error) => {
                        &&& sample is None
                        &&& final(self).left() == old(self).left()
                        &&& final(self).failure() == Some(error)
                    },
                }
            },
    {
        if self.remaining == 0 || self.error.is_some() {
            return None;
        }
        match read {
            Ok(bytes) => {
                self.remaining = self.remaining - 1;
                Some(decode_sample(bytes))
            },
            Err(error) => {
                // Truncated or unreadable file: remember why we stopped.
                self.error = Some(error);
                None
            },
        }
    }
}

proof fn lemma_past_nothing(found: Result<DataChunk, WavError>)
    ensures
        past(0, found) == found,
{
}

proof fn lemma_past_twice(a: int, b: int, found: Result<DataChunk, WavError>)
    requires
        a >= 0,
        b >= 0,
    ensures
        past(a, past(b, found)) == past(a + b, found),
{
}

/// The sample that two bytes stand for.
pub fn decode_sample(bytes: [u8; 2]) -> (raw: i16)
    ensures
        raw == le_i16(bytes@, 0),
{
    let unsigned = bytes[0] as i32 + 256 * bytes[1] as i32;
    if unsigned < 32768 {
        unsigned as i16
    } else {
        (unsigned - 65536) as i16
    }
}

/// The two bytes of a sample.
pub fn encode_sample(raw: i16) -> (bytes: [u8; 2])
    ensures
        bytes@ == bytes_i16(raw as int),
{
    let unsigned: i32 = if raw < 0 {
        raw as i32 + 65536
    } else {
        raw as i32
    };
    let bytes = [(unsigned % 256) as u8, (unsigned / 256) as u8];
    assert(bytes@ =~= bytes_i16(raw as int));
    bytes
}

/// `value`, clipped to the range of a 16-bit sample.
pub open spec fn clipped(value: int) -> int {
    if value >= i16::MAX {
        i16::MAX as int
    } else if value <= i16::MIN {
        i16::MIN as int
    } else {
        value
    }
}

/// Clips a sample to 16 bits.
///
/// `scaled` is the sample times 32768, rounded to nearest.  `+1.0` would map
/// to 32768, which does not fit into an `i16`, so the positive side is clamped
/// to 32767.
pub fn sample_to_i16(scaled: i64) -> (raw: i16)
    ensures
        raw == clipped(scaled as int),
{
    if scaled >= 32767 {
        i16::MAX
    } else if scaled <= -32768 {
        i16::MIN
    } else {
        scaled as i16
    }
}

// ---------------------------------------------------------------------------
// Sink
// ---------------------------------------------------------------------------

/// The size field of the `data` chunk of a file with `samples` samples.  The
/// field has 32 bits and keeps the lower ones of the size in bytes.
pub open spec fn data_bytes(samples: int) -> int {
    2 * samples % 4294967296
}

/// The sizes in the header of a file with `samples` samples can be computed and are
/// in range.
pub open spec fn sizes_fit(samples: int) -> bool {
    2 * samples <= u64::MAX && HEADER_LEN - 8 + data_bytes(samples) <= u32::MAX
}

/// The beginning of a file with `samples` samples: its size is that of everything
/// after the size field.
#[verifier::opaque]
pub open spec fn riff_part(samples: int) -> Seq<u8> {
    riff_id() + bytes32(HEADER_LEN - 8 + data_bytes(samples)) + wave_id()
}

/// The `fmt ` chunk: a plain PCM format; the byte rate and the size of a sample
/// follow from it.
#[verifier::opaque]
pub open spec fn format_part() -> Seq<u8> {
    format_id() + bytes32(16) + bytes16(FORMAT_TAG_PCM as int) + bytes16(REQUIRED_CHANNELS as int)
        + bytes32(REQUIRED_SAMPLE_RATE as int) + bytes32(
        REQUIRED_SAMPLE_RATE * REQUIRED_CHANNELS * (REQUIRED_BITS_PER_SAMPLE as int / 8),
    ) + bytes16(REQUIRED_CHANNELS * (REQUIRED_BITS_PER_SAMPLE as int / 8)) + bytes16(
        REQUIRED_BITS_PER_SAMPLE as int,
    )
}

/// The beginning of the `data` chunk of a file with `samples` samples.
#[verifier::opaque]
pub open spec fn data_part(samples: int) -> Seq<u8> {
    data_id() + bytes32(data_bytes(samples))
}

/// The header of a file with `samples` samples.
#[verifier::opaque]
pub open spec fn header_bytes(samples: int) -> Seq<u8> {
    riff_part(samples) + format_part() + data_part(samples)
}

/// The bytes of the samples `raws`, one after the other.
pub open spec fn sample_bytes(raws: Seq<int>) -> Seq<u8> {
    Seq::new(2 * raws.len(), |i: int| bytes_i16(raws[i / 2])[i % 2])
}

/// The whole file that holds the samples `raws`.
pub open spec fn wav_image(raws: Seq<int>) -> Seq<u8> {
    header_bytes(raws.len() as int) + sample_bytes(raws)
}

/// The header of a file with `samples` samples.
pub fn write_header(samples: u64) -> (header: Vec<u8>)
    requires
        sizes_fit(samples as int),
    ensures
        header@ == header_bytes(samples as int),
        header@.len() == HEADER_LEN,
        le32(header@, 4) == HEADER_LEN - 8 + 2 * samples as int % 4294967296,
        le32(header@, 40) == 2 * samples as int % 4294967296,
{
    let data_bytes = (samples * 2 % 4294967296) as u32;
    let byte_rate: u32 = REQUIRED_SAMPLE_RATE * (REQUIRED_CHANNELS as u32) * (
    REQUIRED_BITS_PER_SAMPLE as u32 / 8);
    let block_align: u16 = REQUIRED_CHANNELS * (REQUIRED_BITS_PER_SAMPLE / 8);

    let mut out: Vec<u8> = vec![0x52, 0x49, 0x46, 0x46];
    assert(out@ =~= riff_id());
    // Size of everything after this field.
    write_u32(&mut out, (HEADER_LEN as u32 - 8) + data_bytes);
    push_id(&mut out, 0x57, 0x41, 0x56, 0x45);
    let ghost riff = out@;

    push_id(&mut out, 0x66, 0x6d, 0x74, 0x20);
    write_u32(&mut out, 16);  // chunk size of a plain PCM fmt
    write_u16(&mut out, FORMAT_TAG_PCM);
    write_u16(&mut out, REQUIRED_CHANNELS);
    write_u32(&mut out, REQUIRED_SAMPLE_RATE);
    write_u32(&mut out, byte_rate);
    write_u16(&mut out, block_align);
    write_u16(&mut out, REQUIRED_BITS_PER_SAMPLE);
    let ghost format = out@;

    push_id(&mut out, 0x64, 0x61, 0x74, 0x61);
    write_u32(&mut out, data_bytes);
    proof {
        assert(riff == riff_part(samples as int)) by {
            reveal(riff_part);
        }
        assert(format =~= riff + format_part()) by {
            reveal(format_part);
        }
        assert(out@ =~= format + data_part(samples as int)) by {
            reveal(data_part);
        }
        reveal(header_bytes);
        lemma_header_sizes(samples as int);
    }
    out
}

/// Appends the four bytes `a`, `b`, `c` and `d`.
fn push_id(out: &mut Vec<u8>, a: u8, b: u8, c: u8, d: u8)
    ensures
        final(out)@ == old(out)@ + seq![a, b, c, d],
{
    out.push(a);
    out.push(b);
    out.push(c);
    out.push(d);
    assert(out@ =~= old(out)@ + seq![a, b, c, d]);
}

/// Streaming writer for 16-bit mono PCM WAV files.
///
/// The header contains two length fields that are only known once all samples
/// have been written, so a placeholder header is written first and patched in
/// [`WavWriter::finish`].
pub struct WavWriter {
    samples_written: u64,
}

impl WavWriter {
    /// Number of samples written so far.
    pub closed spec fn written(&self) -> nat {
        self.samples_written as nat
    }

    /// Starts a file; returns the placeholder header that goes first.
    pub fn create() -> (created: (WavWriter, Vec<u8>))
        ensures
            created.0.written() == 0,
            created.1@ == header_bytes(0),
    {
        let writer = WavWriter { samples_written: 0 };
        (writer, write_header(0))
    }

    /// Appends one sample; returns its bytes.
    ///
    /// `scaled` is the sample times 32768, rounded to nearest.
    pub fn write_sample(&mut self, scaled: i64) -> (bytes: [u8; 2])
        requires
            old(self).written() < u64::MAX,
        ensures
            bytes@ == bytes_i16(clipped(scaled as int)),
            final(self).written() == old(self).written() + 1,
    {
        self.samples_written = self.samples_written + 1;
        encode_sample(sample_to_i16(scaled))
    }

    /// Ends the file; returns the header that replaces the placeholder, and
    /// the number of samples written.
    pub fn finish(self) -> (finished: (Vec<u8>, u64))
        requires
            sizes_fit(self.written() as int),
        ensures
            finished.0@ == header_bytes(self.written() as int),
            finished.1 == self.written(),
    {
        (write_header(self.samples_written), self.samples_written)
    }

    /// True if [`WavWriter::finish`] can still be called: the sizes in the
    /// header are in range.
    pub fn can_finish(&self) -> (fits: bool)
        ensures
            fits == sizes_fit(self.written() as int),
    {
        self.samples_written <= u64::MAX / 2 && HEADER_LEN - 8 + self.samples_written * 2
            % 4294967296 <= u32::MAX as u64
    }
}

/// The file that holds `samples`, each given as the sample times 32768,
/// rounded to nearest.
pub fn write_wav(samples: &Vec<i64>) -> (file: Vec<u8>)
    requires
        sizes_fit(samples@.len() as int),
    ensures
        file@ == wav_image(samples@.map_values(|scaled: i64| clipped(scaled as int))),
        HEADER_LEN - 8 + 2 * samples@.len() <= u32::MAX ==> le32(file@, 4) == file@.len() - 8
            && le32(file@, 40) == file@.len() - HEADER_LEN,
{
    let ghost raws = samples@.map_values(|scaled: i64| clipped(scaled as int));
    let (mut writer, placeholder) = WavWriter::create();
    let mut body: Vec<u8> = Vec::new();
    let count: usize = samples.len();
    let mut index: usize = 0;
    while index < count
        invariant
            index <= count == samples@.len(),
            writer.written() == index,
            raws == samples@.map_values(|scaled: i64| clipped(scaled as int)),
            body@ == sample_bytes(raws.take(index as int)),
        decreases count - index,
    {
        let bytes = writer.write_sample(samples[index]);
        body.push(bytes[0]);
        body.push(bytes[1]);
        proof {
            let so_far = raws.take(index as int);
            let and_one = raws.take(index + 1);
            assert(and_one =~= so_far.push(raws[index as int]));
            assert(sample_bytes(and_one) =~= sample_bytes(so_far) + bytes_i16(raws[index as int]));
            assert(body@ =~= sample_bytes(and_one));
        }
        index = index + 1;
    }
    proof {
        assert(raws.take(samples@.len() as int) =~= raws);
    }
    let (mut file, written) = writer.finish();
    assert(written == samples@.len());
    file.append(&mut body);
    proof {
        if HEADER_LEN - 8 + 2 * samples@.len() <= u32::MAX {
            law_sizes_in_a_file_are_right(raws);
        }
    }
    file
}

// ---------------------------------------------------------------------------
// Laws
// ---------------------------------------------------------------------------

/// True of the values that a 16-bit sample can have.
pub open spec fn is_sample(raw: int) -> bool {
    i16::MIN <= raw <= i16::MAX
}

/// Clipping does not change a value that is in range, and always gives one
/// that is.
pub proof fn law_clipping_keeps_samples(value: int)
    ensures
        is_sample(clipped(value)),
        is_sample(value) ==> clipped(value) == value,
{
}

/// The two bytes of a sample decode to that sample, and every two bytes are
/// the bytes of the sample that they decode to.
pub proof fn law_sample_bytes_are_exact(raw: int, bytes: Seq<u8>)
    requires
        is_sample(raw),
        bytes.len() == 2,
    ensures
        le_i16(bytes_i16(raw), 0) == raw,
        is_sample(le_i16(bytes, 0)),
        bytes_i16(le_i16(bytes, 0)) == bytes,
{
    assert(bytes_i16(le_i16(bytes, 0)) =~= bytes);
}

/// A 16-bit field holds the number that was written there.
proof fn lemma_field16(bytes: Seq<u8>, at: int, value: int)
    requires
        0 <= value < 65536,
        0 <= at <= bytes.len() - 2,
        bytes.subrange(at, at + 2) == bytes16(value),
    ensures
        le16(bytes, at) == value,
{
    let field = bytes.subrange(at, at + 2);
    assert(bytes[at] == field[0] && bytes[at + 1] == field[1]);
}

/// A 32-bit field holds the number that was written there.
proof fn lemma_field32(bytes: Seq<u8>, at: int, value: int)
    requires
        0 <= value < 4294967296,
        0 <= at <= bytes.len() - 4,
        bytes.subrange(at, at + 4) == bytes32(value),
    ensures
        le32(bytes, at) == value,
{
    let field = bytes.subrange(at, at + 4);
    assert(bytes[at] == field[0] && bytes[at + 1] == field[1]);
    assert(bytes[at + 2] == field[2] && bytes[at + 3] == field[3]);
}

/// The fields of the first part of a header.
proof fn lemma_riff_part(samples: int)
    ensures
        ({
            let part = riff_part(samples);
            &&& part.len() == 12
            &&& part.subrange(0, 4) == riff_id()
            &&& part.subrange(4, 8) == bytes32(HEADER_LEN - 8 + data_bytes(samples))
            &&& part.subrange(8, 12) == wave_id()
        }),
{
    reveal(riff_part);
    let part = riff_part(samples);
    assert(part.subrange(0, 4) =~= riff_id());
    assert(part.subrange(4, 8) =~= bytes32(HEADER_LEN - 8 + data_bytes(samples)));
    assert(part.subrange(8, 12) =~= wave_id());
}

/// The fields of the `fmt ` chunk of a header.
proof fn lemma_format_part()
    ensures
        ({
            let part = format_part();
            &&& part.len() == 24
            &&& part.subrange(0, 4) == format_id()
            &&& part.subrange(4, 8) == bytes32(16)
            &&& part.subrange(8, 10) == bytes16(1)
            &&& part.subrange(10, 12) == bytes16(1)
            &&& part.subrange(12, 16) == bytes32(44100)
            &&& part.subrange(16, 20) == bytes32(88200)
            &&& part.subrange(20, 22) == bytes16(2)
            &&& part.subrange(22, 24) == bytes16(16)
        }),
{
    reveal(format_part);
    let part = format_part();
    assert(part.subrange(0, 4) =~= format_id());
    assert(part.subrange(4, 8) =~= bytes32(16));
    assert(part.subrange(8, 10) =~= bytes16(1));
    assert(part.subrange(10, 12) =~= bytes16(1));
    assert(part.subrange(12, 16) =~= bytes32(44100));
    assert(part.subrange(16, 20) =~= bytes32(88200));
    assert(part.subrange(20, 22) =~= bytes16(2));
    assert(part.subrange(22, 24) =~= bytes16(16));
}

/// The fields of the last part of a header.
proof fn lemma_data_part(samples: int)
    ensures
        ({
            let part = data_part(samples);
            &&& part.len() == 8
            &&& part.subrange(0, 4) == data_id()
            &&& part.subrange(4, 8) == bytes32(data_bytes(samples))
        }),
{
    reveal(data_part);
    let part = data_part(samples);
    assert(part.subrange(0, 4) =~= data_id());
    assert(part.subrange(4, 8) =~= bytes32(data_bytes(samples)));
}

/// The parts of a header, at their positions.
proof fn lemma_header_parts(samples: int, rest: Seq<u8>)
    ensures
        ({
            let file = header_bytes(samples) + rest;
            &&& header_bytes(samples).len() == HEADER_LEN
            &&& file.take(4) == riff_id()
            &&& file.subrange(4, 8) == bytes32(HEADER_LEN - 8 + data_bytes(samples))
            &&& file.subrange(8, 12) == wave_id()
            &&& file.subrange(12, 16) == format_id()
            &&& file.subrange(16, 20) == bytes32(16)
            &&& file.subrange(20, 22) == bytes16(1)
            &&& file.subrange(22, 24) == bytes16(1)
            &&& file.subrange(24, 28) == bytes32(44100)
            &&& file.subrange(28, 32) == bytes32(88200)
            &&& file.subrange(32, 34) == bytes16(2)
            &&& file.subrange(34, 36) == bytes16(16)
            &&& file.subrange(36, 40) == data_id()
            &&& file.subrange(40, 44) == bytes32(data_bytes(samples))
            &&& file.skip(44) == rest
        }),
{
    let riff = riff_part(samples);
    let format = format_part();
    let data = data_part(samples);
    lemma_riff_part(samples);
    lemma_format_part();
    lemma_data_part(samples);
    reveal(header_bytes);
    let file = header_bytes(samples) + rest;
    assert(file.take(4) =~= riff.subrange(0, 4));
    assert(file.subrange(4, 8) =~= riff.subrange(4, 8));
    assert(file.subrange(8, 12) =~= riff.subrange(8, 12));
    assert(file.subrange(12, 16) =~= format.subrange(0, 4));
    assert(file.subrange(16, 20) =~= format.subrange(4, 8));
    assert(file.subrange(20, 22) =~= format.subrange(8, 10));
    assert(file.subrange(22, 24) =~= format.subrange(10, 12));
    assert(file.subrange(24, 28) =~= format.subrange(12, 16));
    assert(file.subrange(28, 32) =~= format.subrange(16, 20));
    assert(file.subrange(32, 34) =~= format.subrange(20, 22));
    assert(file.subrange(34, 36) =~= format.subrange(22, 24));
    assert(file.subrange(36, 40) =~= data.subrange(0, 4));
    assert(file.subrange(40, 44) =~= data.subrange(4, 8));
    assert(file.skip(44) =~= rest);
}

/// Four letters, at their positions.
proof fn lemma_letters(bytes: Seq<u8>, at: int, a: u8, b: u8, c: u8, d: u8)
    requires
        0 <= at <= bytes.len() - 4,
        bytes.subrange(at, at + 4) == seq![a, b, c, d],
    ensures
        bytes[at] == a && bytes[at + 1] == b && bytes[at + 2] == c && bytes[at + 3] == d,
{
    let letters = bytes.subrange(at, at + 4);
    assert(letters[0] == a && letters[1] == b && letters[2] == c && letters[3] == d);
}

/// A file with these parts at these positions is accepted.
proof fn lemma_parts_are_accepted(file: Seq<u8>, size: int)
    requires
        0 <= size <= u32::MAX,
        file.len() >= 44,
        file.take(4) == riff_id(),
        file.subrange(8, 12) == wave_id(),
        file.subrange(12, 16) == format_id(),
        le32(file, 16) == 16,
        le16(file, 20) == 1,
        le16(file, 22) == 1,
        le32(file, 24) == 44100,
        le16(file, 34) == 16,
        file.subrange(36, 40) == data_id(),
        le32(file, 40) == size,
    ensures
        parse_header(file) == Ok::<DataChunk, WavError>(
            (DataChunk { at: 44, size: size as u32 }),
        ),
{
    // From the last chunk back to the first.
    let at_data = file.skip(36);
    assert(find_data(at_data, true) == Ok::<DataChunk, WavError>(
        (DataChunk { at: 8, size: size as u32 }),
    )) by {
        assert(at_data.take(4) =~= file.subrange(36, 40));
        assert(at_data.skip(4) =~= file.skip(40));
        assert(le32(file.skip(40), 0) == le32(file, 40));
        assert(data_id()[0] != format_id()[0]);
    }

    let at_format = file.skip(12);
    assert(find_data(at_format, false) == past(24, find_data(at_data, true))) by {
        let body = file.skip(20);
        assert(at_format.take(4) =~= file.subrange(12, 16));
        assert(at_format.skip(4) =~= file.skip(16));
        assert(file.skip(16).skip(4) =~= body);
        assert(body.skip(16) =~= at_data);
        assert(le32(file.skip(16), 0) == le32(file, 16));
        assert(le16(body, 0) == le16(file, 20));
        assert(le16(body, 2) == le16(file, 22));
        assert(le32(body, 4) == le32(file, 24));
        assert(le16(body, 14) == le16(file, 34));
        assert(after_format(format_of(body), at_data) == find_data(at_data, true));
        assert(after_id(format_id(), file.skip(16), false) == past(
            20,
            after_format(format_of(body), at_data),
        ));
    }

    assert(file.skip(4).subrange(4, 8) =~= file.subrange(8, 12));
    assert(file.skip(4).skip(8) =~= at_format);
}

/// The header that is written for `samples` samples is accepted, whatever
/// follows it, and announces that many samples right after itself, as long as
/// the sizes fit into the fields of the header.
pub proof fn law_header_reads_back(samples: int, rest: Seq<u8>)
    requires
        0 <= samples,
        HEADER_LEN - 8 + 2 * samples <= u32::MAX,
    ensures
        parse_header(header_bytes(samples) + rest) == Ok::<DataChunk, WavError>(
            (DataChunk { at: HEADER_LEN as nat, size: (2 * samples) as u32 }),
        ),
{
    let header = header_bytes(samples);
    let file = header + rest;
    lemma_header_parts(samples, rest);
    let size = data_bytes(samples);
    assert(size == 2 * samples);
    lemma_field32(file, 16, 16);
    lemma_field16(file, 20, 1);
    lemma_field16(file, 22, 1);
    lemma_field32(file, 24, 44100);
    lemma_field16(file, 34, 16);
    lemma_field32(file, 40, size);
    lemma_parts_are_accepted(file, size);
}

/// What is written is what is read: a file that holds `raws` is accepted, its
/// header announces exactly these samples, and the bytes of sample number `i`
/// decode to `raws[i]`.
pub proof fn law_written_file_reads_back(raws: Seq<int>)
    requires
        forall|i: int| 0 <= i < raws.len() ==> is_sample(#[trigger] raws[i]),
        HEADER_LEN - 8 + 2 * raws.len() <= u32::MAX,
    ensures
        parse_header(wav_image(raws)) == Ok::<DataChunk, WavError>(
            (DataChunk { at: HEADER_LEN as nat, size: (2 * raws.len()) as u32 }),
        ),
        wav_image(raws).len() == HEADER_LEN + 2 * raws.len(),
        forall|i: int|
            0 <= i < raws.len() ==> le_i16(wav_image(raws), HEADER_LEN + 2 * i)
                == #[trigger] raws[i],
{
    let count = raws.len() as int;
    law_header_reads_back(count, sample_bytes(raws));
    lemma_header_parts(count, sample_bytes(raws));
    assert forall|i: int| 0 <= i < raws.len() implies le_i16(wav_image(raws), HEADER_LEN + 2 * i)
        == #[trigger] raws[i] by {
        lemma_sample_in_file(header_bytes(count), raws, i);
    }
}

/// The samples that a file holds from position `at` on.
pub open spec fn samples_at(bytes: Seq<u8>, at: int, count: nat) -> Seq<int> {
    Seq::new(count, |i: int| le_i16(bytes, at + 2 * i))
}

/// Source into sink is a copy: the samples of an accepted file are not changed
/// by clipping, and the file that they are written to holds the same bytes of
/// samples and reads back as the same samples.
pub proof fn law_copying_keeps_the_samples(bytes: Seq<u8>, chunk: DataChunk)
    requires
        parse_header(bytes) == Ok::<DataChunk, WavError>(chunk),
        chunk.at + 2 * (chunk.size as nat / 2) <= bytes.len(),
        HEADER_LEN - 8 + 2 * (chunk.size as nat / 2) <= u32::MAX,
    ensures
        ({
            let count = chunk.size as nat / 2;
            let raws = samples_at(bytes, chunk.at as int, count);
            let copy = wav_image(raws);
            &&& forall|i: int| 0 <= i < count ==> clipped(#[trigger] raws[i]) == raws[i]
            &&& copy.skip(HEADER_LEN as int) == bytes.subrange(
                chunk.at as int,
                chunk.at as int + 2 * count,
            )
            &&& parse_header(copy) matches Ok(copied) && copied.size as nat / 2 == count
                && samples_at(copy, copied.at as int, count) == raws
        }),
{
    let count = chunk.size as nat / 2;
    let raws = samples_at(bytes, chunk.at as int, count);
    lemma_samples_are_bytes(bytes, chunk.at as int, count);
    lemma_copy_reads_back(raws);
}

/// What is written for samples reads back as these samples.
proof fn lemma_copy_reads_back(raws: Seq<int>)
    requires
        forall|i: int| 0 <= i < raws.len() ==> is_sample(#[trigger] raws[i]),
        HEADER_LEN - 8 + 2 * raws.len() <= u32::MAX,
    ensures
        wav_image(raws).skip(HEADER_LEN as int) == sample_bytes(raws),
        parse_header(wav_image(raws)) == Ok::<DataChunk, WavError>(
            (DataChunk { at: HEADER_LEN as nat, size: (2 * raws.len()) as u32 }),
        ),
        samples_at(wav_image(raws), HEADER_LEN as int, raws.len()) == raws,
{
    law_written_file_reads_back(raws);
    lemma_header_parts(raws.len() as int, sample_bytes(raws));
    assert(samples_at(wav_image(raws), HEADER_LEN as int, raws.len()) =~= raws);
}

/// The bytes of the samples of a file are the bytes of the file.
proof fn lemma_samples_are_bytes(bytes: Seq<u8>, at: int, count: nat)
    requires
        0 <= at,
        at + 2 * count <= bytes.len(),
    ensures
        forall|i: int| 0 <= i < count ==> is_sample(#[trigger] samples_at(bytes, at, count)[i]),
        sample_bytes(samples_at(bytes, at, count)) == bytes.subrange(at, at + 2 * count),
{
    let raws = samples_at(bytes, at, count);
    assert forall|i: int| 0 <= i < count implies is_sample(#[trigger] raws[i]) && bytes_i16(raws[i])
        == bytes.subrange(at + 2 * i, at + 2 * i + 2) by {
        let pair = bytes.subrange(at + 2 * i, at + 2 * i + 2);
        law_sample_bytes_are_exact(0, pair);
        assert(le_i16(pair, 0) == le_i16(bytes, at + 2 * i));
    }
    assert forall|n: int| 0 <= n < 2 * count implies #[trigger] sample_bytes(raws)[n] == bytes[at
        + n] by {
        let i = n / 2;
        assert(bytes_i16(raws[i]) == bytes.subrange(at + 2 * i, at + 2 * i + 2));
        assert(bytes_i16(raws[i])[n % 2] == bytes[at + 2 * i + n % 2]);
    }
    assert(sample_bytes(raws) =~= bytes.subrange(at, at + 2 * count));
}

/// Sample number `i` of a file.
proof fn lemma_sample_in_file(header: Seq<u8>, raws: Seq<int>, i: int)
    requires
        0 <= i < raws.len(),
        is_sample(raws[i]),
    ensures
        le_i16(header + sample_bytes(raws), header.len() + 2 * i) == raws[i],
{
    let file = header + sample_bytes(raws);
    let at = header.len() + 2 * i;
    assert(file[at] == sample_bytes(raws)[2 * i]);
    assert(file[at + 1] == sample_bytes(raws)[2 * i + 1]);
    assert(2 * i / 2 == i && (2 * i + 1) / 2 == i);
    law_sample_bytes_are_exact(raws[i], bytes_i16(raws[i]));
}

// ---------------------------------------------------------------------------
// Which files are accepted
// ---------------------------------------------------------------------------

/// One chunk of a file: its name, its payload, and the pad byte after a payload
/// of odd size.
pub struct Chunk {
    pub id: Seq<u8>,
    pub body: Seq<u8>,
    pub pad: Seq<u8>,
}

impl Chunk {
    /// Nothing of the chunk is missing, and it is not the `data` chunk.
    pub open spec fn is_complete(self) -> bool {
        &&& self.id.len() == 4
        &&& self.id != data_id()
        &&& self.body.len() <= u32::MAX
        &&& self.pad.len() == self.body.len() % 2
    }

    /// The bytes of the chunk.
    pub open spec fn bytes(self) -> Seq<u8> {
        self.id + bytes32(self.body.len() as int) + self.body + self.pad
    }

    /// Why the chunk makes a file unacceptable, if it does: only a `fmt ` chunk
    /// can.
    pub open spec fn error(self) -> Option<WavError> {
        if self.id != format_id() {
            None
        } else if self.body.len() < 16 {
            Some(WavError::FormatTooShort)
        } else {
            format_error(format_of(self.body))
        }
    }

    /// If the chunk is a `fmt ` chunk, it describes 16-bit PCM with one channel
    /// at 44100 Hz.
    pub open spec fn is_acceptable(self) -> bool {
        self.id == seq![0x66u8, 0x6du8, 0x74u8, 0x20u8] ==> {
            &&& self.body.len() >= 16
            &&& self.body[0] + 256 * self.body[1] == 1
            &&& self.body[2] + 256 * self.body[3] == 1
            &&& self.body[4] + 256 * self.body[5] + 65536 * self.body[6] + 16777216
                * self.body[7] == 44100
            &&& self.body[14] + 256 * self.body[15] == 16
        }
    }
}

/// All chunks are complete, and none is the `data` chunk.
pub open spec fn all_complete(chunks: Seq<Chunk>) -> bool {
    forall|i: int| 0 <= i < chunks.len() ==> (#[trigger] chunks[i]).is_complete()
}

/// The bytes of some chunks, one after the other.
pub open spec fn chunk_bytes(chunks: Seq<Chunk>) -> Seq<u8>
    decreases chunks.len(),
{
    if chunks.len() == 0 {
        Seq::empty()
    } else {
        chunk_bytes(chunks.drop_last()) + chunks.last().bytes()
    }
}

/// The first reason that some chunks give for rejecting a file.
pub open spec fn first_error(chunks: Seq<Chunk>) -> Option<WavError>
    decreases chunks.len(),
{
    if chunks.len() == 0 {
        None
    } else {
        match first_error(chunks.drop_last()) {
            Some(error) => Some(error),
            None => chunks.last().error(),
        }
    }
}

/// There is a `fmt ` chunk among them.
pub open spec fn has_format(chunks: Seq<Chunk>) -> bool {
    exists|i: int| 0 <= i < chunks.len() && (#[trigger] chunks[i]).id == format_id()
}

/// The beginning of a file, up to a chunk boundary.
pub open spec fn head(riff_size: Seq<u8>, chunks: Seq<Chunk>) -> Seq<u8> {
    riff_id() + riff_size + wave_id() + chunk_bytes(chunks)
}

/// The parts of a file that is accepted.
pub struct Layout {
    /// The size that follows the `RIFF` letters, whatever it is.
    pub riff_size: Seq<u8>,
    /// The chunks before the `data` chunk.
    pub chunks: Seq<Chunk>,
    /// The size of the `data` chunk.
    pub size: u32,
    /// Everything from the first sample on.
    pub rest: Seq<u8>,
}

impl Layout {
    /// The bytes of the file.
    pub open spec fn bytes(self) -> Seq<u8> {
        head(self.riff_size, self.chunks) + (data_id() + bytes32(self.size as int) + self.rest)
    }

    /// The chunks before the `data` chunk are complete, there is a `fmt ` chunk
    /// among them, and every `fmt ` chunk describes the required format.
    pub open spec fn is_valid(self) -> bool {
        &&& self.riff_size.len() == 4
        &&& all_complete(self.chunks)
        &&& has_format(self.chunks)
        &&& forall|i: int|
            0 <= i < self.chunks.len() ==> (#[trigger] self.chunks[i]).is_acceptable()
    }

    /// `bytes` are a file with this layout.
    #[verifier::opaque]
    pub open spec fn describes(self, bytes: Seq<u8>) -> bool {
        self.is_valid() && bytes == self.bytes()
    }

    /// The `data` chunk, whose samples start where `rest` starts.
    pub open spec fn data_chunk(self) -> DataChunk {
        DataChunk { at: (self.bytes().len() - self.rest.len()) as nat, size: self.size }
    }
}

/// A complete chunk is skipped, unless it is a `fmt ` chunk that is rejected.
proof fn lemma_one_chunk(chunk: Chunk, rest: Seq<u8>, format_seen: bool)
    requires
        chunk.is_complete(),
    ensures
        find_data(chunk.bytes() + rest, format_seen) == match chunk.error() {
            Some(error) => Err(error),
            None => past(
                chunk.bytes().len() as int,
                find_data(rest, format_seen || chunk.id == format_id()),
            ),
        },
{
    let size = chunk.body.len() as int;
    let padded = size + size % 2;
    let file = chunk.bytes() + rest;
    let tail = file.skip(4);
    let body = tail.skip(4);
    assert(file.take(4) =~= chunk.id);
    assert(tail.subrange(0, 4) =~= bytes32(size));
    lemma_field32(tail, 0, size);
    assert(body =~= chunk.body + chunk.pad + rest);
    assert(body.skip(padded) =~= rest);
    assert(chunk.bytes().len() == 8 + padded);
    lemma_past_twice(4, 4 + padded, find_data(rest, format_seen));
    lemma_past_twice(4, 4 + padded, find_data(rest, true));
    if chunk.id == format_id() {
        assert(format_id()[0] != data_id()[0]);
        if size >= 16 {
            assert(format_of(body) == format_of(chunk.body));
            assert(after_id(chunk.id, tail, format_seen) == past(
                4 + padded,
                after_format(format_of(body), rest),
            ));
        }
    }
}

/// Complete chunks are skipped one after the other.
proof fn lemma_chunks_are_walked(chunks: Seq<Chunk>, rest: Seq<u8>, format_seen: bool)
    requires
        all_complete(chunks),
    ensures
        find_data(chunk_bytes(chunks) + rest, format_seen) == match first_error(chunks) {
            Some(error) => Err(error),
            None => past(
                chunk_bytes(chunks).len() as int,
                find_data(rest, format_seen || has_format(chunks)),
            ),
        },
    decreases chunks.len(),
{
    if chunks.len() == 0 {
        assert(chunk_bytes(chunks) + rest =~= rest);
    } else {
        let shorter = chunks.drop_last();
        let last = chunks.last();
        assert forall|i: int| 0 <= i < shorter.len() implies (
        #[trigger] shorter[i]).is_complete() by {
            assert(chunks[i].is_complete());
        }
        assert(chunks[chunks.len() - 1].is_complete());
        assert(chunk_bytes(chunks) + rest =~= chunk_bytes(shorter) + (last.bytes() + rest));
        lemma_chunks_are_walked(shorter, last.bytes() + rest, format_seen);
        lemma_one_chunk(last, rest, format_seen || has_format(shorter));
        assert(has_format(chunks) <==> has_format(shorter) || last.id == format_id()) by {
            lemma_has_format(shorter, last);
            assert(shorter.push(last) =~= chunks);
        }
        lemma_past_twice(
            chunk_bytes(shorter).len() as int,
            last.bytes().len() as int,
            find_data(rest, format_seen || has_format(chunks)),
        );
    }
}

proof fn lemma_has_format(chunks: Seq<Chunk>, chunk: Chunk)
    ensures
        has_format(chunks.push(chunk)) <==> has_format(chunks) || chunk.id == format_id(),
{
    let longer = chunks.push(chunk);
    if has_format(chunks) {
        let i = choose|i: int| 0 <= i < chunks.len() && (#[trigger] chunks[i]).id == format_id();
        assert(longer[i].id == format_id());
    }
    if chunk.id == format_id() {
        assert(longer[chunks.len() as int].id == format_id());
    }
    if has_format(longer) && chunk.id != format_id() {
        let i = choose|i: int| 0 <= i < longer.len() && (#[trigger] longer[i]).id == format_id();
        assert(chunks[i].id == format_id());
    }
}

/// The beginning of a file leads to the chunk after it.
proof fn lemma_head_is_walked(riff_size: Seq<u8>, chunks: Seq<Chunk>, rest: Seq<u8>)
    requires
        riff_size.len() == 4,
        all_complete(chunks),
    ensures
        parse_header(head(riff_size, chunks) + rest) == match first_error(chunks) {
            Some(error) => Err(error),
            None => past(
                head(riff_size, chunks).len() as int,
                find_data(rest, has_format(chunks)),
            ),
        },
{
    let file = head(riff_size, chunks) + rest;
    let walked = chunk_bytes(chunks) + rest;
    assert(file.take(4) =~= riff_id());
    assert(file.skip(4).subrange(4, 8) =~= wave_id());
    assert(file.skip(4).skip(8) =~= walked);
    lemma_chunks_are_walked(chunks, rest, false);
    lemma_past_twice(4, 8, find_data(walked, false));
    lemma_past_twice(
        12,
        chunk_bytes(chunks).len() as int,
        find_data(rest, has_format(chunks)),
    );
    assert(head(riff_size, chunks).len() == 12 + chunk_bytes(chunks).len());
}

/// The `data` chunk ends the walk.
proof fn lemma_data_is_found(size: u32, rest: Seq<u8>)
    ensures
        find_data(data_id() + bytes32(size as int) + rest, true) == Ok::<DataChunk, WavError>(
            (DataChunk { at: 8, size }),
        ),
{
    let file = data_id() + bytes32(size as int) + rest;
    assert(file.take(4) =~= data_id());
    assert(file.skip(4).subrange(0, 4) =~= bytes32(size as int));
    lemma_field32(file.skip(4), 0, size as int);
    assert(data_id()[0] != format_id()[0]);
}

/// The chunks that give no reason for rejecting a file are the acceptable ones.
proof fn lemma_acceptable(chunk: Chunk)
    ensures
        chunk.error() is None <==> chunk.is_acceptable(),
{
    if chunk.id == format_id() && chunk.body.len() >= 16 {
        let format = format_of(chunk.body);
        assert(format.tag == chunk.body[0] + 256 * chunk.body[1]);
        assert(format.channels == chunk.body[2] + 256 * chunk.body[3]);
        assert(format.sample_rate == chunk.body[4] + 256 * chunk.body[5] + 65536 * chunk.body[6]
            + 16777216 * chunk.body[7]);
        assert(format.bits_per_sample == chunk.body[14] + 256 * chunk.body[15]);
    }
}

/// No chunk that is not rejected gives a reason.
proof fn lemma_no_error(chunks: Seq<Chunk>)
    ensures
        first_error(chunks) is None <==> forall|i: int|
            0 <= i < chunks.len() ==> (#[trigger] chunks[i]).is_acceptable(),
    decreases chunks.len(),
{
    if chunks.len() > 0 {
        let shorter = chunks.drop_last();
        lemma_no_error(shorter);
        lemma_acceptable(chunks.last());
        assert(chunks[chunks.len() - 1] == chunks.last());
        assert forall|i: int| 0 <= i < shorter.len() implies #[trigger] shorter[i]
            == chunks[i] by {}
        if first_error(chunks) is None {
            assert forall|i: int| 0 <= i < chunks.len() implies (
            #[trigger] chunks[i]).is_acceptable() by {
                if i < shorter.len() {
                    assert(shorter[i].is_acceptable());
                }
            }
        }
        if forall|i: int| 0 <= i < chunks.len() ==> (#[trigger] chunks[i]).is_acceptable() {
            assert forall|i: int| 0 <= i < shorter.len() implies (
            #[trigger] shorter[i]).is_acceptable() by {
                assert(chunks[i].is_acceptable());
            }
            assert(chunks.last().is_acceptable());
        }
    }
}

/// The bytes of a 32-bit number are the bytes that it was read from.
proof fn lemma_bytes_of_field(field: Seq<u8>)
    requires
        field.len() == 4,
    ensures
        bytes32(le32(field, 0)) == field,
        0 <= le32(field, 0) <= u32::MAX,
{
    lemma_digits(field[0] as int, field[1] as int, field[2] as int, field[3] as int);
    assert(bytes32(le32(field, 0)) =~= field);
}

/// The digits of a number in base 256.
proof fn lemma_digits(a: int, b: int, c: int, d: int)
    requires
        0 <= a < 256,
        0 <= b < 256,
        0 <= c < 256,
        0 <= d < 256,
    ensures
        ({
            let value = a + 256 * b + 65536 * c + 16777216 * d;
            &&& value % 256 == a
            &&& value / 256 % 256 == b
            &&& value / 65536 % 256 == c
            &&& value / 16777216 % 256 == d
        }),
{
    let value = a + 256 * b + 65536 * c + 16777216 * d;
    assert(value / 256 == b + 256 * c + 65536 * d);
    assert(value / 65536 == c + 256 * d);
    assert(value / 16777216 == d);
}

/// The first chunk of a file in which the `data` chunk is found, unless it is
/// the `data` chunk itself.
proof fn lemma_first_chunk(rest: Seq<u8>, format_seen: bool) -> (chunk: Chunk)
    requires
        find_data(rest, format_seen) is Ok,
        rest.take(4) != data_id(),
    ensures
        chunk.is_complete(),
        chunk.error() is None,
        rest == chunk.bytes() + rest.skip(chunk.bytes().len() as int),
        chunk.bytes().len() <= rest.len(),
        find_data(
            rest.skip(chunk.bytes().len() as int),
            format_seen || chunk.id == format_id(),
        ) is Ok,
{
    let id = rest.take(4);
    let tail = rest.skip(4);
    assert(after_id(id, tail, format_seen) is Ok);
    let size = le32(tail, 0);
    let padded = size + size % 2;
    let payload = tail.skip(4);
    let chunk = Chunk { id, body: payload.take(size), pad: payload.subrange(size, padded) };
    lemma_bytes_of_field(tail.take(4));
    assert(le32(tail.take(4), 0) == size);
    assert(tail.take(4) == bytes32(size));
    assert(chunk.bytes().len() == 8 + padded);
    assert(rest =~= chunk.bytes() + rest.skip(8 + padded));
    assert(payload.skip(padded) =~= rest.skip(8 + padded));
    if id == format_id() {
        assert(format_of(payload) == format_of(chunk.body));
        assert(after_format(format_of(payload), payload.skip(padded)) is Ok);
    } else {
        assert(find_data(payload.skip(padded), format_seen) is Ok);
    }
    chunk
}

/// The chunks of a file in which the `data` chunk is found, after `before`.
proof fn lemma_chunks_of(rest: Seq<u8>, before: Seq<Chunk>) -> (layout: Layout)
    requires
        find_data(rest, has_format(before)) is Ok,
        all_complete(before),
        first_error(before) is None,
    ensures
        all_complete(layout.chunks),
        first_error(layout.chunks) is None,
        has_format(layout.chunks),
        chunk_bytes(before) + rest == chunk_bytes(layout.chunks) + (data_id() + bytes32(
            layout.size as int,
        ) + layout.rest),
    decreases rest.len(),
{
    if rest.take(4) == data_id() {
        let tail = rest.skip(4);
        assert(after_id(data_id(), tail, has_format(before)) is Ok);
        assert(data_id()[0] != format_id()[0]);
        lemma_bytes_of_field(tail.take(4));
        let size = le32(tail, 0);
        assert(le32(tail.take(4), 0) == size);
        let layout = Layout {
            riff_size: Seq::empty(),
            chunks: before,
            size: size as u32,
            rest: rest.skip(8),
        };
        assert(rest =~= data_id() + bytes32(size) + rest.skip(8));
        layout
    } else {
        let chunk = lemma_first_chunk(rest, has_format(before));
        let length = chunk.bytes().len() as int;
        let longer = before.push(chunk);
        lemma_has_format(before, chunk);
        assert(longer.drop_last() =~= before);
        assert(chunk_bytes(longer) + rest.skip(length) =~= chunk_bytes(before) + rest);
        lemma_chunks_of(rest.skip(length), longer)
    }
}

/// A file is accepted if and only if it consists of the `RIFF` letters, any
/// size, the `WAVE` letters, and complete chunks, at least one of them a `fmt `
/// chunk and all of these in the required format, up to a `data` chunk; and then
/// the samples are found right after the size of that chunk.
pub proof fn law_accepted_files_are_the_well_formed_ones(bytes: Seq<u8>)
    ensures
        parse_header(bytes) is Ok <==> exists|layout: Layout| #[trigger] layout.describes(bytes),
        forall|layout: Layout| #[trigger]
            layout.describes(bytes) ==> parse_header(bytes) == Ok::<DataChunk, WavError>(
                layout.data_chunk(),
            ),
{
    assert forall|layout: Layout| #[trigger] layout.describes(bytes) implies parse_header(bytes)
        == Ok::<DataChunk, WavError>(layout.data_chunk()) by {
        reveal(Layout::describes);
        lemma_layout_is_accepted(layout);
    }
    if parse_header(bytes) is Ok {
        let layout = lemma_layout_of(bytes);
        assert(layout.describes(bytes));
    }
}

proof fn lemma_layout_is_accepted(layout: Layout)
    requires
        layout.is_valid(),
    ensures
        parse_header(layout.bytes()) == Ok::<DataChunk, WavError>(layout.data_chunk()),
{
    let rest = data_id() + bytes32(layout.size as int) + layout.rest;
    lemma_no_error(layout.chunks);
    lemma_head_is_walked(layout.riff_size, layout.chunks, rest);
    lemma_data_is_found(layout.size, layout.rest);
}

proof fn lemma_layout_of(bytes: Seq<u8>) -> (layout: Layout)
    requires
        parse_header(bytes) is Ok,
    ensures
        layout.describes(bytes),
{
    let rest = bytes.skip(4).skip(8);
    assert(find_data(rest, false) is Ok);
    let found = lemma_chunks_of(rest, Seq::empty());
    let layout = Layout { riff_size: bytes.subrange(4, 8), ..found };
    lemma_no_error(layout.chunks);
    assert(bytes.skip(4).subrange(4, 8) =~= bytes.subrange(8, 12));
    assert(chunk_bytes(Seq::empty()) + rest =~= rest);
    assert(bytes =~= riff_id() + bytes.subrange(4, 8) + wave_id() + rest);
    assert(bytes =~= layout.bytes());
    reveal(Layout::describes);
    layout
}

/// The size after the `RIFF` letters does not matter.
pub proof fn law_riff_size_is_ignored(bytes: Seq<u8>, other: Seq<u8>)
    requires
        bytes.len() == other.len(),
        forall|i: int|
            0 <= i < bytes.len() && !(4 <= i < 8) ==> #[trigger] bytes[i] == other[i],
    ensures
        parse_header(bytes) == parse_header(other),
{
    if bytes.len() >= 4 {
        assert(bytes.take(4) =~= other.take(4));
        if bytes.len() >= 12 {
            assert(bytes.skip(4).subrange(4, 8) =~= other.skip(4).subrange(4, 8));
            assert(bytes.skip(4).skip(8) =~= other.skip(4).skip(8));
        }
    }
}

/// A complete chunk that is neither `fmt ` nor `data` can stand at any chunk
/// boundary before the `data` chunk: the outcome is the same, only the samples
/// are found as much later as the chunk is long.
pub proof fn law_other_chunks_are_skipped(
    riff_size: Seq<u8>,
    chunks: Seq<Chunk>,
    other: Chunk,
    rest: Seq<u8>,
)
    requires
        riff_size.len() == 4,
        all_complete(chunks),
        other.is_complete(),
        other.id != format_id(),
    ensures
        ({
            let without = head(riff_size, chunks) + rest;
            let with = head(riff_size, chunks) + other.bytes() + rest;
            let length = other.bytes().len() as int;
            match parse_header(without) {
                Ok(chunk) => {
                    &&& parse_header(with) == Ok::<DataChunk, WavError>(
                        (DataChunk { at: (chunk.at + length) as nat, size: chunk.size }),
                    )
                    &&& with.skip(chunk.at + length) == without.skip(chunk.at as int)
                },
                Err(error) => parse_header(with) == Err::<DataChunk, WavError>(error),
            }
        }),
{
    lemma_outcome_with_other(riff_size, chunks, other, rest);
    let without = head(riff_size, chunks) + rest;
    if let Ok(chunk) = parse_header(without) {
        let layout = lemma_layout_of(without);
        reveal(Layout::describes);
        lemma_layout_is_accepted(layout);
        lemma_inserted(head(riff_size, chunks), other.bytes(), rest, chunk.at as int);
    }
}

proof fn lemma_outcome_with_other(
    riff_size: Seq<u8>,
    chunks: Seq<Chunk>,
    other: Chunk,
    rest: Seq<u8>,
)
    requires
        riff_size.len() == 4,
        all_complete(chunks),
        other.is_complete(),
        other.id != format_id(),
    ensures
        parse_header(head(riff_size, chunks) + other.bytes() + rest) == past(
            other.bytes().len() as int,
            parse_header(head(riff_size, chunks) + rest),
        ),
        parse_header(head(riff_size, chunks) + rest) matches Ok(chunk) ==> chunk.at >= head(
            riff_size,
            chunks,
        ).len(),
{
    let longer = chunks.push(other);
    assert(longer.drop_last() =~= chunks);
    assert(head(riff_size, longer) =~= head(riff_size, chunks) + other.bytes());
    lemma_has_format(chunks, other);
    lemma_head_is_walked(riff_size, chunks, rest);
    lemma_head_is_walked(riff_size, longer, rest);
}

/// What follows an insertion is what followed before.
proof fn lemma_inserted(before: Seq<u8>, inserted: Seq<u8>, rest: Seq<u8>, at: int)
    requires
        before.len() <= at <= before.len() + rest.len(),
    ensures
        (before + inserted + rest).skip(at + inserted.len()) == (before + rest).skip(at),
{
    assert((before + inserted + rest).skip(at + inserted.len()) =~= (before + rest).skip(at));
}

// ---------------------------------------------------------------------------
// Numbers, formats and headers, byte by byte
// ---------------------------------------------------------------------------

/// Numbers are stored with the lowest byte first, and signed ones in two's
/// complement.
pub proof fn law_numbers_are_little_endian(bytes: Seq<u8>, at: int, value: int)
    requires
        0 <= at,
        at + 4 <= bytes.len(),
    ensures
        le16(bytes, at) == bytes[at] + 256 * bytes[at + 1],
        le32(bytes, at) == bytes[at] + 256 * bytes[at + 1] + 65536 * bytes[at + 2] + 16777216
            * bytes[at + 3],
        bytes[at + 1] < 128 ==> le_i16(bytes, at) == bytes[at] + 256 * bytes[at + 1],
        bytes[at + 1] >= 128 ==> le_i16(bytes, at) == bytes[at] + 256 * (bytes[at + 1] - 256),
        bytes16(value).len() == 2,
        0 <= value < 65536 ==> bytes16(value)[0] + 256 * bytes16(value)[1] == value,
        bytes32(value).len() == 4,
        0 <= value < 4294967296 ==> bytes32(value)[0] + 256 * bytes32(value)[1] + 65536
            * bytes32(value)[2] + 16777216 * bytes32(value)[3] == value,
        bytes_i16(value).len() == 2,
        0 <= value < 32768 ==> bytes_i16(value)[0] + 256 * bytes_i16(value)[1] == value,
        -32768 <= value < 0 ==> bytes_i16(value)[0] + 256 * (bytes_i16(value)[1] - 256) == value,
{
}

/// Clipping gives the sample that is nearest to a value.
pub proof fn law_clipping_gives_the_nearest_sample(value: int, other: int)
    requires
        -32768 <= other <= 32767,
    ensures
        -32768 <= clipped(value) <= 32767,
        value <= other ==> value <= clipped(value) <= other || clipped(value) == -32768,
        value >= other ==> value >= clipped(value) >= other || clipped(value) == 32767,
        -32768 <= value <= 32767 ==> clipped(value) == value,
        value > 32767 ==> clipped(value) == 32767,
        value < -32768 ==> clipped(value) == -32768,
{
}

/// One format is accepted: 16-bit PCM with one channel at 44100 Hz.  Any other
/// is rejected for the first field that differs, and with the value of that
/// field.
pub proof fn law_one_format_is_accepted(format: Format)
    ensures
        format_error(format) is None <==> format.tag == 1 && format.channels == 1
            && format.sample_rate == 44100 && format.bits_per_sample == 16,
        format.tag != 1 ==> format_error(format) == Some(WavError::FormatTag(format.tag)),
        format.tag == 1 && format.channels != 1 ==> format_error(format) == Some(
            WavError::Channels(format.channels),
        ),
        format.tag == 1 && format.channels == 1 && format.sample_rate != 44100 ==> format_error(
            format,
        ) == Some(WavError::SampleRate(format.sample_rate)),
        format.tag == 1 && format.channels == 1 && format.sample_rate == 44100
            && format.bits_per_sample != 16 ==> format_error(format) == Some(
            WavError::BitsPerSample(format.bits_per_sample),
        ),
{
}

/// The fields of a header: every letter and every number, at its position.
///
/// The size of the samples in bytes is stored in 32 bits, and the first size
/// counts everything that comes after it.
pub proof fn law_header_describes_the_samples(samples: int)
    requires
        0 <= samples,
        36 + 2 * samples % 4294967296 <= u32::MAX,
    ensures
        ({
            let h = header_bytes(samples);
            let size = 2 * samples % 4294967296;
            &&& h.len() == 44
            &&& h[0] == 0x52 && h[1] == 0x49 && h[2] == 0x46 && h[3] == 0x46
            &&& h[4] + 256 * h[5] + 65536 * h[6] + 16777216 * h[7] == 36 + size
            &&& h[8] == 0x57 && h[9] == 0x41 && h[10] == 0x56 && h[11] == 0x45
            &&& h[12] == 0x66 && h[13] == 0x6d && h[14] == 0x74 && h[15] == 0x20
            &&& h[16] + 256 * h[17] + 65536 * h[18] + 16777216 * h[19] == 16
            &&& h[20] + 256 * h[21] == 1
            &&& h[22] + 256 * h[23] == 1
            &&& h[24] + 256 * h[25] + 65536 * h[26] + 16777216 * h[27] == 44100
            &&& h[28] + 256 * h[29] + 65536 * h[30] + 16777216 * h[31] == 88200
            &&& h[32] + 256 * h[33] == 2
            &&& h[34] + 256 * h[35] == 16
            &&& h[36] == 0x64 && h[37] == 0x61 && h[38] == 0x74 && h[39] == 0x61
            &&& h[40] + 256 * h[41] + 65536 * h[42] + 16777216 * h[43] == size
        }),
{
    let h = header_bytes(samples);
    let nothing = Seq::<u8>::empty();
    assert(h + nothing =~= h);
    lemma_header_parts(samples, nothing);
    assert(h.take(4) =~= h.subrange(0, 4));
    lemma_letters(h, 0, 0x52, 0x49, 0x46, 0x46);
    lemma_letters(h, 8, 0x57, 0x41, 0x56, 0x45);
    lemma_letters(h, 12, 0x66, 0x6d, 0x74, 0x20);
    lemma_letters(h, 36, 0x64, 0x61, 0x74, 0x61);
    lemma_field32(h, 16, 16);
    lemma_field16(h, 20, 1);
    lemma_field16(h, 22, 1);
    lemma_field32(h, 24, 44100);
    lemma_field32(h, 28, 88200);
    lemma_field16(h, 32, 2);
    lemma_field16(h, 34, 16);
    lemma_header_sizes(samples);
}

/// The two sizes in a header.
proof fn lemma_header_sizes(samples: int)
    requires
        0 <= samples,
        36 + 2 * samples % 4294967296 <= u32::MAX,
    ensures
        ({
            let h = header_bytes(samples);
            let size = 2 * samples % 4294967296;
            &&& h.len() == 44
            &&& h[4] + 256 * h[5] + 65536 * h[6] + 16777216 * h[7] == 36 + size
            &&& h[40] + 256 * h[41] + 65536 * h[42] + 16777216 * h[43] == size
        }),
{
    let h = header_bytes(samples);
    let size = 2 * samples % 4294967296;
    let nothing = Seq::<u8>::empty();
    assert(h + nothing =~= h);
    lemma_header_parts(samples, nothing);
    lemma_field32(h, 4, 36 + size);
    lemma_field32(h, 40, size);
}

/// A file can be finished if and only if the size of its samples, of which the
/// field keeps 32 bits, leaves room for the header; so every file of up to 4 GB
/// can.
pub proof fn law_files_that_can_be_finished(samples: int)
    requires
        0 <= samples,
        2 * samples <= u64::MAX,
    ensures
        sizes_fit(samples) <==> 2 * samples % 4294967296 < 4294967260,
        2 * samples < 4294967260 ==> sizes_fit(samples),
{
}

/// The sizes in a file are right: the first is the number of bytes that come
/// after it, and that of the `data` chunk the number of bytes that come after
/// the header.  These bytes are the samples, two for each.
pub proof fn law_sizes_in_a_file_are_right(raws: Seq<int>)
    requires
        36 + 2 * raws.len() <= u32::MAX,
    ensures
        ({
            let file = wav_image(raws);
            &&& file.len() == 44 + 2 * raws.len()
            &&& file[4] + 256 * file[5] + 65536 * file[6] + 16777216 * file[7] == file.len() - 8
            &&& file[40] + 256 * file[41] + 65536 * file[42] + 16777216 * file[43] == file.len()
                - 44
            &&& forall|i: int|
                0 <= i < raws.len() && -32768 <= #[trigger] raws[i] <= 32767 ==> {
                    let high = file[45 + 2 * i] as int;
                    raws[i] == file[44 + 2 * i] + 256 * if high < 128 {
                        high
                    } else {
                        high - 256
                    }
                }
        }),
{
    let count = raws.len() as int;
    let file = wav_image(raws);
    let header = header_bytes(count);
    law_header_describes_the_samples(count);
    assert(file.take(44) =~= header);
    assert forall|n: int| 0 <= n < 44 implies #[trigger] file[n] == header[n] by {}
    assert forall|i: int| 0 <= i < raws.len() && -32768 <= #[trigger] raws[i] <= 32767 implies {
        let high = file[45 + 2 * i] as int;
        raws[i] == file[44 + 2 * i] + 256 * if high < 128 {
            high
        } else {
            high - 256
        }
    } by {
        let two = bytes_i16(raws[i]);
        law_numbers_are_little_endian(bytes32(0), 0, raws[i]);
        assert(file[44 + 2 * i] == sample_bytes(raws)[2 * i]);
        assert(file[45 + 2 * i] == sample_bytes(raws)[2 * i + 1]);
        assert(2 * i / 2 == i && (2 * i + 1) / 2 == i);
        assert(file[44 + 2 * i] == two[0] && file[45 + 2 * i] == two[1]);
    }
}

/// What is wrong with the first twelve bytes of a file, if something is.
pub proof fn law_other_files_are_rejected(bytes: Seq<u8>)
    ensures
        ({
            let found = parse_header(bytes);
            let riff = bytes.len() >= 4 && bytes[0] == 0x52 && bytes[1] == 0x49 && bytes[2] == 0x46
                && bytes[3] == 0x46;
            let wave = bytes.len() >= 12 && bytes[8] == 0x57 && bytes[9] == 0x41 && bytes[10] == 0x56
                && bytes[11] == 0x45;
            &&& bytes.len() < 4 ==> found == Err::<DataChunk, WavError>(WavError::UnexpectedEnd)
            &&& bytes.len() >= 4 && !riff ==> found == Err::<DataChunk, WavError>(
                WavError::NotRiff,
            )
            &&& riff && bytes.len() < 12 ==> found == Err::<DataChunk, WavError>(
                WavError::UnexpectedEnd,
            )
            &&& riff && bytes.len() >= 12 && !wave ==> found == Err::<DataChunk, WavError>(
                WavError::NotWave,
            )
        }),
{
    if bytes.len() >= 4 {
        let first = bytes.take(4);
        assert(first[0] == bytes[0] && first[1] == bytes[1] && first[2] == bytes[2] && first[3]
            == bytes[3]);
        if bytes[0] == 0x52 && bytes[1] == 0x49 && bytes[2] == 0x46 && bytes[3] == 0x46 {
            assert(first =~= riff_id());
        }
        if bytes.len() >= 12 {
            let form = bytes.skip(4).subrange(4, 8);
            assert(form[0] == bytes[8] && form[1] == bytes[9] && form[2] == bytes[10] && form[3]
                == bytes[11]);
        }
    }
}

/// What is wrong with the chunk that follows complete and acceptable ones, if
/// something is.
pub proof fn law_bad_chunks_are_rejected(riff_size: Seq<u8>, chunks: Seq<Chunk>, rest: Seq<u8>)
    requires
        riff_size.len() == 4,
        all_complete(chunks),
        forall|i: int| 0 <= i < chunks.len() ==> (#[trigger] chunks[i]).is_acceptable(),
    ensures
        ({
            let found = parse_header(head(riff_size, chunks) + rest);
            let size = rest[4] + 256 * rest[5] + 65536 * rest[6] + 16777216 * rest[7];
            let whole = rest.len() >= 8 + size + size % 2;
            let format = rest[0] == 0x66 && rest[1] == 0x6d && rest[2] == 0x74 && rest[3] == 0x20;
            let data = rest[0] == 0x64 && rest[1] == 0x61 && rest[2] == 0x74 && rest[3] == 0x61;
            let tag = rest[8] + 256 * rest[9];
            let channels = rest[10] + 256 * rest[11];
            let rate = rest[12] + 256 * rest[13] + 65536 * rest[14] + 16777216 * rest[15];
            let bits = rest[22] + 256 * rest[23];
            &&& rest.len() < 4 ==> found == Err::<DataChunk, WavError>(WavError::NoData)
            &&& 4 <= rest.len() < 8 ==> found == Err::<DataChunk, WavError>(
                WavError::UnexpectedEnd,
            )
            &&& rest.len() >= 8 && data ==> found == if has_format(chunks) {
                Ok::<DataChunk, WavError>(
                    (DataChunk { at: head(riff_size, chunks).len() + 8, size: size as u32 }),
                )
            } else {
                Err(WavError::DataBeforeFormat)
            }
            &&& rest.len() >= 8 && format && size < 16 ==> found == Err::<DataChunk, WavError>(
                WavError::FormatTooShort,
            )
            &&& rest.len() >= 8 && !data && !(format && size < 16) && !whole ==> found == Err::<
                DataChunk,
                WavError,
            >(WavError::UnexpectedEnd)
            &&& rest.len() >= 8 && format && size >= 16 && whole ==> {
                &&& tag != 1 ==> found == Err::<DataChunk, WavError>(
                    WavError::FormatTag(tag as u16),
                )
                &&& tag == 1 && channels != 1 ==> found == Err::<DataChunk, WavError>(
                    WavError::Channels(channels as u16),
                )
                &&& tag == 1 && channels == 1 && rate != 44100 ==> found == Err::<
                    DataChunk,
                    WavError,
                >(WavError::SampleRate(rate as u32))
                &&& tag == 1 && channels == 1 && rate == 44100 && bits != 16 ==> found == Err::<
                    DataChunk,
                    WavError,
                >(WavError::BitsPerSample(bits as u16))
            }
        }),
{
    lemma_no_error(chunks);
    lemma_head_is_walked(riff_size, chunks, rest);
    lemma_next_chunk(rest, has_format(chunks));
}

/// The outcome of one more chunk.
proof fn lemma_next_chunk(rest: Seq<u8>, format_seen: bool)
    ensures
        ({
            let found = find_data(rest, format_seen);
            let size = rest[4] + 256 * rest[5] + 65536 * rest[6] + 16777216 * rest[7];
            let whole = rest.len() >= 8 + size + size % 2;
            let format = rest[0] == 0x66 && rest[1] == 0x6d && rest[2] == 0x74 && rest[3] == 0x20;
            let data = rest[0] == 0x64 && rest[1] == 0x61 && rest[2] == 0x74 && rest[3] == 0x61;
            let fields = Format {
                tag: (rest[8] + 256 * rest[9]) as u16,
                channels: (rest[10] + 256 * rest[11]) as u16,
                sample_rate: (rest[12] + 256 * rest[13] + 65536 * rest[14] + 16777216
                    * rest[15]) as u32,
                bits_per_sample: (rest[22] + 256 * rest[23]) as u16,
            };
            &&& rest.len() < 4 ==> found == Err::<DataChunk, WavError>(WavError::NoData)
            &&& 4 <= rest.len() < 8 ==> found == Err::<DataChunk, WavError>(
                WavError::UnexpectedEnd,
            )
            &&& rest.len() >= 8 && data ==> found == if format_seen {
                Ok::<DataChunk, WavError>((DataChunk { at: 8, size: size as u32 }))
            } else {
                Err(WavError::DataBeforeFormat)
            }
            &&& rest.len() >= 8 && format && size < 16 ==> found == Err::<DataChunk, WavError>(
                WavError::FormatTooShort,
            )
            &&& rest.len() >= 8 && !data && !(format && size < 16) && !whole ==> found == Err::<
                DataChunk,
                WavError,
            >(WavError::UnexpectedEnd)
            &&& rest.len() >= 8 && format && size >= 16 && whole ==> (format_error(
                fields,
            ) matches Some(error) ==> found == Err::<DataChunk, WavError>(error))
        }),
{
    if rest.len() >= 4 {
        let id = rest.take(4);
        let tail = rest.skip(4);
        assert(id[0] == rest[0] && id[1] == rest[1] && id[2] == rest[2] && id[3] == rest[3]);
        if id[0] == 0x66 && id[1] == 0x6d && id[2] == 0x74 && id[3] == 0x20 {
            assert(id =~= format_id());
        }
        if id[0] == 0x64 && id[1] == 0x61 && id[2] == 0x74 && id[3] == 0x61 {
            assert(id =~= data_id());
        }
        if rest.len() >= 8 {
            let size = le32(tail, 0);
            let body = tail.skip(4);
            let padded = size + size % 2;
            assert(size == rest[4] + 256 * rest[5] + 65536 * rest[6] + 16777216 * rest[7]);
            if id == format_id() && size >= 16 && body.len() >= padded {
                assert(body[0] == rest[8] && body[1] == rest[9] && body[2] == rest[10] && body[3]
                    == rest[11]);
                assert(body[4] == rest[12] && body[5] == rest[13] && body[6] == rest[14] && body[7]
                    == rest[15]);
                assert(body[14] == rest[22] && body[15] == rest[23]);
                assert(after_id(id, tail, format_seen) == past(
                    4 + padded,
                    after_format(format_of(body), body.skip(padded)),
                ));
            }
        }
    }
}

/// A message names the value that was found.
pub proof fn law_messages_name_the_value(tag: u16, channels: u16, rate: u32, bits: u16)
    ensures
        WavError::FormatTag(tag).message_chars() == "unsupported WAV format tag "@
            + crate::text::decimal_chars(tag as nat)
            + " (only uncompressed PCM = 1 is supported)"@,
        WavError::Channels(channels).message_chars() == "expected 1 channel, found "@
            + crate::text::decimal_chars(channels as nat),
        WavError::SampleRate(rate).message_chars() == "expected 44100 Hz, found "@
            + crate::text::decimal_chars(rate as nat) + " Hz"@,
        WavError::BitsPerSample(bits).message_chars() == "expected 16 bits per sample, found "@
            + crate::text::decimal_chars(bits as nat),
{
    reveal_strlit("expected ");
    reveal_strlit(" channel, found ");
    reveal_strlit("expected 1 channel, found ");
    reveal_strlit(" Hz, found ");
    reveal_strlit("expected 44100 Hz, found ");
    reveal_strlit(" bits per sample, found ");
    reveal_strlit("expected 16 bits per sample, found ");
    reveal_with_fuel(crate::text::decimal_chars, 6);
    assert("expected "@ + crate::text::decimal_chars(1) + " channel, found "@
        =~= "expected 1 channel, found "@);
    assert("expected "@ + crate::text::decimal_chars(44100) + " Hz, found "@
        =~= "expected 44100 Hz, found "@);
    assert("expected "@ + crate::text::decimal_chars(16) + " bits per sample, found "@
        =~= "expected 16 bits per sample, found "@);
}

/// The samples of a file start after its header.
proof fn lemma_where_samples_are(bytes: Seq<u8>, layout: Layout)
    requires
        layout.describes(bytes),
    ensures
        parse_header(bytes) == Ok::<DataChunk, WavError>(
            (DataChunk { at: (bytes.len() - layout.rest.len()) as nat, size: layout.size }),
        ),
        layout.rest.len() <= bytes.len(),
{
    law_accepted_files_are_the_well_formed_ones(bytes);
    reveal(Layout::describes);
}

/// `raw` is the signed number of the two bytes at position `at`, the lower one
/// first.
pub open spec fn is_sample_at(bytes: Seq<u8>, at: int, raw: int) -> bool {
    raw == bytes[at] + 256 * if bytes[at + 1] < 128 {
        bytes[at + 1] as int
    } else {
        bytes[at + 1] - 256
    }
}

/// The samples of a file that is held in memory, or the reason why there are
/// none: the header is rejected, or the file ends before its last sample.
pub fn read_wav(bytes: &[u8]) -> (samples: Result<Vec<i16>, WavError>)
    ensures
        samples is Ok ==> exists|layout: Layout| #[trigger] layout.describes(bytes@),
        forall|layout: Layout| #[trigger]
            layout.describes(bytes@) ==> {
                let count = layout.size as nat / 2;
                let first = bytes@.len() - layout.rest.len();
                if layout.rest.len() < 2 * count {
                    samples == Err::<Vec<i16>, WavError>(WavError::UnexpectedEnd)
                } else {
                    &&& samples matches Ok(raws) && raws@.len() == count
                    &&& forall|i: int|
                        0 <= i < count ==> is_sample_at(
                            bytes@,
                            first + 2 * i,
                            #[trigger] samples.unwrap()@[i] as int,
                        )
                }
            },
        parse_header(bytes@) matches Err(error) ==> samples == Err::<Vec<i16>, WavError>(error),
{
    proof {
        law_accepted_files_are_the_well_formed_ones(bytes@);
    }
    let (mut reader, first): (WavReader<WavError>, usize) = match WavReader::new(bytes) {
        Ok(opened) => opened,
        Err(error) => {
            return Err(error);
        },
    };
    let ghost count = reader.size();
    let ghost chunk = parse_header(bytes@).unwrap();
    proof {
        let layout = lemma_layout_of(bytes@);
        assert(layout.describes(bytes@));
        assert forall|layout: Layout| #[trigger] layout.describes(bytes@) implies chunk.size
            == layout.size && chunk.at == bytes@.len() - layout.rest.len() by {
            lemma_where_samples_are(bytes@, layout);
        }
    }
    let mut samples: Vec<i16> = Vec::new();
    let mut at: usize = first;
    while reader.wants_sample()
        invariant
            reader.wf(),
            reader.left() + samples@.len() == count,
            at == first + 2 * samples@.len(),
            at <= bytes@.len(),
            forall|i: int|
                0 <= i < samples@.len() ==> is_sample_at(
                    bytes@,
                    first + 2 * i,
                    #[trigger] samples@[i] as int,
                ),
            reader.failure() matches Some(error) ==> error == WavError::UnexpectedEnd
                && bytes@.len() < first + 2 * count,
        decreases
                reader.left() + if reader.failure() is None {
                    1int
                } else {
                    0
                },
    {
        let read = if bytes.len() - at >= 2 {
            Ok([bytes[at], bytes[at + 1]])
        } else {
            Err(WavError::UnexpectedEnd)
        };
        match reader.next(read) {
            Some(raw) => {
                samples.push(raw);
                at = at + 2;
            },
            None => {},
        }
    }
    match reader.take_error() {
        Some(error) => Err(error),
        None => Ok(samples),
    }
}

/// Copies a file that is held in memory: what is read from it is written to a new
/// file.
///
/// The copy has a plain header, and then the bytes of the samples as they were.
pub fn copy_wav(bytes: &[u8]) -> (copied: Result<Vec<u8>, WavError>)
    requires
        bytes@.len() <= u32::MAX,
    ensures
        forall|layout: Layout| #[trigger]
            layout.describes(bytes@) ==> {
                let size = 2 * (layout.size as nat / 2);
                if layout.rest.len() < size {
                    copied == Err::<Vec<u8>, WavError>(WavError::UnexpectedEnd)
                } else {
                    &&& copied matches Ok(file)
                    &&& file@.take(44) == header_bytes(size as int / 2)
                    &&& file@.skip(44) == layout.rest.take(size as int)
                }
            },
        parse_header(bytes@) matches Err(error) ==> copied == Err::<Vec<u8>, WavError>(error),
{
    match read_wav(bytes) {
        Ok(samples) => {
            let ghost layout = choose|layout: Layout| #[trigger] layout.describes(bytes@);
            let file = rewrite(&samples, Ghost(bytes@), Ghost(layout));
            proof {
                assert forall|other: Layout| #[trigger] other.describes(bytes@) implies other.size
                    == layout.size && other.rest == layout.rest by {
                    lemma_one_layout(bytes@, layout, other);
                }
            }
            Ok(file)
        },
        Err(error) => Err(error),
    }
}

/// Writes the samples of a file to a new file.
fn rewrite(samples: &Vec<i16>, Ghost(bytes): Ghost<Seq<u8>>, Ghost(layout): Ghost<Layout>) -> (file:
    Vec<u8>)
    requires
        bytes.len() <= u32::MAX,
        layout.describes(bytes),
        samples@.len() == layout.size as nat / 2,
        layout.rest.len() >= 2 * samples@.len(),
        forall|i: int|
            0 <= i < samples@.len() ==> is_sample_at(
                bytes,
                bytes.len() - layout.rest.len() + 2 * i,
                #[trigger] samples@[i] as int,
            ),
    ensures
        file@.take(44) == header_bytes(samples@.len() as int),
        file@.skip(44) == layout.rest.take(2 * samples@.len() as int),
{
    proof {
        lemma_rest_of_file(bytes, layout);
    }
    let scaled = widen(samples);
    let file = write_wav(&scaled);
    proof {
        lemma_copied(bytes, layout, samples@, scaled@, file@);
    }
    file
}

/// The same samples in a wider type.
fn widen(samples: &Vec<i16>) -> (scaled: Vec<i64>)
    ensures
        scaled@.len() == samples@.len(),
        forall|i: int| 0 <= i < samples@.len() ==> #[trigger] scaled@[i] == samples@[i],
{
    let mut scaled: Vec<i64> = Vec::with_capacity(samples.len());
    let mut index: usize = 0;
    while index < samples.len()
        invariant
            index <= samples@.len(),
            scaled@.len() == index,
            forall|i: int| 0 <= i < index ==> #[trigger] scaled@[i] == samples@[i],
        decreases samples@.len() - index,
    {
        scaled.push(samples[index] as i64);
        index = index + 1;
    }
    scaled
}

/// A file has one size of samples, and one place for them.
proof fn lemma_one_layout(bytes: Seq<u8>, layout: Layout, other: Layout)
    requires
        layout.describes(bytes),
        other.describes(bytes),
    ensures
        other.size == layout.size,
        other.rest == layout.rest,
{
    lemma_where_samples_are(bytes, layout);
    lemma_where_samples_are(bytes, other);
    lemma_rest_of_file(bytes, layout);
    lemma_rest_of_file(bytes, other);
}

/// What is written for the samples of a file holds their bytes.
proof fn lemma_copied(
    bytes: Seq<u8>,
    layout: Layout,
    samples: Seq<i16>,
    scaled: Seq<i64>,
    file: Seq<u8>,
)
    requires
        layout.describes(bytes),
        samples.len() == layout.size as nat / 2,
        layout.rest.len() >= 2 * samples.len(),
        scaled.len() == samples.len(),
        forall|i: int| 0 <= i < samples.len() ==> #[trigger] scaled[i] == samples[i],
        forall|i: int|
            0 <= i < samples.len() ==> is_sample_at(
                bytes,
                bytes.len() - layout.rest.len() + 2 * i,
                #[trigger] samples[i] as int,
            ),
        file == wav_image(scaled.map_values(|value: i64| clipped(value as int))),
    ensures
        file.take(44) == header_bytes(samples.len() as int),
        file.skip(44) == layout.rest.take(2 * samples.len() as int),
{
    lemma_rest_of_file(bytes, layout);
    let count = samples.len();
    let first = bytes.len() - layout.rest.len();
    let raws = samples_at(bytes, first, count);
    let written = scaled.map_values(|value: i64| clipped(value as int));
    assert(written =~= raws) by {
        assert forall|i: int| 0 <= i < count implies #[trigger] written[i] == raws[i] by {
            law_clipping_keeps_samples(scaled[i] as int);
            assert(is_sample_at(bytes, first + 2 * i, samples[i] as int));
        }
    }
    lemma_header_parts(count as int, sample_bytes(raws));
    assert(file.take(44) =~= header_bytes(count as int));
    lemma_samples_are_bytes(bytes, first, count);
    assert(bytes.subrange(first, first + 2 * count) =~= layout.rest.take(2 * count as int));
}

/// What follows the header of a file, which has at least 44 bytes.
proof fn lemma_rest_of_file(bytes: Seq<u8>, layout: Layout)
    requires
        layout.describes(bytes),
    ensures
        bytes.len() >= 44 + layout.rest.len(),
        layout.rest == bytes.skip(bytes.len() - layout.rest.len()),
{
    reveal(Layout::describes);
    let i = choose|i: int|
        0 <= i < layout.chunks.len() && (#[trigger] layout.chunks[i]).id == format_id();
    assert(layout.chunks[i].is_complete() && layout.chunks[i].is_acceptable());
    lemma_chunk_is_part(layout.chunks, i);
    assert(layout.rest =~= bytes.skip(bytes.len() - layout.rest.len()));
}

/// Chunks are no shorter than one of them.
proof fn lemma_chunk_is_part(chunks: Seq<Chunk>, i: int)
    requires
        0 <= i < chunks.len(),
    ensures
        chunk_bytes(chunks).len() >= chunks[i].bytes().len(),
    decreases chunks.len(),
{
    if i < chunks.len() - 1 {
        lemma_chunk_is_part(chunks.drop_last(), i);
        assert(chunks.drop_last()[i] == chunks[i]);
    }
}

} // verus!
