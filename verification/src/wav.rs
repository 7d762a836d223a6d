//! RIFF/WAVE header parsing for ranged, on-demand decoding.
//!
//! Only the chunk table and the `fmt ` chunk are read: duration, sample rate
//! and channel count are known without touching sample data. The bytes come
//! from a [`ByteReader`], a fixed-length blob that serves ranges on request.
use vstd::prelude::*;

use crate::engine::AudioError;
use crate::time::Time;

verus! {

/// Frames per decoded chunk when a streamed source is decoded range by range.
pub const DECODED_CHUNK_FRAMES: usize = 32768;

/// Largest blob length the chunk walk accepts: every cursor it computes then
/// fits in a `u64`.
pub const MAX_BLOB_LEN: u64 = 0xFFFF_FFFE_0000_0000u64;

/// Little-endian 16-bit value at `i`.
pub open spec fn le16(s: Seq<u8>, i: int) -> int {
    s[i] as int + 256 * (s[i + 1] as int)
}

/// Little-endian 32-bit value at `i`.
pub open spec fn le32(s: Seq<u8>, i: int) -> int {
    s[i] as int + 256 * (s[i + 1] as int) + 65536 * (s[i + 2] as int) + 16777216 * (s[
        i + 3
    ] as int)
}

/// The four bytes at `i` are `a b c d`.
pub open spec fn tag_at(s: Seq<u8>, i: int, a: u8, b: u8, c: u8, d: u8) -> bool {
    s[i] == a && s[i + 1] == b && s[i + 2] == c && s[i + 3] == d
}

/// A fixed-length blob that serves byte ranges: a file handle, an in-memory
/// buffer, or any other store.
///
/// An implementation names its blob and whether every in-range read succeeds;
/// the defaults (an empty blob that may refuse any read) serve stores written
/// outside verified code, for which the clauses below are the implementer's
/// promise about the bytes the store actually holds.
pub trait ByteReader {
    /// The whole backing blob.
    open spec fn blob(&self) -> Seq<u8> {
        Seq::empty()
    }

    /// Whether every in-range read succeeds.
    open spec fn serves_every_range(&self) -> bool {
        false
    }

    /// Total length of the backing blob in bytes.
    fn total_len(&self) -> (r: u64)
        ensures
            r as int == self.blob().len(),
    ;

    /// The `len` bytes at `[offset, offset + len)`.
    ///
    /// A range that runs past the end of the blob is an [`AudioError::Io`].
    fn read_exact_at(&self, offset: u64, len: usize) -> (r: Result<Vec<u8>, AudioError>)
        ensures
            r matches Ok(v) ==> offset + len <= self.blob().len() && v@ == self.blob().subrange(
                offset as int,
                offset + len,
            ),
            r matches Err(e) ==> e is Io,
            offset + len > self.blob().len() ==> r is Err,
            self.serves_every_range() && offset + len <= self.blob().len() ==> r is Ok,
    ;
}

/// An in-memory [`ByteReader`] over an owned buffer; every in-range read
/// succeeds.
#[derive(Clone, Debug)]
pub struct BytesReader {
    bytes: Vec<u8>,
}

impl BytesReader {
    /// Wraps an owned byte buffer.
    pub fn new(bytes: Vec<u8>) -> (r: BytesReader)
        ensures
            r.blob() == bytes@,
    {
        BytesReader { bytes }
    }
}

impl ByteReader for BytesReader {
    closed spec fn blob(&self) -> Seq<u8> {
        self.bytes@
    }

    open spec fn serves_every_range(&self) -> bool {
        true
    }

    fn total_len(&self) -> (r: u64) {
        self.bytes.len() as u64
    }

    fn read_exact_at(&self, offset: u64, len: usize) -> (r: Result<Vec<u8>, AudioError>) {
        let total = self.bytes.len();
        if offset > total as u64 {
            return Err(AudioError::Io("read offset runs past the end of the buffer".to_string()));
        }
        let start = offset as usize;
        if len > total - start {
            return Err(AudioError::Io("read range runs past the end of the buffer".to_string()));
        }
        let end = start + len;
        let mut out: Vec<u8> = Vec::with_capacity(len);
        let mut i = start;
        while i < end
            invariant
                start <= i <= end,
                end <= self.bytes@.len(),
                out@ == self.bytes@.subrange(start as int, i as int),
            decreases end - i,
        {
            out.push(self.bytes[i]);
            i += 1;
            assert(out@ =~= self.bytes@.subrange(start as int, i as int));
        }
        Ok(out)
    }
}

/// Integer or float sample encoding of a WAV data chunk.
#[derive(Clone, Copy, Debug, PartialEq, Eq, Structural)]
pub enum StreamSampleFormat {
    /// 8-bit unsigned PCM, centred at 128.
    Uint8,
    /// 16-bit signed little-endian PCM.
    Int16,
    /// 24-bit signed little-endian PCM.
    Int24,
    /// 32-bit signed little-endian PCM.
    Int32,
    /// 32-bit IEEE little-endian float.
    Float32,
}

impl StreamSampleFormat {
    /// Bytes one sample of this encoding takes.
    pub open spec fn spec_bytes_per_sample(self) -> int {
        match self {
            StreamSampleFormat::Uint8 => 1,
            StreamSampleFormat::Int16 => 2,
            StreamSampleFormat::Int24 => 3,
            StreamSampleFormat::Int32 => 4,
            StreamSampleFormat::Float32 => 4,
        }
    }

    /// Bytes one sample of this encoding takes.
    pub fn bytes_per_sample(self) -> (r: usize)
        ensures
            r as int == self.spec_bytes_per_sample(),
    {
        match self {
            StreamSampleFormat::Uint8 => 1,
            StreamSampleFormat::Int16 => 2,
            StreamSampleFormat::Int24 => 3,
            StreamSampleFormat::Int32 => 4,
            StreamSampleFormat::Float32 => 4,
        }
    }
}

/// The facts of a `fmt ` chunk the decoder needs.
#[derive(Clone, Copy, Debug, PartialEq, Eq, Structural)]
pub struct FmtChunk {
    /// Sample encoding.
    pub sample_format: StreamSampleFormat,
    /// Channel count, never zero.
    pub channels: usize,
    /// Sample rate in hertz, never zero.
    pub sample_rate: u32,
}

/// Header facts about a WAV, read without decoding any samples.
#[derive(Clone, Copy, Debug, PartialEq, Eq, Structural)]
pub struct WavStreamInfo {
    /// Sample encoding of the data chunk.
    pub sample_format: StreamSampleFormat,
    /// Channel count.
    pub channels: usize,
    /// Sample rate in hertz.
    pub sample_rate: u32,
    /// Number of frames (per-channel samples).
    pub frames: usize,
    /// Byte offset of the first data-chunk sample within the blob.
    pub data_offset: u64,
}

impl WavStreamInfo {
    /// Bytes of one frame: a sample of every channel.
    pub open spec fn spec_frame_bytes(self) -> int {
        self.channels * self.sample_format.spec_bytes_per_sample()
    }

    /// Bytes of one frame: a sample of every channel.
    pub fn frame_bytes(&self) -> (r: usize)
        requires
            self.spec_frame_bytes() <= usize::MAX,
        ensures
            r as int == self.spec_frame_bytes(),
    {
        self.channels * self.sample_format.bytes_per_sample()
    }
}

/// Why a WAV header was refused, with the text the refusal carries.
pub enum WavFault {
    /// The RIFF structure is broken.
    Malformed { reason: Seq<char> },
    /// The sample format lies outside the supported set.
    Unsupported { reason: Seq<char> },
    /// The `fmt ` chunk declares no channels.
    NoChannels,
    /// The `fmt ` chunk declares a zero sample rate.
    NoRate,
    /// A chunk the parser must read runs past the end of the blob.
    Unreadable,
}

/// `e` is the error that reports `k`.
pub open spec fn error_is(e: AudioError, k: WavFault) -> bool {
    match k {
        WavFault::Malformed { reason } => e matches AudioError::MalformedWav(text) && text@ == reason,
        WavFault::Unsupported { reason } => e matches AudioError::UnsupportedWav { reason: text }
            && text@ == reason,
        WavFault::NoChannels => e matches AudioError::InvalidChannelCount { channels } && channels
            == 0,
        WavFault::NoRate => e matches AudioError::InvalidSampleRate { sample_rate } && sample_rate.key
            == 0,
        WavFault::Unreadable => e is Io,
    }
}

/// `WAVE_FORMAT_PCM`.
pub const WAVE_FORMAT_PCM: u16 = 1;

/// `WAVE_FORMAT_IEEE_FLOAT`.
pub const WAVE_FORMAT_IEEE_FLOAT: u16 = 3;

/// `WAVE_FORMAT_EXTENSIBLE`: the real tag sits in the sub-format GUID.
pub const WAVE_FORMAT_EXTENSIBLE: u16 = 0xFFFE;

/// The supported encoding of a format tag at a bit depth.
pub open spec fn format_of(tag: int, bits: int) -> Option<StreamSampleFormat> {
    if tag == 1 && bits == 8 {
        Some(StreamSampleFormat::Uint8)
    } else if tag == 1 && bits == 16 {
        Some(StreamSampleFormat::Int16)
    } else if tag == 1 && bits == 24 {
        Some(StreamSampleFormat::Int24)
    } else if tag == 1 && bits == 32 {
        Some(StreamSampleFormat::Int32)
    } else if tag == 3 && bits == 32 {
        Some(StreamSampleFormat::Float32)
    } else {
        None
    }
}

/// What a `fmt ` chunk body declares: tag at 0, channels at 2, rate at 4,
/// bits per sample at 14, and for the extensible tag the effective tag at 24.
pub open spec fn fmt_outcome(buf: Seq<u8>) -> Result<FmtChunk, WavFault> {
    if buf.len() < 16 {
        Err(WavFault::Malformed { reason: "fmt chunk too short"@ })
    } else if le16(buf, 0) == 0xFFFE && buf.len() < 26 {
        Err(WavFault::Unsupported { reason: "WAVE_FORMAT_EXTENSIBLE without a sub-format"@ })
    } else {
        let tag = if le16(buf, 0) == 0xFFFE {
            le16(buf, 24)
        } else {
            le16(buf, 0)
        };
        if le16(buf, 2) == 0 {
            Err(WavFault::NoChannels)
        } else if le32(buf, 4) == 0 {
            Err(WavFault::NoRate)
        } else {
            match format_of(tag, le16(buf, 14)) {
                Some(f) => Ok(
                    FmtChunk {
                        sample_format: f,
                        channels: le16(buf, 2) as usize,
                        sample_rate: le32(buf, 4) as u32,
                    },
                ),
                None => Err(
                    WavFault::Unsupported {
                        reason: "unsupported WAV format tag "@ + decimal_text(tag as nat) + " at "@
                            + decimal_text(le16(buf, 14) as nat) + " bits"@,
                    },
                ),
            }
        }
    }
}

fn read_le16(buf: &[u8], i: usize) -> (r: u16)
    requires
        i + 2 <= buf@.len(),
    ensures
        r as int == le16(buf@, i as int),
{
    buf[i] as u16 + (buf[i + 1] as u16) * 256
}

fn read_le32(buf: &[u8], i: usize) -> (r: u32)
    requires
        i + 4 <= buf@.len(),
    ensures
        r as int == le32(buf@, i as int),
{
    buf[i] as u32 + (buf[i + 1] as u32) * 256 + (buf[i + 2] as u32) * 65536 + (buf[i + 3] as u32)
        * 16777216
}

/// Parses the body of a `fmt ` chunk.
pub fn parse_fmt(buf: &[u8]) -> (r: Result<FmtChunk, AudioError>)
    ensures
        match fmt_outcome(buf@) {
            Ok(f) => r == Ok::<FmtChunk, AudioError>(f),
            Err(k) => r matches Err(e) && error_is(e, k),
        },
{
    if buf.len() < 16 {
        return Err(AudioError::MalformedWav("fmt chunk too short".to_string()));
    }
    let mut format_tag = read_le16(buf, 0);
    let channels = read_le16(buf, 2) as usize;
    let sample_rate = read_le32(buf, 4);
    let bits_per_sample = read_le16(buf, 14);
    if format_tag == WAVE_FORMAT_EXTENSIBLE {
        if buf.len() >= 26 {
            format_tag = read_le16(buf, 24);
        } else {
            return Err(
                AudioError::UnsupportedWav {
                    reason: "WAVE_FORMAT_EXTENSIBLE without a sub-format".to_string(),
                },
            );
        }
    }
    if channels == 0 {
        return Err(AudioError::InvalidChannelCount { channels });
    }
    if sample_rate == 0 {
        return Err(AudioError::InvalidSampleRate { sample_rate: Time { key: 0 } });
    }
    let sample_format = if format_tag == WAVE_FORMAT_PCM && bits_per_sample == 8 {
        StreamSampleFormat::Uint8
    } else if format_tag == WAVE_FORMAT_PCM && bits_per_sample == 16 {
        StreamSampleFormat::Int16
    } else if format_tag == WAVE_FORMAT_PCM && bits_per_sample == 24 {
        StreamSampleFormat::Int24
    } else if format_tag == WAVE_FORMAT_PCM && bits_per_sample == 32 {
        StreamSampleFormat::Int32
    } else if format_tag == WAVE_FORMAT_IEEE_FLOAT && bits_per_sample == 32 {
        StreamSampleFormat::Float32
    } else {
        return Err(
            AudioError::UnsupportedWav { reason: unsupported_format_message(format_tag, bits_per_sample) },
        );
    };
    Ok(FmtChunk { sample_format, channels, sample_rate })
}

/// The decimal digit `d` (below ten) as a character.
pub open spec fn digit_char(d: nat) -> char {
    (48 + d) as char
}

/// The decimal digits of `n`, most significant first, with no leading
/// zeros: how `{}` writes an unsigned integer.
pub open spec fn decimal_text(n: nat) -> Seq<char>
    decreases n,
{
    if n < 10 {
        seq![digit_char(n)]
    } else {
        decimal_text(n / 10).push(digit_char(n % 10))
    }
}

/// The one-character text of decimal digit `d`.
fn digit_str(d: u64) -> (r: &'static str)
    requires
        d < 10,
    ensures
        r@ == seq![digit_char(d as nat)],
{
    proof {
        reveal_strlit("0");
        reveal_strlit("1");
        reveal_strlit("2");
        reveal_strlit("3");
        reveal_strlit("4");
        reveal_strlit("5");
        reveal_strlit("6");
        reveal_strlit("7");
        reveal_strlit("8");
        reveal_strlit("9");
    }
    match d {
        0 => "0",
        1 => "1",
        2 => "2",
        3 => "3",
        4 => "4",
        5 => "5",
        6 => "6",
        7 => "7",
        8 => "8",
        _ => "9",
    }
}

/// `n` written in decimal, as `{}` writes an unsigned integer.
pub fn decimal_string(n: u64) -> (r: String)
    ensures
        r@ == decimal_text(n as nat),
    decreases n,
{
    if n < 10 {
        String::from_str(digit_str(n))
    } else {
        let mut s = decimal_string(n / 10);
        s.append(digit_str(n % 10));
        s
    }
}

/// The refusal text for an unsupported tag and bit depth.
fn unsupported_format_message(tag: u16, bits: u16) -> (r: String)
    ensures
        r@ == "unsupported WAV format tag "@ + decimal_text(tag as nat) + " at "@ + decimal_text(
            bits as nat,
        ) + " bits"@,
{
    let mut s = String::from_str("unsupported WAV format tag ");
    s.append(decimal_string(tag as u64).as_str());
    s.append(" at ");
    s.append(decimal_string(bits as u64).as_str());
    s.append(" bits");
    s
}

/// The header a `data` chunk with declared `size` and body at `body` yields
/// once the `fmt ` chunk `f` is known: the declared size is cut to what the
/// blob holds, and a trailing partial frame is dropped.
pub open spec fn data_outcome(len: int, body: int, size: int, f: FmtChunk) -> Result<
    WavStreamInfo,
    WavFault,
> {
    let available = if len >= body {
        len - body
    } else {
        0
    };
    let data_len = if size < available {
        size
    } else {
        available
    };
    let frame_bytes = f.channels * f.sample_format.spec_bytes_per_sample();
    if frame_bytes == 0 {
        Err(WavFault::Malformed { reason: "zero-width frame"@ })
    } else if data_len / frame_bytes > usize::MAX {
        Err(WavFault::Malformed { reason: "frame count exceeds addressable memory"@ })
    } else {
        Ok(
            WavStreamInfo {
                sample_format: f.sample_format,
                channels: f.channels,
                sample_rate: f.sample_rate,
                frames: (data_len / frame_bytes) as usize,
                data_offset: body as u64,
            },
        )
    }
}

/// The outcome of walking the chunk table from `cursor`, with the `fmt `
/// chunk read so far. Each chunk is an 8-byte header (four-byte id, 32-bit
/// size) and a body padded to an even length; a `fmt ` body is read up to 40
/// bytes, and the first `data` chunk ends the walk.
pub open spec fn chunk_walk(blob: Seq<u8>, cursor: int, fmt: Option<FmtChunk>) -> Result<
    WavStreamInfo,
    WavFault,
>
    decreases blob.len() - cursor,
{
    if cursor < 0 || cursor + 8 > blob.len() {
        Err(WavFault::Malformed { reason: "no data chunk in RIFF stream"@ })
    } else {
        let size = le32(blob, cursor + 4);
        let body = cursor + 8;
        let next = body + size + size % 2;
        if tag_at(blob, cursor, 0x66, 0x6d, 0x74, 0x20) {
            let read = if size < 40 {
                size
            } else {
                40
            };
            if body + read > blob.len() {
                Err(WavFault::Unreadable)
            } else {
                match fmt_outcome(blob.subrange(body, body + read)) {
                    Ok(f) => if next + 8 <= blob.len() {
                        chunk_walk(blob, next, Some(f))
                    } else {
                        Err(WavFault::Malformed { reason: "no data chunk in RIFF stream"@ })
                    },
                    Err(k) => Err(k),
                }
            }
        } else if tag_at(blob, cursor, 0x64, 0x61, 0x74, 0x61) {
            match fmt {
                Some(f) => data_outcome(blob.len() as int, body, size, f),
                None => Err(WavFault::Malformed { reason: "data chunk before fmt chunk"@ }),
            }
        } else if next + 8 <= blob.len() {
            chunk_walk(blob, next, fmt)
        } else {
            Err(WavFault::Malformed { reason: "no data chunk in RIFF stream"@ })
        }
    }
}

/// The outcome of parsing a whole WAV header: a 12-byte `RIFF` .. `WAVE`
/// preamble, then the chunk table.
pub open spec fn header_outcome(blob: Seq<u8>) -> Result<WavStreamInfo, WavFault> {
    if blob.len() < 12 {
        Err(WavFault::Malformed { reason: "file shorter than a RIFF header"@ })
    } else if !(tag_at(blob, 0, 0x52, 0x49, 0x46, 0x46) && tag_at(blob, 8, 0x57, 0x41, 0x56, 0x45)) {
        Err(WavFault::Malformed { reason: "missing RIFF/WAVE signature"@ })
    } else {
        chunk_walk(blob, 12, None)
    }
}

/// Once every in-range read succeeds, `r` is exactly `outcome`; otherwise it
/// is that outcome or an I/O failure of the reader.
pub open spec fn reads_as(
    r: Result<WavStreamInfo, AudioError>,
    outcome: Result<WavStreamInfo, WavFault>,
    reliable: bool,
) -> bool {
    &&& r matches Ok(i) ==> outcome == Ok::<WavStreamInfo, WavFault>(i)
    &&& r matches Err(e) ==> (e is Io && !reliable) || (outcome matches Err(k) && error_is(e, k))
    &&& reliable ==> (outcome is Ok <==> r is Ok)
}

fn is_tag(h: &Vec<u8>, a: u8, b: u8, c: u8, d: u8) -> (r: bool)
    requires
        h@.len() >= 4,
    ensures
        r == tag_at(h@, 0, a, b, c, d),
{
    h[0] == a && h[1] == b && h[2] == c && h[3] == d
}

/// Parses the RIFF preamble and walks the chunk table up to the first `data`
/// chunk, reading only headers and the `fmt ` body.
pub fn parse_header<R: ByteReader>(reader: &R) -> (r: Result<WavStreamInfo, AudioError>)
    requires
        reader.blob().len() <= MAX_BLOB_LEN,
    ensures
        reads_as(r, header_outcome(reader.blob()), reader.serves_every_range()),
{
    let ghost blob = reader.blob();
    let total = reader.total_len();
    if total < 12 {
        return Err(AudioError::MalformedWav("file shorter than a RIFF header".to_string()));
    }
    let riff = reader.read_exact_at(0, 12)?;
    if !(riff[0] == 0x52 && riff[1] == 0x49 && riff[2] == 0x46 && riff[3] == 0x46 && riff[8]
        == 0x57 && riff[9] == 0x41 && riff[10] == 0x56 && riff[11] == 0x45) {
        return Err(AudioError::MalformedWav("missing RIFF/WAVE signature".to_string()));
    }
    let mut fmt: Option<FmtChunk> = None;
    let mut cursor: u64 = 12;
    while cursor + 8 <= total
        invariant
            blob == reader.blob(),
            total as int == blob.len(),
            total <= MAX_BLOB_LEN,
            12 <= cursor,
            cursor <= MAX_BLOB_LEN + 0x1_0000_0010,
            fmt matches Some(f) ==> 0 < f.channels <= 0xFFFF,
            header_outcome(blob) == chunk_walk(blob, cursor as int, fmt),
        decreases if cursor <= total {
            total - cursor + 1
        } else {
            0
        },
    {
        let header = reader.read_exact_at(cursor, 8)?;
        let size = read_le32(header.as_slice(), 4) as u64;
        assert(header@ =~= blob.subrange(cursor as int, cursor + 8));
        assert(size as int == le32(blob, cursor + 4));
        let body = cursor + 8;
        if is_tag(&header, 0x66, 0x6d, 0x74, 0x20) {
            let read: u64 = if size < 40 { size } else { 40 };
            let buf = reader.read_exact_at(body, read as usize)?;
            let parsed = parse_fmt(buf.as_slice());
            match parsed {
                Ok(f) => {
                    fmt = Some(f);
                },
                Err(e) => {
                    return Err(e);
                },
            }
        } else if is_tag(&header, 0x64, 0x61, 0x74, 0x61) {
            let f = match fmt {
                Some(f) => f,
                None => {
                    return Err(AudioError::MalformedWav("data chunk before fmt chunk".to_string()));
                },
            };
            return data_info(total, body, size, f);
        }
        cursor = body + size + size % 2;
    }
    Err(AudioError::MalformedWav("no data chunk in RIFF stream".to_string()))
}

fn data_info(total: u64, body: u64, size: u64, f: FmtChunk) -> (r: Result<WavStreamInfo, AudioError>)
    requires
        body <= total,
        f.channels <= 0xFFFF,
    ensures
        match data_outcome(total as int, body as int, size as int, f) {
            Ok(i) => r == Ok::<WavStreamInfo, AudioError>(i),
            Err(k) => r matches Err(e) && error_is(e, k),
        },
{
    let available = total - body;
    let data_len = if size < available { size } else { available };
    let bps = f.sample_format.bytes_per_sample();
    assert(f.channels * bps <= 0xFFFF * 4) by (nonlinear_arith)
        requires
            f.channels <= 0xFFFF,
            bps <= 4,
    ;
    let frame_bytes = (f.channels * bps) as u64;
    if frame_bytes == 0 {
        return Err(AudioError::MalformedWav("zero-width frame".to_string()));
    }
    let frames = data_len / frame_bytes;
    if frames > usize::MAX as u64 {
        return Err(
            AudioError::MalformedWav("frame count exceeds addressable memory".to_string()),
        );
    }
    Ok(
        WavStreamInfo {
            sample_format: f.sample_format,
            channels: f.channels,
            sample_rate: f.sample_rate,
            frames: frames as usize,
            data_offset: body,
        },
    )
}

/// The data of a header fits the blob it was read from: every frame it
/// counts lies inside.
pub open spec fn info_fits(info: WavStreamInfo, len: int) -> bool {
    &&& 0 < info.spec_frame_bytes() <= 0xFFFF * 4
    &&& info.data_offset + info.frames * info.spec_frame_bytes() <= len
}

/// A parsed header always fits its blob.
pub proof fn lemma_header_fits(blob: Seq<u8>)
    requires
        header_outcome(blob) is Ok,
    ensures
        info_fits(header_outcome(blob)->Ok_0, blob.len() as int),
{
    if blob.len() >= 12 {
        lemma_walk_fits(blob, 12, None);
    }
}

proof fn lemma_walk_fits(blob: Seq<u8>, cursor: int, fmt: Option<FmtChunk>)
    requires
        chunk_walk(blob, cursor, fmt) is Ok,
        fmt matches Some(f) ==> 0 < f.channels <= 0xFFFF,
    ensures
        info_fits(chunk_walk(blob, cursor, fmt)->Ok_0, blob.len() as int),
    decreases blob.len() - cursor,
{
    let size = le32(blob, cursor + 4);
    let body = cursor + 8;
    let next = body + size + size % 2;
    if tag_at(blob, cursor, 0x66, 0x6d, 0x74, 0x20) {
        let read = if size < 40 {
            size
        } else {
            40
        };
        let f = fmt_outcome(blob.subrange(body, body + read))->Ok_0;
        lemma_walk_fits(blob, next, Some(f));
    } else if tag_at(blob, cursor, 0x64, 0x61, 0x74, 0x61) {
        let f = fmt->0;
        let len = blob.len() as int;
        let available = len - body;
        let data_len = if size < available {
            size
        } else {
            available
        };
        let fb = f.channels * f.sample_format.spec_bytes_per_sample();
        assert(0 < fb <= 0xFFFF * 4) by (nonlinear_arith)
            requires
                0 < f.channels <= 0xFFFF,
                1 <= f.sample_format.spec_bytes_per_sample() <= 4,
                fb == f.channels * f.sample_format.spec_bytes_per_sample(),
        ;
        assert((data_len / fb) * fb <= data_len) by (nonlinear_arith)
            requires
                fb > 0,
                data_len >= 0,
        ;
    } else {
        lemma_walk_fits(blob, next, fmt);
    }
}

/// First frame of decoded chunk `k`.
pub open spec fn chunk_first_frame(k: int) -> int {
    k * DECODED_CHUNK_FRAMES
}

/// Frames decoded chunk `k` holds: a full chunk, or what remains at the end.
pub open spec fn chunk_frames(info: WavStreamInfo, k: int) -> int {
    let first = chunk_first_frame(k);
    if info.frames <= first {
        0
    } else if info.frames - first < DECODED_CHUNK_FRAMES {
        info.frames - first
    } else {
        DECODED_CHUNK_FRAMES as int
    }
}

/// Byte offset of decoded chunk `k` within the blob.
pub open spec fn chunk_offset(info: WavStreamInfo, k: int) -> int {
    info.data_offset + chunk_first_frame(k) * info.spec_frame_bytes()
}

/// The stored bytes of decoded chunk `k`; empty past the last frame.
pub open spec fn chunk_bytes(blob: Seq<u8>, info: WavStreamInfo, k: int) -> Seq<u8> {
    if chunk_frames(info, k) == 0 {
        Seq::empty()
    } else {
        blob.subrange(
            chunk_offset(info, k),
            chunk_offset(info, k) + chunk_frames(info, k) * info.spec_frame_bytes(),
        )
    }
}

/// The raw bytes of decoded chunk `k`: its frames, every channel interleaved
/// as stored. A chunk past the last frame is empty and reads nothing.
pub fn read_chunk_bytes<R: ByteReader>(reader: &R, info: &WavStreamInfo, chunk_index: usize) -> (r:
    Result<Vec<u8>, AudioError>)
    requires
        info_fits(*info, reader.blob().len() as int),
        reader.blob().len() <= u64::MAX,
        chunk_index * DECODED_CHUNK_FRAMES <= usize::MAX,
        DECODED_CHUNK_FRAMES * info.spec_frame_bytes() <= usize::MAX,
    ensures
        r matches Ok(v) ==> v@ == chunk_bytes(reader.blob(), *info, chunk_index as int),
        r matches Err(e) ==> e is Io,
        reader.serves_every_range() ==> r is Ok,
{
    let ghost fb = info.spec_frame_bytes();
    let ghost k = chunk_index as int;
    let first_frame = chunk_index * DECODED_CHUNK_FRAMES;
    let remaining = if info.frames > first_frame { info.frames - first_frame } else { 0 };
    let frames = if remaining < DECODED_CHUNK_FRAMES { remaining } else { DECODED_CHUNK_FRAMES };
    let frame_bytes = info.frame_bytes();
    assert(frames * fb <= DECODED_CHUNK_FRAMES * fb) by (nonlinear_arith)
        requires
            frames <= DECODED_CHUNK_FRAMES,
            fb >= 0,
    ;
    let len = frames * frame_bytes;
    if len == 0 {
        assert(frames == 0) by (nonlinear_arith)
            requires
                frames * fb == 0,
                fb > 0,
        ;
        let empty: Vec<u8> = Vec::new();
        assert(empty@ =~= chunk_bytes(reader.blob(), *info, k));
        return Ok(empty);
    }
    assert(frames > 0);
    assert(first_frame < info.frames);
    assert((first_frame + frames) * fb <= info.frames * fb) by (nonlinear_arith)
        requires
            first_frame + frames <= info.frames,
            fb >= 0,
    ;
    assert((first_frame + frames) * fb == first_frame * fb + frames * fb) by (nonlinear_arith);
    assert(first_frame * fb <= info.frames * fb) by (nonlinear_arith)
        requires
            first_frame <= info.frames,
            fb >= 0,
    ;
    let offset = info.data_offset + (first_frame as u64) * (frame_bytes as u64);
    reader.read_exact_at(offset, len)
}

/// WAV output bit depth and sample format.
#[derive(Clone, Copy, Debug, PartialEq, Eq, Structural)]
pub enum BitDepth {
    /// 8-bit unsigned PCM.
    Pcm8,
    /// 16-bit signed PCM.
    Pcm16,
    /// 24-bit signed PCM.
    Pcm24,
    /// 32-bit signed PCM.
    Pcm32,
    /// 32-bit IEEE float.
    Float32,
}

impl BitDepth {
    /// Bits one sample of this depth takes.
    pub fn bits_per_sample(self) -> (r: u16)
        ensures
            r == (match self {
                BitDepth::Pcm8 => 8u16,
                BitDepth::Pcm16 => 16u16,
                BitDepth::Pcm24 => 24u16,
                BitDepth::Pcm32 => 32u16,
                BitDepth::Float32 => 32u16,
            }),
    {
        match self {
            BitDepth::Pcm8 => 8,
            BitDepth::Pcm16 => 16,
            BitDepth::Pcm24 => 24,
            BitDepth::Pcm32 => 32,
            BitDepth::Float32 => 32,
        }
    }

    /// Whether samples are written as IEEE floats rather than integers.
    pub fn is_float(self) -> (r: bool)
        ensures
            r == (self == BitDepth::Float32),
    {
        match self {
            BitDepth::Float32 => true,
            _ => false,
        }
    }
}

} // verus!
