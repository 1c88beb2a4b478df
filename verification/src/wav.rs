//! The WAV container parser and streaming reader.

use vstd::prelude::*;

use crate::chunk_table::{table_get, table_len, table_new, table_push, table_chunks};
use crate::{AudioFile, Channels, PlatformFile, PlatformFileError, SampleFormat};

verus! {

/// Upper bound on how many chunks the scanner tracks, the container's own
/// header chunk included.
pub const MAX_CHUNKS: usize = 25;

/// Everything that can go wrong while opening or reading a WAV file.
#[derive(Debug)]
pub enum Error {
    /// No Riff chunk found
    NoRiffChunkFound,
    /// No Wave chunk found
    NoWaveChunkFound,
    /// No Wave tag found
    NoWaveTagFound,
    /// No Fmt chunk found
    NoFmtChunkFound,
    /// No Data chunk found
    NoDataChunkFound,
    /// Failed to parse fmt chunk
    FmtChunkError,
    /// File contains unsupported Format
    UnsupportedAudioFormat,
    /// Could not parse the chunk based on tag/id
    UnknownChunk,
    /// Unknown audio encoding
    UnknownEncoding,
    /// Unsupported channel count
    UnsupportedChannelCount,
    /// The provided buffer is too small
    ChunkSizeIncorrect,
    /// Exceeded maximum chunks
    ExceededMaxChunks,
    /// Platform File error
    PlatformError(PlatformFileError),
}

/// The four-byte tag that opens every RIFF chunk.
#[derive(PartialEq, Eq, Copy, Clone, Debug)]
pub enum ChunkTag {
    Riff,
    /// Riff, but declaring the file as big-endian.
    Rifx,
    Wave,
    Fmt,
    Data,
    Unknown([u8; 4]),
}

/// The tag encoded by four raw bytes.
pub open spec fn spec_tag(b: [u8; 4]) -> ChunkTag {
    if b[0] == 0x52u8 && b[1] == 0x49u8 && b[2] == 0x46u8 && b[3] == 0x46u8 {
        ChunkTag::Riff  // "RIFF"

    } else if b[0] == 0x52u8 && b[1] == 0x49u8 && b[2] == 0x46u8 && b[3] == 0x58u8 {
        ChunkTag::Rifx  // "RIFX"

    } else if b[0] == 0x57u8 && b[1] == 0x41u8 && b[2] == 0x56u8 && b[3] == 0x45u8 {
        ChunkTag::Wave  // "WAVE"

    } else if b[0] == 0x64u8 && b[1] == 0x61u8 && b[2] == 0x74u8 && b[3] == 0x61u8 {
        ChunkTag::Data  // "data"

    } else if b[0] == 0x66u8 && b[1] == 0x6du8 && b[2] == 0x74u8 && b[3] == 0x20u8 {
        ChunkTag::Fmt  // "fmt "

    } else {
        ChunkTag::Unknown(b)
    }
}

impl ChunkTag {
    /// Decode a four-byte chunk tag.
    pub fn from_bytes(bytes: &[u8; 4]) -> (r: ChunkTag)
        ensures
            r == spec_tag(*bytes),
    {
        if bytes[0] == 0x52 && bytes[1] == 0x49 && bytes[2] == 0x46 && bytes[3] == 0x46 {
            ChunkTag::Riff
        } else if bytes[0] == 0x52 && bytes[1] == 0x49 && bytes[2] == 0x46 && bytes[3] == 0x58 {
            ChunkTag::Rifx
        } else if bytes[0] == 0x57 && bytes[1] == 0x41 && bytes[2] == 0x56 && bytes[3] == 0x45 {
            ChunkTag::Wave
        } else if bytes[0] == 0x64 && bytes[1] == 0x61 && bytes[2] == 0x74 && bytes[3] == 0x61 {
            ChunkTag::Data
        } else if bytes[0] == 0x66 && bytes[1] == 0x6d && bytes[2] == 0x74 && bytes[3] == 0x20 {
            ChunkTag::Fmt
        } else {
            ChunkTag::Unknown(*bytes)
        }
    }
}

/// A located chunk: its tag and the byte range of its payload.
#[derive(Copy, Clone, Debug)]
pub struct Chunk {
    /// Start of chunk data, just after the chunk tag and length header.
    pub start: usize,
    /// Chunk tag/id.
    pub chunk: ChunkTag,
    /// End of the chunk payload (exclusive), without any alignment padding.
    pub end: usize,
}

/// The 16-bit little-endian value at offset `i` of `b`.
pub open spec fn le16(b: Seq<u8>, i: int) -> int {
    b[i] + 0x100 * b[i + 1]
}

/// The 32-bit little-endian value at offset `i` of `b`.
pub open spec fn le32(b: Seq<u8>, i: int) -> int {
    b[i] + 0x100 * b[i + 1] + 0x10000 * b[i + 2] + 0x1000000 * b[i + 3]
}

/// The tag encoded by the four bytes at offset `o` of `bytes`.
pub open spec fn tag_at(bytes: Seq<u8>, o: int) -> ChunkTag {
    spec_tag([bytes[o], bytes[o + 1], bytes[o + 2], bytes[o + 3]])
}

/// The chunk described by the eight-byte header at offset `o` of `bytes`:
/// its payload runs from just past the header to the declared size.
pub open spec fn chunk_at(bytes: Seq<u8>, o: int) -> Chunk {
    Chunk {
        chunk: tag_at(bytes, o),
        start: (o + 8) as usize,
        end: (o + 8 + le32(bytes, o + 4)) as usize,
    }
}

/// How far a header at some offset moves the scan cursor: eight header
/// bytes, the declared payload, and one pad byte when the payload length is
/// odd (RIFF word alignment).
pub open spec fn scan_step(size: int) -> int {
    8 + size + (if size % 2 == 1 {
        1int
    } else {
        0int
    })
}

/// The chunk table a scan of `bytes` from offset `o` produces, recording at
/// most `room` further chunks.
///
/// Scanning stops, without error, once fewer than eight bytes remain (no
/// full header fits) or once `room` runs out.  A header whose declared size
/// reaches past the end of `bytes` is a truncated chunk and fails the scan.
pub open spec fn scan_chunks(bytes: Seq<u8>, o: int, room: nat) -> Option<Seq<Chunk>>
    decreases room,
{
    if room == 0 || o + 8 > bytes.len() {
        Some(Seq::<Chunk>::empty())
    } else if le32(bytes, o + 4) > bytes.len() - (o + 8) {
        None
    } else {
        match scan_chunks(bytes, o + scan_step(le32(bytes, o + 4)), (room - 1) as nat) {
            None => None,
            Some(rest) => Some(seq![chunk_at(bytes, o)] + rest),
        }
    }
}

/// The first chunk in `chunks` carrying `tag`, if any.
pub open spec fn find_chunk(chunks: Seq<Chunk>, tag: ChunkTag) -> Option<Chunk>
    decreases chunks.len(),
{
    if chunks.len() == 0 {
        None
    } else if chunks[0].chunk == tag {
        Some(chunks[0])
    } else {
        find_chunk(chunks.skip(1), tag)
    }
}

/// How many chunks the scanner may still record when `recorded` are already
/// in the table: one table slot is accounted to the container's own header
/// chunk, which is not recorded.
pub open spec fn room_left(recorded: int) -> nat {
    if recorded < MAX_CHUNKS {
        (MAX_CHUNKS - 1 - recorded) as nat
    } else {
        0nat
    }
}

/// A chunk's payload range lies inside a file of `len` bytes.
pub open spec fn chunk_within(c: Chunk, len: int) -> bool {
    c.start <= c.end && c.end <= len
}

/// Every chunk of a successful scan lies inside the scanned bytes.
pub proof fn lemma_scan_chunks_bounds(bytes: Seq<u8>, o: int, room: nat)
    requires
        0 <= o,
        bytes.len() <= usize::MAX,
        scan_chunks(bytes, o, room) is Some,
    ensures
        forall|k: int|
            0 <= k < scan_chunks(bytes, o, room).unwrap().len() ==> chunk_within(
                #[trigger] scan_chunks(bytes, o, room).unwrap()[k],
                bytes.len() as int,
            ),
    decreases room,
{
    if room == 0 || o + 8 > bytes.len() {
    } else {
        let size = le32(bytes, o + 4);
        if size <= bytes.len() - (o + 8) {
            let next = o + scan_step(size);
            lemma_scan_chunks_bounds(bytes, next, (room - 1) as nat);
            let scanned = scan_chunks(bytes, o, room).unwrap();
            let rest = scan_chunks(bytes, next, (room - 1) as nat).unwrap();
            assert(scanned == seq![chunk_at(bytes, o)] + rest);
            assert(chunk_within(chunk_at(bytes, o), bytes.len() as int));
            assert forall|k: int| 0 <= k < scanned.len() implies chunk_within(
                #[trigger] scanned[k],
                bytes.len() as int,
            ) by {
                if k > 0 {
                    assert(scanned[k] == rest[k - 1]);
                }
            }
        }
    }
}

/// Dropping a tag-free prefix does not change which chunk a tag search
/// finds.
proof fn lemma_find_chunk_prefix(chunks: Seq<Chunk>, tag: ChunkTag, i: int)
    requires
        0 <= i <= chunks.len(),
        forall|j: int| 0 <= j < i ==> chunks[j].chunk != tag,
    ensures
        find_chunk(chunks, tag) == find_chunk(chunks.skip(i), tag),
    decreases i,
{
    if i == 0 {
        assert(chunks.skip(0) =~= chunks);
    } else {
        lemma_find_chunk_prefix(chunks.skip(1), tag, i - 1);
        assert(chunks.skip(1).skip(i - 1) =~= chunks.skip(i));
    }
}

/// Whether two chunk tags are the same tag.
fn tag_matches(a: &ChunkTag, b: &ChunkTag) -> (r: bool)
    ensures
        r == (*a == *b),
{
    match (a, b) {
        (ChunkTag::Riff, ChunkTag::Riff) => true,
        (ChunkTag::Rifx, ChunkTag::Rifx) => true,
        (ChunkTag::Wave, ChunkTag::Wave) => true,
        (ChunkTag::Fmt, ChunkTag::Fmt) => true,
        (ChunkTag::Data, ChunkTag::Data) => true,
        (ChunkTag::Unknown(x), ChunkTag::Unknown(y)) => {
            let same = x[0] == y[0] && x[1] == y[1] && x[2] == y[2] && x[3] == y[3];
            proof {
                if same {
                    assert(*x =~= *y);
                }
            }
            same
        },
        _ => false,
    }
}

/// The first chunk in the table carrying `tag`, if any.
fn find_in_table(t: &heapless::Vec<Chunk, MAX_CHUNKS>, tag: ChunkTag) -> (r: Option<Chunk>)
    ensures
        r == find_chunk(table_chunks(*t), tag),
{
    let len: usize = table_len(t);
    let mut i: usize = 0;
    while i < len
        invariant
            i <= len,
            len == table_chunks(*t).len(),
            forall|j: int| 0 <= j < i ==> table_chunks(*t)[j].chunk != tag,
        decreases len - i,
    {
        let c = table_get(t, i);
        if tag_matches(&c.chunk, &tag) {
            proof {
                lemma_find_chunk_prefix(table_chunks(*t), tag, i as int);
                assert(table_chunks(*t).skip(i as int)[0] == table_chunks(*t)[i as int]);
            }
            return Some(c);
        }
        i = i + 1;
    }
    proof {
        lemma_find_chunk_prefix(table_chunks(*t), tag, len as int);
    }
    None
}

/// The scanner's running claim: finishing the scan from `cur`, with the
/// chunks recorded in `table` beyond the starting table `t0`, yields exactly
/// the scan that started at `o0`.
spec fn scan_invariant(bytes: Seq<u8>, o0: int, t0: Seq<Chunk>, table: Seq<Chunk>, cur: int) -> bool {
    match scan_chunks(bytes, cur, room_left(table.len() as int)) {
        None => scan_chunks(bytes, o0, room_left(t0.len() as int)) is None,
        Some(rest) => scan_chunks(bytes, o0, room_left(t0.len() as int)) == Some(
            table.skip(t0.len() as int) + rest,
        ),
    }
}

/// One unfolding of [`scan_chunks`] when a whole, untruncated header sits
/// at `o`.
proof fn lemma_scan_unfold(bytes: Seq<u8>, o: int, room: nat)
    requires
        room > 0,
        o + 8 <= bytes.len(),
        le32(bytes, o + 4) <= bytes.len() - (o + 8),
    ensures
        scan_chunks(bytes, o, room) == (match scan_chunks(
            bytes,
            o + scan_step(le32(bytes, o + 4)),
            (room - 1) as nat,
        ) {
            None => None::<Seq<Chunk>>,
            Some(rest) => Some(seq![chunk_at(bytes, o)] + rest),
        }),
{
}

/// A scan with no room, or with no full header left, records nothing.
proof fn lemma_scan_empty(bytes: Seq<u8>, o: int, room: nat)
    requires
        room == 0 || o + 8 > bytes.len(),
    ensures
        scan_chunks(bytes, o, room) == Some(Seq::<Chunk>::empty()),
{
}

/// A header whose declared size reaches past the end of the bytes fails the
/// scan.
proof fn lemma_scan_truncated(bytes: Seq<u8>, o: int, room: nat)
    requires
        room > 0,
        o + 8 <= bytes.len(),
        le32(bytes, o + 4) > bytes.len() - (o + 8),
    ensures
        scan_chunks(bytes, o, room) is None,
{
}

/// Walk the container from `file_offset`, recording every subchunk header
/// into the table until the table is full or the file ends.
///
/// The file is read in windows the size of `buf`; a chunk header that would
/// straddle the end of the window is re-read at its true offset.  A header
/// whose declared size reaches past the end of the file fails the scan with
/// [`Error::ChunkSizeIncorrect`]; running out of table room stops the scan
/// silently.
#[verifier::rlimit(100)]
fn parse_chunks<File: PlatformFile>(
    buf: &mut [u8],
    file: &mut File,
    chunks: &mut heapless::Vec<Chunk, MAX_CHUNKS>,
    file_offset: usize,
) -> (r: Result<(), Error>)
    requires
        old(file).inv(),
        old(buf)@.len() >= 8,
        file_offset <= old(file).contents().len(),
        table_chunks(*old(chunks)).len() < MAX_CHUNKS,
    ensures
        final(file).inv(),
        final(file).contents() == old(file).contents(),
        final(buf)@.len() == old(buf)@.len(),
        r is Ok <==> scan_chunks(old(file).contents(), file_offset as int, room_left(table_chunks(*old(chunks)).len() as int)) is Some,
        r is Ok ==> table_chunks(*final(chunks)) == table_chunks(*old(chunks)) + scan_chunks(old(file).contents(), file_offset as int, room_left(table_chunks(*old(chunks)).len() as int)).unwrap(),
        r matches Err(e) ==> e is ChunkSizeIncorrect,
{
    let ghost bytes: Seq<u8> = old(file).contents();
    let ghost t0: Seq<Chunk> = table_chunks(*old(chunks));
    let ghost buf_len0: int = old(buf)@.len() as int;
    let file_len: usize = file.length();
    let mut offset: usize = file_offset;

    while file_len - offset >= 8
        invariant
            bytes == old(file).contents(),
            t0 == table_chunks(*old(chunks)),
            buf_len0 == old(buf)@.len(),
            file.inv(),
            file.contents() == bytes,
            bytes.len() == file_len,
            buf@.len() == buf_len0,
            buf_len0 >= 8,
            offset <= file_len,
            t0.len() <= table_chunks(*chunks).len(),
            table_chunks(*chunks).len() <= MAX_CHUNKS - 1,
            table_chunks(*chunks).subrange(0, t0.len() as int) == t0,
            scan_invariant(bytes, file_offset as int, t0, table_chunks(*chunks), offset as int),
        decreases file_len - offset,
    {
        match file.seek_from_start(offset) {
            Ok(_) => (),
            Err(e) => {
                return Err(Error::PlatformError(e));
            },
        }
        let n: usize = match file.read(buf) {
            Ok(n) => n,
            Err(PlatformFileError::EOF) => {
                return Ok(());
            },
            Err(e) => {
                return Err(Error::PlatformError(e));
            },
        };
        proof {
            assert forall|j: int| 0 <= j < n implies buf@[j] == bytes[offset + j] by {
                assert(buf@.subrange(0, n as int)[j] == bytes.subrange(
                    offset as int,
                    offset + n,
                )[j]);
            }
        }

        let mut i: usize = 0;
        let mut straddle: bool = false;
        let mut resume: usize = offset;

        while !straddle && n - i >= 8
            invariant
                bytes == old(file).contents(),
                t0 == table_chunks(*old(chunks)),
                buf_len0 == old(buf)@.len(),
                file.inv(),
                file.contents() == bytes,
                bytes.len() == file_len,
                buf@.len() == buf_len0,
                buf_len0 >= 8,
                n >= 8,
                n <= buf_len0,
                offset + n <= file_len,
                i <= n,
                i == 0 || i >= 8,
                forall|j: int| 0 <= j < n ==> buf@[j] == bytes[offset + j],
                t0.len() <= table_chunks(*chunks).len(),
                table_chunks(*chunks).len() <= MAX_CHUNKS - 1,
                table_chunks(*chunks).subrange(0, t0.len() as int) == t0,
                straddle ==> offset + 8 <= resume <= file_len,
                scan_invariant(
                    bytes,
                    file_offset as int,
                    t0,
                    table_chunks(*chunks),
                    if straddle {
                        resume as int
                    } else {
                        offset + i
                    },
                ),
            decreases (if straddle { 0int } else { 1int }), n - i,
        {
            let recorded: usize = table_len(chunks);
            if recorded >= MAX_CHUNKS - 1 {
                proof {
                    lemma_scan_empty(
                        bytes,
                        offset + i,
                        room_left(table_chunks(*chunks).len() as int),
                    );
                    assert(table_chunks(*chunks).skip(t0.len() as int) + Seq::<Chunk>::empty()
                        =~= table_chunks(*chunks).skip(t0.len() as int));
                    assert(t0 + table_chunks(*chunks).skip(t0.len() as int) =~= table_chunks(
                        *chunks,
                    ));
                }
                return Ok(());
            }
            let header: [u8; 8] = [
                buf[i],
                buf[i + 1],
                buf[i + 2],
                buf[i + 3],
                buf[i + 4],
                buf[i + 5],
                buf[i + 6],
                buf[i + 7],
            ];
            let size32: u32 = read_le32(buf, i + 4);
            let cstart: usize = offset + i + 8;
            let rem: usize = file_len - cstart;
            proof {
                assert(size32 as int == le32(bytes, offset + i + 4));
            }
            if (size32 as usize) > rem {
                proof {
                    lemma_scan_truncated(
                        bytes,
                        offset + i,
                        room_left(table_chunks(*chunks).len() as int),
                    );
                }
                return Err(Error::ChunkSizeIncorrect);
            }
            let chunk = parse_chunk(&header, offset + i);
            let ghost table_before: Seq<Chunk> = table_chunks(*chunks);
            let ghost room_before: nat = room_left(table_before.len() as int);
            match table_push(chunks, chunk) {
                Ok(_) => (),
                Err(_) => {
                    return Ok(());
                },
            }
            proof {
                assert(chunk.chunk == tag_at(bytes, offset + i));
                assert(chunk == chunk_at(bytes, offset + i));
                lemma_scan_unfold(bytes, offset + i, room_before);
                assert(room_left(table_chunks(*chunks).len() as int) == (room_before
                    - 1) as nat);
                assert(table_chunks(*chunks).skip(t0.len() as int) =~= table_before.skip(
                    t0.len() as int,
                ) + seq![chunk]);
                assert(table_chunks(*chunks).subrange(0, t0.len() as int) =~= t0);
            }

            let psize: usize = size32 as usize;
            let mut next: usize = cstart + psize;
            if psize % 2 == 1 {
                if next == file_len {
                    proof {
                        assert(offset + i + scan_step(size32 as int) == file_len + 1);
                        lemma_scan_empty(bytes, file_len + 1, (room_before - 1) as nat);
                        assert(scan_chunks(bytes, offset + i, room_before) == Some(
                            seq![chunk_at(bytes, offset + i)] + Seq::<Chunk>::empty(),
                        ));
                        assert(table_before.skip(t0.len() as int) + (seq![
                            chunk_at(bytes, offset + i),
                        ] + Seq::<Chunk>::empty()) =~= table_chunks(*chunks).skip(
                            t0.len() as int,
                        ));
                        assert(t0 + table_chunks(*chunks).skip(t0.len() as int)
                            =~= table_chunks(*chunks));
                    }
                    return Ok(());
                }
                next = next + 1;
            }
            proof {
                assert(next as int == offset + i + scan_step(size32 as int));
                let tail = scan_chunks(bytes, next as int, (room_before - 1) as nat);
                if tail is Some {
                    assert(scan_chunks(bytes, offset + i, room_before) == Some(
                        seq![chunk_at(bytes, offset + i)] + tail.unwrap(),
                    ));
                    assert(table_before.skip(t0.len() as int) + (seq![
                        chunk_at(bytes, offset + i),
                    ] + tail.unwrap()) =~= table_chunks(*chunks).skip(t0.len() as int)
                        + tail.unwrap());
                } else {
                    assert(scan_chunks(bytes, offset + i, room_before) is None);
                }
                assert(scan_invariant(
                    bytes,
                    file_offset as int,
                    t0,
                    table_chunks(*chunks),
                    next as int,
                ));
            }
            if next - offset <= n {
                i = next - offset;
            } else {
                resume = next;
                straddle = true;
            }
        }
        if straddle {
            offset = resume;
        } else {
            offset = offset + i;
        }
    }
    proof {
        lemma_scan_empty(bytes, offset as int, room_left(table_chunks(*chunks).len() as int));
        assert(table_chunks(*chunks).skip(t0.len() as int) + Seq::<Chunk>::empty()
            =~= table_chunks(*chunks).skip(t0.len() as int));
        assert(t0 + table_chunks(*chunks).skip(t0.len() as int) =~= table_chunks(*chunks));
    }
    Ok(())
}

/// The 16-bit little-endian field at offset `i` of `buf`.
fn read_le16(buf: &[u8], i: usize) -> (r: u16)
    requires
        i + 2 <= buf@.len(),
    ensures
        r == le16(buf@, i as int),
{
    (buf[i] as u16) + (buf[i + 1] as u16) * 0x100
}

/// The 32-bit little-endian field at offset `i` of `buf`.
fn read_le32(buf: &[u8], i: usize) -> (r: u32)
    requires
        i + 4 <= buf@.len(),
    ensures
        r == le32(buf@, i as int),
{
    (buf[i] as u32) + (buf[i + 1] as u32) * 0x100 + (buf[i + 2] as u32) * 0x10000 + (buf[i + 3]
        as u32) * 0x1000000
}

/// Decode the eight-byte chunk header in `bytes`, read at file offset
/// `index`.
///
/// The payload starts eight bytes past the header; `end` is the start plus
/// the declared size, with no alignment padding included.
pub fn parse_chunk(bytes: &[u8; 8], index: usize) -> (r: Chunk)
    requires
        index + 8 + le32(bytes@, 4) <= usize::MAX,
    ensures
        r.chunk == tag_at(bytes@, 0),
        r.start == index + 8,
        r.end == index + 8 + le32(bytes@, 4),
{
    let tag_bytes: [u8; 4] = [bytes[0], bytes[1], bytes[2], bytes[3]];
    let tag = ChunkTag::from_bytes(&tag_bytes);
    let size = (bytes[4] as u32) + (bytes[5] as u32) * 0x100 + (bytes[6] as u32) * 0x10000 + (
    bytes[7] as u32) * 0x1000000;
    Chunk { chunk: tag, start: index + 8, end: index + 8 + (size as usize) }
}

/// The sample encoding named by the audio-format code of a `fmt ` chunk.
#[derive(PartialEq, Eq)]
pub enum AudioFormat {
    /// Linear pulse-code modulation, the only supported encoding.
    Pcm,
}

/// The audio format encoded by a two-byte format-code field.
pub open spec fn spec_audio_format(b: Seq<u8>) -> Result<AudioFormat, Error> {
    if b.len() != 2 {
        Err(Error::ChunkSizeIncorrect)
    } else if le16(b, 0) == 1 {
        Ok(AudioFormat::Pcm)
    } else {
        Err(Error::UnsupportedAudioFormat)
    }
}

impl AudioFormat {
    /// Decode the two-byte audio-format code; only linear PCM (code 1) is
    /// supported.
    pub fn from_bytes(bytes: &[u8]) -> (r: Result<AudioFormat, Error>)
        ensures
            r == spec_audio_format(bytes@),
    {
        if bytes.len() != 2 {
            return Err(Error::ChunkSizeIncorrect);
        }
        let format = read_le16(bytes, 0);
        match format {
            1 => Ok(AudioFormat::Pcm),
            _ => Err(Error::UnsupportedAudioFormat),
        }
    }
}

/// The decoded format descriptor of a WAV stream.
pub struct Fmt {
    pub audio_format: AudioFormat,
    /// Sample rate in Hz, narrowed to 16 bits: rates above 65535 Hz lose
    /// their upper bits.
    pub sample_rate: u16,
    pub channels: Channels,
    pub sample_format: SampleFormat,
    /// Trailing extension block of non-basic PCM descriptors; tolerated but
    /// not parsed.
    pub extra: Option<ExtraFmtParam>,
}

/// Size header of the `fmt ` chunk's trailing extension block.
pub struct ExtraFmtParam {
    pub param_size: u16,
}

/// The descriptor encoded by a `fmt ` chunk payload, or the error that
/// rejects it.
pub open spec fn spec_parse_fmt(p: Seq<u8>) -> Result<Fmt, Error> {
    if p.len() < 16 {
        Err(Error::ChunkSizeIncorrect)
    } else if le16(p, 0) != 1 {
        Err(Error::UnsupportedAudioFormat)
    } else if le16(p, 2) != 1 && le16(p, 2) != 2 {
        Err(Error::UnsupportedChannelCount)
    } else if le16(p, 14) != 8 && le16(p, 14) != 16 && le16(p, 14) != 24 {
        Err(Error::UnknownEncoding)
    } else {
        Ok(
            Fmt {
                audio_format: AudioFormat::Pcm,
                sample_rate: (le32(p, 4) % 0x10000) as u16,
                channels: if le16(p, 2) == 1 {
                    Channels::Mono
                } else {
                    Channels::Stereo
                },
                sample_format: if le16(p, 14) == 8 {
                    SampleFormat::U8
                } else if le16(p, 14) == 16 {
                    SampleFormat::I16
                } else {
                    SampleFormat::I24
                },
                extra: None,
            },
        )
    }
}

/// Decode a `fmt ` chunk payload into a validated format descriptor.
///
/// The payload must hold at least the sixteen bytes of the basic PCM
/// descriptor; trailing extension bytes are tolerated and ignored.  The
/// 32-bit wire sample rate is narrowed to 16 bits (a known limitation for
/// rates above 65535 Hz).
pub fn parse_fmt(buf: &[u8]) -> (r: Result<Fmt, Error>)
    ensures
        r == spec_parse_fmt(buf@),
{
    if buf.len() < 16 {
        return Err(Error::ChunkSizeIncorrect);
    }
    let format = match AudioFormat::from_bytes(vstd::slice::slice_subrange(buf, 0, 2)) {
        Ok(f) => f,
        Err(e) => { return Err(e) },
    };

    let num_channels = read_le16(buf, 2);
    let channels = match num_channels {
        1 => Channels::Mono,
        2 => Channels::Stereo,
        _ => { return Err(Error::UnsupportedChannelCount) },
    };

    let sample_rate_raw = read_le32(buf, 4);
    let sample_rate = (sample_rate_raw % 0x10000) as u16;
    let bit_depth = read_le16(buf, 14);

    let encoding = match bit_depth {
        8 => SampleFormat::U8,
        16 => SampleFormat::I16,
        24 => SampleFormat::I24,
        _ => { return Err(Error::UnknownEncoding) },
    };

    Ok(
        Fmt {
            audio_format: format,
            sample_rate,
            channels,
            sample_format: encoding,
            extra: None,
        },
    )
}

/// The stream opens with a `RIFF` (or big-endian `RIFX`) marker.
pub open spec fn riff_ok(bytes: Seq<u8>) -> bool {
    bytes.len() >= 4 && (tag_at(bytes, 0) is Riff || tag_at(bytes, 0) is Rifx)
}

/// The container type at offset 8 is `WAVE`.
pub open spec fn wave_ok(bytes: Seq<u8>) -> bool {
    bytes.len() >= 12 && tag_at(bytes, 8) is Wave
}

/// The chunk table scanned from the first subchunk header at offset 12.
pub open spec fn wav_table(bytes: Seq<u8>) -> Option<Seq<Chunk>> {
    scan_chunks(bytes, 12, room_left(0))
}

/// The slice of a located `fmt ` chunk that the decoder examines: its
/// payload, clamped to one 64-byte scratch window.
pub open spec fn fmt_payload(bytes: Seq<u8>, fc: Chunk) -> Seq<u8> {
    bytes.subrange(fc.start as int, fc.start + crate::spec_min(fc.end - fc.start, 64))
}

/// What opening a WAV stream yields: the decoded format descriptor and the
/// located `data` chunk, or the error that rejects the stream.
pub open spec fn spec_open(bytes: Seq<u8>) -> Result<(Fmt, Chunk), Error> {
    if !riff_ok(bytes) {
        Err(Error::NoRiffChunkFound)
    } else if !wave_ok(bytes) {
        Err(Error::NoWaveTagFound)
    } else {
        match wav_table(bytes) {
            None => Err(Error::ChunkSizeIncorrect),
            Some(table) => match find_chunk(table, ChunkTag::Fmt) {
                None => Err(Error::NoFmtChunkFound),
                Some(fc) => match spec_parse_fmt(fmt_payload(bytes, fc)) {
                    Err(e) => Err(e),
                    Ok(f) => match find_chunk(table, ChunkTag::Data) {
                        None => Err(Error::NoDataChunkFound),
                        Some(dc) => Ok((f, dc)),
                    },
                },
            },
        }
    }
}

/// A found chunk is one of the table's elements.
proof fn lemma_find_chunk_member(chunks: Seq<Chunk>, tag: ChunkTag)
    requires
        find_chunk(chunks, tag) is Some,
    ensures
        exists|k: int|
            0 <= k < chunks.len() && chunks[k] == find_chunk(chunks, tag).unwrap(),
    decreases chunks.len(),
{
    if chunks.len() > 0 {
        if chunks[0].chunk == tag {
            assert(chunks[0] == find_chunk(chunks, tag).unwrap());
        } else {
            lemma_find_chunk_member(chunks.skip(1), tag);
            let k = choose|k: int|
                0 <= k < chunks.skip(1).len() && chunks.skip(1)[k] == find_chunk(
                    chunks.skip(1),
                    tag,
                ).unwrap();
            assert(chunks[k + 1] == find_chunk(chunks, tag).unwrap());
        }
    }
}

/// Wav file parser: a streaming reader over the audio payload of a
/// RIFF/WAVE container.
pub struct Wav<File: PlatformFile> {
    file: File,
    data_read: usize,
    data_start: usize,
    data_end: usize,
    fmt: Fmt,
}

impl<File: PlatformFile> Wav<File> {
    /// Open a WAV stream: validate the `RIFF`/`WAVE` markers, scan the chunk
    /// table, decode the `fmt ` chunk, and leave the cursor at the start of
    /// the `data` chunk.
    ///
    /// Succeeds exactly on the streams [`spec_open`] accepts, and fails with
    /// exactly the error [`spec_open`] assigns.
    pub fn new(file: File) -> (r: Result<Wav<File>, Error>)
        requires
            file.inv(),
            file.cursor() == 0,
        ensures
            r is Ok <==> spec_open(file.contents()) is Ok,
            r matches Err(e) ==> spec_open(file.contents()) matches Err(e2) && e == e2,
            r matches Ok(w) ==> ({
                let p = spec_open(file.contents()).unwrap();
                w.inv() && w.file_bytes() == file.contents() && w.file_cursor() == p.1.start
                    && w.data_start() == p.1.start && w.data_end() == p.1.end
                    && w.played_bytes() == 0 && w.spec_sample_rate() == p.0.sample_rate
                    && w.spec_channels() == p.0.channels && w.spec_sample_format()
                    == p.0.sample_format
            }),
    {
        let ghost bytes: Seq<u8> = file.contents();
        let mut file = file;
        proof {
            file.lemma_inv();
        }
        let mut chunks = table_new();
        let mut buf: Vec<u8> = vec![0u8; 64];

        // the first window holds the RIFF marker and the container type
        let n: usize = match file.read(buf.as_mut_slice()) {
            Ok(n) => n,
            Err(PlatformFileError::EOF) => {
                return Err(Error::NoRiffChunkFound);
            },
            Err(e) => {
                return Err(Error::PlatformError(e));
            },
        };
        proof {
            assert forall|j: int| 0 <= j < n implies buf@[j] == bytes[j] by {
                assert(buf@.subrange(0, n as int)[j] == bytes.subrange(0, n as int)[j]);
            }
        }

        if n < 4 {
            return Err(Error::NoRiffChunkFound);
        }
        let head_bytes: [u8; 4] = [buf[0], buf[1], buf[2], buf[3]];
        let tag0 = ChunkTag::from_bytes(&head_bytes);
        proof {
            assert(tag0 == tag_at(bytes, 0));
        }
        let riff = match tag0 {
            ChunkTag::Riff => true,
            ChunkTag::Rifx => true,
            _ => false,
        };
        if !riff {
            return Err(Error::NoRiffChunkFound);
        }

        if n < 12 {
            return Err(Error::NoWaveTagFound);
        }
        let wave_bytes: [u8; 4] = [buf[8], buf[9], buf[10], buf[11]];
        let wave_tag = ChunkTag::from_bytes(&wave_bytes);
        proof {
            assert(wave_tag == tag_at(bytes, 8));
        }
        if !(matches!(wave_tag, ChunkTag::Wave)) {
            return Err(Error::NoWaveTagFound);
        }

        // scan the subchunk headers into the bounded table
        match parse_chunks(buf.as_mut_slice(), &mut file, &mut chunks, 12) {
            Ok(_) => (),
            Err(e) => {
                return Err(e);
            },
        }
        proof {
            assert(Seq::<Chunk>::empty() + wav_table(bytes).unwrap() =~= wav_table(
                bytes,
            ).unwrap());
            lemma_scan_chunks_bounds(bytes, 12, room_left(0));
        }
        let ghost table: Seq<Chunk> = wav_table(bytes).unwrap();

        // decode the format descriptor out of the fmt chunk
        let fmt_chunk: Chunk = match find_in_table(&chunks, ChunkTag::Fmt) {
            Some(c) => c,
            None => {
                return Err(Error::NoFmtChunkFound);
            },
        };
        proof {
            lemma_find_chunk_member(table, ChunkTag::Fmt);
            let k = choose|k: int| 0 <= k < table.len() && table[k] == fmt_chunk;
            assert(chunk_within(table[k], bytes.len() as int));
        }
        match file.seek_from_start(fmt_chunk.start) {
            Ok(_) => (),
            Err(e) => {
                return Err(Error::PlatformError(e));
            },
        }
        let n2: usize = match file.read(buf.as_mut_slice()) {
            Ok(n2) => n2,
            Err(PlatformFileError::EOF) => {
                // the fmt chunk starts at the end of the file: it is empty
                proof {
                    assert(fmt_payload(bytes, fmt_chunk) =~= Seq::<u8>::empty());
                }
                return Err(Error::ChunkSizeIncorrect);
            },
            Err(e) => {
                return Err(Error::PlatformError(e));
            },
        };
        proof {
            assert forall|j: int| 0 <= j < n2 implies buf@[j] == bytes[fmt_chunk.start + j] by {
                assert(buf@.subrange(0, n2 as int)[j] == bytes.subrange(
                    fmt_chunk.start as int,
                    fmt_chunk.start + n2,
                )[j]);
            }
        }
        let size: usize = fmt_chunk.end - fmt_chunk.start;
        let m: usize = if size <= n2 {
            size
        } else {
            n2
        };
        proof {
            assert(m as int == crate::spec_min(fmt_chunk.end - fmt_chunk.start, 64));
        }
        let fmt_slice = vstd::slice::slice_subrange(buf.as_slice(), 0, m);
        proof {
            assert(fmt_slice@ =~= fmt_payload(bytes, fmt_chunk));
        }
        let fmt = match parse_fmt(fmt_slice) {
            Ok(f) => f,
            Err(e) => {
                return Err(e);
            },
        };

        // position the reader at the start of the audio payload
        let data_chunk: Chunk = match find_in_table(&chunks, ChunkTag::Data) {
            Some(c) => c,
            None => {
                return Err(Error::NoDataChunkFound);
            },
        };
        proof {
            lemma_find_chunk_member(table, ChunkTag::Data);
            let k = choose|k: int| 0 <= k < table.len() && table[k] == data_chunk;
            assert(chunk_within(table[k], bytes.len() as int));
        }
        match file.seek_from_start(data_chunk.start) {
            Ok(_) => (),
            Err(e) => {
                return Err(Error::PlatformError(e));
            },
        }

        Ok(
            Wav {
                file,
                fmt,
                data_read: 0,
                data_start: data_chunk.start,
                data_end: data_chunk.end,
            },
        )
    }
}

impl<File: PlatformFile> AudioFile<File> for Wav<File> {
    type Error = Error;

    closed spec fn file_bytes(&self) -> Seq<u8> {
        self.file.contents()
    }

    closed spec fn file_cursor(&self) -> int {
        self.file.cursor()
    }

    closed spec fn data_start(&self) -> int {
        self.data_start as int
    }

    closed spec fn data_end(&self) -> int {
        self.data_end as int
    }

    closed spec fn played_bytes(&self) -> int {
        self.data_read as int
    }

    closed spec fn spec_sample_rate(&self) -> u16 {
        self.fmt.sample_rate
    }

    closed spec fn spec_channels(&self) -> Channels {
        self.fmt.channels
    }

    closed spec fn spec_sample_format(&self) -> SampleFormat {
        self.fmt.sample_format
    }

    closed spec fn inv(&self) -> bool {
        self.file.inv() && self.data_start <= self.data_end && self.data_end
            <= self.file.contents().len() && self.data_read <= self.data_end - self.data_start
    }

    fn read(&mut self, buf: &mut [u8]) -> (r: Result<usize, Error>)
        ensures
            r matches Err(e) ==> e matches Error::PlatformError(p) && p is EOF,
    {
        proof {
            self.file.lemma_inv();
        }
        // only audio data from the data chunk is handed out: clamp the
        // requested length to what is left of the data region
        let size: usize = self.data_end - self.data_start;
        let remaining: usize = size - self.data_read;
        let want: usize = if buf.len() <= remaining {
            buf.len()
        } else {
            remaining
        };
        let ghost buf0: Seq<u8> = buf@;
        let (head, tail) = buf.split_at_mut(want);
        let ghost head0: Seq<u8> = head@;
        let ghost tail0: Seq<u8> = tail@;
        match self.file.read(head) {
            Ok(len) => {
                self.data_read = self.data_read + len;
                proof {
                    assert(head0 =~= buf0.subrange(0, want as int));
                    assert(head@.skip(len as int) =~= buf0.subrange(len as int, want as int));
                    assert(tail@ =~= buf0.subrange(want as int, buf0.len() as int));
                    assert(buf@ == head@ + tail@);
                    assert(buf@.subrange(0, len as int) =~= head@.subrange(0, len as int));
                    assert(buf@.skip(len as int) =~= buf0.skip(len as int));
                }
                Ok(len)
            },
            Err(e) => {
                proof {
                    assert(buf@ =~= buf0);
                }
                Err(Error::PlatformError(e))
            },
        }
    }

    fn sample_rate(&self) -> (r: u16) {
        self.fmt.sample_rate
    }

    fn channels(&self) -> (r: Channels) {
        self.fmt.channels
    }

    fn sample_format(&self) -> (r: SampleFormat) {
        self.fmt.sample_format
    }

    fn try_seek(&mut self, sample_offset: i64) -> (r: Result<(), Error>)
        ensures
            r matches Err(e) ==> e matches Error::PlatformError(p) && p is SeekOutofBounds,
    {
        let byte_offset: i64 = sample_offset * (self.sample_format().size() as i64);
        match self.file.seek_from_current(byte_offset) {
            Ok(_) => Ok(()),
            Err(e) => Err(Error::PlatformError(e)),
        }
    }

    fn played(&self) -> (r: usize) {
        self.data_read
    }

    fn restart(&mut self) -> (r: Result<(), Error>)
        ensures
            r matches Err(e) ==> e matches Error::PlatformError(p) && p is SeekOutofBounds,
    {
        let back: i64 = -(self.data_read as i64);
        match self.file.seek_from_current(back) {
            Ok(_) => {
                self.data_read = 0;
                Ok(())
            },
            Err(e) => Err(Error::PlatformError(e)),
        }
    }

    fn is_eof(&self) -> (r: bool) {
        self.data_end - self.data_start == self.data_read
    }
}

/// The bytes one call to [`AudioFile::read`] hands out of a reader whose
/// cursor stands at `cursor` with `remaining` bytes of the data region left
/// and a `buf_len`-byte buffer: the read length is clamped to the buffer, to
/// the rest of the data region, and to the rest of the file.
pub open spec fn read_result(bytes: Seq<u8>, cursor: int, remaining: int, buf_len: int) -> Seq<u8> {
    bytes.subrange(
        cursor,
        cursor + crate::spec_min(crate::spec_min(buf_len, remaining), bytes.len() - cursor),
    )
}

/// A valid stream decodes to exactly the encoded format fields: whenever the
/// markers are present, the chunk table scans, and the `fmt ` payload is
/// accepted, opening succeeds and the descriptor's channel count, sample
/// rate and sample format match the `fmt ` chunk byte for byte, while the
/// located data chunk is the first `data` chunk of the table.
pub proof fn lemma_valid_stream_decodes(bytes: Seq<u8>)
    requires
        riff_ok(bytes),
        wave_ok(bytes),
        wav_table(bytes) is Some,
        find_chunk(wav_table(bytes).unwrap(), ChunkTag::Fmt) is Some,
        spec_parse_fmt(
            fmt_payload(bytes, find_chunk(wav_table(bytes).unwrap(), ChunkTag::Fmt).unwrap()),
        ) is Ok,
        find_chunk(wav_table(bytes).unwrap(), ChunkTag::Data) is Some,
    ensures
        spec_open(bytes) is Ok,
        ({
            let p = spec_open(bytes).unwrap();
            let payload = fmt_payload(
                bytes,
                find_chunk(wav_table(bytes).unwrap(), ChunkTag::Fmt).unwrap(),
            );
            p.0.channels == (if le16(payload, 2) == 1 {
                Channels::Mono
            } else {
                Channels::Stereo
            }) && p.0.sample_rate == (le32(payload, 4) % 0x10000) as u16 && p.0.sample_format
                == (if le16(payload, 14) == 8 {
                SampleFormat::U8
            } else if le16(payload, 14) == 16 {
                SampleFormat::I16
            } else {
                SampleFormat::I24
            }) && p.1 == find_chunk(wav_table(bytes).unwrap(), ChunkTag::Data).unwrap()
        }),
{
}

/// A stream that misses the `RIFF` marker is rejected with
/// [`Error::NoRiffChunkFound`], and one that carries it but misses the
/// `WAVE` marker with [`Error::NoWaveTagFound`]; opening never succeeds on
/// such a stream.
pub proof fn lemma_missing_markers_rejected(bytes: Seq<u8>)
    ensures
        !riff_ok(bytes) ==> (spec_open(bytes) matches Err(e) && e is NoRiffChunkFound),
        riff_ok(bytes) && !wave_ok(bytes) ==> (spec_open(bytes) matches Err(e) && e is NoWaveTagFound),
{
}

/// A fresh reader hands out the data payload from its start: a read of `n`
/// bytes, `n` no more than the data region's size, returns exactly `n`
/// bytes, equal to the first `n` payload bytes; the played count, zero
/// before the read, is `n` afterwards by the read's own contract.
pub proof fn lemma_fresh_read_exact(bytes: Seq<u8>, data_start: int, data_end: int, buf_len: int)
    requires
        0 <= data_start <= data_end <= bytes.len(),
        0 <= buf_len <= data_end - data_start,
    ensures
        read_result(bytes, data_start, data_end - data_start, buf_len).len() == buf_len,
        read_result(bytes, data_start, data_end - data_start, buf_len) == bytes.subrange(
            data_start,
            data_end,
        ).subrange(0, buf_len),
{
    assert(read_result(bytes, data_start, data_end - data_start, buf_len) =~= bytes.subrange(
        data_start,
        data_end,
    ).subrange(0, buf_len));
}

/// Rewinding is idempotent: a reader that has played `played` bytes with
/// its cursor still aligned (`cursor == data_start + played`) stands, after
/// a restart, at the start of the data region with its count reset, so a
/// read returns bit for bit what the first read from the fresh reader
/// returned.
pub proof fn lemma_restart_rereads(
    bytes: Seq<u8>,
    data_start: int,
    data_end: int,
    played: int,
    buf_len: int,
)
    requires
        0 <= data_start <= data_end <= bytes.len(),
        0 <= played <= data_end - data_start,
        0 <= buf_len,
    ensures
        read_result(bytes, (data_start + played) - played, data_end - data_start, buf_len)
            == read_result(bytes, data_start, data_end - data_start, buf_len),
{
}

/// A `fmt ` chunk whose audio-format code is not linear PCM is rejected
/// with [`Error::UnsupportedAudioFormat`]: no descriptor is produced.
pub proof fn lemma_non_pcm_rejected(p: Seq<u8>)
    requires
        p.len() >= 16,
        le16(p, 0) != 1,
    ensures
        spec_parse_fmt(p) matches Err(e) && e is UnsupportedAudioFormat,
{
}

/// Odd-length chunks are skipped over their pad byte: after a chunk with an
/// odd declared size, the scan resumes exactly one byte past the payload,
/// so the next recorded chunk is the one at the even-aligned offset.
pub proof fn lemma_odd_chunk_padding(bytes: Seq<u8>, o: int, room: nat)
    requires
        room > 0,
        0 <= o,
        o + 8 <= bytes.len(),
        le32(bytes, o + 4) % 2 == 1,
        le32(bytes, o + 4) <= bytes.len() - (o + 8),
    ensures
        scan_chunks(bytes, o, room) matches Some(cs) ==> cs.len() >= 1 && cs[0] == chunk_at(
            bytes,
            o,
        ) && cs.skip(1) == scan_chunks(
            bytes,
            o + 8 + le32(bytes, o + 4) + 1,
            (room - 1) as nat,
        ).unwrap(),
{
    lemma_scan_unfold(bytes, o, room);
    if scan_chunks(bytes, o, room) is Some {
        let cs = scan_chunks(bytes, o, room).unwrap();
        let rest = scan_chunks(bytes, o + 8 + le32(bytes, o + 4) + 1, (room - 1) as nat).unwrap();
        assert(cs == seq![chunk_at(bytes, o)] + rest);
        assert(cs.skip(1) =~= rest);
    }
}



} // verus!
