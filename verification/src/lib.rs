//! Decoder for RIFF/WAVE audio containers.
//!
//! The crate locates the `fmt ` and `data` subchunks of a RIFF container,
//! validates and decodes the format descriptor, and exposes a streaming,
//! byte-exact reader over the raw audio payload.  All access to the
//! underlying storage goes through the [`PlatformFile`] capability, so the
//! decoder works over plain in-memory buffers as well as block-device-backed
//! files.

use vstd::prelude::*;

pub mod wav;

mod chunk_table;

verus! {

/// The smaller of two integers.
pub open spec fn spec_min(a: int, b: int) -> int {
    if a <= b {
        a
    } else {
        b
    }
}

/// Data type of audio sample encoding.
#[derive(PartialEq, Eq, Copy, Clone, Debug, Structural)]
pub enum SampleFormat {
    /// Signed 8 bit audio
    I8,
    /// Unsigned 8 bit audio
    U8,
    /// Signed 16 bit audio
    I16,
    /// Signed 24 bit audio
    I24,
}

impl SampleFormat {
    /// Number of bytes one sample of this format occupies.
    pub open spec fn spec_size(&self) -> u8 {
        match self {
            SampleFormat::I8 => 1u8,
            SampleFormat::U8 => 1u8,
            SampleFormat::I16 => 2u8,
            SampleFormat::I24 => 3u8,
        }
    }

    /// Number of bytes the sample format consumes.
    pub fn size(&self) -> (r: u8)
        ensures
            r == self.spec_size(),
    {
        match self {
            SampleFormat::I8 => 1,
            SampleFormat::U8 => 1,
            SampleFormat::I16 => 2,
            SampleFormat::I24 => 3,
        }
    }
}

/// Number of audio channels carried by the stream.
#[derive(PartialEq, Eq, Copy, Clone, Debug, Structural)]
pub enum Channels {
    Mono,
    Stereo,
}

impl Channels {
    /// The channel count as it appears in the `fmt ` chunk.
    pub open spec fn spec_count(&self) -> u16 {
        match self {
            Channels::Mono => 1u16,
            Channels::Stereo => 2u16,
        }
    }
}

impl core::convert::From<Channels> for u16 {
    /// The wire-format channel count of this channel layout.
    fn from(val: Channels) -> (r: u16)
        ensures
            r == val.spec_count(),
    {
        match val {
            Channels::Mono => 1,
            Channels::Stereo => 2,
        }
    }
}

impl vstd::std_specs::convert::FromSpecImpl<Channels> for u16 {
    open spec fn obeys_from_spec() -> bool {
        true
    }

    open spec fn from_spec(v: Channels) -> u16 {
        v.spec_count()
    }
}

/// Failures reported by a [`PlatformFile`].
#[derive(PartialEq, Eq, Copy, Clone, Debug, Structural)]
pub enum PlatformFileError {
    /// A seek would have moved the cursor outside the file.
    SeekOutofBounds,
    /// A read was attempted with the cursor already at the end of the file.
    EOF,
}

/// Platform agnostic file for accessing audio data.
///
/// A platform file is modelled as an immutable sequence of bytes
/// ([`contents`](PlatformFile::contents)) together with a single cursor
/// ([`cursor`](PlatformFile::cursor)) that every read and seek moves.  An
/// implementation must behave like a reliable byte store: reads return as
/// many bytes as fit in the buffer and remain in the file, end of file is
/// signalled as an error, and seeks either land inside the file or fail
/// without moving the cursor.
pub trait PlatformFile {
    /// The bytes of the backing store.
    spec fn contents(&self) -> Seq<u8>;

    /// The current byte position of the cursor.
    spec fn cursor(&self) -> int;

    /// Well-formedness of the file value.
    spec fn inv(&self) -> bool;

    /// A well-formed file keeps its cursor inside the file.
    proof fn lemma_inv(&self)
        requires
            self.inv(),
        ensures
            0 <= self.cursor() <= self.contents().len(),
            self.contents().len() <= usize::MAX,
    ;

    /// Read bytes at the cursor into the front of `buf`.
    ///
    /// With the cursor at the end of the file the read fails with
    /// [`PlatformFileError::EOF`]; otherwise it returns
    /// `min(buf.len(), bytes left)` bytes and advances the cursor by that
    /// count.
    fn read(&mut self, buf: &mut [u8]) -> (r: Result<usize, PlatformFileError>)
        requires
            old(self).inv(),
        ensures
            final(self).inv(),
            final(self).contents() == old(self).contents(),
            final(buf)@.len() == old(buf)@.len(),
            r is Err <==> old(self).cursor() == old(self).contents().len(),
            r matches Err(e) ==> e is EOF && final(self).cursor() == old(self).cursor() && final(buf)@ == old(buf)@,
            r matches Ok(n) ==> n == spec_min(old(buf)@.len() as int, old(self).contents().len() - old(self).cursor()),
            r matches Ok(n) ==> final(self).cursor() == old(self).cursor() + n,
            r matches Ok(n) ==> final(buf)@.subrange(0, n as int) == old(self).contents().subrange(old(self).cursor(), old(self).cursor() + n),
            r matches Ok(n) ==> final(buf)@.skip(n as int) == old(buf)@.skip(n as int),
    ;

    /// Move the cursor by a signed byte offset relative to its position.
    fn seek_from_current(&mut self, offset: i64) -> (r: Result<(), PlatformFileError>)
        requires
            old(self).inv(),
        ensures
            final(self).inv(),
            final(self).contents() == old(self).contents(),
            r is Ok <==> 0 <= old(self).cursor() + offset <= old(self).contents().len(),
            r is Ok ==> final(self).cursor() == old(self).cursor() + offset,
            r matches Err(e) ==> e is SeekOutofBounds && final(self).cursor() == old(self).cursor(),
    ;

    /// Move the cursor to an absolute byte offset from the start.
    fn seek_from_start(&mut self, offset: usize) -> (r: Result<(), PlatformFileError>)
        requires
            old(self).inv(),
        ensures
            final(self).inv(),
            final(self).contents() == old(self).contents(),
            r is Ok <==> offset <= old(self).contents().len(),
            r is Ok ==> final(self).cursor() == offset,
            r matches Err(e) ==> e is SeekOutofBounds && final(self).cursor() == old(self).cursor(),
    ;

    /// Move the cursor to a byte offset counted back from the end.
    fn seek_from_end(&mut self, offset: usize) -> (r: Result<(), PlatformFileError>)
        requires
            old(self).inv(),
        ensures
            final(self).inv(),
            final(self).contents() == old(self).contents(),
            r is Ok <==> offset <= old(self).contents().len(),
            r is Ok ==> final(self).cursor() == old(self).contents().len() - offset,
            r matches Err(e) ==> e is SeekOutofBounds && final(self).cursor() == old(self).cursor(),
    ;

    /// The length of the file in bytes.
    fn length(&mut self) -> (r: usize)
        requires
            old(self).inv(),
        ensures
            final(self).inv(),
            final(self).contents() == old(self).contents(),
            final(self).cursor() == old(self).cursor(),
            r == old(self).contents().len(),
    ;
}

/// File getters for accessing audio data across all supported containers.
///
/// An audio file is a cursor over the payload of a located data region
/// `[data_start, data_end)` of the backing file, together with the decoded
/// format descriptor.  `played_bytes` counts the bytes handed out by
/// [`read`](AudioFile::read) since the reader was constructed or last
/// restarted.
pub trait AudioFile<File: PlatformFile> {
    type Error;

    /// The bytes of the backing file.
    spec fn file_bytes(&self) -> Seq<u8>;

    /// The position of the underlying file cursor.
    spec fn file_cursor(&self) -> int;

    /// Start offset of the audio payload.
    spec fn data_start(&self) -> int;

    /// End offset (exclusive) of the audio payload.
    spec fn data_end(&self) -> int;

    /// Bytes handed out so far.
    spec fn played_bytes(&self) -> int;

    /// The decoded sample rate.
    spec fn spec_sample_rate(&self) -> u16;

    /// The decoded channel layout.
    spec fn spec_channels(&self) -> Channels;

    /// The decoded sample format.
    spec fn spec_sample_format(&self) -> SampleFormat;

    /// Well-formedness: the data region lies inside the file and the read
    /// count never exceeds the size of the data region.
    spec fn inv(&self) -> bool;

    /// Read audio samples from the file into the front of `buf`.
    ///
    /// The read is clamped so that, with the cursor inside the data region,
    /// no bytes past `data_end` are handed out: at most
    /// `data_end - data_start - played_bytes` bytes are read.  Underlying
    /// platform errors are propagated unchanged.
    fn read(&mut self, buf: &mut [u8]) -> (r: Result<usize, Self::Error>)
        requires
            old(self).inv(),
        ensures
            final(self).inv(),
            final(self).file_bytes() == old(self).file_bytes(),
            final(self).data_start() == old(self).data_start(),
            final(self).data_end() == old(self).data_end(),
            final(self).spec_sample_rate() == old(self).spec_sample_rate(),
            final(self).spec_channels() == old(self).spec_channels(),
            final(self).spec_sample_format() == old(self).spec_sample_format(),
            final(buf)@.len() == old(buf)@.len(),
            r is Err <==> old(self).file_cursor() == old(self).file_bytes().len(),
            r is Err ==> final(self).file_cursor() == old(self).file_cursor() && final(self).played_bytes() == old(self).played_bytes() && final(buf)@ == old(buf)@,
            r matches Ok(n) ==> n == spec_min(spec_min(old(buf)@.len() as int, old(self).data_end() - old(self).data_start() - old(self).played_bytes()), old(self).file_bytes().len() - old(self).file_cursor()),
            r matches Ok(n) ==> final(self).file_cursor() == old(self).file_cursor() + n && final(self).played_bytes() == old(self).played_bytes() + n,
            r matches Ok(n) ==> final(buf)@.subrange(0, n as int) == old(self).file_bytes().subrange(old(self).file_cursor(), old(self).file_cursor() + n),
            r matches Ok(n) ==> final(buf)@.skip(n as int) == old(buf)@.skip(n as int),
    ;

    /// Get the sample rate.
    fn sample_rate(&self) -> (r: u16)
        ensures
            r == self.spec_sample_rate(),
    ;

    /// Get the number of channels.
    fn channels(&self) -> (r: Channels)
        ensures
            r == self.spec_channels(),
    ;

    /// Get the format of the audio samples.
    fn sample_format(&self) -> (r: SampleFormat)
        ensures
            r == self.spec_sample_format(),
    ;

    /// Try to seek, relative to the current position, by a count of audio
    /// samples (not bytes).
    ///
    /// The byte delta is `sample_offset` times the sample size.  The seek is
    /// bounds-checked against the whole file only, not against the data
    /// region; the byte count handed out so far is left unchanged.
    fn try_seek(&mut self, sample_offset: i64) -> (r: Result<(), Self::Error>)
        requires
            old(self).inv(),
            i64::MIN <= sample_offset * old(self).spec_sample_format().spec_size() <= i64::MAX,
        ensures
            final(self).inv(),
            final(self).file_bytes() == old(self).file_bytes(),
            final(self).data_start() == old(self).data_start(),
            final(self).data_end() == old(self).data_end(),
            final(self).spec_sample_rate() == old(self).spec_sample_rate(),
            final(self).spec_channels() == old(self).spec_channels(),
            final(self).spec_sample_format() == old(self).spec_sample_format(),
            final(self).played_bytes() == old(self).played_bytes(),
            r is Ok <==> 0 <= old(self).file_cursor() + sample_offset * old(self).spec_sample_format().spec_size() <= old(self).file_bytes().len(),
            r is Ok ==> final(self).file_cursor() == old(self).file_cursor() + sample_offset * old(self).spec_sample_format().spec_size(),
            r is Err ==> final(self).file_cursor() == old(self).file_cursor(),
    ;

    /// Get how many bytes of audio data have been read.
    fn played(&self) -> (r: usize)
        ensures
            r == self.played_bytes(),
    ;

    /// Start back from the first sample: the cursor moves back by the byte
    /// count handed out so far, and that count is reset to zero.
    fn restart(&mut self) -> (r: Result<(), Self::Error>)
        requires
            old(self).inv(),
            old(self).played_bytes() <= i64::MAX,
        ensures
            final(self).inv(),
            final(self).file_bytes() == old(self).file_bytes(),
            final(self).data_start() == old(self).data_start(),
            final(self).data_end() == old(self).data_end(),
            final(self).spec_sample_rate() == old(self).spec_sample_rate(),
            final(self).spec_channels() == old(self).spec_channels(),
            final(self).spec_sample_format() == old(self).spec_sample_format(),
            r is Ok <==> 0 <= old(self).file_cursor() - old(self).played_bytes() <= old(self).file_bytes().len(),
            r is Ok ==> final(self).file_cursor() == old(self).file_cursor() - old(self).played_bytes() && final(self).played_bytes() == 0,
            r is Err ==> final(self).file_cursor() == old(self).file_cursor() && final(self).played_bytes() == old(self).played_bytes(),
    ;

    /// Check whether the whole data region has been read.
    fn is_eof(&self) -> (r: bool)
        requires
            self.inv(),
        ensures
            r == (self.played_bytes() == self.data_end() - self.data_start()),
    ;
}

/// An in-memory [`PlatformFile`] over a copied byte buffer.
pub struct TestFile {
    contents: Vec<u8>,
    current_pos: usize,
}

impl TestFile {
    /// Build an in-memory file holding a copy of `bytes`, cursor at zero.
    pub fn from_bytes(bytes: &[u8]) -> (r: TestFile)
        ensures
            r.contents() == bytes@,
            r.cursor() == 0,
            r.inv(),
    {
        TestFile { contents: vstd::slice::slice_to_vec(bytes), current_pos: 0 }
    }
}

impl PlatformFile for TestFile {
    closed spec fn contents(&self) -> Seq<u8> {
        self.contents@
    }

    closed spec fn cursor(&self) -> int {
        self.current_pos as int
    }

    closed spec fn inv(&self) -> bool {
        self.current_pos <= self.contents@.len()
    }

    proof fn lemma_inv(&self) {
        vstd::std_specs::vec::axiom_spec_len(&self.contents);
    }

    fn read(&mut self, buf: &mut [u8]) -> (r: Result<usize, PlatformFileError>) {
        if self.current_pos == self.contents.len() {
            return Err(PlatformFileError::EOF);
        }
        let avail = self.contents.len() - self.current_pos;
        let n = if buf.len() <= avail {
            buf.len()
        } else {
            avail
        };
        let ghost buf0: Seq<u8> = buf@;
        let mut i: usize = 0;
        while i < n
            invariant
                i <= n,
                n <= buf0.len(),
                self.current_pos + n <= self.contents@.len(),
                self.contents@.len() <= usize::MAX,
                buf@.len() == buf0.len(),
                forall|j: int| 0 <= j < i ==> buf@[j] == self.contents@[self.current_pos + j],
                forall|j: int| i <= j < buf0.len() ==> buf@[j] == buf0[j],
            decreases n - i,
        {
            buf[i] = self.contents[self.current_pos + i];
            i = i + 1;
        }
        proof {
            assert(buf@.subrange(0, n as int) =~= self.contents@.subrange(
                self.current_pos as int,
                self.current_pos + n,
            ));
            assert(buf@.skip(n as int) =~= buf0.skip(n as int));
        }
        self.current_pos = self.current_pos + n;
        Ok(n)
    }

    fn seek_from_current(&mut self, offset: i64) -> (r: Result<(), PlatformFileError>) {
        if offset >= 0 {
            let room = self.contents.len() - self.current_pos;
            if (offset as u64) > (room as u64) {
                return Err(PlatformFileError::SeekOutofBounds);
            }
            self.current_pos = self.current_pos + (offset as usize);
        } else {
            let back: u64 = ((-(offset + 1)) as u64) + 1;
            if back > (self.current_pos as u64) {
                return Err(PlatformFileError::SeekOutofBounds);
            }
            self.current_pos = self.current_pos - (back as usize);
        }
        Ok(())
    }

    fn seek_from_start(&mut self, offset: usize) -> (r: Result<(), PlatformFileError>) {
        if offset > self.contents.len() {
            return Err(PlatformFileError::SeekOutofBounds);
        }
        self.current_pos = offset;
        Ok(())
    }

    fn seek_from_end(&mut self, offset: usize) -> (r: Result<(), PlatformFileError>) {
        if offset > self.contents.len() {
            return Err(PlatformFileError::SeekOutofBounds);
        }
        self.current_pos = self.contents.len() - offset;
        Ok(())
    }

    fn length(&mut self) -> (r: usize) {
        self.contents.len()
    }
}

} // verus!
