use wavedec::wav::{AudioFormat, Chunk, ChunkTag, Error, Wav};
use wavedec::{AudioFile, Channels, PlatformFile, PlatformFileError, SampleFormat, TestFile};

fn le32(v: u32) -> [u8; 4] {
    [v as u8, (v >> 8) as u8, (v >> 16) as u8, (v >> 24) as u8]
}

/// A minimal RIFF/WAVE stream: the given subchunks, verbatim, after the
/// `RIFF`/size/`WAVE` preamble.
fn wave_stream(subchunks: &[u8]) -> Vec<u8> {
    let mut v = Vec::new();
    v.extend_from_slice(b"RIFF");
    v.extend_from_slice(&le32(4 + subchunks.len() as u32));
    v.extend_from_slice(b"WAVE");
    v.extend_from_slice(subchunks);
    v
}

fn fmt_chunk(audio_format: u16, channels: u16, sample_rate: u32, bits: u16) -> Vec<u8> {
    let mut v = Vec::new();
    v.extend_from_slice(b"fmt ");
    v.extend_from_slice(&le32(16));
    v.extend_from_slice(&audio_format.to_le_bytes());
    v.extend_from_slice(&channels.to_le_bytes());
    v.extend_from_slice(&le32(sample_rate));
    v.extend_from_slice(&le32(sample_rate * 2)); // byte rate, ignored
    v.extend_from_slice(&2u16.to_le_bytes()); // block align, ignored
    v.extend_from_slice(&bits.to_le_bytes());
    v
}

fn data_chunk(payload: &[u8]) -> Vec<u8> {
    let mut v = Vec::new();
    v.extend_from_slice(b"data");
    v.extend_from_slice(&le32(payload.len() as u32));
    v.extend_from_slice(payload);
    v
}

#[test]
fn parse_fmt() {
    let bytes = [
        0x01, 0x00, // audio format
        0x01, 0x00, // channel count
        0x40, 0x1f, 0x00, 0x00, // sample rate
        0x80, 0x3e, 0x00, 0x00, // byte rate
        0x20, 0x00, // block align
        0x10, 0x00, // bits per sample
    ];

    let fmt = wavedec::wav::parse_fmt(&bytes).unwrap();
    assert!(fmt.audio_format == AudioFormat::Pcm);
    assert!(fmt.sample_rate == 8_000);
    assert!(fmt.sample_format == SampleFormat::I16);
    assert!(fmt.channels == Channels::Mono);
}

#[test]
fn parse_le_16bit_8k_mono() {
    let file = TestFile::from_bytes(&[
        0x52, 0x49, 0x46, 0x46, // RIFF
        0x32, 0x00, 0x00, 0x00, // chunk size
        0x57, 0x41, 0x56, 0x45, // WAVE
        0x66, 0x6d, 0x74, 0x20, // fmt
        0x10, 0x00, 0x00, 0x00, // fmt chunk size
        0x01, 0x00, // audio format
        0x01, 0x00, // channel count
        0x40, 0x1f, 0x00, 0x00, // sample rate
        0x80, 0x3e, 0x00, 0x00, // byte rate
        0x20, 0x00, // block align
        0x10, 0x00, // bits per sample
        0x64, 0x61, 0x74, 0x61, // data
        0x08, 0x00, 0x00, 0x00, // data chunk size
        0x01, 0x00, // sample 1
        0xfe, 0xff, // sample 2
        0x02, 0x00, // sample 3
        0xff, 0xff, // sample 4
    ]);
    let mut wav = Wav::new(file).unwrap();

    assert!(wav.channels() == Channels::Mono);
    assert!(wav.sample_rate() == 8_000);
    assert!(wav.sample_format() == SampleFormat::I16);

    let mut sample = [0_u8; 2]; // size of one sample
    wav.read(&mut sample).unwrap();
    assert!(sample == [0x01, 0x00]);
    wav.read(&mut sample).unwrap();
    assert!(sample == [0xfe, 0xff]);
    wav.read(&mut sample).unwrap();
    assert!(sample == [0x02, 0x00]);
    wav.read(&mut sample).unwrap();
    assert!(sample == [0xff, 0xff]);
}

#[test]
fn parse_le_8bit_8k_stereo() {
    let file = TestFile::from_bytes(&[
        0x52, 0x49, 0x46, 0x46, // RIFF
        0x32, 0x00, 0x00, 0x00, // chunk size
        0x57, 0x41, 0x56, 0x45, // WAVE
        0x66, 0x6d, 0x74, 0x20, // fmt
        0x10, 0x00, 0x00, 0x00, // fmt chunk size
        0x01, 0x00, // audio format
        0x02, 0x00, // channel count
        0x40, 0x1f, 0x00, 0x00, // sample rate
        0x80, 0x3e, 0x00, 0x00, // byte rate
        0x20, 0x00, // block align
        0x08, 0x00, // bits per sample
        0x64, 0x61, 0x74, 0x61, // data
        0x08, 0x00, 0x00, 0x00, // data chunk size
        0x01, 0x00, // sample 1 L+R
        0xfe, 0xff, // sample 2 L+R
        0x02, 0x00, // sample 3 L+R
        0xff, 0xff, // sample 4 L+R
    ]);
    let mut wav = Wav::new(file).unwrap();

    assert!(wav.channels() == Channels::Stereo);
    assert!(wav.sample_rate() == 8_000);
    assert!(wav.sample_format() == SampleFormat::U8);

    let mut sample = [0_u8; 2]; // size of one sample L+R
    wav.read(&mut sample).unwrap();
    assert!(sample == [0x01, 0x00]);
    wav.read(&mut sample).unwrap();
    assert!(sample == [0xfe, 0xff]);
    wav.read(&mut sample).unwrap();
    assert!(sample == [0x02, 0x00]);
    wav.read(&mut sample).unwrap();
    assert!(sample == [0xff, 0xff]);
}

#[test]
fn read_counts_played_bytes() {
    let mut sub = fmt_chunk(1, 1, 8000, 16);
    sub.extend_from_slice(&data_chunk(&[1, 2, 3, 4, 5, 6]));
    let mut wav = Wav::new(TestFile::from_bytes(&wave_stream(&sub))).unwrap();

    assert!(wav.played() == 0);
    let mut buf = [0_u8; 4];
    let n = wav.read(&mut buf).unwrap();
    assert!(n == 4);
    assert!(buf == [1, 2, 3, 4]);
    assert!(wav.played() == 4);
}

#[test]
fn read_clamps_at_data_end() {
    let mut sub = fmt_chunk(1, 1, 8000, 16);
    sub.extend_from_slice(&data_chunk(&[9, 8, 7, 6]));
    // trailing chunk after the data chunk must never be handed out
    sub.extend_from_slice(b"tail");
    sub.extend_from_slice(&le32(4));
    sub.extend_from_slice(&[0xAA, 0xBB, 0xCC, 0xDD]);
    let mut wav = Wav::new(TestFile::from_bytes(&wave_stream(&sub))).unwrap();

    let mut buf = [0_u8; 16];
    let n = wav.read(&mut buf).unwrap();
    assert!(n == 4);
    assert!(&buf[..4] == [9, 8, 7, 6]);
    assert!(&buf[4..] == [0u8; 12]);
}

#[test]
fn is_eof_flips_only_at_end() {
    let mut sub = fmt_chunk(1, 1, 8000, 8);
    sub.extend_from_slice(&data_chunk(&[1, 2, 3]));
    let mut wav = Wav::new(TestFile::from_bytes(&wave_stream(&sub))).unwrap();

    assert!(!wav.is_eof());
    let mut one = [0_u8; 1];
    wav.read(&mut one).unwrap();
    assert!(!wav.is_eof());
    wav.read(&mut one).unwrap();
    assert!(!wav.is_eof());
    wav.read(&mut one).unwrap();
    assert!(wav.is_eof());
}

#[test]
fn restart_rereads_identically() {
    let mut sub = fmt_chunk(1, 1, 8000, 16);
    sub.extend_from_slice(&data_chunk(&[10, 11, 12, 13, 14, 15]));
    let mut wav = Wav::new(TestFile::from_bytes(&wave_stream(&sub))).unwrap();

    let mut first = [0_u8; 6];
    assert!(wav.read(&mut first).unwrap() == 6);
    assert!(wav.is_eof());

    wav.restart().unwrap();
    assert!(wav.played() == 0);
    assert!(!wav.is_eof());

    let mut second = [0_u8; 6];
    assert!(wav.read(&mut second).unwrap() == 6);
    assert!(first == second);
}

#[test]
fn try_seek_moves_by_samples() {
    let mut sub = fmt_chunk(1, 1, 8000, 16);
    sub.extend_from_slice(&data_chunk(&[1, 0, 2, 0, 3, 0, 4, 0]));
    let mut wav = Wav::new(TestFile::from_bytes(&wave_stream(&sub))).unwrap();

    // skip two 16-bit samples: four bytes
    wav.try_seek(2).unwrap();
    let mut sample = [0_u8; 2];
    wav.read(&mut sample).unwrap();
    assert!(sample == [3, 0]);
}

#[test]
fn try_seek_out_of_file_fails() {
    let mut sub = fmt_chunk(1, 1, 8000, 16);
    sub.extend_from_slice(&data_chunk(&[1, 0]));
    let mut wav = Wav::new(TestFile::from_bytes(&wave_stream(&sub))).unwrap();

    let e = wav.try_seek(100_000).unwrap_err();
    assert!(matches!(
        e,
        Error::PlatformError(PlatformFileError::SeekOutofBounds)
    ));
    // the reader still works after the failed seek
    let mut sample = [0_u8; 2];
    wav.read(&mut sample).unwrap();
    assert!(sample == [1, 0]);
}

#[test]
fn read_at_end_of_file_reports_platform_eof() {
    // the data chunk is the last chunk, so reading past it hits the file end
    let mut sub = fmt_chunk(1, 1, 8000, 8);
    sub.extend_from_slice(&data_chunk(&[5]));
    let mut wav = Wav::new(TestFile::from_bytes(&wave_stream(&sub))).unwrap();

    let mut one = [0_u8; 1];
    assert!(wav.read(&mut one).unwrap() == 1);
    let e = wav.read(&mut one).unwrap_err();
    assert!(matches!(e, Error::PlatformError(PlatformFileError::EOF)));
}

#[test]
fn missing_riff_marker_is_rejected() {
    let bytes = b"JUNKdata";
    match Wav::new(TestFile::from_bytes(bytes)) {
        Err(Error::NoRiffChunkFound) => (),
        _ => panic!("expected NoRiffChunkFound"),
    }
}

#[test]
fn empty_stream_is_rejected() {
    match Wav::new(TestFile::from_bytes(&[])) {
        Err(Error::NoRiffChunkFound) => (),
        _ => panic!("expected NoRiffChunkFound"),
    }
}

#[test]
fn missing_wave_marker_is_rejected() {
    let mut v = Vec::new();
    v.extend_from_slice(b"RIFF");
    v.extend_from_slice(&le32(4));
    v.extend_from_slice(b"WAVX");
    match Wav::new(TestFile::from_bytes(&v)) {
        Err(Error::NoWaveTagFound) => (),
        _ => panic!("expected NoWaveTagFound"),
    }
}

#[test]
fn rifx_marker_is_accepted() {
    let mut sub = fmt_chunk(1, 1, 8000, 8);
    sub.extend_from_slice(&data_chunk(&[1]));
    let mut v = wave_stream(&sub);
    v[3] = b'X'; // RIFX: big-endian container marker
    let wav = Wav::new(TestFile::from_bytes(&v)).unwrap();
    assert!(wav.channels() == Channels::Mono);
}

#[test]
fn missing_fmt_chunk_is_rejected() {
    let sub = data_chunk(&[1, 2]);
    match Wav::new(TestFile::from_bytes(&wave_stream(&sub))) {
        Err(Error::NoFmtChunkFound) => (),
        _ => panic!("expected NoFmtChunkFound"),
    }
}

#[test]
fn missing_data_chunk_is_rejected() {
    let sub = fmt_chunk(1, 1, 8000, 16);
    match Wav::new(TestFile::from_bytes(&wave_stream(&sub))) {
        Err(Error::NoDataChunkFound) => (),
        _ => panic!("expected NoDataChunkFound"),
    }
}

#[test]
fn non_pcm_format_is_rejected() {
    let mut sub = fmt_chunk(2, 1, 8000, 16);
    sub.extend_from_slice(&data_chunk(&[1, 2]));
    match Wav::new(TestFile::from_bytes(&wave_stream(&sub))) {
        Err(Error::UnsupportedAudioFormat) => (),
        _ => panic!("expected UnsupportedAudioFormat"),
    }
    match wavedec::wav::parse_fmt(&fmt_chunk(2, 1, 8000, 16)[8..]) {
        Err(Error::UnsupportedAudioFormat) => (),
        _ => panic!("expected UnsupportedAudioFormat"),
    }
}

#[test]
fn three_channels_are_rejected() {
    let mut sub = fmt_chunk(1, 3, 8000, 16);
    sub.extend_from_slice(&data_chunk(&[1, 2]));
    match Wav::new(TestFile::from_bytes(&wave_stream(&sub))) {
        Err(Error::UnsupportedChannelCount) => (),
        _ => panic!("expected UnsupportedChannelCount"),
    }
}

#[test]
fn odd_bit_depth_is_rejected() {
    let mut sub = fmt_chunk(1, 1, 8000, 12);
    sub.extend_from_slice(&data_chunk(&[1, 2]));
    match Wav::new(TestFile::from_bytes(&wave_stream(&sub))) {
        Err(Error::UnknownEncoding) => (),
        _ => panic!("expected UnknownEncoding"),
    }
}

#[test]
fn short_fmt_chunk_is_rejected() {
    let mut sub = Vec::new();
    sub.extend_from_slice(b"fmt ");
    sub.extend_from_slice(&le32(8)); // too short for a format descriptor
    sub.extend_from_slice(&[1, 0, 1, 0, 0x40, 0x1f, 0, 0]);
    sub.extend_from_slice(&data_chunk(&[1, 2]));
    match Wav::new(TestFile::from_bytes(&wave_stream(&sub))) {
        Err(Error::ChunkSizeIncorrect) => (),
        _ => panic!("expected ChunkSizeIncorrect"),
    }
}

#[test]
fn truncated_chunk_is_rejected() {
    let mut sub = Vec::new();
    sub.extend_from_slice(b"data");
    sub.extend_from_slice(&le32(100)); // declared size runs past the file end
    sub.extend_from_slice(&[1, 2, 3]);
    match Wav::new(TestFile::from_bytes(&wave_stream(&sub))) {
        Err(Error::ChunkSizeIncorrect) => (),
        _ => panic!("expected ChunkSizeIncorrect"),
    }
}

#[test]
fn odd_sized_chunk_is_skipped_with_padding() {
    // an unknown chunk with an odd payload length: one pad byte follows, and
    // the fmt chunk after it must still be found at the even offset
    let mut sub = Vec::new();
    sub.extend_from_slice(b"LIST");
    sub.extend_from_slice(&le32(3));
    sub.extend_from_slice(&[0x61, 0x62, 0x63, 0x00]); // payload + pad byte
    sub.extend_from_slice(&fmt_chunk(1, 2, 44_100, 24));
    sub.extend_from_slice(&data_chunk(&[7, 7, 7]));
    let mut wav = Wav::new(TestFile::from_bytes(&wave_stream(&sub))).unwrap();

    assert!(wav.channels() == Channels::Stereo);
    assert!(wav.sample_rate() == 44_100);
    assert!(wav.sample_format() == SampleFormat::I24);
    let mut buf = [0_u8; 3];
    assert!(wav.read(&mut buf).unwrap() == 3);
    assert!(buf == [7, 7, 7]);
}

#[test]
fn scan_stops_silently_at_capacity() {
    // more subchunks than the table can hold: scanning stops without error,
    // and the fmt chunk beyond the bound is simply never seen
    let mut sub = Vec::new();
    for _ in 0..30 {
        sub.extend_from_slice(b"LIST");
        sub.extend_from_slice(&le32(0));
    }
    sub.extend_from_slice(&fmt_chunk(1, 1, 8000, 16));
    sub.extend_from_slice(&data_chunk(&[1, 2]));
    match Wav::new(TestFile::from_bytes(&wave_stream(&sub))) {
        Err(Error::NoFmtChunkFound) => (),
        _ => panic!("expected NoFmtChunkFound"),
    }
}

#[test]
fn sample_rate_narrowing_keeps_low_bits() {
    // 73 536 Hz does not fit the 16-bit descriptor field: the stored rate is
    // the low 16 bits (a documented limitation of the descriptor)
    let mut sub = fmt_chunk(1, 1, 73_536, 16);
    sub.extend_from_slice(&data_chunk(&[1, 0]));
    let wav = Wav::new(TestFile::from_bytes(&wave_stream(&sub))).unwrap();
    assert!(wav.sample_rate() == 8_000);
}

#[test]
fn chunk_tags_decode_from_bytes() {
    assert!(ChunkTag::from_bytes(b"RIFF") == ChunkTag::Riff);
    assert!(ChunkTag::from_bytes(b"RIFX") == ChunkTag::Rifx);
    assert!(ChunkTag::from_bytes(b"WAVE") == ChunkTag::Wave);
    assert!(ChunkTag::from_bytes(b"fmt ") == ChunkTag::Fmt);
    assert!(ChunkTag::from_bytes(b"data") == ChunkTag::Data);
    assert!(ChunkTag::from_bytes(b"LIST") == ChunkTag::Unknown(*b"LIST"));
}

#[test]
fn parse_chunk_reads_header_without_padding_end() {
    let header: [u8; 8] = [b'd', b'a', b't', b'a', 0x05, 0x00, 0x00, 0x00];
    let c: Chunk = wavedec::wav::parse_chunk(&header, 12);
    assert!(c.chunk == ChunkTag::Data);
    assert!(c.start == 20);
    assert!(c.end == 25); // declared size, no alignment padding included
}

#[test]
fn audio_format_accepts_only_pcm() {
    assert!(AudioFormat::from_bytes(&[1, 0]).unwrap() == AudioFormat::Pcm);
    assert!(matches!(
        AudioFormat::from_bytes(&[2, 0]),
        Err(Error::UnsupportedAudioFormat)
    ));
    assert!(matches!(
        AudioFormat::from_bytes(&[1]),
        Err(Error::ChunkSizeIncorrect)
    ));
}

#[test]
fn sample_format_sizes() {
    assert!(SampleFormat::I8.size() == 1);
    assert!(SampleFormat::U8.size() == 1);
    assert!(SampleFormat::I16.size() == 2);
    assert!(SampleFormat::I24.size() == 3);
}

#[test]
fn channel_counts_convert_to_u16() {
    assert!(u16::from(Channels::Mono) == 1);
    assert!(u16::from(Channels::Stereo) == 2);
}

#[test]
fn test_file_reads_and_seeks() {
    let mut f = TestFile::from_bytes(&[1, 2, 3, 4, 5]);
    assert!(f.length() == 5);

    let mut buf = [0_u8; 3];
    assert!(f.read(&mut buf).unwrap() == 3);
    assert!(buf == [1, 2, 3]);

    f.seek_from_start(1).unwrap();
    assert!(f.read(&mut buf).unwrap() == 3);
    assert!(buf == [2, 3, 4]);

    f.seek_from_current(-2).unwrap();
    assert!(f.read(&mut buf).unwrap() == 3);
    assert!(buf == [3, 4, 5]);

    // at the end of the file a read reports EOF
    assert!(matches!(f.read(&mut buf), Err(PlatformFileError::EOF)));

    f.seek_from_end(1).unwrap();
    let mut one = [0_u8; 1];
    assert!(f.read(&mut one).unwrap() == 1);
    assert!(one == [5]);

    assert!(matches!(
        f.seek_from_start(6),
        Err(PlatformFileError::SeekOutofBounds)
    ));
    assert!(matches!(
        f.seek_from_current(100),
        Err(PlatformFileError::SeekOutofBounds)
    ));
    assert!(matches!(
        f.seek_from_end(6),
        Err(PlatformFileError::SeekOutofBounds)
    ));
}

#[test]
fn header_straddling_scan_windows_is_reparsed() {
    // many small unknown chunks push later headers across the 64-byte scan
    // window, forcing the scanner to re-seek and re-read them
    let mut sub = Vec::new();
    for tag in [b"ch01", b"ch02", b"ch03", b"ch04", b"ch05"] {
        sub.extend_from_slice(tag);
        sub.extend_from_slice(&le32(5));
        sub.extend_from_slice(&[0xEE; 5]);
        sub.push(0); // pad byte for the odd payload
    }
    sub.extend_from_slice(&fmt_chunk(1, 1, 8000, 8));
    sub.extend_from_slice(&data_chunk(&[42, 43]));
    let mut wav = Wav::new(TestFile::from_bytes(&wave_stream(&sub))).unwrap();

    assert!(wav.sample_format() == SampleFormat::U8);
    let mut buf = [0_u8; 2];
    assert!(wav.read(&mut buf).unwrap() == 2);
    assert!(buf == [42, 43]);
}
