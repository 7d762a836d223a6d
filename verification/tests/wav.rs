use phonia::engine::AudioError;
use phonia::wav::{
    parse_fmt, parse_header, read_chunk_bytes, BitDepth, ByteReader, BytesReader,
    StreamSampleFormat, DECODED_CHUNK_FRAMES,
};

/// A canonical WAV: RIFF preamble, a 16-byte `fmt ` chunk, then `data`
/// holding `frames` frames whose bytes count up from zero.
fn wav_bytes(tag: u16, channels: u16, rate: u32, bits: u16, frames: usize) -> Vec<u8> {
    let block = channels as usize * (bits as usize / 8);
    let data_len = frames * block;
    let mut out = Vec::new();
    out.extend_from_slice(b"RIFF");
    out.extend_from_slice(&((36 + data_len) as u32).to_le_bytes());
    out.extend_from_slice(b"WAVE");
    out.extend_from_slice(b"fmt ");
    out.extend_from_slice(&16u32.to_le_bytes());
    out.extend_from_slice(&tag.to_le_bytes());
    out.extend_from_slice(&channels.to_le_bytes());
    out.extend_from_slice(&rate.to_le_bytes());
    out.extend_from_slice(&(rate * block as u32).to_le_bytes());
    out.extend_from_slice(&(block as u16).to_le_bytes());
    out.extend_from_slice(&bits.to_le_bytes());
    out.extend_from_slice(b"data");
    out.extend_from_slice(&(data_len as u32).to_le_bytes());
    for i in 0..data_len {
        out.push((i % 251) as u8);
    }
    out
}

fn open(bytes: Vec<u8>) -> Result<phonia::wav::WavStreamInfo, AudioError> {
    parse_header(&BytesReader::new(bytes))
}

#[test]
fn header_is_read_without_decoding_samples() {
    let info = open(wav_bytes(1, 2, 48_000, 16, 1_234)).unwrap();
    assert_eq!(info.channels, 2);
    assert_eq!(info.frames, 1_234);
    assert_eq!(info.sample_rate, 48_000);
    let duration = info.frames as f64 / f64::from(info.sample_rate);
    assert!((duration - 1_234.0 / 48_000.0).abs() < 1e-12);
    assert_eq!(info.sample_format, StreamSampleFormat::Int16);
    assert_eq!(info.data_offset, 44);
}

#[test]
fn truncated_data_chunk_reports_the_real_frame_count() {
    let mut wav = wav_bytes(1, 1, 8_000, 16, 1_000);
    wav.truncate(wav.len() - 200);
    let reader = BytesReader::new(wav);
    let info = parse_header(&reader).unwrap();
    assert_eq!(info.frames, 900);
    let chunk = read_chunk_bytes(&reader, &info, 0).unwrap();
    assert_eq!(chunk.len(), 1_800);
}

#[test]
fn non_wav_bytes_are_a_typed_error() {
    let err = open(b"not a wav".to_vec()).unwrap_err();
    assert!(matches!(err, AudioError::MalformedWav(_)));
}

#[test]
fn every_supported_depth_maps_to_its_format() {
    for (tag, bits, format) in [
        (1u16, 8u16, StreamSampleFormat::Uint8),
        (1, 16, StreamSampleFormat::Int16),
        (1, 24, StreamSampleFormat::Int24),
        (1, 32, StreamSampleFormat::Int32),
        (3, 32, StreamSampleFormat::Float32),
    ] {
        let info = open(wav_bytes(tag, 1, 44_100, bits, 10)).unwrap();
        assert_eq!(info.sample_format, format);
        assert_eq!(info.frames, 10);
        assert_eq!(info.frame_bytes(), bits as usize / 8);
    }
}

#[test]
fn unsupported_tag_and_zero_fields_are_typed_errors() {
    assert!(matches!(
        open(wav_bytes(1, 1, 8_000, 12, 4)),
        Err(AudioError::UnsupportedWav { .. })
    ));
    assert!(matches!(
        open(wav_bytes(3, 1, 8_000, 16, 4)),
        Err(AudioError::UnsupportedWav { .. })
    ));
    let mut no_channels = wav_bytes(1, 1, 8_000, 16, 4);
    no_channels[22] = 0;
    assert!(matches!(
        open(no_channels),
        Err(AudioError::InvalidChannelCount { channels: 0 })
    ));
    let mut no_rate = wav_bytes(1, 1, 8_000, 16, 4);
    for b in &mut no_rate[24..28] {
        *b = 0;
    }
    assert!(matches!(open(no_rate), Err(AudioError::InvalidSampleRate { .. })));
}

#[test]
fn extensible_format_reads_the_sub_format_tag() {
    let mut body = vec![0u8; 40];
    body[0..2].copy_from_slice(&0xFFFEu16.to_le_bytes());
    body[2..4].copy_from_slice(&2u16.to_le_bytes());
    body[4..8].copy_from_slice(&16_000u32.to_le_bytes());
    body[14..16].copy_from_slice(&24u16.to_le_bytes());
    body[24..26].copy_from_slice(&1u16.to_le_bytes());
    let fmt = parse_fmt(&body).unwrap();
    assert_eq!(fmt.sample_format, StreamSampleFormat::Int24);
    assert_eq!(fmt.channels, 2);
    assert_eq!(fmt.sample_rate, 16_000);
    assert!(matches!(
        parse_fmt(&body[..20]),
        Err(AudioError::UnsupportedWav { .. })
    ));
    assert!(matches!(parse_fmt(&body[..15]), Err(AudioError::MalformedWav(_))));
}

#[test]
fn odd_sized_chunks_are_skipped_with_their_pad_byte() {
    let plain = wav_bytes(1, 1, 8_000, 8, 6);
    let mut wav = plain[..12].to_vec();
    wav.extend_from_slice(b"LIST");
    wav.extend_from_slice(&3u32.to_le_bytes());
    wav.extend_from_slice(&[7, 7, 7, 0]);
    wav.extend_from_slice(&plain[12..]);
    let info = open(wav).unwrap();
    assert_eq!(info.data_offset, 44 + 12);
    assert_eq!(info.frames, 6);
}

#[test]
fn data_before_fmt_and_missing_data_are_malformed() {
    let plain = wav_bytes(1, 1, 8_000, 16, 2);
    let mut swapped = plain[..12].to_vec();
    swapped.extend_from_slice(&plain[36..]);
    swapped.extend_from_slice(&plain[12..36]);
    assert!(matches!(open(swapped), Err(AudioError::MalformedWav(_))));
    assert!(matches!(open(plain[..36].to_vec()), Err(AudioError::MalformedWav(_))));
}

#[test]
fn chunk_bytes_are_the_stored_frames() {
    let frames = DECODED_CHUNK_FRAMES + 5;
    let reader = BytesReader::new(wav_bytes(1, 2, 8_000, 16, frames));
    let info = parse_header(&reader).unwrap();
    let first = read_chunk_bytes(&reader, &info, 0).unwrap();
    assert_eq!(first.len(), DECODED_CHUNK_FRAMES * 4);
    assert_eq!(first[0], 0);
    assert_eq!(first[1], 1);
    let second = read_chunk_bytes(&reader, &info, 1).unwrap();
    assert_eq!(second.len(), 20);
    let offset = DECODED_CHUNK_FRAMES * 4;
    assert_eq!(second[0], (offset % 251) as u8);
    assert!(read_chunk_bytes(&reader, &info, 2).unwrap().is_empty());
}

#[test]
fn bytes_reader_refuses_reads_past_the_end() {
    let reader = BytesReader::new(vec![1, 2, 3, 4]);
    assert_eq!(reader.total_len(), 4);
    assert_eq!(reader.read_exact_at(1, 2).unwrap(), vec![2, 3]);
    assert!(matches!(reader.read_exact_at(3, 2), Err(AudioError::Io(_))));
    assert!(matches!(reader.read_exact_at(9, 0), Err(AudioError::Io(_))));
}

#[test]
fn bit_depths_report_their_widths() {
    assert_eq!(BitDepth::Pcm8.bits_per_sample(), 8);
    assert_eq!(BitDepth::Pcm16.bits_per_sample(), 16);
    assert_eq!(BitDepth::Pcm24.bits_per_sample(), 24);
    assert_eq!(BitDepth::Pcm32.bits_per_sample(), 32);
    assert_eq!(BitDepth::Float32.bits_per_sample(), 32);
    assert!(BitDepth::Float32.is_float());
    assert!(!BitDepth::Pcm32.is_float());
}

#[test]
fn an_unsupported_depth_names_its_tag_and_bits() {
    match open(wav_bytes(1, 1, 8_000, 12, 4)) {
        Err(AudioError::UnsupportedWav { reason }) => {
            assert_eq!(reason, "unsupported WAV format tag 1 at 12 bits")
        }
        other => panic!("unexpected {other:?}"),
    }
}

#[test]
fn malformed_headers_say_what_is_wrong() {
    let reason = |bytes: &[u8]| match open(bytes.to_vec()) {
        Err(AudioError::MalformedWav(reason)) => reason,
        other => panic!("unexpected {other:?}"),
    };
    assert_eq!(reason(b"not a wav"), "file shorter than a RIFF header");
    assert_eq!(reason(b"RIFX\0\0\0\0WAVEfmt "), "missing RIFF/WAVE signature");
    assert_eq!(reason(b"RIFF\0\0\0\0WAVE"), "no data chunk in RIFF stream");
}

#[test]
fn decimal_string_writes_unsigned_integers() {
    assert_eq!(phonia::wav::decimal_string(0), "0");
    assert_eq!(phonia::wav::decimal_string(7), "7");
    assert_eq!(phonia::wav::decimal_string(10), "10");
    assert_eq!(phonia::wav::decimal_string(65535), "65535");
    assert_eq!(phonia::wav::decimal_string(u64::MAX), "18446744073709551615");
}
