use shn::bitstream::BitReader;
use shn::header::{parse_header, parse_wave_header};
use shn::ShnError;

// The SHN preamble "ajkg" + version 2, then the bitstream for
// file_type=5, channels=2, blocksize=256, maxnlpc=0, nmean=4, nskip=0.
const HEADER_FIELDS: [u8; 11] = [
    0x61, 0x6A, 0x6B, 0x67, 0x02, 0xFB, 0xB1, 0x70, 0x09, 0xF9, 0x20,
];

#[test]
fn header_fields_round_trip() {
    // Reading the preamble raw and the fields as ulongs yields the exact
    // values the stream was built from.
    let mut br = BitReader::new(HEADER_FIELDS.to_vec());
    assert_eq!(br.read_byte_direct().unwrap(), 0x61); // 'a'
    assert_eq!(br.read_byte_direct().unwrap(), 0x6A); // 'j'
    assert_eq!(br.read_byte_direct().unwrap(), 0x6B); // 'k'
    assert_eq!(br.read_byte_direct().unwrap(), 0x67); // 'g'
    assert_eq!(br.read_byte_direct().unwrap(), 2); // version
    assert_eq!(br.read_ulong().unwrap(), 5); // file_type
    assert_eq!(br.read_ulong().unwrap(), 2); // channels
    assert_eq!(br.read_ulong().unwrap(), 256); // blocksize
    assert_eq!(br.read_ulong().unwrap(), 0); // maxnlpc
    assert_eq!(br.read_ulong().unwrap(), 4); // nmean
    assert_eq!(br.read_ulong().unwrap(), 0); // nskip
}

#[test]
fn parse_header_full_stream() {
    // Full header followed by two ZERO commands and QUIT
    // (file_type=5, channels=2, blocksize=3, maxnlpc=0, nmean=4, nskip=0).
    let bytes = vec![
        0x61, 0x6A, 0x6B, 0x67, 0x02, 0xFB, 0xB6, 0xF3, 0xF2, 0x48, 0x44,
    ];
    let mut br = BitReader::new(bytes);
    let (h, w) = parse_header(&mut br).unwrap();
    assert_eq!(h.version, 2);
    assert_eq!(h.file_type, 5);
    assert_eq!(h.channels, 2);
    assert_eq!(h.blocksize, 3);
    assert_eq!(h.maxnlpc, 0);
    assert_eq!(h.nmean, 4);
    assert_eq!(h.nskip, 0);
    // The first audio command was pre-read: ZERO (8).
    assert_eq!(h.first_audio_cmd, Some(8));
    // No WAVE header: parameters fall back to the file type.
    assert_eq!(w.sample_rate, 44100);
    assert_eq!(w.bits_per_sample, 16);
    assert_eq!(w.channels, 2);
}

#[test]
fn parse_header_version1_defaults() {
    // Version 1 stores only file_type and channels; blocksize, maxnlpc,
    // nmean and nskip take their defaults (256, 0, 4, 0).
    let bytes = vec![0x61, 0x6A, 0x6B, 0x67, 0x01, 0xDA, 0xE8];
    let mut br = BitReader::new(bytes);
    let (h, _) = parse_header(&mut br).unwrap();
    assert_eq!(h.version, 1);
    assert_eq!(h.file_type, 2);
    assert_eq!(h.channels, 1);
    assert_eq!(h.blocksize, 256);
    assert_eq!(h.maxnlpc, 0);
    assert_eq!(h.nmean, 4);
    assert_eq!(h.nskip, 0);
    assert_eq!(h.first_audio_cmd, Some(4));
}

#[test]
fn parse_header_discards_nskip_fields() {
    // nskip=2: two ulongs after the header are read and thrown away.
    let bytes = vec![
        0x61, 0x6A, 0x6B, 0x67, 0x02, 0xDA, 0xFF, 0x26, 0x76, 0x7E, 0x3F, 0xE8,
    ];
    let mut br = BitReader::new(bytes);
    let (h, _) = parse_header(&mut br).unwrap();
    assert_eq!(h.nskip, 2);
    assert_eq!(h.first_audio_cmd, Some(4));
}

#[test]
fn parse_header_rejects_bad_magic() {
    let mut br = BitReader::new(vec![0x61, 0x6A, 0x6B, 0x00, 0x02]);
    assert!(matches!(parse_header(&mut br), Err(ShnError::InvalidMagic)));
}

#[test]
fn parse_header_rejects_bad_version() {
    let mut br = BitReader::new(vec![0x61, 0x6A, 0x6B, 0x67, 0x00]);
    assert!(matches!(
        parse_header(&mut br),
        Err(ShnError::UnsupportedVersion(0))
    ));
    let mut br = BitReader::new(vec![0x61, 0x6A, 0x6B, 0x67, 0x04]);
    assert!(matches!(
        parse_header(&mut br),
        Err(ShnError::UnsupportedVersion(4))
    ));
}

#[test]
fn parse_header_rejects_bad_file_type() {
    // ulong(0) right after the preamble: file type 0.
    let mut br = BitReader::new(vec![0x61, 0x6A, 0x6B, 0x67, 0x02, 0x90]);
    assert!(matches!(
        parse_header(&mut br),
        Err(ShnError::UnsupportedFileType(0))
    ));
}

#[test]
fn parse_header_rejects_bad_blocksize() {
    // file_type=2, channels=1, blocksize=0, maxnlpc=0, nmean=0, nskip=0.
    let mut br = BitReader::new(vec![
        0x61, 0x6A, 0x6B, 0x67, 0x02, 0xDA, 0xF3, 0x33, 0x20,
    ]);
    assert!(matches!(
        parse_header(&mut br),
        Err(ShnError::InvalidBlockSize(0))
    ));
}

#[test]
fn parse_header_rejects_oversized_maxnlpc() {
    // maxnlpc=200 exceeds the parse-time bound of 128.
    let mut br = BitReader::new(vec![
        0x61, 0x6A, 0x6B, 0x67, 0x02, 0xDA, 0xFF, 0x09, 0xC8, 0x99,
    ]);
    assert!(matches!(
        parse_header(&mut br),
        Err(ShnError::InvalidLpcOrder(200))
    ));
}

#[test]
fn parse_header_fails_on_truncation() {
    let mut br = BitReader::new(vec![0x61, 0x6A]);
    assert!(matches!(parse_header(&mut br), Err(ShnError::Io)));
    let mut br = BitReader::new(vec![0x61, 0x6A, 0x6B, 0x67]);
    assert!(matches!(parse_header(&mut br), Err(ShnError::Io)));
}

#[test]
fn wave_header_parses_pcm_fmt() {
    let mut wav: Vec<u8> = Vec::new();
    wav.extend_from_slice(b"RIFF");
    wav.extend_from_slice(&36u32.to_le_bytes());
    wav.extend_from_slice(b"WAVE");
    wav.extend_from_slice(b"fmt ");
    wav.extend_from_slice(&16u32.to_le_bytes());
    wav.extend_from_slice(&1u16.to_le_bytes()); // PCM
    wav.extend_from_slice(&2u16.to_le_bytes()); // channels
    wav.extend_from_slice(&44100u32.to_le_bytes());
    wav.extend_from_slice(&176400u32.to_le_bytes());
    wav.extend_from_slice(&4u16.to_le_bytes());
    wav.extend_from_slice(&16u16.to_le_bytes());
    wav.extend_from_slice(b"data");
    wav.extend_from_slice(&1024u32.to_le_bytes());
    let w = parse_wave_header(&wav).unwrap();
    assert_eq!(w.channels, 2);
    assert_eq!(w.sample_rate, 44100);
    assert_eq!(w.bits_per_sample, 16);
    assert_eq!(w.data_bytes, 1024);
}

#[test]
fn wave_header_rejects_non_riff() {
    let junk = vec![0u8; 44];
    assert!(matches!(
        parse_wave_header(&junk),
        Err(ShnError::MissingWaveHeader)
    ));
    let short = vec![0u8; 10];
    assert!(matches!(
        parse_wave_header(&short),
        Err(ShnError::MissingWaveHeader)
    ));
}
