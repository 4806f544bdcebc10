use shn::{ShnError, ShnReader};

fn collect_samples(bytes: Vec<u8>) -> Vec<i32> {
    let reader = ShnReader::new(bytes).expect("header should parse");
    let mut samples = reader.samples();
    let mut out: Vec<i32> = Vec::new();
    while let Some(r) = samples.next() {
        out.push(r.expect("decode should succeed"));
    }
    out
}

#[test]
fn decode_mono_diff1_block() {
    // file_type=2, channels=1, blocksize=4, then DIFF1 with residuals
    // [3, -2, 1, 0] and QUIT: each sample is its residual plus the previous
    // sample.
    let bytes = vec![
        0x61, 0x6A, 0x6B, 0x67, 0x02, 0xDA, 0xFF, 0x26, 0x66, 0xC0, 0x9A, 0x90,
    ];
    let reader = ShnReader::new(bytes).unwrap();
    assert_eq!(reader.info().channels, 1);
    assert_eq!(reader.info().sample_rate, 44100);
    assert_eq!(reader.info().bits_per_sample, 8);
    let mut samples = reader.samples();
    let mut out: Vec<i32> = Vec::new();
    while let Some(r) = samples.next() {
        out.push(r.unwrap());
    }
    assert_eq!(out, vec![3, 1, 2, 2]);
}

#[test]
fn decode_stereo_zero_blocks() {
    // channels=2, blocksize=3, two ZERO commands, QUIT: one interleaved
    // round of six zero samples (blocksize x channels).
    let bytes = vec![
        0x61, 0x6A, 0x6B, 0x67, 0x02, 0xFB, 0xB6, 0xF3, 0xF2, 0x48, 0x44,
    ];
    let out = collect_samples(bytes);
    assert_eq!(out, vec![0, 0, 0, 0, 0, 0]);
}

#[test]
fn decode_diff0_uses_running_mean() {
    // channels=1, blocksize=2, nmean=2. First DIFF0 block (offset 0) yields
    // [10, 10]; its mean 10 enters the window, so the second block's offset
    // is (10 + 0 + 1) / 2 = 5 and residuals [0, 2] yield [5, 7].
    let bytes = vec![
        0x61, 0x6A, 0x6B, 0x67, 0x02, 0xDA, 0xFB, 0x4E, 0xD3, 0x28, 0xC3, 0x25, 0x46, 0x20,
    ];
    let out = collect_samples(bytes);
    assert_eq!(out, vec![10, 10, 5, 7]);
}

#[test]
fn decode_qlpc_block() {
    // channels=1, blocksize=2, maxnlpc=3. QLPC with order 2 and
    // coefficients [32, -16] (scaled by 32): the first prediction is 0, the
    // second is the first sample, so residuals [5, -3] yield [5, 2].
    let bytes = vec![
        0x61, 0x6A, 0x6B, 0x67, 0x02, 0xDA, 0xFB, 0x6F, 0x32, 0xF9, 0x80, 0x20, 0x7D, 0x52, 0xA0,
    ];
    let out = collect_samples(bytes);
    assert_eq!(out, vec![5, 2]);
}

#[test]
fn decode_qlpc_high_order() {
    // channels=1, blocksize=3, maxnlpc=8. QLPC with order 4 and
    // coefficients [32, 0, 0, 0] predicts the previous sample; residuals
    // [5, 1, -2] yield [5, 6, 4].  Orders above three need the deeper
    // history the decoder sizes from maxnlpc.
    let bytes = vec![
        0x61, 0x6A, 0x6B, 0x67, 0x02, 0xDA, 0xFB, 0xA6, 0x26, 0x5F, 0x10, 0x02, 0x22, 0x22, 0xA8,
        0xA3, 0x40,
    ];
    let out = collect_samples(bytes);
    assert_eq!(out, vec![5, 6, 4]);
}

#[test]
fn decode_applies_bitshift() {
    // BITSHIFT 3 then DIFF1 with residuals [1, 1]: raw samples [1, 2] are
    // shifted left by three bits on output.
    let bytes = vec![
        0x61, 0x6A, 0x6B, 0x67, 0x02, 0xDA, 0xFB, 0x4C, 0xCB, 0x7B, 0x09, 0x20,
    ];
    let out = collect_samples(bytes);
    assert_eq!(out, vec![8, 16]);
}

#[test]
fn decode_reads_wave_header_from_verbatim() {
    // A VERBATIM block carrying a 44-byte RIFF/WAVE header (mono, 8 kHz,
    // 16-bit), then one ZERO block and QUIT.
    let bytes = vec![
        0x61, 0x6A, 0x6B, 0x67, 0x02, 0xFB, 0x7D, 0xA6, 0x64, 0xAB, 0x2A, 0x54, 0x9A, 0x35, 0x1A,
        0x49, 0x00, 0x80, 0x40, 0x2A, 0xF4, 0x1A, 0xB5, 0x16, 0xCD, 0x6D, 0xBA, 0x48, 0x22, 0x10,
        0x08, 0x04, 0x02, 0x03, 0x00, 0x80, 0xC0, 0x28, 0x11, 0xF8, 0x04, 0x03, 0x01, 0x3E, 0x80,
        0x40, 0x20, 0x50, 0x08, 0x84, 0x02, 0xC9, 0x61, 0xBA, 0x58, 0x60, 0x90, 0x08, 0x04, 0x00,
        0x88,
    ];
    let reader = ShnReader::new(bytes).unwrap();
    assert_eq!(reader.info().channels, 1);
    assert_eq!(reader.info().sample_rate, 8000);
    assert_eq!(reader.info().bits_per_sample, 16);
    let mut samples = reader.samples();
    let mut out: Vec<i32> = Vec::new();
    while let Some(r) = samples.next() {
        out.push(r.unwrap());
    }
    assert_eq!(out, vec![0, 0]);
}

#[test]
fn decode_rejects_unknown_command() {
    // Valid header, then command id 10.
    let bytes = vec![
        0x61, 0x6A, 0x6B, 0x67, 0x02, 0xDA, 0xFF, 0x26, 0x64, 0xC0,
    ];
    let reader = ShnReader::new(bytes).unwrap();
    let mut samples = reader.samples();
    assert!(matches!(
        samples.next(),
        Some(Err(ShnError::InvalidCommand(10)))
    ));
}

#[test]
fn decode_rejects_bad_blocksize_command() {
    // BLOCKSIZE command carrying 70000 (above the 65536 cap).
    let bytes = vec![
        0x61, 0x6A, 0x6B, 0x67, 0x02, 0xDA, 0xFF, 0x26, 0x65, 0x42, 0xE2, 0x2E, 0x00,
    ];
    let reader = ShnReader::new(bytes).unwrap();
    let mut samples = reader.samples();
    assert!(matches!(
        samples.next(),
        Some(Err(ShnError::InvalidBlockSize(70000)))
    ));
}

#[test]
fn decode_rejects_oversized_lpc_order() {
    // QLPC with order 1 while maxnlpc is 0.
    let bytes = vec![
        0x61, 0x6A, 0x6B, 0x67, 0x02, 0xDA, 0xFF, 0x26, 0x65, 0xE2, 0x80,
    ];
    let reader = ShnReader::new(bytes).unwrap();
    let mut samples = reader.samples();
    assert!(matches!(
        samples.next(),
        Some(Err(ShnError::InvalidLpcOrder(1)))
    ));
}

#[test]
fn decode_fails_on_truncated_stream() {
    // A valid header whose command stream ends mid-block.
    let bytes = vec![0x61, 0x6A, 0x6B, 0x67, 0x02, 0xDA, 0xFF, 0x26, 0x66, 0xC0];
    let reader = ShnReader::new(bytes).unwrap();
    let mut samples = reader.samples();
    assert!(matches!(samples.next(), Some(Err(ShnError::Io))));
}

#[test]
fn empty_input_is_an_io_error() {
    assert!(matches!(ShnReader::new(Vec::new()), Err(ShnError::Io)));
}
