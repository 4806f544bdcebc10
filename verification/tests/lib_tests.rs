use shn::{ShnInfo, ShnReader};

#[test]
fn shn_info_display() {
    let info = ShnInfo {
        channels: 2,
        sample_rate: 44100,
        bits_per_sample: 16,
    };
    assert_eq!(info.channels, 2);
    assert_eq!(info.sample_rate, 44100);
    assert_eq!(info.bits_per_sample, 16);
}

#[test]
fn into_inner_round_trips_source() {
    // channels=2, blocksize=3, two ZERO commands, QUIT.
    let bytes = vec![
        0x61, 0x6A, 0x6B, 0x67, 0x02, 0xFB, 0xB6, 0xF3, 0xF2, 0x48, 0x44,
    ];
    let reader = ShnReader::new(bytes.clone()).unwrap();
    assert_eq!(reader.into_inner(), bytes);
}

#[test]
fn samples_end_after_quit() {
    let bytes = vec![
        0x61, 0x6A, 0x6B, 0x67, 0x02, 0xFB, 0xB6, 0xF3, 0xF2, 0x48, 0x44,
    ];
    let reader = ShnReader::new(bytes).unwrap();
    let mut samples = reader.samples();
    let mut n: usize = 0;
    while let Some(r) = samples.next() {
        assert!(r.is_ok());
        n += 1;
    }
    // One round of blocksize x channels samples, then nothing more.
    assert_eq!(n, 6);
    assert!(samples.next().is_none());
    assert!(samples.next().is_none());
}
