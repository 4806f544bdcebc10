use shn::bitstream::BitReader;
use shn::ShnError;

#[test]
fn read_bits_basic() {
    // 0xA5 = 1010_0101, 0x3C = 0011_1100
    let data = vec![0xA5, 0x3C];
    let mut br = BitReader::new(data);
    assert_eq!(br.read_bits(4).unwrap(), 0b1010);
    assert_eq!(br.read_bits(4).unwrap(), 0b0101);
    assert_eq!(br.read_bits(8).unwrap(), 0x3C);
}

#[test]
fn read_bits_across_boundary() {
    let data = vec![0xFF, 0x00];
    let mut br = BitReader::new(data);
    assert_eq!(br.read_bits(5).unwrap(), 0b11111);
    assert_eq!(br.read_bits(6).unwrap(), 0b111000);
}

#[test]
fn unsigned_rice_k0() {
    // k=0: pure unary. Value N = N zeros + stop(1).
    // Value 0: 1 (just stop bit)
    // Value 3: 0001 (three zeros + stop)
    // Packed: 1_0001_000 = 0x88
    let data = vec![0x88];
    let mut br = BitReader::new(data);
    assert_eq!(br.read_unsigned_rice(0).unwrap(), 0);
    assert_eq!(br.read_unsigned_rice(0).unwrap(), 3);
}

#[test]
fn unsigned_rice_k2() {
    // k=2: q zeros + stop(1) + 2 mantissa bits
    // Value 5 = (1 << 2) | 1 -> q=1, r=01 -> 0_1_01 = 0101
    // Value 2 = (0 << 2) | 2 -> q=0, r=10 -> 1_10 = 110
    // Packed: 0101_110_0 = 0b01011100 = 0x5C
    let data = vec![0x5C];
    let mut br = BitReader::new(data);
    assert_eq!(br.read_unsigned_rice(2).unwrap(), 5);
    assert_eq!(br.read_unsigned_rice(2).unwrap(), 2);
}

#[test]
fn signed_rice() {
    // Signed rice(k) reads unsigned rice(k+1) then sign-unfolds.
    // k=0: reads unsigned rice(1) values.
    // Unsigned 0 -> signed 0:  code = 1 0
    // Unsigned 1 -> signed -1: code = 1 1
    // Unsigned 2 -> signed 1:  code = 0 1 0
    // Packed: 10_11_010_0 = 0b10110100 = 0xB4
    let data = vec![0xB4];
    let mut br = BitReader::new(data);
    assert_eq!(br.read_signed_rice(0).unwrap(), 0);
    assert_eq!(br.read_signed_rice(0).unwrap(), -1);
    assert_eq!(br.read_signed_rice(0).unwrap(), 1);
}

#[test]
fn ulong_encoding() {
    // ulong: read_unsigned_rice(2) -> nbits, then read_unsigned_rice(nbits).
    // For value 5: nbits=3, then uvar(5, k=3): 111 1101 -> 0xFA
    let data = vec![0xFA];
    let mut br = BitReader::new(data);
    assert_eq!(br.read_ulong().unwrap(), 5);
}

#[test]
fn ulong_zero() {
    // ulong(0): nbits=0 (code 100), then uvar(0, k=0) (code 1) -> 0x90
    let data = vec![0x90];
    let mut br = BitReader::new(data);
    assert_eq!(br.read_ulong().unwrap(), 0);
}

#[test]
fn decode_real_header() {
    // Header bytes (after magic+version) for type=5, ch=2, bs=256:
    // type=5, channels=2, blocksize=256, maxnlpc=0, nmean=4, nskip=0
    let data = vec![0xFB, 0xB1, 0x70, 0x09, 0xF9, 0x20];
    let mut br = BitReader::new(data);
    assert_eq!(br.read_ulong().unwrap(), 5); // filetype
    assert_eq!(br.read_ulong().unwrap(), 2); // channels
    assert_eq!(br.read_ulong().unwrap(), 256); // blocksize
    assert_eq!(br.read_ulong().unwrap(), 0); // maxnlpc
    assert_eq!(br.read_ulong().unwrap(), 4); // nmean
    assert_eq!(br.read_ulong().unwrap(), 0); // nskip
}

#[test]
fn read_byte_direct_preamble() {
    let data = vec![0x61, 0x6A, 0x6B];
    let mut br = BitReader::new(data);
    assert_eq!(br.read_byte_direct().unwrap(), 0x61);
    assert_eq!(br.read_byte_direct().unwrap(), 0x6A);
    assert_eq!(br.read_byte_direct().unwrap(), 0x6B);
    assert!(matches!(br.read_byte_direct(), Err(ShnError::Io)));
}

#[test]
fn read_bytes_drains_whole_bytes() {
    let data = vec![0x12, 0x34, 0x56];
    let mut br = BitReader::new(data);
    let v = br.read_bytes(2).unwrap();
    assert_eq!(v, vec![0x12, 0x34]);
    assert_eq!(br.read_bits(8).unwrap(), 0x56);
}

#[test]
fn bit_reads_fail_at_end_of_source() {
    let mut br = BitReader::new(vec![0xFF]);
    assert_eq!(br.read_bits(8).unwrap(), 0xFF);
    assert!(matches!(br.read_bits(1), Err(ShnError::Io)));

    // A run of zero bits with no stop bit is an error, not a hang.
    let mut br = BitReader::new(vec![0x00]);
    assert!(matches!(br.read_unsigned_rice(0), Err(ShnError::Io)));
}

#[test]
fn ulong_rejects_oversized_width() {
    // nbits = 26 exceeds the 25-bit mantissa cap: uvar(26, 2) = 000000 1 10
    // packed: 0000001_1 0 -> 0x03, 0x00
    let mut br = BitReader::new(vec![0x03, 0x00]);
    assert!(matches!(br.read_ulong(), Err(ShnError::Io)));
}

#[test]
fn into_inner_returns_source() {
    let data = vec![1, 2, 3];
    let br = BitReader::new(data.clone());
    assert_eq!(br.inner(), &data);
    assert_eq!(br.into_inner(), data);
}
