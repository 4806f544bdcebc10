use vstd::prelude::*;

use crate::bitstream::{
    i32_of_u32, lemma_aligned_bits, lemma_rice_rest_len, lemma_urice_seq_mono,
    lemma_urice_seq_props, lemma_urice_seq_snoc, rice_ok,
    rice_rest, rice_val, stream_bits, u32_as_i32, ulong_ok, ulong_rest, ulong_val, urice_seq_ok,
    urice_seq_rest, urice_seq_vals, BitReader,
};
use crate::error::ShnError;

verus! {

// Shorten file types.
pub const TYPE_S8: i32 = 1;  // signed 8-bit
pub const TYPE_U8: i32 = 2;  // unsigned 8-bit
pub const TYPE_S16HL: i32 = 3;  // signed 16-bit, high byte first
pub const TYPE_U16HL: i32 = 4;  // unsigned 16-bit, high byte first
pub const TYPE_S16LH: i32 = 5;  // signed 16-bit, low byte first
pub const TYPE_U16LH: i32 = 6;  // unsigned 16-bit, low byte first

/// Command id of a VERBATIM block (the only command header parsing handles).
pub const FN_VERBATIM: i32 = 9;

/// Parsed Shorten header information.
#[derive(Debug, Clone)]
pub struct ShnHeader {
    pub version: u8,
    pub file_type: i32,
    pub channels: u32,
    pub blocksize: usize,
    pub maxnlpc: usize,
    pub nmean: usize,
    pub nskip: usize,
    /// The first audio command read after the header and any initial
    /// VERBATIM blocks: header parsing consumes it while looking for the
    /// embedded WAVE header, so the decoder replays it.
    pub first_audio_cmd: Option<i32>,
}

/// Information extracted from the embedded RIFF/WAVE header.
#[derive(Debug, Clone)]
pub struct WaveInfo {
    pub sample_rate: u32,
    pub bits_per_sample: u32,
    pub channels: u32,
    /// Total number of audio data bytes (from the "data" chunk size).
    pub data_bytes: u32,
}

// ─── RIFF/WAVE parsing, modelled chunk by chunk ─────────────────────────────

/// The four bytes of `d` at `p` are exactly `b0 b1 b2 b3`.
pub open spec fn bytes4(d: Seq<u8>, p: int, b0: u8, b1: u8, b2: u8, b3: u8) -> bool {
    &&& d[p] == b0
    &&& d[p + 1] == b1
    &&& d[p + 2] == b2
    &&& d[p + 3] == b3
}

/// The little-endian 16-bit value at `p`.
pub open spec fn le16(d: Seq<u8>, p: int) -> int {
    d[p] + 0x100 * d[p + 1]
}

/// The little-endian 32-bit value at `p`.
pub open spec fn le32(d: Seq<u8>, p: int) -> int {
    d[p] + 0x100 * d[p + 1] + 0x1_0000 * d[p + 2] + 0x100_0000 * d[p + 3]
}

/// Walk the RIFF chunk list from `pos`.  `fmt` carries the channel count,
/// sample rate and bit width of the last "fmt " chunk seen.  A "data" chunk
/// yields the result; running off the end with a "fmt " seen yields the
/// result with an unknown data size.
pub open spec fn wave_scan(d: Seq<u8>, pos: int, fmt: Option<(u32, u32, u32)>) -> Option<WaveInfo>
    decreases (if pos <= d.len() {
        d.len() - pos
    } else {
        0
    }),
{
    if pos < 0 || pos + 8 > d.len() {
        match fmt {
            Some(f) => Some(
                WaveInfo {
                    sample_rate: f.1,
                    bits_per_sample: f.2,
                    channels: f.0,
                    data_bytes: 0,
                },
            ),
            None => None,
        }
    } else {
        let size = le32(d, pos + 4);
        let pad: int = if size % 2 == 1 {
            1
        } else {
            0
        };
        if bytes4(d, pos, 0x66, 0x6D, 0x74, 0x20) {
            // "fmt "
            if pos + 8 + size > d.len() || size < 16 {
                None
            } else {
                wave_scan(
                    d,
                    pos + 8 + size + pad,
                    Some(
                        (
                            le16(d, pos + 10) as u32,
                            le32(d, pos + 12) as u32,
                            le16(d, pos + 22) as u32,
                        ),
                    ),
                )
            }
        } else if bytes4(d, pos, 0x64, 0x61, 0x74, 0x61) {
            // "data"
            match fmt {
                Some(f) => Some(
                    WaveInfo {
                        sample_rate: f.1,
                        bits_per_sample: f.2,
                        channels: f.0,
                        data_bytes: size as u32,
                    },
                ),
                None => None,
            }
        } else {
            wave_scan(d, pos + 8 + size + pad, fmt)
        }
    }
}

/// The result of parsing `d` as a RIFF/WAVE header: `d` must be at least 44
/// bytes, start with "RIFF", carry "WAVE" at offset 8, and hold a "fmt "
/// chunk; a "data" chunk supplies the data size.
pub open spec fn spec_parse_wave(d: Seq<u8>) -> Option<WaveInfo> {
    if d.len() < 44 {
        None
    } else if !bytes4(d, 0, 0x52, 0x49, 0x46, 0x46) {
        // "RIFF"
        None
    } else if !bytes4(d, 8, 0x57, 0x41, 0x56, 0x45) {
        // "WAVE"
        None
    } else {
        wave_scan(d, 12, None)
    }
}

/// Parse a RIFF/WAVE header (embedded as verbatim data in the Shorten
/// stream) to extract sample rate, bit width, channel count and data size.
#[verifier::loop_isolation(false)]
pub fn parse_wave_header(data: &Vec<u8>) -> (r: Result<WaveInfo, ShnError>)
    ensures
        match r {
            Ok(w) => spec_parse_wave(data@) == Some(w),
            Err(e) => {
                &&& e == ShnError::MissingWaveHeader
                &&& spec_parse_wave(data@) is None
            },
        },
{
    if data.len() < 44 {
        return Err(ShnError::MissingWaveHeader);
    }
    if !(data[0] == 0x52 && data[1] == 0x49 && data[2] == 0x46 && data[3] == 0x46) {
        return Err(ShnError::MissingWaveHeader);
    }
    if !(data[8] == 0x57 && data[9] == 0x41 && data[10] == 0x56 && data[11] == 0x45) {
        return Err(ShnError::MissingWaveHeader);
    }
    let n: u128 = data.len() as u128;
    let mut pos: u128 = 12;
    let mut fmt: Option<(u32, u32, u32)> = None;
    while pos + 8 <= n
        invariant
            12 <= pos,
            pos <= n + 0x1_0000_0001,
            spec_parse_wave(data@) == wave_scan(data@, pos as int, fmt),
        decreases (if pos <= n {
            n - pos
        } else {
            0
        }),
    {
        let p = pos as usize;
        let size: u32 = (data[p + 4] as u32) + (data[p + 5] as u32) * 0x100 + (data[p + 6] as u32)
            * 0x1_0000 + (data[p + 7] as u32) * 0x100_0000;
        proof {
            assert(size == le32(data@, pos + 4));
        }
        if data[p] == 0x66 && data[p + 1] == 0x6D && data[p + 2] == 0x74 && data[p + 3] == 0x20 {
            // "fmt " chunk
            if pos + 8 + (size as u128) > n || size < 16 {
                return Err(ShnError::MissingWaveHeader);
            }
            let ch: u32 = (data[p + 10] as u32) + (data[p + 11] as u32) * 0x100;
            let sr: u32 = (data[p + 12] as u32) + (data[p + 13] as u32) * 0x100 + (data[p + 14]
                as u32) * 0x1_0000 + (data[p + 15] as u32) * 0x100_0000;
            let bps: u32 = (data[p + 22] as u32) + (data[p + 23] as u32) * 0x100;
            fmt = Some((ch, sr, bps));
        } else if data[p] == 0x64 && data[p + 1] == 0x61 && data[p + 2] == 0x74 && data[p + 3]
            == 0x61 {
            // "data" chunk
            match fmt {
                Some(f) => {
                    return Ok(
                        WaveInfo {
                            sample_rate: f.1,
                            bits_per_sample: f.2,
                            channels: f.0,
                            data_bytes: size,
                        },
                    );
                },
                None => {
                    return Err(ShnError::MissingWaveHeader);
                },
            }
        }
        pos = pos + 8 + (size as u128) + (if size % 2 == 1 {
            1
        } else {
            0
        });
    }
    match fmt {
        Some(f) => Ok(
            WaveInfo {
                sample_rate: f.1,
                bits_per_sample: f.2,
                channels: f.0,
                data_bytes: 0,
            },
        ),
        None => Err(ShnError::MissingWaveHeader),
    }
}

// ─── The Shorten header, modelled field by field ────────────────────────────

/// `n` consecutive `ulong`s are decodable from the front of `s`.
pub open spec fn skip_ulongs_ok(s: Seq<bool>, n: nat) -> bool
    decreases n,
{
    n == 0 || (ulong_ok(s) && skip_ulongs_ok(ulong_rest(s), (n - 1) as nat))
}

/// What remains of `s` after `n` consecutive `ulong`s.
pub open spec fn skip_ulongs_rest(s: Seq<bool>, n: nat) -> Seq<bool>
    decreases n,
{
    if n == 0 {
        s
    } else {
        skip_ulongs_rest(ulong_rest(s), (n - 1) as nat)
    }
}

pub proof fn lemma_skip_ulongs_snoc(s: Seq<bool>, n: nat)
    ensures
        skip_ulongs_ok(s, n + 1) == (skip_ulongs_ok(s, n) && ulong_ok(skip_ulongs_rest(s, n))),
        skip_ulongs_ok(s, n + 1) ==> skip_ulongs_rest(s, n + 1) == ulong_rest(
            skip_ulongs_rest(s, n),
        ),
    decreases n,
{
    reveal_with_fuel(skip_ulongs_ok, 3);
    reveal_with_fuel(skip_ulongs_rest, 3);
    if n > 0 {
        lemma_skip_ulongs_snoc(ulong_rest(s), (n - 1) as nat);
    }
}

pub proof fn lemma_skip_ulongs_mono(s: Seq<bool>, m: nat, n: nat)
    requires
        m <= n,
        skip_ulongs_ok(s, n),
    ensures
        skip_ulongs_ok(s, m),
    decreases m,
{
    if m > 0 {
        lemma_skip_ulongs_mono(ulong_rest(s), (m - 1) as nat, (n - 1) as nat);
    }
}

/// The bytes of a verbatim payload: `n` Rice(8) codes, each truncated to a
/// byte.
pub open spec fn vpayload_bytes(s: Seq<bool>, n: nat) -> Seq<u8> {
    urice_seq_vals(s, 8, n).map_values(|v: int| (v % 256) as u8)
}

/// Read commands until the first non-VERBATIM one.  Each VERBATIM payload is
/// consumed; the first payload that parses as a RIFF/WAVE header supplies
/// `wave`.  The result carries the pre-read command id, the WAVE information
/// if any was found, and the remaining bits.
pub open spec fn drain_verbatims(s: Seq<bool>, wave: Option<WaveInfo>) -> Result<
    (i32, Option<WaveInfo>, Seq<bool>),
    ShnError,
>
    decreases s.len(),
    via drain_verbatims_dec
{
    if !(rice_ok(s, 2) && rice_val(s, 2) < 0x1_0000_0000) {
        Err(ShnError::Io)
    } else {
        let c = rice_val(s, 2);
        let r1 = rice_rest(s, 2);
        if c != 9 {
            Ok((i32_of_u32(c as u32), wave, r1))
        } else if !(rice_ok(r1, 5) && rice_val(r1, 5) < 0x1_0000_0000) {
            Err(ShnError::Io)
        } else {
            let nb = rice_val(r1, 5) as nat;
            let r2 = rice_rest(r1, 5);
            if !urice_seq_ok(r2, 8, nb) {
                Err(ShnError::Io)
            } else {
                let payload = vpayload_bytes(r2, nb);
                let w2 = if wave is None && spec_parse_wave(payload) is Some {
                    spec_parse_wave(payload)
                } else {
                    wave
                };
                drain_verbatims(urice_seq_rest(r2, 8, nb), w2)
            }
        }
    }
}

#[via_fn]
proof fn drain_verbatims_dec(s: Seq<bool>, wave: Option<WaveInfo>) {
    if rice_ok(s, 2) && rice_val(s, 2) < 0x1_0000_0000 {
        lemma_rice_rest_len(s, 2);
        let r1 = rice_rest(s, 2);
        if rice_ok(r1, 5) && rice_val(r1, 5) < 0x1_0000_0000 {
            lemma_rice_rest_len(r1, 5);
            let r2 = rice_rest(r1, 5);
            let nb = rice_val(r1, 5) as nat;
            if urice_seq_ok(r2, 8, nb) {
                lemma_urice_seq_props(r2, 8, nb);
            }
        }
    }
}

/// The four stream parameters after `channels`: for version 2 and above they
/// are read as `ulong`s, else they take the version's defaults.
pub open spec fn spec_parse_fields(s: Seq<bool>, version: u8) -> Result<
    ((int, int, int, int), Seq<bool>),
    ShnError,
> {
    if version < 2 {
        Ok(
            (
                (
                    256int,
                    0int,
                    if version >= 1 {
                        4int
                    } else {
                        0int
                    },
                    0int,
                ),
                s,
            ),
        )
    } else if !ulong_ok(s) {
        Err(ShnError::Io)
    } else {
        let bs = ulong_val(s);
        let t1 = ulong_rest(s);
        if !ulong_ok(t1) {
            Err(ShnError::Io)
        } else {
            let mx = ulong_val(t1);
            let t2 = ulong_rest(t1);
            if !ulong_ok(t2) {
                Err(ShnError::Io)
            } else {
                let nm = ulong_val(t2);
                let t3 = ulong_rest(t2);
                if !ulong_ok(t3) {
                    Err(ShnError::Io)
                } else {
                    Ok(((bs, mx, nm, ulong_val(t3)), ulong_rest(t3)))
                }
            }
        }
    }
}

/// The result of parsing the Shorten header at the front of the byte stream
/// `b`: the preamble (magic and version), the `ulong` header fields with
/// their parse-time bounds enforced, `nskip` discarded `ulong`s, and the
/// drain of leading VERBATIM commands.  On success the remaining bits are
/// positioned on the first audio command's payload.
pub open spec fn spec_parse_header(b: Seq<u8>) -> Result<
    (ShnHeader, WaveInfo, Seq<bool>),
    ShnError,
> {
    if b.len() < 4 {
        Err(ShnError::Io)
    } else if !(b[0] == 0x61 && b[1] == 0x6A && b[2] == 0x6B && b[3] == 0x67) {
        // "ajkg"
        Err(ShnError::InvalidMagic)
    } else if b.len() < 5 {
        Err(ShnError::Io)
    } else if b[4] == 0 || b[4] > 3 {
        Err(ShnError::UnsupportedVersion(b[4]))
    } else {
        let version = b[4];
        let s0 = stream_bits(b.skip(5));
        if !ulong_ok(s0) {
            Err(ShnError::Io)
        } else {
            let ft = i32_of_u32(ulong_val(s0) as u32);
            let s1 = ulong_rest(s0);
            if !(TYPE_S8 <= ft <= TYPE_U16LH) {
                Err(ShnError::UnsupportedFileType(ft))
            } else if !ulong_ok(s1) {
                Err(ShnError::Io)
            } else {
                let ch = ulong_val(s1) as u32;
                let s2 = ulong_rest(s1);
                match spec_parse_fields(s2, version) {
                    Err(e) => Err(e),
                    Ok((f, s3)) => {
                        if f.0 <= 0 || f.0 > 65536 {
                            Err(ShnError::InvalidBlockSize(i32_of_u32(f.0 as u32)))
                        } else if f.1 > 128 {
                            Err(ShnError::InvalidLpcOrder(i32_of_u32(f.1 as u32)))
                        } else if !skip_ulongs_ok(s3, f.3 as nat) {
                            Err(ShnError::Io)
                        } else {
                            match drain_verbatims(skip_ulongs_rest(s3, f.3 as nat), None) {
                                Err(e) => Err(e),
                                Ok((cmd, wopt, s4)) => {
                                    let wave = match wopt {
                                        Some(w) => w,
                                        None => WaveInfo {
                                            sample_rate: 44100,
                                            bits_per_sample: if ft == TYPE_S8 || ft == TYPE_U8 {
                                                8
                                            } else {
                                                16
                                            },
                                            channels: ch,
                                            data_bytes: 0,
                                        },
                                    };
                                    Ok(
                                        (
                                            ShnHeader {
                                                version,
                                                file_type: ft,
                                                channels: ch,
                                                blocksize: f.0 as usize,
                                                maxnlpc: f.1 as usize,
                                                nmean: f.2 as usize,
                                                nskip: f.3 as usize,
                                                first_audio_cmd: Some(cmd),
                                            },
                                            wave,
                                            s4,
                                        ),
                                    )
                                },
                            }
                        }
                    },
                }
            }
        }
    }
}

/// Read `n` verbatim bytes from the bitstream, each a Rice(8) code truncated
/// to a byte.
#[verifier::loop_isolation(false)]
fn read_verbatim_bytes(reader: &mut BitReader, n: usize) -> (r: Result<Vec<u8>, ShnError>)
    requires
        old(reader).wf(),
    ensures
        final(reader).wf(),
        match r {
            Ok(v) => {
                &&& urice_seq_ok(old(reader).bits(), 8, n as nat)
                &&& v@ == vpayload_bytes(old(reader).bits(), n as nat)
                &&& final(reader).bits() == urice_seq_rest(old(reader).bits(), 8, n as nat)
            },
            Err(e) => {
                &&& e == ShnError::Io
                &&& !urice_seq_ok(old(reader).bits(), 8, n as nat)
            },
        },
{
    let ghost s = old(reader).bits();
    let mut buf: Vec<u8> = Vec::new();
    let mut i: usize = 0;
    proof {
        assert(buf@ =~= vpayload_bytes(s, 0));
    }
    while i < n
        invariant
            reader.wf(),
            i <= n,
            urice_seq_ok(s, 8, i as nat),
            reader.bits() == urice_seq_rest(s, 8, i as nat),
            buf@ == vpayload_bytes(s, i as nat),
        decreases n - i,
    {
        proof {
            lemma_urice_seq_snoc(s, 8, i as nat);
        }
        match reader.read_unsigned_rice(8) {
            Ok(v) => {
                proof {
                    assert(vpayload_bytes(s, (i + 1) as nat) =~= vpayload_bytes(s, i as nat).push(
                        (((v as int) % 256) as u8),
                    ));
                }
                buf.push((v % 256) as u8);
                i = i + 1;
            },
            Err(_) => {
                proof {
                    if urice_seq_ok(s, 8, n as nat) {
                        lemma_urice_seq_mono(s, 8, (i + 1) as nat, n as nat);
                    }
                }
                return Err(ShnError::Io);
            },
        }
    }
    Ok(buf)
}

/// Parse the Shorten header and any embedded WAVE header.
///
/// After this returns successfully, the reader is positioned just past the
/// first non-VERBATIM command id, which is returned in `first_audio_cmd`.
#[verifier::loop_isolation(false)]
#[verifier::rlimit(60)]
pub fn parse_header(reader: &mut BitReader) -> (r: Result<(ShnHeader, WaveInfo), ShnError>)
    requires
        old(reader).wf(),
        old(reader).aligned(),
    ensures
        final(reader).wf(),
        match r {
            Ok((h, w)) => {
                &&& spec_parse_header(old(reader).bytes_left()) == Ok::<
                    (ShnHeader, WaveInfo, Seq<bool>),
                    ShnError,
                >((h, w, final(reader).bits()))
                &&& 1 <= h.blocksize <= 65536
                &&& h.maxnlpc <= 128
                &&& h.nmean <= 0xFFFF_FFFF
            },
            Err(e) => spec_parse_header(old(reader).bytes_left()) == Err::<
                (ShnHeader, WaveInfo, Seq<bool>),
                ShnError,
            >(e),
        },
{
    let ghost b = old(reader).bytes_left();
    // Preamble: four magic bytes, then the version byte, raw.
    let m0 = match reader.read_byte_direct() {
        Ok(x) => x,
        Err(e) => {
            return Err(e);
        },
    };
    let m1 = match reader.read_byte_direct() {
        Ok(x) => x,
        Err(e) => {
            return Err(e);
        },
    };
    let m2 = match reader.read_byte_direct() {
        Ok(x) => x,
        Err(e) => {
            return Err(e);
        },
    };
    let m3 = match reader.read_byte_direct() {
        Ok(x) => x,
        Err(e) => {
            return Err(e);
        },
    };
    if !(m0 == 0x61 && m1 == 0x6A && m2 == 0x6B && m3 == 0x67) {
        return Err(ShnError::InvalidMagic);
    }
    let version = match reader.read_byte_direct() {
        Ok(x) => x,
        Err(e) => {
            return Err(e);
        },
    };
    if version == 0 || version > 3 {
        return Err(ShnError::UnsupportedVersion(version));
    }
    proof {
        lemma_aligned_bits(*reader);
        assert(reader.bytes_left() =~= b.skip(5));
    }
    let ghost s0 = stream_bits(b.skip(5));
    // Header fields, now in bitstream mode.
    let ft_u = match reader.read_ulong() {
        Ok(v) => v,
        Err(e) => {
            return Err(e);
        },
    };
    let file_type = u32_as_i32(ft_u);
    if file_type < TYPE_S8 || file_type > TYPE_U16LH {
        return Err(ShnError::UnsupportedFileType(file_type));
    }
    let channels_u = match reader.read_ulong() {
        Ok(v) => v,
        Err(e) => {
            return Err(e);
        },
    };
    let mut blocksize_u: u32 = 256;
    let mut maxnlpc_u: u32 = 0;
    let mut nmean_u: u32 = 4;
    let mut nskip_u: u32 = 0;
    if version >= 2 {
        blocksize_u = match reader.read_ulong() {
            Ok(v) => v,
            Err(e) => {
                return Err(e);
            },
        };
        maxnlpc_u = match reader.read_ulong() {
            Ok(v) => v,
            Err(e) => {
                return Err(e);
            },
        };
        nmean_u = match reader.read_ulong() {
            Ok(v) => v,
            Err(e) => {
                return Err(e);
            },
        };
        nskip_u = match reader.read_ulong() {
            Ok(v) => v,
            Err(e) => {
                return Err(e);
            },
        };
    }
    if blocksize_u == 0 || blocksize_u > 65536 {
        return Err(ShnError::InvalidBlockSize(u32_as_i32(blocksize_u)));
    }
    if maxnlpc_u > 128 {
        return Err(ShnError::InvalidLpcOrder(u32_as_i32(maxnlpc_u)));
    }
    // Discard `nskip` ulongs (rare, usually zero).
    let ghost s_skip = reader.bits();
    let mut i: u32 = 0;
    while i < nskip_u
        invariant
            i <= nskip_u,
            reader.wf(),
            skip_ulongs_ok(s_skip, i as nat),
            reader.bits() == skip_ulongs_rest(s_skip, i as nat),
        decreases nskip_u - i,
    {
        proof {
            lemma_skip_ulongs_snoc(s_skip, i as nat);
        }
        match reader.read_ulong() {
            Ok(_) => {
                i = i + 1;
            },
            Err(_) => {
                proof {
                    if skip_ulongs_ok(s_skip, nskip_u as nat) {
                        lemma_skip_ulongs_mono(s_skip, (i + 1) as nat, nskip_u as nat);
                    }
                }
                return Err(ShnError::Io);
            },
        }
    }
    // Drain leading VERBATIM commands, looking for the WAVE header.
    let ghost sd = reader.bits();
    let mut wave: Option<WaveInfo> = None;
    let mut pending: i32 = 0;
    let mut done = false;
    while !done
        invariant
            reader.wf(),
            !done ==> drain_verbatims(sd, None) == drain_verbatims(reader.bits(), wave),
            done ==> drain_verbatims(sd, None) == Ok::<
                (i32, Option<WaveInfo>, Seq<bool>),
                ShnError,
            >((pending, wave, reader.bits())),
        decreases (if done {
            0int
        } else {
            reader.bits().len() as int + 1
        }),
    {
        let ghost cur = reader.bits();
        let ghost wcur = wave;
        let cmd_u = match reader.read_unsigned_rice(2) {
            Ok(c) => c,
            Err(_) => {
                return Err(ShnError::Io);
            },
        };
        let cmd = u32_as_i32(cmd_u);
        if cmd != FN_VERBATIM {
            pending = cmd;
            done = true;
        } else {
            let nb_u = match reader.read_unsigned_rice(5) {
                Ok(v) => v,
                Err(_) => {
                    return Err(ShnError::Io);
                },
            };
            let ghost before_payload = reader.bits();
            let data = match read_verbatim_bytes(reader, nb_u as usize) {
                Ok(d) => d,
                Err(_) => {
                    return Err(ShnError::Io);
                },
            };
            proof {
                lemma_urice_seq_props(before_payload, 8, nb_u as nat);
            }
            if wave.is_none() {
                match parse_wave_header(&data) {
                    Ok(wi) => {
                        wave = Some(wi);
                    },
                    Err(_) => {},
                }
            }
            proof {
                assert(drain_verbatims(cur, wcur) == drain_verbatims(reader.bits(), wave));
            }
        }
    }
    let winfo = match wave {
        Some(w) => w,
        None => WaveInfo {
            sample_rate: 44100,
            bits_per_sample: if file_type == TYPE_S8 || file_type == TYPE_U8 {
                8
            } else {
                16
            },
            channels: channels_u,
            data_bytes: 0,
        },
    };
    let header = ShnHeader {
        version,
        file_type,
        channels: channels_u,
        blocksize: blocksize_u as usize,
        maxnlpc: maxnlpc_u as usize,
        nmean: nmean_u as usize,
        nskip: nskip_u as usize,
        first_audio_cmd: Some(pending),
    };
    proof {
        assert(spec_parse_header(b) == Ok::<(ShnHeader, WaveInfo, Seq<bool>), ShnError>(
            (header, winfo, reader.bits()),
        ));
    }
    Ok((header, winfo))
}

} // verus!
