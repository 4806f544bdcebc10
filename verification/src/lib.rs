//! Decoder core for the Shorten (SHN) lossless audio compression format:
//! an MSB-first bit reader feeding a command-driven state machine that
//! reconstructs PCM samples via polynomial predictors and quantized LPC
//! with Rice-coded residuals.

pub mod bitstream;
pub mod buffer;
pub mod decode;
pub mod error;
pub mod header;

use vstd::prelude::*;

pub use error::ShnError;

use crate::bitstream::BitReader;
use crate::decode::Decoder;
use crate::header::{parse_header, spec_parse_header, ShnHeader, WaveInfo};

verus! {

/// Metadata about the audio contained in a Shorten stream.
#[derive(Debug, Clone)]
pub struct ShnInfo {
    /// Number of audio channels (1 = mono, 2 = stereo).
    pub channels: u32,
    /// Sample rate in Hz (e.g. 44100).
    pub sample_rate: u32,
    /// Bits per sample (typically 16).
    pub bits_per_sample: u32,
}

/// A reader that decodes Shorten (SHN) audio from an in-memory byte source.
///
/// Open the stream, read its metadata, then walk the decoded PCM samples.
pub struct ShnReader {
    pub decoder: Decoder,
    pub info: ShnInfo,
}

impl ShnReader {
    pub open spec fn wf(self) -> bool {
        self.decoder.wf()
    }

    /// Create a reader from a byte source, parsing the Shorten header and
    /// any embedded WAVE header immediately.  After construction, `info`
    /// holds the stream metadata and `samples` walks the audio.
    pub fn new(bytes: Vec<u8>) -> (r: Result<ShnReader, ShnError>)
        ensures
            match r {
                Ok(rd) => {
                    &&& rd.wf()
                    &&& spec_parse_header(bytes@) matches Ok(t) && {
                        &&& rd.info == (ShnInfo {
                            channels: t.1.channels,
                            sample_rate: t.1.sample_rate,
                            bits_per_sample: t.1.bits_per_sample,
                        })
                        &&& rd.decoder.channels == t.0.channels
                        &&& rd.decoder.blocksize == t.0.blocksize
                        &&& rd.decoder.maxnlpc == t.0.maxnlpc
                        &&& rd.decoder.nmean == t.0.nmean
                        &&& rd.decoder.version == t.0.version
                        &&& rd.decoder.pending_cmd == t.0.first_audio_cmd
                        &&& rd.decoder.reader.bits() == t.2
                        &&& rd.decoder.bitshift == 0
                        &&& rd.decoder.current_channel == 0
                        &&& !rd.decoder.finished
                        &&& rd.decoder.output_buf@.len() == 0
                    }
                },
                Err(e) => spec_parse_header(bytes@) == Err::<
                    (ShnHeader, WaveInfo, Seq<bool>),
                    ShnError,
                >(e),
            },
    {
        let mut reader = BitReader::new(bytes);
        match parse_header(&mut reader) {
            Ok((h, w)) => {
                let info = ShnInfo {
                    channels: w.channels,
                    sample_rate: w.sample_rate,
                    bits_per_sample: w.bits_per_sample,
                };
                let decoder = Decoder::new(reader, &h);
                Ok(ShnReader { decoder, info })
            },
            Err(e) => Err(e),
        }
    }

    /// Metadata about the audio stream.
    pub fn info(&self) -> (r: &ShnInfo)
        ensures
            *r == self.info,
    {
        &self.info
    }

    /// Walk the decoded PCM samples.  Samples are interleaved for
    /// multi-channel streams: channel 0 first within each frame.
    pub fn samples(self) -> (r: ShnSamples)
        ensures
            r.decoder == self.decoder,
    {
        ShnSamples { decoder: self.decoder }
    }

    /// Consume the reader and return the underlying byte source.
    pub fn into_inner(self) -> (r: Vec<u8>)
        ensures
            r == self.decoder.reader.bytes,
    {
        self.decoder.reader.into_inner()
    }
}

/// Walks decoded PCM samples from a Shorten stream.
///
/// Each call to `next` yields one sample, or the error that ended the
/// decode, or nothing once the stream has finished.  For stereo streams
/// samples alternate between channels.
pub struct ShnSamples {
    pub decoder: Decoder,
}

impl ShnSamples {
    pub open spec fn wf(self) -> bool {
        self.decoder.wf()
    }

    /// The next decoded sample: a buffered one if any remain, else the next
    /// round of blocks is decoded and interleaved.  A buffered sample is
    /// always yielded while one remains; an exhausted buffer follows the
    /// round machine: its error ends the stream (nothing further is
    /// yielded), QUIT yields nothing, and a decoded round yields its first
    /// sample.
    pub fn next(&mut self) -> (r: Option<Result<i32, ShnError>>)
        requires
            old(self).wf(),
        ensures
            final(self).wf(),
            old(self).decoder.output_pos < old(self).decoder.output_buf@.len() ==> r == Some(
                Ok::<i32, ShnError>(
                    old(self).decoder.output_buf@[old(self).decoder.output_pos as int],
                ),
            ),
            old(self).decoder.output_pos == old(self).decoder.output_buf@.len() && old(self).decoder.finished ==> r == None::<Result<i32, ShnError>> && *final(self) == *old(self),
            old(self).decoder.output_pos == old(self).decoder.output_buf@.len() && !old(self).decoder.finished ==> match decode::spec_round(
                decode::abs_state(old(self).decoder),
                old(self).decoder.channels as nat,
                old(self).decoder.channels as nat,
                old(self).decoder.maxnlpc as nat,
                old(self).decoder.nmean as nat,
                decode::nwrap_of(old(self).decoder.maxnlpc as nat),
            ) {
                Err(e) => r == Some(Err::<i32, ShnError>(e)) && final(self).decoder.finished,
                Ok(opt) => match opt {
                    None => r == None::<Result<i32, ShnError>> && final(self).decoder.finished,
                    Some(st) => {
                        &&& decode::abs_state(final(self).decoder) == st
                        &&& final(self).decoder.output_buf@.len() > 0 ==> r == Some(
                            Ok::<i32, ShnError>(final(self).decoder.output_buf@[0]),
                        ) && final(self).decoder.output_pos == 1
                        &&& final(self).decoder.output_buf@.len() == 0 ==> r == None::<
                            Result<i32, ShnError>,
                        >
                    },
                },
            },
            match r {
                Some(p) => match p {
                    Ok(s) => {
                        &&& 1 <= final(self).decoder.output_pos <= final(self).decoder.output_buf@.len()
                        &&& s == final(self).decoder.output_buf@[final(self).decoder.output_pos
                            - 1]
                    },
                    Err(_) => final(self).decoder.finished,
                },
                None => final(self).decoder.output_pos == final(self).decoder.output_buf@.len()
                    && (final(self).decoder.finished || final(self).decoder.channels == 0),
            },
    {
        // A sample may still be buffered from the last decoded round.
        match self.decoder.next_sample() {
            Some(s) => {
                return Some(Ok(s));
            },
            None => {},
        }
        if self.decoder.finished {
            return None;
        }
        match self.decoder.decode_next_block() {
            Ok(true) => {
                match self.decoder.next_sample() {
                    Some(s) => Some(Ok(s)),
                    None => {
                        proof {
                            assert(self.decoder.channels == 0) by (nonlinear_arith)
                                requires
                                    self.decoder.output_buf@.len() == self.decoder.blocksize
                                        * self.decoder.channels,
                                    self.decoder.output_buf@.len() == 0,
                                    self.decoder.blocksize >= 1,
                            ;
                        }
                        None
                    },
                }
            },
            Ok(false) => None,
            Err(e) => {
                // The stream ends at the first error: later calls yield
                // nothing further.
                self.decoder.finished = true;
                Some(Err(e))
            },
        }
    }
}

} // verus!
