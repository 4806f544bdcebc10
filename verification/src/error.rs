use vstd::prelude::*;

verus! {

/// Errors that can occur while decoding a Shorten stream.
///
/// Every failure is fatal to the current decode: the sample sequence
/// surfaces the error and then terminates.
#[derive(Debug, Clone, Copy, PartialEq, Eq, Structural)]
pub enum ShnError {
    /// The stream does not start with the Shorten magic bytes `ajkg`.
    InvalidMagic,
    /// The stream version is not supported (only versions 1 to 3 are).
    UnsupportedVersion(u8),
    /// The file type is not a supported PCM format (must be 1 to 6).
    UnsupportedFileType(i32),
    /// An unrecognized command id was encountered in the bitstream.
    InvalidCommand(i32),
    /// A block size outside 1..=65536 was read.
    InvalidBlockSize(i32),
    /// A verbatim block was expected to carry a WAVE header but did not.
    MissingWaveHeader,
    /// The LPC order exceeds the maximum the stream or the decoder allows.
    InvalidLpcOrder(i32),
    /// The byte source could not supply the requested data: it ended before
    /// the required number of bits, or a Rice-coded field was too wide for
    /// the decoder's 32-bit accumulator.
    Io,
}

impl ShnError {
    /// A short human-readable description of the error kind.
    pub fn describe(&self) -> &'static str {
        match self {
            ShnError::InvalidMagic => "not a Shorten stream (invalid magic)",
            ShnError::UnsupportedVersion(_) => "unsupported Shorten version",
            ShnError::UnsupportedFileType(_) => "unsupported file type",
            ShnError::InvalidCommand(_) => "invalid command",
            ShnError::InvalidBlockSize(_) => "invalid block size",
            ShnError::MissingWaveHeader => "no WAVE header found in verbatim block",
            ShnError::InvalidLpcOrder(_) => "invalid LPC order",
            ShnError::Io => "byte source exhausted or field too wide",
        }
    }
}

} // verus!
