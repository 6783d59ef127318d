//! The two error families: structural errors while parsing a file, and
//! errors found in the encoded audio while decoding it.
use vstd::prelude::*;

verus! {

/// Number of coefficient pairs in each channel's predictor table.
pub const COEFFICIENT_PAIRS_PER_CHANNEL: usize = 8;

/// A structural error met while reading the bytes of a file.
#[derive(Debug, Clone, Copy, PartialEq, Eq, Structural)]
pub enum HpsParseError {
    /// The first 8 bytes of the file are not ` HALPST\0`.
    InvalidMagicNumber,
    /// The file declares a channel count other than two.
    UnsupportedChannelCount(u32),
    /// A part of the file (the header, a channel descriptor, a block) is cut
    /// short: this many more bytes were needed to complete it.
    Incomplete(usize),
    /// The file ends right after its 128-byte header: the block section holds
    /// no block. Carries the number of bytes in the block section.
    InvalidData(usize),
}

/// An error found in the encoded audio while decoding it.
#[derive(Debug, Clone, Copy, PartialEq, Eq, Structural)]
pub enum HpsDecodeError {
    /// A frame header selects this coefficient pair, which is past the end of
    /// the channel's table of `COEFFICIENT_PAIRS_PER_CHANNEL` pairs.
    InvalidCoefficientIndex(usize),
    /// A block holds this odd number of frames, which cannot be split
    /// evenly between the left and the right channel.
    OddFrameCount(usize),
}

} // verus!
