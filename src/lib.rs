//! Parsing and decoding of `.hps` streamed-audio files: a ` HALPST` container
//! of 4-bit ADPCM encoded stereo blocks, decoded into 16-bit PCM samples.
use vstd::prelude::*;

pub mod decoded_hps;
pub mod hps;
pub mod interleaving_iterator;
pub mod parsers;
pub mod errors;

pub use decoded_hps::{DecodedHps, PcmIterator};
pub use errors::{HpsDecodeError, HpsParseError};
pub use hps::{Block, ChannelInfo, DSPDecoderState, Frame, Hps};
pub use interleaving_iterator::InterleavingIterator;

verus! {

} // verus!
