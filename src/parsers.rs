//! The byte layout of an `.hps` file, as spec functions over the file's
//! bytes, and the readers that decode each part of it.
//!
//! All numbers are big-endian. The file begins with a 128-byte header: the
//! magic ` HALPST\0`, the sample rate and the channel count (`u32` each), then
//! two 56-byte channel descriptors. Blocks follow from offset `0x80`, each a
//! 32-byte header and `dsp_data_length / 8` frames of 8 bytes.
use vstd::prelude::*;

use crate::errors::{HpsParseError, COEFFICIENT_PAIRS_PER_CHANNEL};
use crate::hps::{Block, ChannelInfo, DSPDecoderState, Frame};

verus! {

/// Offset of the first block, just after the file header.
pub const DSP_BLOCK_SECTION_OFFSET: u32 = 0x80;

/// Size of a block's header, before its frames.
pub const BLOCK_HEADER_SIZE: usize = 32;

/// Size of one frame.
pub const FRAME_SIZE: usize = 8;

/// Size of one channel descriptor in the file header.
pub const CHANNEL_INFO_SIZE: usize = 56;

/// The magic number that opens every file: ` HALPST\0`.
pub open spec fn magic() -> Seq<u8> {
    seq![0x20u8, 0x48u8, 0x41u8, 0x4Cu8, 0x50u8, 0x53u8, 0x54u8, 0x00u8]
}

/// The big-endian `u32` at position `i`.
pub open spec fn u32_at(b: Seq<u8>, i: int) -> u32 {
    (b[i] * 0x100_0000 + b[i + 1] * 0x1_0000 + b[i + 2] * 0x100 + b[i + 3]) as u32
}

/// The big-endian two's-complement `i16` at position `i`.
pub open spec fn i16_at(b: Seq<u8>, i: int) -> i16 {
    let v = b[i] * 0x100 + b[i + 1];
    (if v >= 0x8000 { v - 0x1_0000 } else { v }) as i16
}

/// Whether `c` is the channel descriptor stored at position `p`: the largest
/// block length, 4 reserved bytes, the sample count, 4 reserved bytes, the
/// eight coefficient pairs, and 8 reserved bytes.
pub open spec fn channel_info_at(b: Seq<u8>, p: int, c: ChannelInfo) -> bool {
    &&& c.largest_block_length == u32_at(b, p)
    &&& c.sample_count == u32_at(b, p + 8)
    &&& forall|k: int|
        0 <= k < COEFFICIENT_PAIRS_PER_CHANNEL ==> #[trigger] c.coefficients@[k] == (
            i16_at(b, p + 16 + 4 * k),
            i16_at(b, p + 18 + 4 * k),
        )
}

/// Whether `s` is the decoder state stored at position `p`: two reserved
/// bytes, the two history samples, and two reserved bytes.
pub open spec fn decoder_state_at(b: Seq<u8>, p: int, s: DSPDecoderState) -> bool {
    s.initial_hist_1 == i16_at(b, p + 2) && s.initial_hist_2 == i16_at(b, p + 4)
}

/// Whether `f` is the frame stored at position `q`.
pub open spec fn frame_at(b: Seq<u8>, q: int, f: Frame) -> bool {
    &&& f.header == b[q]
    &&& forall|j: int| 0 <= j < 7 ==> #[trigger] f.encoded_sample_data@[j] == b[q + 1 + j]
}

/// The number of frames of the block at position `p`.
pub open spec fn frame_count_at(b: Seq<u8>, p: int) -> int {
    u32_at(b, p) as int / FRAME_SIZE as int
}

/// The position just past the block at position `p`.
pub open spec fn block_end(b: Seq<u8>, p: int) -> int {
    p + BLOCK_HEADER_SIZE + FRAME_SIZE * frame_count_at(b, p)
}

/// Whether a complete block is stored at position `p`.
pub open spec fn block_fits(b: Seq<u8>, p: int) -> bool {
    0 <= p && p + BLOCK_HEADER_SIZE <= b.len() && block_end(b, p) <= b.len()
}

/// The `next_block_offset` field of the block at position `p`.
pub open spec fn next_offset_at(b: Seq<u8>, p: int) -> u32 {
    u32_at(b, p + 8)
}

/// Whether `blk` is the block stored at position `p`: the payload length, 4
/// reserved bytes, the next block's offset, the left and right decoder
/// states, 4 reserved bytes, then the frames. Its offset is its position.
pub open spec fn block_at(b: Seq<u8>, p: int, blk: Block) -> bool {
    &&& blk.offset == p as u32
    &&& blk.dsp_data_length == u32_at(b, p)
    &&& blk.next_block_offset == next_offset_at(b, p)
    &&& decoder_state_at(b, p + 12, blk.decoder_states[0])
    &&& decoder_state_at(b, p + 20, blk.decoder_states[1])
    &&& blk.frames@.len() == frame_count_at(b, p)
    &&& forall|k: int|
        0 <= k < blk.frames@.len() ==> frame_at(
            b,
            p + BLOCK_HEADER_SIZE + FRAME_SIZE * k,
            #[trigger] blk.frames@[k],
        )
}

/// The positions of the blocks read one after the other from position `p`
/// for as long as a complete block is there.
pub open spec fn block_starts(b: Seq<u8>, p: int) -> Seq<int>
    decreases b.len() - p,
{
    if block_fits(b, p) {
        seq![p] + block_starts(b, block_end(b, p))
    } else {
        seq![]
    }
}

/// Reads the big-endian `u32` at position `i`.
pub(crate) fn read_u32_at(bytes: &[u8], i: usize) -> (r: u32)
    requires
        i + 4 <= bytes@.len(),
    ensures
        r == u32_at(bytes@, i as int),
{
    (bytes[i] as u32) * 0x100_0000 + (bytes[i + 1] as u32) * 0x1_0000 + (bytes[i + 2] as u32)
        * 0x100 + (bytes[i + 3] as u32)
}

/// Reads the big-endian two's-complement `i16` at position `i`.
fn read_i16(bytes: &[u8], i: usize) -> (r: i16)
    requires
        i + 2 <= bytes@.len(),
    ensures
        r == i16_at(bytes@, i as int),
{
    let v: i32 = (bytes[i] as i32) * 0x100 + (bytes[i + 1] as i32);
    if v >= 0x8000 {
        (v - 0x1_0000) as i16
    } else {
        v as i16
    }
}

/// Whether the bytes begin with the magic number.
fn has_magic(bytes: &[u8]) -> (r: bool)
    ensures
        r == (bytes@.len() >= 8 && bytes@.subrange(0, 8) == magic()),
{
    if bytes.len() < 8 {
        return false;
    }
    let ok = bytes[0] == 0x20 && bytes[1] == 0x48 && bytes[2] == 0x41 && bytes[3] == 0x4C
        && bytes[4] == 0x50 && bytes[5] == 0x53 && bytes[6] == 0x54 && bytes[7] == 0x00;
    assert(ok ==> bytes@.subrange(0, 8) =~= magic());
    assert(bytes@.subrange(0, 8) == magic() ==> bytes@.subrange(0, 8)[7] == magic()[7]);
    ok
}

/// The error of the file header (magic number, sample rate, channel count),
/// if it has one.
pub open spec fn file_header_error(b: Seq<u8>) -> Option<HpsParseError> {
    if !(b.len() >= 8 && b.subrange(0, 8) == magic()) {
        Some(HpsParseError::InvalidMagicNumber)
    } else if b.len() < 16 {
        Some(HpsParseError::Incomplete((16 - b.len()) as usize))
    } else if u32_at(b, 12) != 2 {
        Some(HpsParseError::UnsupportedChannelCount(u32_at(b, 12)))
    } else {
        None
    }
}

/// Reads the file header: checks the magic number, and returns the sample
/// rate and the channel count, which must be two.
pub(crate) fn parse_file_header(bytes: &[u8]) -> (r: Result<(u32, u32), HpsParseError>)
    ensures
        match r {
            Ok((sample_rate, channel_count)) => {
                &&& file_header_error(bytes@) is None
                &&& sample_rate == u32_at(bytes@, 8)
                &&& channel_count == 2
            },
            Err(e) => file_header_error(bytes@) == Some(e),
        },
{
    if !has_magic(bytes) {
        return Err(HpsParseError::InvalidMagicNumber);
    }
    if bytes.len() < 16 {
        return Err(HpsParseError::Incomplete(16 - bytes.len()));
    }
    let sample_rate = read_u32_at(bytes, 8);
    let channel_count = read_u32_at(bytes, 12);
    if channel_count != 2 {
        return Err(HpsParseError::UnsupportedChannelCount(channel_count));
    }
    Ok((sample_rate, channel_count))
}

/// The error of a reader that needs `size` bytes at position `p` and finds
/// fewer: `Incomplete` with the number of bytes missing.
pub open spec fn short_read(b: Seq<u8>, p: int, size: int) -> HpsParseError {
    HpsParseError::Incomplete((p + size - b.len()) as usize)
}

/// Reads the channel descriptor at position `p`, or reports how many bytes
/// it lacks.
pub(crate) fn parse_channel_info(bytes: &[u8], p: usize) -> (r: Result<ChannelInfo, HpsParseError>)
    requires
        p <= bytes@.len(),
    ensures
        match r {
            Ok(c) => p + CHANNEL_INFO_SIZE <= bytes@.len() && channel_info_at(bytes@, p as int, c),
            Err(e) => p + CHANNEL_INFO_SIZE > bytes@.len() && e == short_read(
                bytes@,
                p as int,
                CHANNEL_INFO_SIZE as int,
            ),
        },
{
    if bytes.len() - p < CHANNEL_INFO_SIZE {
        return Err(HpsParseError::Incomplete(CHANNEL_INFO_SIZE - (bytes.len() - p)));
    }
    let largest_block_length = read_u32_at(bytes, p);
    let sample_count = read_u32_at(bytes, p + 8);
    let mut coefficients: [(i16, i16); COEFFICIENT_PAIRS_PER_CHANNEL] = [(0, 0);
        COEFFICIENT_PAIRS_PER_CHANNEL];
    let mut k: usize = 0;
    while k < COEFFICIENT_PAIRS_PER_CHANNEL
        invariant
            k <= COEFFICIENT_PAIRS_PER_CHANNEL,
            p + CHANNEL_INFO_SIZE <= bytes.len(),
            forall|i: int|
                0 <= i < k ==> #[trigger] coefficients@[i] == (
                    i16_at(bytes@, p + 16 + 4 * i),
                    i16_at(bytes@, p + 18 + 4 * i),
                ),
        decreases COEFFICIENT_PAIRS_PER_CHANNEL - k,
    {
        let pair = (read_i16(bytes, p + 16 + 4 * k), read_i16(bytes, p + 18 + 4 * k));
        coefficients[k] = pair;
        k = k + 1;
    }
    Ok(ChannelInfo { largest_block_length, sample_count, coefficients })
}

/// Size of a decoder state in a block header.
pub const DECODER_STATE_SIZE: usize = 8;

/// Reads the decoder state at position `p`, or reports how many bytes it
/// lacks.
fn parse_dsp_decoder_state(bytes: &[u8], p: usize) -> (r: Result<DSPDecoderState, HpsParseError>)
    requires
        p <= bytes@.len(),
    ensures
        match r {
            Ok(s) => p + DECODER_STATE_SIZE <= bytes@.len() && decoder_state_at(bytes@, p as int, s),
            Err(e) => p + DECODER_STATE_SIZE > bytes@.len() && e == short_read(
                bytes@,
                p as int,
                DECODER_STATE_SIZE as int,
            ),
        },
{
    if bytes.len() - p < DECODER_STATE_SIZE {
        return Err(HpsParseError::Incomplete(DECODER_STATE_SIZE - (bytes.len() - p)));
    }
    Ok(
        DSPDecoderState {
            initial_hist_1: read_i16(bytes, p + 2),
            initial_hist_2: read_i16(bytes, p + 4),
        },
    )
}

/// Reads the frame at position `q`, or reports how many bytes it lacks.
fn parse_frame(bytes: &[u8], q: usize) -> (r: Result<Frame, HpsParseError>)
    requires
        q <= bytes@.len(),
    ensures
        match r {
            Ok(f) => q + FRAME_SIZE <= bytes@.len() && frame_at(bytes@, q as int, f),
            Err(e) => q + FRAME_SIZE > bytes@.len() && e == short_read(
                bytes@,
                q as int,
                FRAME_SIZE as int,
            ),
        },
{
    if bytes.len() - q < FRAME_SIZE {
        return Err(HpsParseError::Incomplete(FRAME_SIZE - (bytes.len() - q)));
    }
    let encoded_sample_data: [u8; 7] = [
        bytes[q + 1],
        bytes[q + 2],
        bytes[q + 3],
        bytes[q + 4],
        bytes[q + 5],
        bytes[q + 6],
        bytes[q + 7],
    ];
    Ok(Frame { header: bytes[q], encoded_sample_data })
}

/// How many bytes are missing for a complete block at position `p`: for its
/// 32-byte header if that is cut short, else for its frames.
pub open spec fn block_shortfall(b: Seq<u8>, p: int) -> int {
    if p + BLOCK_HEADER_SIZE > b.len() {
        p + BLOCK_HEADER_SIZE - b.len()
    } else {
        block_end(b, p) - b.len()
    }
}

/// The extent of the block at position `p`: the position just past it when
/// it is complete, else `Incomplete` with the number of bytes it lacks.
pub(crate) fn block_extent(bytes: &[u8], p: usize) -> (r: Result<usize, HpsParseError>)
    requires
        p <= bytes@.len(),
    ensures
        match r {
            Ok(end) => block_fits(bytes@, p as int) && end == block_end(bytes@, p as int),
            Err(e) => !block_fits(bytes@, p as int) && e == HpsParseError::Incomplete(
                block_shortfall(bytes@, p as int) as usize,
            ),
        },
{
    let remaining = bytes.len() - p;
    if remaining < BLOCK_HEADER_SIZE {
        return Err(HpsParseError::Incomplete(BLOCK_HEADER_SIZE - remaining));
    }
    let frame_bytes = FRAME_SIZE * ((read_u32_at(bytes, p) as usize) / FRAME_SIZE);
    if frame_bytes > remaining - BLOCK_HEADER_SIZE {
        return Err(HpsParseError::Incomplete(frame_bytes - (remaining - BLOCK_HEADER_SIZE)));
    }
    Ok(p + BLOCK_HEADER_SIZE + frame_bytes)
}

/// Reads the block at position `p`, or reports how many bytes it lacks.
pub(crate) fn parse_block(bytes: &[u8], p: usize) -> (r: Result<Block, HpsParseError>)
    requires
        p <= bytes@.len(),
    ensures
        match r {
            Ok(blk) => block_fits(bytes@, p as int) && block_at(bytes@, p as int, blk),
            Err(e) => !block_fits(bytes@, p as int) && e == HpsParseError::Incomplete(
                block_shortfall(bytes@, p as int) as usize,
            ),
        },
{
    if let Err(e) = block_extent(bytes, p) {
        return Err(e);
    }
    let dsp_data_length = read_u32_at(bytes, p);
    let frame_count = dsp_data_length as usize / FRAME_SIZE;
    let next_block_offset = read_u32_at(bytes, p + 8);
    let left_decoder_state = match parse_dsp_decoder_state(bytes, p + 12) {
        Ok(s) => s,
        Err(e) => {
            return Err(e);
        },
    };
    let right_decoder_state = match parse_dsp_decoder_state(bytes, p + 20) {
        Ok(s) => s,
        Err(e) => {
            return Err(e);
        },
    };
    let mut frames: Vec<Frame> = Vec::new();
    let mut k: usize = 0;
    while k < frame_count
        invariant
            k <= frame_count,
            frame_count == frame_count_at(bytes@, p as int),
            block_fits(bytes@, p as int),
            bytes@.len() == bytes.len(),
            frames@.len() == k,
            forall|i: int|
                0 <= i < k ==> frame_at(
                    bytes@,
                    p + BLOCK_HEADER_SIZE + FRAME_SIZE * i,
                    #[trigger] frames@[i],
                ),
        decreases frame_count - k,
    {
        match parse_frame(bytes, p + BLOCK_HEADER_SIZE + FRAME_SIZE * k) {
            Ok(f) => frames.push(f),
            Err(e) => {
                return Err(e);
            },
        }
        k = k + 1;
    }
    Ok(
        Block {
            offset: #[verifier::truncate] (p as u32),
            dsp_data_length,
            next_block_offset,
            decoder_states: [left_decoder_state, right_decoder_state],
            frames,
        },
    )
}

} // verus!
