//! The structured contents of an `.hps` file, and the entry points that
//! parse one from bytes and decode it into audio.
use vstd::prelude::*;

use std::collections::HashSet;

use crate::decoded_hps::{
    all_blocks_decode, decodable, has_invalid_coefficient_index, is_decode_error_of, loop_sample_index_of, pcm_of, total_frames,
    DecodedHps, SAMPLES_PER_FRAME,
};
use crate::errors::{HpsDecodeError, HpsParseError, COEFFICIENT_PAIRS_PER_CHANNEL};
use crate::parsers::{
    block_at, block_end, block_extent, block_fits, block_shortfall, block_starts,
    channel_info_at, file_header_error, next_offset_at, parse_block, parse_channel_info,
    parse_file_header, read_u32_at, u32_at, CHANNEL_INFO_SIZE, DSP_BLOCK_SECTION_OFFSET,
    FRAME_SIZE,
};

verus! {

/// The contents of an `.hps` file: its sample rate and channel count, the
/// two channels' coefficient tables, the blocks of encoded audio in playback
/// order, and the index of the block that playback loops back to after the
/// last one (`None` when the track does not loop).
#[derive(Debug, Clone, PartialEq, Eq)]
pub struct Hps {
    /// Number of samples per second per audio channel
    pub sample_rate: u32,
    /// Number of audio channels
    pub channel_count: u32,
    /// The left channel, then the right one
    pub channel_info: [ChannelInfo; 2],
    pub blocks: Vec<Block>,
    pub loop_block_index: Option<usize>,
}

/// Information about an audio channel: its table of predictor coefficient
/// pairs, which frame headers index to decode samples.
#[derive(Debug, Clone, Copy, PartialEq, Eq)]
pub struct ChannelInfo {
    pub largest_block_length: u32,
    pub sample_count: u32,
    pub coefficients: [(i16, i16); COEFFICIENT_PAIRS_PER_CHANNEL],
}

/// The two samples of history that seed a channel's predictor at the start
/// of a block.
#[derive(Debug, Clone, Copy, PartialEq, Eq)]
pub struct DSPDecoderState {
    pub initial_hist_1: i16,
    pub initial_hist_2: i16,
}

/// Eight bytes of encoded audio: a header byte (low nibble: scale exponent,
/// high nibble: coefficient pair index) and 14 packed 4-bit samples.
#[derive(Debug, Clone, Copy, PartialEq, Eq)]
pub struct Frame {
    pub header: u8,
    pub encoded_sample_data: [u8; 7],
}

/// A block of audio: the first half of its frames belong to the left channel,
/// the second half to the right. `offset` is its own position in the file and
/// `next_block_offset` the position of the block that plays after it.
#[derive(Debug, Clone, PartialEq, Eq)]
pub struct Block {
    pub offset: u32,
    pub dsp_data_length: u32,
    pub next_block_offset: u32,
    pub decoder_states: [DSPDecoderState; 2],
    pub frames: Vec<Frame>,
}

broadcast use vstd::std_specs::hash::group_hash_axioms;

/// Size of the file header, up to the first block.
pub const FILE_HEADER_SIZE: usize = 0x80;

/// The offsets a block may have to be kept: the start of the block section,
/// and every `next_block_offset` of the blocks at positions `starts`.
pub open spec fn valid_offsets(b: Seq<u8>, starts: Seq<int>) -> Set<u32> {
    Set::new(
        |o: u32|
            o == DSP_BLOCK_SECTION_OFFSET || exists|i: int|
                0 <= i < starts.len() && #[trigger] next_offset_at(b, starts[i]) == o,
    )
}

/// Whether a block position's offset is among `valid`.
pub open spec fn offset_in(valid: Set<u32>) -> spec_fn(int) -> bool {
    |p: int| valid.contains(p as u32)
}

/// The positions of the blocks that are kept: of all the blocks read one
/// after the other from the block section, those whose offset is the block
/// section's start or another block's `next_block_offset`, in file order.
pub open spec fn retained_starts(b: Seq<u8>) -> Seq<int> {
    let starts = block_starts(b, FILE_HEADER_SIZE as int);
    starts.filter(offset_in(valid_offsets(b, starts)))
}

/// The first block from position `p` on that is cut short, reported as
/// `Incomplete` with the number of bytes it lacks; `None` when the blocks
/// read one after the other end exactly at the end of the bytes.
pub open spec fn chain_error(b: Seq<u8>, p: int) -> Option<HpsParseError>
    decreases b.len() - p,
{
    if p < 0 || p >= b.len() {
        None
    } else if !block_fits(b, p) {
        Some(HpsParseError::Incomplete(block_shortfall(b, p) as usize))
    } else {
        chain_error(b, block_end(b, p))
    }
}

/// The error of parsing the bytes `b`, if there is one: that of the file
/// header; else `Incomplete` when a channel descriptor is cut short (with the
/// bytes it lacks); else `InvalidData` when no block follows the 128-byte
/// header; else `Incomplete` for the first block that is cut short.
pub open spec fn parse_error(b: Seq<u8>) -> Option<HpsParseError> {
    if file_header_error(b) is Some {
        file_header_error(b)
    } else if b.len() < 16 + CHANNEL_INFO_SIZE {
        Some(HpsParseError::Incomplete((16 + CHANNEL_INFO_SIZE - b.len()) as usize))
    } else if b.len() < FILE_HEADER_SIZE {
        Some(HpsParseError::Incomplete((FILE_HEADER_SIZE - b.len()) as usize))
    } else if b.len() == FILE_HEADER_SIZE {
        Some(HpsParseError::InvalidData(0))
    } else {
        chain_error(b, FILE_HEADER_SIZE as int)
    }
}

/// Whether `index` is where playback loops to after the last of `blocks`:
/// the first block whose offset is the last block's `next_block_offset`, or
/// `None` when there is no such block.
pub open spec fn is_loop_index(blocks: Seq<Block>, index: Option<usize>) -> bool {
    match index {
        Some(k) => {
            &&& 0 <= k < blocks.len()
            &&& blocks[k as int].offset == blocks.last().next_block_offset
            &&& forall|j: int| 0 <= j < k ==> #[trigger] blocks[j].offset != blocks.last().next_block_offset
        },
        None => forall|j: int|
            0 <= j < blocks.len() ==> #[trigger] blocks[j].offset != blocks.last().next_block_offset,
    }
}

/// Whether `h` is what the bytes `b` hold.
pub open spec fn parsed_from(h: Hps, b: Seq<u8>) -> bool {
    let kept = retained_starts(b);
    &&& h.sample_rate == u32_at(b, 8)
    &&& h.channel_count == 2
    &&& channel_info_at(b, 16, h.channel_info[0])
    &&& channel_info_at(b, 72, h.channel_info[1])
    &&& h.blocks@.len() == kept.len()
    &&& forall|k: int| 0 <= k < kept.len() ==> block_at(b, kept[k], #[trigger] h.blocks@[k])
    &&& is_loop_index(h.blocks@, h.loop_block_index)
}

impl Hps {
    /// Parses the bytes of an `.hps` file.
    ///
    /// Blocks are read one after the other from the block section to the end
    /// of the bytes; a block cut short is an error. Of those blocks, only the
    /// ones whose offset is the block section's start or the
    /// `next_block_offset` of a block are kept.
    ///
    /// What it returns can be decoded whenever the slice is no longer than
    /// Rust allows (`isize::MAX` bytes).
    pub fn from_bytes(bytes: &[u8]) -> (r: Result<Hps, HpsParseError>)
        ensures
            match r {
                Ok(h) => parse_error(bytes@) is None && parsed_from(h, bytes@),
                Err(e) => parse_error(bytes@) == Some(e),
            },
            bytes@.len() <= isize::MAX ==> (r matches Ok(h) ==> decodable(h)),
    {
        let ghost b = bytes@;
        let (sample_rate, channel_count) = match parse_file_header(bytes) {
            Ok(header) => header,
            Err(e) => {
                return Err(e);
            },
        };
        let left_channel_info = match parse_channel_info(bytes, 16) {
            Ok(c) => c,
            Err(e) => {
                return Err(e);
            },
        };
        let right_channel_info = match parse_channel_info(bytes, 72) {
            Ok(c) => c,
            Err(e) => {
                return Err(e);
            },
        };
        if bytes.len() == FILE_HEADER_SIZE {
            return Err(HpsParseError::InvalidData(0));
        }
        let ghost all = block_starts(b, FILE_HEADER_SIZE as int);

        // The offsets that the chain of blocks refers to
        let mut valid_block_offsets: HashSet<u32> = HashSet::new();
        valid_block_offsets.insert(DSP_BLOCK_SECTION_OFFSET);
        let ghost mut done: Seq<int> = seq![];
        let mut p: usize = FILE_HEADER_SIZE;
        assert(valid_block_offsets@ =~= valid_offsets(b, done));
        while p < bytes.len()
            invariant
                b == bytes@,
                b.len() == bytes.len(),
                FILE_HEADER_SIZE <= p <= bytes.len(),
                all == block_starts(b, FILE_HEADER_SIZE as int),
                all == done + block_starts(b, p as int),
                chain_error(b, FILE_HEADER_SIZE as int) == chain_error(b, p as int),
                parse_error(b) == chain_error(b, FILE_HEADER_SIZE as int),
                valid_block_offsets@ == valid_offsets(b, done),
            decreases bytes.len() - p,
        {
            let end = match block_extent(bytes, p) {
                Ok(end) => end,
                Err(e) => {
                    return Err(e);
                },
            };
            let next_block_offset = read_u32_at(bytes, p + 8);
            valid_block_offsets.insert(next_block_offset);
            proof {
                assert(valid_block_offsets@ =~= valid_offsets(b, done.push(p as int))) by {
                    let d2 = done.push(p as int);
                    assert(next_offset_at(b, d2[done.len() as int]) == next_block_offset);
                    assert forall|o: u32| valid_offsets(b, done).contains(o) implies valid_offsets(b, d2).contains(o) by {
                        if o != DSP_BLOCK_SECTION_OFFSET {
                            let i = choose|i: int| 0 <= i < done.len() && #[trigger] next_offset_at(b, done[i]) == o;
                            assert(d2[i] == done[i]);
                        }
                    }
                    assert forall|o: u32| valid_offsets(b, d2).contains(o) && o != next_block_offset implies valid_offsets(b, done).contains(o) by {
                        if o != DSP_BLOCK_SECTION_OFFSET {
                            let i = choose|i: int| 0 <= i < d2.len() && #[trigger] next_offset_at(b, d2[i]) == o;
                            assert(d2[i] == done[i]);
                        }
                    }
                }
                assert(done + block_starts(b, p as int) == done.push(p as int) + block_starts(b, block_end(b, p as int)));
                done = done.push(p as int);
            }
            p = end;
        }
        assert(block_starts(b, p as int) == Seq::<int>::empty());
        assert(done == all);

        // The blocks themselves, keeping those the chain refers to
        let ghost valid = valid_offsets(b, all);
        let ghost keep = offset_in(valid);
        let mut blocks: Vec<Block> = Vec::new();
        let ghost mut seen: Seq<int> = seq![];
        p = FILE_HEADER_SIZE;
        while p < bytes.len()
            invariant
                b == bytes@,
                b.len() == bytes.len(),
                chain_error(b, p as int) is None,
                all == seen + block_starts(b, p as int),
                valid_block_offsets@ == valid,
                keep == offset_in(valid),
                blocks@.len() == seen.filter(keep).len(),
                forall|k: int| 0 <= k < blocks@.len() ==> block_at(b, seen.filter(keep)[k], #[trigger] blocks@[k]),
                FILE_HEADER_SIZE <= p <= bytes.len(),
                FRAME_SIZE * total_frames(blocks@) <= p - FILE_HEADER_SIZE,
            decreases bytes.len() - p,
        {
            proof {
                reveal(Seq::filter);
                assert(seen.push(p as int).drop_last() == seen);
            }
            let end = match block_extent(bytes, p) {
                Ok(end) => end,
                Err(e) => {
                    return Err(e);
                },
            };
            if valid_block_offsets.contains(&(#[verifier::truncate] (p as u32))) {
                let ghost prev = blocks@;
                match parse_block(bytes, p) {
                    Ok(block) => blocks.push(block),
                    Err(e) => {
                        return Err(e);
                    },
                }
                assert(blocks@.drop_last() == prev);
            }
            proof {
                assert(seen + block_starts(b, p as int) == seen.push(p as int) + block_starts(b, block_end(b, p as int)));
                seen = seen.push(p as int);
            }
            p = end;
        }
        assert(block_starts(b, p as int) == Seq::<int>::empty());
        assert(seen == all);

        // The block after the last one, if it is among them, is the loop target
        let mut loop_block_index: Option<usize> = None;
        if blocks.len() > 0 {
            let target = blocks[blocks.len() - 1].next_block_offset;
            let mut k: usize = 0;
            while k < blocks.len()
                invariant_except_break
                    loop_block_index is None,
                invariant
                    k <= blocks@.len(),
                    blocks@.len() > 0,
                    target == blocks@.last().next_block_offset,
                    forall|j: int| 0 <= j < k ==> #[trigger] blocks@[j].offset != target,
                ensures
                    is_loop_index(blocks@, loop_block_index),
                decreases blocks.len() - k,
            {
                if blocks[k].offset == target {
                    loop_block_index = Some(k);
                    break;
                }
                k = k + 1;
            }
        }
        let hps = Hps {
            sample_rate,
            channel_count,
            channel_info: [left_channel_info, right_channel_info],
            blocks,
            loop_block_index,
        };
        assert(b.len() <= isize::MAX ==> SAMPLES_PER_FRAME * total_frames(hps.blocks@) <= usize::MAX);
        Ok(hps)
    }
}

impl Hps {
    /// Decodes the audio: every block on its own, their samples concatenated
    /// in block order, read as a sequence that loops when the track does.
    /// Fails when a frame selects a coefficient pair out of range (where
    /// several do, the error is one of theirs); else when a block holds an
    /// odd number of frames.
    pub fn decode(&self) -> (r: Result<DecodedHps, HpsDecodeError>)
        requires
            decodable(*self),
        ensures
            r is Ok <==> all_blocks_decode(self.blocks@, self.channel_info),
            match r {
                Ok(d) => {
                    &&& d.samples_view() == pcm_of(self.blocks@, self.channel_info)
                    &&& d.samples_view().len() == SAMPLES_PER_FRAME * total_frames(self.blocks@)
                    &&& self.loop_block_index matches Some(k) ==> d.loop_point() == Some(
                        pcm_of(self.blocks@.subrange(0, k as int), self.channel_info).len() as usize,
                    )
                    &&& d.cursor() == 0
                    &&& d.loop_point() == loop_sample_index_of(*self)
                    &&& d.spec_sample_rate() == self.sample_rate
                    &&& d.spec_channel_count() == self.channel_count
                },
                Err(e) => is_decode_error_of(self.blocks@, e),
            },
            has_invalid_coefficient_index(self.blocks@) ==> r matches Err(
                HpsDecodeError::InvalidCoefficientIndex(_),
            ),
    {
        DecodedHps::new(self)
    }
}

// `try_from` is not described by a spec function of its result (an `Hps`
// holds vectors); its own `ensures` states what it returns.
impl<'a> vstd::std_specs::convert::TryFromSpecImpl<&'a [u8]> for Hps {
    open spec fn obeys_try_from_spec() -> bool {
        false
    }

    open spec fn try_from_spec(bytes: &'a [u8]) -> Result<Hps, HpsParseError> {
        arbitrary()
    }
}

impl<'a> TryFrom<&'a [u8]> for Hps {
    type Error = HpsParseError;

    /// Parses the bytes of an `.hps` file; see `Hps::from_bytes`.
    fn try_from(bytes: &'a [u8]) -> (r: Result<Hps, HpsParseError>)
        ensures
            match r {
                Ok(h) => parse_error(bytes@) is None && parsed_from(h, bytes@),
                Err(e) => parse_error(bytes@) == Some(e),
            },
            bytes@.len() <= isize::MAX ==> (r matches Ok(h) ==> decodable(h)),
    {
        Hps::from_bytes(bytes)
    }
}

// `try_from` is not described by a spec function of its result (an `Hps`
// holds vectors); its own `ensures` states what it returns.
impl vstd::std_specs::convert::TryFromSpecImpl<Vec<u8>> for Hps {
    open spec fn obeys_try_from_spec() -> bool {
        false
    }

    open spec fn try_from_spec(bytes: Vec<u8>) -> Result<Hps, HpsParseError> {
        arbitrary()
    }
}

impl TryFrom<Vec<u8>> for Hps {
    type Error = HpsParseError;

    /// Parses the bytes of an `.hps` file; see `Hps::from_bytes`.
    fn try_from(bytes: Vec<u8>) -> (r: Result<Hps, HpsParseError>)
        ensures
            match r {
                Ok(h) => parse_error(bytes@) is None && parsed_from(h, bytes@),
                Err(e) => parse_error(bytes@) == Some(e),
            },
            bytes@.len() <= isize::MAX ==> (r matches Ok(h) ==> decodable(h)),
    {
        Hps::from_bytes(bytes.as_slice())
    }
}

// `try_from` is not described by a spec function of its result (an `Hps`
// holds vectors); its own `ensures` states what it returns.
impl<'a> vstd::std_specs::convert::TryFromSpecImpl<&'a Vec<u8>> for Hps {
    open spec fn obeys_try_from_spec() -> bool {
        false
    }

    open spec fn try_from_spec(bytes: &'a Vec<u8>) -> Result<Hps, HpsParseError> {
        arbitrary()
    }
}

impl<'a> TryFrom<&'a Vec<u8>> for Hps {
    type Error = HpsParseError;

    /// Parses the bytes of an `.hps` file; see `Hps::from_bytes`.
    fn try_from(bytes: &'a Vec<u8>) -> (r: Result<Hps, HpsParseError>)
        ensures
            match r {
                Ok(h) => parse_error(bytes@) is None && parsed_from(h, bytes@),
                Err(e) => parse_error(bytes@) == Some(e),
            },
            bytes@.len() <= isize::MAX ==> (r matches Ok(h) ==> decodable(h)),
    {
        Hps::from_bytes(bytes.as_slice())
    }
}

/// The blocks read from position `p` lie one after the other: in increasing
/// order, each at or after `p`, each complete.
proof fn lemma_block_starts_increasing(b: Seq<u8>, p: int)
    requires
        0 <= p,
    ensures
        forall|i: int, j: int|
            0 <= i < j < block_starts(b, p).len() ==> block_starts(b, p)[i] < block_starts(
                b,
                p,
            )[j],
        forall|i: int|
            0 <= i < block_starts(b, p).len() ==> p <= #[trigger] block_starts(b, p)[i]
                && block_fits(b, block_starts(b, p)[i]),
    decreases b.len() - p,
{
    if block_fits(b, p) {
        let e = block_end(b, p);
        lemma_block_starts_increasing(b, e);
        let rest = block_starts(b, e);
        assert(block_starts(b, p) == seq![p] + rest);
        assert forall|i: int| 0 < i < block_starts(b, p).len() implies block_starts(b, p)[i] == rest[i - 1] by {}
    }
}

/// Keeping some elements of an increasing sequence keeps it increasing, and
/// keeps only its elements.
proof fn lemma_filter_increasing(s: Seq<int>, pred: spec_fn(int) -> bool)
    requires
        forall|i: int, j: int| 0 <= i < j < s.len() ==> s[i] < s[j],
    ensures
        forall|i: int, j: int| 0 <= i < j < s.filter(pred).len() ==> s.filter(pred)[i] < s.filter(pred)[j],
        forall|i: int| 0 <= i < s.filter(pred).len() ==> s.contains(#[trigger] s.filter(pred)[i]),
    decreases s.len(),
{
    reveal(Seq::filter);
    if s.len() > 0 {
        let d = s.drop_last();
        lemma_filter_increasing(d, pred);
        let f = d.filter(pred);
        assert forall|i: int| 0 <= i < f.len() implies #[trigger] f[i] < s.last() && s.contains(f[i]) by {
            let k = choose|k: int| 0 <= k < d.len() && d[k] == f[i];
            assert(s[k] == d[k]);
        }
        assert(s[s.len() - 1] == s.last());
    }
}

/// The offsets of the blocks, in order.
pub open spec fn block_offsets(blocks: Seq<Block>) -> Seq<u32> {
    blocks.map_values(|blk: Block| blk.offset)
}

/// No block of a parsed file is kept twice: the block offsets strictly
/// increase, so there are as many distinct offsets as blocks. (Offsets are
/// `u32` positions, so the file must fit in that range.)
pub proof fn lemma_no_duplicate_blocks(bytes: Seq<u8>, h: Hps)
    requires
        parsed_from(h, bytes),
        bytes.len() <= u32::MAX,
    ensures
        forall|i: int, j: int|
            0 <= i < j < h.blocks@.len() ==> h.blocks@[i].offset < h.blocks@[j].offset,
        block_offsets(h.blocks@).no_duplicates(),
        block_offsets(h.blocks@).to_set().len() == h.blocks@.len(),
{
    let starts = block_starts(bytes, FILE_HEADER_SIZE as int);
    let pred = offset_in(valid_offsets(bytes, starts));
    let kept = retained_starts(bytes);
    lemma_block_starts_increasing(bytes, FILE_HEADER_SIZE as int);
    lemma_filter_increasing(starts, pred);
    let offs = block_offsets(h.blocks@);
    assert forall|i: int| 0 <= i < kept.len() implies offs[i] == #[trigger] kept[i] by {
        let k = choose|k: int| 0 <= k < starts.len() && starts[k] == kept[i];
        assert(block_fits(bytes, starts[k]));
        assert(block_at(bytes, kept[i], h.blocks@[i]));
    }
    assert forall|i: int, j: int|
        0 <= i < offs.len() && 0 <= j < offs.len() && i != j implies offs[i] != offs[j] by {
        assert(offs[i] == kept[i]);
        assert(offs[j] == kept[j]);
    }
    assert forall|i: int, j: int| 0 <= i < j < h.blocks@.len() implies h.blocks@[i].offset
        < h.blocks@[j].offset by {
        assert(offs[i] == kept[i]);
        assert(offs[j] == kept[j]);
    }
    offs.unique_seq_to_set();
}

} // verus!
