//! ADPCM decoding of blocks into interleaved 16-bit PCM samples, and
//! [`DecodedHps`], the sequence of samples that results.
use vstd::prelude::*;
use vstd::arithmetic::power2::{lemma2_to64, lemma_pow2_strictly_increases, pow2};
use vstd::bits::lemma_u32_shl_is_mul;
use vstd::arithmetic::div_mod::{
    lemma_fundamental_div_mod, lemma_fundamental_div_mod_converse, lemma_mod_pos_bound,
};

use crate::errors::{HpsDecodeError, COEFFICIENT_PAIRS_PER_CHANNEL};
use rayon::iter::{IntoParallelRefIterator, ParallelIterator};

use crate::hps::{Block, ChannelInfo, DSPDecoderState, Frame, Hps};

verus! {

/// Number of samples that one frame encodes.
pub const SAMPLES_PER_FRAME: usize = 14;

/// The value of a 4-bit two's-complement nibble: 0..=7 stand for themselves,
/// 8..=15 for -8..=-1.
pub open spec fn nibble_value(n: int) -> int {
    if n < 8 { n } else { n - 16 }
}

/// The `j`-th of a frame's 14 nibbles: of each byte the high nibble comes
/// first, then the low one.
pub open spec fn frame_nibble(f: Frame, j: int) -> int {
    let byte = f.encoded_sample_data@[j / 2];
    if j % 2 == 0 { byte as int / 16 } else { byte as int % 16 }
}

/// The scale of a frame's samples: two to the power of the header's low nibble.
pub open spec fn frame_scale(f: Frame) -> int {
    pow2((f.header % 16) as nat) as int
}

/// The coefficient pair a frame selects: the header's high nibble.
pub open spec fn frame_coef_index(f: Frame) -> int {
    f.header as int / 16
}

/// Saturation of an integer to the range of `i16`.
pub open spec fn clamp16(v: int) -> i16 {
    if v < i16::MIN { i16::MIN } else if v > i16::MAX { i16::MAX } else { v as i16 }
}

/// One decoded sample: the scaled nibble plus the prediction from the two
/// previous samples, in 11-bit fixed point with rounding, saturated.
pub open spec fn predict(nibble: int, scale: int, c1: int, c2: int, h1: int, h2: int) -> i16 {
    clamp16((nibble * scale * 2048 + 1024 + c1 * h1 + c2 * h2) / 2048)
}

/// The first `n` samples of frame `f` decoded with coefficients `(c1, c2)`
/// from history `(h1, h2)`, with the history after them.
pub open spec fn frame_prefix(f: Frame, c1: i16, c2: i16, h1: i16, h2: i16, n: nat) -> (
    Seq<i16>,
    i16,
    i16,
)
    decreases n,
{
    if n == 0 {
        (seq![], h1, h2)
    } else {
        let (s, a, b) = frame_prefix(f, c1, c2, h1, h2, (n - 1) as nat);
        let x = predict(
            nibble_value(frame_nibble(f, n - 1)),
            frame_scale(f),
            c1 as int,
            c2 as int,
            a as int,
            b as int,
        );
        (s.push(x), x, a)
    }
}

/// The first `n` frames of a channel decoded against the coefficient table
/// `coefs` from history `(h1, h2)`: the samples and the history after them,
/// or the error of the first frame whose coefficient index is out of range.
pub open spec fn channel_prefix(
    frames: Seq<Frame>,
    coefs: Seq<(i16, i16)>,
    h1: i16,
    h2: i16,
    n: nat,
) -> Result<(Seq<i16>, i16, i16), HpsDecodeError>
    decreases n,
{
    if n == 0 {
        Ok((seq![], h1, h2))
    } else {
        match channel_prefix(frames, coefs, h1, h2, (n - 1) as nat) {
            Err(e) => Err(e),
            Ok((s, a, b)) => {
                let f = frames[n - 1];
                let k = frame_coef_index(f);
                if k >= COEFFICIENT_PAIRS_PER_CHANNEL {
                    Err(HpsDecodeError::InvalidCoefficientIndex(k as usize))
                } else {
                    let (fs, a2, b2) = frame_prefix(
                        f,
                        coefs[k].0,
                        coefs[k].1,
                        a,
                        b,
                        SAMPLES_PER_FRAME as nat,
                    );
                    Ok((s + fs, a2, b2))
                }
            },
        }
    }
}

/// A channel's frames decoded from the history in `state`.
pub open spec fn channel_samples(
    frames: Seq<Frame>,
    coefs: Seq<(i16, i16)>,
    state: DSPDecoderState,
) -> Result<Seq<i16>, HpsDecodeError> {
    match channel_prefix(frames, coefs, state.initial_hist_1, state.initial_hist_2, frames.len()) {
        Ok((s, _, _)) => Ok(s),
        Err(e) => Err(e),
    }
}

/// Saturates `val` to the range of `i16`.
fn clamp_i16(val: i64) -> (r: i16)
    ensures
        r == clamp16(val as int),
{
    if val < (i16::MIN as i64) {
        i16::MIN
    } else if val > (i16::MAX as i64) {
        i16::MAX
    } else {
        val as i16
    }
}

/// The signed value of the high nibble of `byte`.
fn get_high_nibble(byte: u8) -> (r: i8)
    ensures
        r == nibble_value(byte as int / 16),
{
    assert(byte >> 4u8 == byte / 16) by (bit_vector);
    let n: u8 = byte >> 4;
    if n < 8 {
        n as i8
    } else {
        (n as i8) - 16
    }
}

/// The signed value of the low nibble of `byte`.
fn get_low_nibble(byte: u8) -> (r: i8)
    ensures
        r == nibble_value(byte as int % 16),
{
    assert(byte & 0xFu8 == byte % 16) by (bit_vector);
    let n: u8 = byte & 0xF;
    if n < 8 {
        n as i8
    } else {
        (n as i8) - 16
    }
}

/// Floor division by 2048 of a value of the size that sample prediction
/// produces.
fn shift_down_11(v: i64) -> (r: i64)
    requires
        -0x1_0000_0000 <= v <= 0x1_0000_0000,
    ensures
        r == v as int / 2048,
{
    let biased: u64 = (v + 0x100_0000_0000i64) as u64;
    let q: u64 = biased / 2048;
    proof {
        let d = v as int / 2048;
        let m = v as int % 2048;
        assert(v as int == d * 2048 + m);
        lemma_fundamental_div_mod_converse(biased as int, 2048, d + 0x2000_0000, m);
    }
    q as i64 - 0x2000_0000
}

/// Decodes one sample and advances the history.
fn decode_sample(nibble: i8, scale: u32, c1: i16, c2: i16, hist1: i16, hist2: i16) -> (r: i16)
    requires
        -8 <= nibble <= 7,
        1 <= scale <= 32768,
    ensures
        r == predict(nibble as int, scale as int, c1 as int, c2 as int, hist1 as int, hist2 as int),
{
    assert(-262144 <= nibble * scale <= 229376) by (nonlinear_arith)
        requires
            -8 <= nibble <= 7,
            1 <= scale <= 32768,
    ;
    assert(-1073741824 <= c1 * hist1 <= 1073741824) by (nonlinear_arith);
    assert(-1073741824 <= c2 * hist2 <= 1073741824) by (nonlinear_arith);
    let v: i64 = (nibble as i64) * (scale as i64) * 2048 + 1024 + (c1 as i64) * (hist1 as i64)
        + (c2 as i64) * (hist2 as i64);
    clamp_i16(shift_down_11(v))
}

/// Once a prefix of a channel fails, every longer prefix fails with the same
/// error.
proof fn lemma_channel_error_persists(
    frames: Seq<Frame>,
    coefs: Seq<(i16, i16)>,
    h1: i16,
    h2: i16,
    k: nat,
    n: nat,
)
    requires
        k <= n,
        channel_prefix(frames, coefs, h1, h2, k) is Err,
    ensures
        channel_prefix(frames, coefs, h1, h2, n) == channel_prefix(frames, coefs, h1, h2, k),
    decreases n - k,
{
    if k < n {
        lemma_channel_error_persists(frames, coefs, h1, h2, k, (n - 1) as nat);
    }
}

/// The scale that a frame header selects: `1 << (header & 0xF)`.
fn frame_scale_of(header: u8) -> (r: u32)
    ensures
        r == pow2((header % 16) as nat),
        1 <= r <= 32768,
{
    assert(header & 0xFu8 == header % 16) by (bit_vector);
    let shift: u32 = (header & 0xF) as u32;
    proof {
        lemma2_to64();
        if shift < 15 {
            lemma_pow2_strictly_increases(shift as nat, 15);
        }
        lemma_u32_shl_is_mul(1, shift);
    }
    1u32 << shift
}

/// Decodes the frames `frames[start..end]` of one channel, against the
/// coefficient table `coefficients` and from the history in `decoder_state`.
fn decode_frames(
    frames: &Vec<Frame>,
    start: usize,
    end: usize,
    decoder_state: &DSPDecoderState,
    coefficients: &[(i16, i16); COEFFICIENT_PAIRS_PER_CHANNEL],
) -> (r: Result<Vec<i16>, HpsDecodeError>)
    requires
        start <= end <= frames.len(),
        (end - start) * SAMPLES_PER_FRAME <= usize::MAX,
    ensures
        match r {
            Ok(v) => channel_samples(frames@.subrange(start as int, end as int), coefficients@, *decoder_state) == Ok::<Seq<i16>, HpsDecodeError>(v@)
                && v@.len() == (end - start) * SAMPLES_PER_FRAME,
            Err(e) => channel_samples(frames@.subrange(start as int, end as int), coefficients@, *decoder_state) == Err::<Seq<i16>, HpsDecodeError>(e),
        },
{
    let ghost sub = frames@.subrange(start as int, end as int);
    let ghost coefs = coefficients@;
    let ghost h1 = decoder_state.initial_hist_1;
    let ghost h2 = decoder_state.initial_hist_2;
    let mut samples: Vec<i16> = Vec::new();
    let mut hist1 = decoder_state.initial_hist_1;
    let mut hist2 = decoder_state.initial_hist_2;
    let mut i: usize = start;
    while i < end
        invariant
            start <= i <= end <= frames.len(),
            sub == frames@.subrange(start as int, end as int),
            coefs == coefficients@,
            h1 == decoder_state.initial_hist_1,
            h2 == decoder_state.initial_hist_2,
            samples@.len() == (i - start) * SAMPLES_PER_FRAME,
            (end - start) * SAMPLES_PER_FRAME <= usize::MAX,
            channel_prefix(sub, coefs, h1, h2, (i - start) as nat) == Ok::<(Seq<i16>, i16, i16), HpsDecodeError>((samples@, hist1, hist2)),
        decreases end - i,
    {
        let frame: Frame = frames[i];
        assert(sub[i - start] == frame);
        let header: u8 = frame.header;
        assert(header >> 4u8 == header / 16) by (bit_vector);
        let coef_index: usize = (header >> 4) as usize;
        if coef_index >= COEFFICIENT_PAIRS_PER_CHANNEL {
            proof {
                assert(channel_prefix(sub, coefs, h1, h2, (i + 1 - start) as nat) == Err::<(Seq<i16>, i16, i16), HpsDecodeError>(HpsDecodeError::InvalidCoefficientIndex(coef_index)));
                lemma_channel_error_persists(sub, coefs, h1, h2, (i + 1 - start) as nat, sub.len());
            }
            return Err(HpsDecodeError::InvalidCoefficientIndex(coef_index));
        }
        let (coef1, coef2) = coefficients[coef_index];
        let scale = frame_scale_of(frame.header);
        let ghost base = samples@;
        let ghost a = hist1;
        let ghost b = hist2;
        let mut j: usize = 0;
        while j < 7
            invariant
                0 <= j <= 7,
                1 <= scale <= 32768,
                scale == frame_scale(frame),
                frame_prefix(frame, coef1, coef2, a, b, (2 * j) as nat) == (samples@.subrange(base.len() as int, samples@.len() as int), hist1, hist2),
                samples@.subrange(0, base.len() as int) == base,
                samples@.len() == base.len() + 2 * j,
            decreases 7 - j,
        {
            let byte = frame.encoded_sample_data[j];
            let high = get_high_nibble(byte);
            let sample = decode_sample(high, scale, coef1, coef2, hist1, hist2);
            hist2 = hist1;
            hist1 = sample;
            samples.push(sample);
            assert(samples@.subrange(base.len() as int, samples@.len() as int) == frame_prefix(frame, coef1, coef2, a, b, (2 * j) as nat).0.push(sample));
            assert(samples@.subrange(0, base.len() as int) == base);
            let low = get_low_nibble(byte);
            let sample = decode_sample(low, scale, coef1, coef2, hist1, hist2);
            hist2 = hist1;
            hist1 = sample;
            samples.push(sample);
            assert(samples@.subrange(base.len() as int, samples@.len() as int) == frame_prefix(frame, coef1, coef2, a, b, (2 * j + 1) as nat).0.push(sample));
            assert(samples@.subrange(0, base.len() as int) == base);
            j = j + 1;
        }
        assert(samples@ == base + samples@.subrange(base.len() as int, samples@.len() as int));
        i = i + 1;
    }
    assert(sub.len() == end - start);
    Ok(samples)
}

/// Two channels' samples interleaved, left first, for as many pairs as the
/// shorter channel holds.
pub open spec fn interleave(left: Seq<i16>, right: Seq<i16>) -> Seq<i16> {
    let n = if left.len() <= right.len() { left.len() } else { right.len() };
    Seq::new(2 * n, |i: int| if i % 2 == 0 { left[i / 2] } else { right[i / 2] })
}

/// A block's two channels decoded on their own: the first half of its
/// frames (rounded down) against the left channel and the left decoder
/// state, the rest against the right ones, interleaved. The error is the left
/// channel's first bad coefficient index, else the right channel's first.
pub open spec fn block_halves(block: Block, info: [ChannelInfo; 2]) -> Result<
    Seq<i16>,
    HpsDecodeError,
> {
    let frames = block.frames@;
    let half = frames.len() / 2;
    match channel_samples(frames.subrange(0, half as int), info[0].coefficients@, block.decoder_states[0]) {
        Err(e) => Err(e),
        Ok(left) => match channel_samples(
            frames.subrange(half as int, frames.len() as int),
            info[1].coefficients@,
            block.decoder_states[1],
        ) {
            Err(e) => Err(e),
            Ok(right) => Ok(interleave(left, right)),
        },
    }
}

/// A block decoded on its own: its two channels as `block_halves` decodes
/// them, so that a bad coefficient index is reported first; then an odd
/// number of frames, which cannot be split between the channels, is an error.
pub open spec fn block_samples(block: Block, info: [ChannelInfo; 2]) -> Result<
    Seq<i16>,
    HpsDecodeError,
> {
    match block_halves(block, info) {
        Err(e) => Err(e),
        Ok(s) => if block.frames@.len() % 2 == 1 {
            Err(HpsDecodeError::OddFrameCount(block.frames@.len() as usize))
        } else {
            Ok(s)
        },
    }
}

/// Whether some frame of some block selects a coefficient pair past the end
/// of the table.
pub open spec fn has_invalid_coefficient_index(blocks: Seq<Block>) -> bool {
    exists|i: int, j: int|
        0 <= i < blocks.len() && 0 <= j < blocks[i].frames@.len() && #[trigger] frame_coef_index(
            blocks[i].frames@[j],
        ) >= COEFFICIENT_PAIRS_PER_CHANNEL
}

/// Whether the error of decoding `blocks` may be `e`: a coefficient index
/// that some frame selects past the end of the table; or, only when no frame
/// does so, the odd frame count of some block.
pub open spec fn is_decode_error_of(blocks: Seq<Block>, e: HpsDecodeError) -> bool {
    match e {
        HpsDecodeError::InvalidCoefficientIndex(k) => exists|i: int, j: int|
            0 <= i < blocks.len() && 0 <= j < blocks[i].frames@.len() && #[trigger] frame_coef_index(
                blocks[i].frames@[j],
            ) >= COEFFICIENT_PAIRS_PER_CHANNEL && k == frame_coef_index(blocks[i].frames@[j]),
        HpsDecodeError::OddFrameCount(n) => {
            &&& !has_invalid_coefficient_index(blocks)
            &&& exists|i: int|
                0 <= i < blocks.len() && #[trigger] blocks[i].frames@.len() == n && n % 2 == 1
        },
    }
}

/// Whether every block decodes without error.
pub open spec fn all_blocks_decode(blocks: Seq<Block>, info: [ChannelInfo; 2]) -> bool {
    forall|i: int| 0 <= i < blocks.len() ==> (#[trigger] block_samples(blocks[i], info)) is Ok
}

/// The samples of all blocks, each decoded on its own, concatenated in order.
pub open spec fn pcm_of(blocks: Seq<Block>, info: [ChannelInfo; 2]) -> Seq<i16>
    decreases blocks.len(),
{
    if blocks.len() == 0 {
        seq![]
    } else {
        pcm_of(blocks.drop_last(), info) + match block_samples(blocks.last(), info) {
            Ok(s) => s,
            Err(_) => seq![],
        }
    }
}

/// The number of frames in all the blocks.
pub open spec fn total_frames(blocks: Seq<Block>) -> nat
    decreases blocks.len(),
{
    if blocks.len() == 0 {
        0
    } else {
        total_frames(blocks.drop_last()) + blocks.last().frames@.len()
    }
}

/// Where in the decoded samples the loop target begins: 14 samples for each
/// frame of the blocks before it.
pub open spec fn loop_sample_index_of(hps: Hps) -> Option<usize> {
    match hps.loop_block_index {
        Some(k) => Some(
            (SAMPLES_PER_FRAME * total_frames(hps.blocks@.subrange(0, k as int))) as usize,
        ),
        None => None,
    }
}

/// Whether an `Hps` can be decoded on this machine: its sample count fits in
/// `usize`, and its loop index, if any, lies within its blocks.
pub open spec fn decodable(hps: Hps) -> bool {
    &&& SAMPLES_PER_FRAME * total_frames(hps.blocks@) <= usize::MAX
    &&& hps.loop_block_index matches Some(k) ==> k <= hps.blocks@.len()
}

/// A prefix of the blocks has no more frames than all of them, and each
/// block no more than all of them.
proof fn lemma_total_frames_prefix(blocks: Seq<Block>, k: int)
    requires
        0 <= k <= blocks.len(),
    ensures
        total_frames(blocks.subrange(0, k)) <= total_frames(blocks),
        k < blocks.len() ==> total_frames(blocks.subrange(0, k)) + blocks[k].frames@.len()
            <= total_frames(blocks),
    decreases blocks.len(),
{
    if k < blocks.len() {
        assert(blocks.subrange(0, k + 1).drop_last() == blocks.subrange(0, k));
        if k + 1 < blocks.len() {
            lemma_total_frames_prefix(blocks.drop_last(), k + 1);
            assert(blocks.drop_last().subrange(0, k + 1) == blocks.subrange(0, k + 1));
        } else {
            assert(blocks.subrange(0, k + 1) == blocks);
        }
    } else {
        assert(blocks.subrange(0, k) == blocks);
    }
}

/// A prefix of `n` samples of a frame has `n` samples.
proof fn lemma_frame_prefix_len(f: Frame, c1: i16, c2: i16, h1: i16, h2: i16, n: nat)
    ensures
        frame_prefix(f, c1, c2, h1, h2, n).0.len() == n,
    decreases n,
{
    if n > 0 {
        lemma_frame_prefix_len(f, c1, c2, h1, h2, (n - 1) as nat);
    }
}

/// A channel's first `n` frames that decode give 14 samples each.
proof fn lemma_channel_prefix_len(
    frames: Seq<Frame>,
    coefs: Seq<(i16, i16)>,
    h1: i16,
    h2: i16,
    n: nat,
)
    ensures
        channel_prefix(frames, coefs, h1, h2, n) matches Ok((s, _, _)) ==> s.len()
            == SAMPLES_PER_FRAME * n,
    decreases n,
{
    if n > 0 {
        lemma_channel_prefix_len(frames, coefs, h1, h2, (n - 1) as nat);
        if let Ok((s, a, b)) = channel_prefix(frames, coefs, h1, h2, (n - 1) as nat) {
            let f = frames[n - 1];
            let k = frame_coef_index(f);
            if k < COEFFICIENT_PAIRS_PER_CHANNEL {
                lemma_frame_prefix_len(f, coefs[k].0, coefs[k].1, a, b, SAMPLES_PER_FRAME as nat);
            }
        }
    }
}

/// A block that decodes gives 14 samples for each of its frames.
proof fn lemma_block_samples_len(block: Block, info: [ChannelInfo; 2])
    ensures
        block_samples(block, info) matches Ok(s) ==> s.len() == SAMPLES_PER_FRAME
            * block.frames@.len(),
{
    let frames = block.frames@;
    let half = frames.len() / 2;
    let l = frames.subrange(0, half as int);
    let r = frames.subrange(half as int, frames.len() as int);
    lemma_channel_prefix_len(l, info[0].coefficients@, block.decoder_states[0].initial_hist_1, block.decoder_states[0].initial_hist_2, l.len());
    lemma_channel_prefix_len(r, info[1].coefficients@, block.decoder_states[1].initial_hist_1, block.decoder_states[1].initial_hist_2, r.len());
}

/// When every block decodes, the samples number 14 for each frame.
pub proof fn lemma_pcm_of_len(blocks: Seq<Block>, info: [ChannelInfo; 2])
    requires
        all_blocks_decode(blocks, info),
    ensures
        pcm_of(blocks, info).len() == SAMPLES_PER_FRAME * total_frames(blocks),
    decreases blocks.len(),
{
    if blocks.len() > 0 {
        let d = blocks.drop_last();
        assert forall|i: int| 0 <= i < d.len() implies (#[trigger] block_samples(d[i], info)) is Ok by {
            assert(d[i] == blocks[i]);
            assert(block_samples(blocks[i], info) is Ok);
        }
        lemma_pcm_of_len(d, info);
        assert(block_samples(blocks[blocks.len() - 1], info) is Ok);
        lemma_block_samples_len(blocks.last(), info);
    }
}

/// A channel prefix fails exactly when one of its frames selects a
/// coefficient pair out of range, and then with that frame's index.
proof fn lemma_channel_error(
    frames: Seq<Frame>,
    coefs: Seq<(i16, i16)>,
    h1: i16,
    h2: i16,
    n: nat,
)
    requires
        n <= frames.len(),
    ensures
        channel_prefix(frames, coefs, h1, h2, n) is Ok ==> forall|j: int|
            0 <= j < n ==> #[trigger] frame_coef_index(frames[j]) < COEFFICIENT_PAIRS_PER_CHANNEL,
        channel_prefix(frames, coefs, h1, h2, n) matches Err(e) ==> exists|j: int|
            0 <= j < n && #[trigger] frame_coef_index(frames[j]) >= COEFFICIENT_PAIRS_PER_CHANNEL
                && e == HpsDecodeError::InvalidCoefficientIndex(
                frame_coef_index(frames[j]) as usize,
            ),
    decreases n,
{
    if n > 0 {
        lemma_channel_error(frames, coefs, h1, h2, (n - 1) as nat);
        let f = frames[n - 1];
        if channel_prefix(frames, coefs, h1, h2, (n - 1) as nat) is Ok
            && frame_coef_index(f) >= COEFFICIENT_PAIRS_PER_CHANNEL {
            assert(frame_coef_index(frames[n - 1]) >= COEFFICIENT_PAIRS_PER_CHANNEL);
        }
    }
}

/// A block's halves fail exactly when one of its frames selects a
/// coefficient pair out of range, and then with that frame's index.
proof fn lemma_block_halves_error(block: Block, info: [ChannelInfo; 2])
    ensures
        block_halves(block, info) is Ok ==> forall|j: int|
            0 <= j < block.frames@.len() ==> #[trigger] frame_coef_index(block.frames@[j])
                < COEFFICIENT_PAIRS_PER_CHANNEL,
        block_halves(block, info) matches Err(e) ==> exists|j: int|
            0 <= j < block.frames@.len() && #[trigger] frame_coef_index(block.frames@[j])
                >= COEFFICIENT_PAIRS_PER_CHANNEL && e == HpsDecodeError::InvalidCoefficientIndex(
                frame_coef_index(block.frames@[j]) as usize,
            ),
{
    let frames = block.frames@;
    let half = frames.len() / 2;
    let l = frames.subrange(0, half as int);
    let r = frames.subrange(half as int, frames.len() as int);
    let s0 = block.decoder_states[0];
    let s1 = block.decoder_states[1];
    lemma_channel_error(l, info[0].coefficients@, s0.initial_hist_1, s0.initial_hist_2, l.len());
    lemma_channel_error(r, info[1].coefficients@, s1.initial_hist_1, s1.initial_hist_2, r.len());
    if block_halves(block, info) is Ok {
        assert forall|j: int| 0 <= j < frames.len() implies #[trigger] frame_coef_index(frames[j])
            < COEFFICIENT_PAIRS_PER_CHANNEL by {
            if j < half {
                assert(l[j] == frames[j]);
            } else {
                assert(r[j - half] == frames[j]);
            }
        }
    }
    if let Err(e) = block_halves(block, info) {
        if channel_samples(l, info[0].coefficients@, s0) is Err {
            let j = choose|j: int|
                0 <= j < l.len() && #[trigger] frame_coef_index(l[j]) >= COEFFICIENT_PAIRS_PER_CHANNEL
                    && e == HpsDecodeError::InvalidCoefficientIndex(frame_coef_index(l[j]) as usize);
            assert(l[j] == frames[j]);
        } else {
            let j = choose|j: int|
                0 <= j < r.len() && #[trigger] frame_coef_index(r[j]) >= COEFFICIENT_PAIRS_PER_CHANNEL
                    && e == HpsDecodeError::InvalidCoefficientIndex(frame_coef_index(r[j]) as usize);
            assert(r[j] == frames[j + half]);
        }
    }
}

/// Decodes one block on its own into interleaved stereo samples; a bad
/// coefficient index is reported before an odd frame count.
pub fn decode_block(block: &Block, channel_info: &[ChannelInfo; 2]) -> (r: Result<
    Vec<i16>,
    HpsDecodeError,
>)
    requires
        block.frames@.len() * SAMPLES_PER_FRAME <= usize::MAX,
    ensures
        match r {
            Ok(v) => block_samples(*block, *channel_info) == Ok::<Seq<i16>, HpsDecodeError>(v@),
            Err(e) => block_samples(*block, *channel_info) == Err::<Seq<i16>, HpsDecodeError>(e),
        },
{
    let samples = decode_block_halves(block, channel_info)?;
    if block.frames.len() % 2 == 1 {
        return Err(HpsDecodeError::OddFrameCount(block.frames.len()));
    }
    Ok(samples)
}

/// Decodes a block's two channels, each from its own half of the frames.
pub(crate) fn decode_block_halves(block: &Block, channel_info: &[ChannelInfo; 2]) -> (r: Result<
    Vec<i16>,
    HpsDecodeError,
>)
    requires
        block.frames@.len() * SAMPLES_PER_FRAME <= usize::MAX,
    ensures
        match r {
            Ok(v) => block_halves(*block, *channel_info) == Ok::<Seq<i16>, HpsDecodeError>(v@),
            Err(e) => block_halves(*block, *channel_info) == Err::<Seq<i16>, HpsDecodeError>(e),
        },
{
    let half_index = block.frames.len() / 2;
    let left = decode_frames(
        &block.frames,
        0,
        half_index,
        &block.decoder_states[0],
        &channel_info[0].coefficients,
    )?;
    let right = decode_frames(
        &block.frames,
        half_index,
        block.frames.len(),
        &block.decoder_states[1],
        &channel_info[1].coefficients,
    )?;
    let n = if left.len() <= right.len() { left.len() } else { right.len() };
    let mut samples: Vec<i16> = Vec::new();
    let mut k: usize = 0;
    while k < n
        invariant
            k <= n,
            n <= left.len(),
            n <= right.len(),
            n * 2 <= usize::MAX,
            samples@.len() == 2 * k,
            forall|i: int|
                0 <= i < 2 * k ==> #[trigger] samples@[i] == if i % 2 == 0 {
                    left@[i / 2]
                } else {
                    right@[i / 2]
                },
        decreases n - k,
    {
        samples.push(left[k]);
        samples.push(right[k]);
        k = k + 1;
    }
    assert(samples@ == interleave(left@, right@));
    Ok(samples)
}

/// Decodes the two channels of every block on rayon's thread pool.
///
/// Relies on rayon's `par_iter` over a slice collected into a
/// `Result<Vec<_>, _>`: the results keep the blocks' order, the collection is
/// `Ok` exactly when every item is, and otherwise it is one of the items'
/// errors (which one is not deterministic).
#[verifier::external_body]
fn decode_blocks_in_parallel(blocks: &Vec<Block>, channel_info: &[ChannelInfo; 2]) -> (r: Result<
    Vec<Vec<i16>>,
    HpsDecodeError,
>)
    requires
        forall|i: int|
            0 <= i < blocks@.len() ==> #[trigger] blocks@[i].frames@.len() * SAMPLES_PER_FRAME
                <= usize::MAX,
    ensures
        r is Ok <==> forall|i: int|
            0 <= i < blocks@.len() ==> (#[trigger] block_halves(blocks@[i], *channel_info)) is Ok,
        match r {
            Ok(v) => v@.len() == blocks@.len() && forall|i: int|
                0 <= i < blocks@.len() ==> block_halves(blocks@[i], *channel_info) == Ok::<
                    Seq<i16>,
                    HpsDecodeError,
                >((#[trigger] v@[i])@),
            Err(e) => exists|i: int|
                0 <= i < blocks@.len() && #[trigger] block_halves(blocks@[i], *channel_info)
                    == Err::<Seq<i16>, HpsDecodeError>(e),
        },
{
    blocks.par_iter().map(|block| decode_block_halves(block, channel_info)).collect()
}

/// What one pull from the sample sequence yields, and where the cursor goes:
/// the sample under the cursor while there is one; past the end, the sample
/// at the loop point (the cursor moving just after it) when the loop point
/// lies within the samples; otherwise nothing, the cursor staying put.
pub open spec fn next_step(samples: Seq<i16>, cursor: int, loop_point: Option<usize>) -> (
    Option<i16>,
    int,
) {
    if 0 <= cursor < samples.len() {
        (Some(samples[cursor]), cursor + 1)
    } else {
        match loop_point {
            Some(l) if l < samples.len() => (Some(samples[l as int]), l + 1),
            _ => (None, cursor),
        }
    }
}

/// The cursor after `n` pulls from the start of the samples.
pub open spec fn cursor_after(samples: Seq<i16>, loop_point: Option<usize>, n: nat) -> int
    decreases n,
{
    if n == 0 {
        0
    } else {
        next_step(samples, cursor_after(samples, loop_point, (n - 1) as nat), loop_point).1
    }
}

/// The value of pull number `n` (counting from zero) from the start of the
/// samples.
pub open spec fn pulled(samples: Seq<i16>, loop_point: Option<usize>, n: nat) -> Option<i16> {
    next_step(samples, cursor_after(samples, loop_point, n), loop_point).0
}

/// The playing time, in whole milliseconds, of `sample_count` interleaved
/// samples.
pub open spec fn duration_millis(sample_count: int, sample_rate: u32, channel_count: u32) -> int {
    1000 * sample_count / (sample_rate as int * channel_count as int)
}

/// The name of what `std::time::Duration::from_millis` returns.
pub uninterp spec fn millis_duration(ms: u64) -> std::time::Duration;

/// Relies on `std::time::Duration::from_millis`, which depends on its
/// argument alone.
#[verifier::external_body]
fn duration_from_millis(ms: u64) -> (r: std::time::Duration)
    ensures
        r == millis_duration(ms),
{
    std::time::Duration::from_millis(ms)
}

/// The decoded samples of an `.hps` file, read as a sequence.
///
/// For a looping track the sequence is infinite: once every sample has been
/// pulled, pulling goes on from the loop point.
#[derive(Debug, Clone, PartialEq, Eq)]
pub struct DecodedHps {
    /// The decoded samples, interleaved left and right
    pub samples: Vec<i16>,
    /// Position of the next sample to pull
    pub current_index: usize,
    /// Position in `samples` that playback loops back to, if the track loops
    pub loop_sample_index: Option<usize>,
    /// Number of samples per second per audio channel
    pub sample_rate: u32,
    /// Number of audio channels
    pub channel_count: u32,
}

/// Another name for [`DecodedHps`], the sequence of decoded PCM samples.
pub type PcmIterator = DecodedHps;

impl DecodedHps {
    /// The decoded samples, interleaved left and right.
    pub open spec fn samples_view(&self) -> Seq<i16> {
        self.samples@
    }

    /// Samples per second per channel.
    pub open spec fn spec_sample_rate(&self) -> u32 {
        self.sample_rate
    }

    /// Number of channels.
    pub open spec fn spec_channel_count(&self) -> u32 {
        self.channel_count
    }

    /// The position of the next sample to pull.
    pub open spec fn cursor(&self) -> int {
        self.current_index as int
    }

    /// The position in the samples that playback loops back to, if any.
    pub open spec fn loop_point(&self) -> Option<usize> {
        self.loop_sample_index
    }

    /// Decodes every block of `hps`, each on its own, and concatenates their
    /// samples in block order. Fails when a frame selects a coefficient pair
    /// out of range (where several do, the error is one of theirs); else when
    /// a block holds an odd number of frames (the first such block).
    pub(crate) fn new(hps: &Hps) -> (r: Result<Self, HpsDecodeError>)
        requires
            decodable(*hps),
        ensures
            r is Ok <==> all_blocks_decode(hps.blocks@, hps.channel_info),
            match r {
                Ok(d) => {
                    &&& d.samples_view() == pcm_of(hps.blocks@, hps.channel_info)
                    &&& d.samples_view().len() == SAMPLES_PER_FRAME * total_frames(hps.blocks@)
                    &&& hps.loop_block_index matches Some(k) ==> d.loop_point() == Some(
                        pcm_of(hps.blocks@.subrange(0, k as int), hps.channel_info).len() as usize,
                    )
                    &&& d.cursor() == 0
                    &&& d.loop_point() == loop_sample_index_of(*hps)
                    &&& d.spec_sample_rate() == hps.sample_rate
                    &&& d.spec_channel_count() == hps.channel_count
                },
                Err(e) => is_decode_error_of(hps.blocks@, e),
            },
            has_invalid_coefficient_index(hps.blocks@) ==> r matches Err(
                HpsDecodeError::InvalidCoefficientIndex(_),
            ),
    {
        let ghost blocks = hps.blocks@;
        assert forall|i: int| 0 <= i < blocks.len() implies #[trigger] blocks[i].frames@.len()
            * SAMPLES_PER_FRAME <= usize::MAX by {
            lemma_total_frames_prefix(blocks, i);
        }
        let parts = match decode_blocks_in_parallel(&hps.blocks, &hps.channel_info) {
            Ok(parts) => parts,
            Err(e) => {
                proof {
                    let i = choose|i: int|
                        0 <= i < blocks.len() && #[trigger] block_halves(blocks[i], hps.channel_info)
                            == Err::<Seq<i16>, HpsDecodeError>(e);
                    lemma_block_halves_error(blocks[i], hps.channel_info);
                    let j = choose|j: int|
                        0 <= j < blocks[i].frames@.len() && #[trigger] frame_coef_index(
                            blocks[i].frames@[j],
                        ) >= COEFFICIENT_PAIRS_PER_CHANNEL
                            && e == HpsDecodeError::InvalidCoefficientIndex(
                            frame_coef_index(blocks[i].frames@[j]) as usize,
                        );
                    assert(frame_coef_index(blocks[i].frames@[j]) >= COEFFICIENT_PAIRS_PER_CHANNEL);
                    assert(block_samples(blocks[i], hps.channel_info) is Err);
                }
                return Err(e);
            },
        };
        proof {
            assert forall|i: int, j: int|
                0 <= i < blocks.len() && 0 <= j < blocks[i].frames@.len() implies #[trigger] frame_coef_index(
                blocks[i].frames@[j],
            ) < COEFFICIENT_PAIRS_PER_CHANNEL by {
                assert(block_halves(blocks[i], hps.channel_info) is Ok);
                lemma_block_halves_error(blocks[i], hps.channel_info);
            }
        }

        // Only once every frame decodes, a block that cannot be split evenly
        // between the channels is the error
        let mut b: usize = 0;
        while b < hps.blocks.len()
            invariant
                b <= blocks.len(),
                blocks == hps.blocks@,
                forall|c: int| 0 <= c < b ==> #[trigger] blocks[c].frames@.len() % 2 == 0,
                parts@.len() == blocks.len(),
                forall|c: int|
                    0 <= c < blocks.len() ==> block_halves(blocks[c], hps.channel_info) == Ok::<
                        Seq<i16>,
                        HpsDecodeError,
                    >((#[trigger] parts@[c])@),
                !has_invalid_coefficient_index(blocks),
            decreases hps.blocks.len() - b,
        {
            if hps.blocks[b].frames.len() % 2 == 1 {
                proof {
                    assert(block_halves(blocks[b as int], hps.channel_info) == Ok::<Seq<i16>, HpsDecodeError>(parts@[b as int]@));
                    assert(block_samples(blocks[b as int], hps.channel_info) is Err);
                    assert(blocks[b as int].frames@.len() == hps.blocks[b as int].frames.len());
                }
                return Err(HpsDecodeError::OddFrameCount(hps.blocks[b].frames.len()));
            }
            b = b + 1;
        }
        assert forall|c: int| 0 <= c < blocks.len() implies block_samples(blocks[c], hps.channel_info)
            == Ok::<Seq<i16>, HpsDecodeError>((#[trigger] parts@[c])@) by {
            assert(blocks[c].frames@.len() % 2 == 0);
            assert(block_halves(blocks[c], hps.channel_info) == Ok::<Seq<i16>, HpsDecodeError>(parts@[c]@));
        }
        let mut samples: Vec<i16> = Vec::new();
        let mut i: usize = 0;
        while i < parts.len()
            invariant
                i <= parts@.len() == blocks.len(),
                blocks == hps.blocks@,
                forall|b: int|
                    0 <= b < blocks.len() ==> block_samples(blocks[b], hps.channel_info) == Ok::<
                        Seq<i16>,
                        HpsDecodeError,
                    >((#[trigger] parts@[b])@),
                samples@ == pcm_of(blocks.subrange(0, i as int), hps.channel_info),
            decreases parts.len() - i,
        {
            let part = &parts[i];
            let mut j: usize = 0;
            let ghost before = samples@;
            while j < part.len()
                invariant
                    j <= part@.len(),
                    samples@ == before + part@.subrange(0, j as int),
                decreases part.len() - j,
            {
                samples.push(part[j]);
                assert(part@.subrange(0, j + 1) == part@.subrange(0, j as int).push(part@[j as int]));
                j = j + 1;
            }
            assert(part@.subrange(0, j as int) == part@);
            assert(blocks.subrange(0, i + 1).drop_last() == blocks.subrange(0, i as int));
            i = i + 1;
        }
        assert(blocks.subrange(0, i as int) == blocks);
        proof {
            lemma_pcm_of_len(blocks, hps.channel_info);
            if let Some(k) = hps.loop_block_index {
                let pre = blocks.subrange(0, k as int);
                assert forall|j: int| 0 <= j < pre.len() implies (#[trigger] block_samples(pre[j], hps.channel_info)) is Ok by {
                    assert(pre[j] == blocks[j]);
                    assert(block_samples(blocks[j], hps.channel_info) == Ok::<Seq<i16>, HpsDecodeError>(parts@[j]@));
                }
                lemma_pcm_of_len(pre, hps.channel_info);
            }
        }
        let loop_sample_index = match hps.loop_block_index {
            Some(index) => {
                let mut frame_count: usize = 0;
                let mut b: usize = 0;
                while b < index
                    invariant
                        b <= index <= blocks.len(),
                        blocks == hps.blocks@,
                        SAMPLES_PER_FRAME * total_frames(blocks) <= usize::MAX,
                        frame_count == total_frames(blocks.subrange(0, b as int)),
                    decreases index - b,
                {
                    proof {
                        lemma_total_frames_prefix(blocks, b as int);
                        assert(blocks.subrange(0, b + 1).drop_last() == blocks.subrange(0, b as int));
                    }
                    frame_count = frame_count + hps.blocks[b].frames.len();
                    b = b + 1;
                }
                proof {
                    lemma_total_frames_prefix(blocks, index as int);
                }
                Some(frame_count * SAMPLES_PER_FRAME)
            },
            None => None,
        };
        Ok(DecodedHps {
            samples,
            current_index: 0,
            loop_sample_index,
            sample_rate: hps.sample_rate,
            channel_count: hps.channel_count,
        })
    }

    /// Pulls the next sample; see `next_step`. For a looping track whose
    /// loop point lies within the samples this never returns `None`.
    pub fn next(&mut self) -> (r: Option<i16>)
        ensures
            (r, final(self).cursor()) == next_step(
                old(self).samples_view(),
                old(self).cursor(),
                old(self).loop_point(),
            ),
            final(self).samples_view() == old(self).samples_view(),
            final(self).loop_point() == old(self).loop_point(),
            final(self).spec_sample_rate() == old(self).spec_sample_rate(),
            final(self).spec_channel_count() == old(self).spec_channel_count(),
    {
        if self.current_index < self.samples.len() {
            let sample = self.samples[self.current_index];
            self.current_index = self.current_index + 1;
            Some(sample)
        } else {
            match self.loop_sample_index {
                Some(loop_sample_index) => {
                    if loop_sample_index < self.samples.len() {
                        self.current_index = loop_sample_index + 1;
                        Some(self.samples[loop_sample_index])
                    } else {
                        None
                    }
                },
                None => None,
            }
        }
    }

    /// The decoded samples as a slice, whatever has been pulled.
    pub fn samples(&self) -> (r: &[i16])
        ensures
            r@ == self.samples_view(),
    {
        self.samples.as_slice()
    }

    /// Whether the track loops, making the sequence infinite.
    pub fn is_looping(&self) -> (r: bool)
        ensures
            r == self.loop_point() is Some,
    {
        self.loop_sample_index.is_some()
    }

    /// The duration of the track played once, without looping: the number of
    /// samples over the number of samples per second, in whole milliseconds.
    pub fn duration(&self) -> (r: std::time::Duration)
        requires
            self.spec_sample_rate() * self.spec_channel_count() > 0,
            duration_millis(self.samples_view().len() as int, self.spec_sample_rate(), self.spec_channel_count())
                <= u64::MAX,
        ensures
            r == millis_duration(
                duration_millis(self.samples_view().len() as int, self.spec_sample_rate(), self.spec_channel_count()) as u64,
            ),
    {
        let sample_count = self.samples.len() as u128;
        let rate = self.sample_rate;
        let count = self.channel_count;
        assert(rate as int * count as int <= 0xFFFF_FFFF_FFFF_FFFF_FFFF_FFFF) by (nonlinear_arith)
            requires
                rate <= u32::MAX,
                count <= u32::MAX,
        ;
        let samples_per_second = (self.sample_rate as u128) * (self.channel_count as u128);
        let millis = 1000 * sample_count / samples_per_second;
        duration_from_millis(millis as u64)
    }
}

/// Decoding a sequence of blocks made of two parts gives the samples of the
/// first part followed by those of the second.
proof fn lemma_pcm_of_concat(a: Seq<Block>, b: Seq<Block>, info: [ChannelInfo; 2])
    ensures
        pcm_of(a + b, info) == pcm_of(a, info) + pcm_of(b, info),
    decreases b.len(),
{
    if b.len() == 0 {
        assert(a + b == a);
    } else {
        lemma_pcm_of_concat(a, b.drop_last(), info);
        assert((a + b).drop_last() == a + b.drop_last());
        assert((a + b).last() == b.last());
    }
}

/// Each block decodes on its own, from the history stored in it: whatever
/// blocks come before or after it, its samples appear unchanged among the
/// samples of all of them, right after those of the blocks before it.
pub proof fn lemma_block_decodes_independently(
    before: Seq<Block>,
    block: Block,
    after: Seq<Block>,
    info: [ChannelInfo; 2],
)
    requires
        block_samples(block, info) is Ok,
    ensures
        ({
            let own = block_samples(block, info)->Ok_0;
            let start = pcm_of(before, info).len() as int;
            pcm_of(before + seq![block] + after, info).subrange(start, start + own.len()) == own
        }),
{
    let own = block_samples(block, info)->Ok_0;
    lemma_pcm_of_concat(before + seq![block], after, info);
    lemma_pcm_of_concat(before, seq![block], info);
    assert(seq![block].drop_last() == Seq::<Block>::empty());
    assert(seq![block].last() == block);
    assert(pcm_of(Seq::<Block>::empty(), info) + own =~= own);
    assert(pcm_of(seq![block], info) == own);
    let start = pcm_of(before, info).len() as int;
    assert(pcm_of(before + seq![block] + after, info) == pcm_of(before, info) + own + pcm_of(
        after,
        info,
    ));
    assert(pcm_of(before + seq![block] + after, info).subrange(start, start + own.len()) =~= own);
}

/// While the loop point lies within the samples, the cursor never passes
/// the end of them.
proof fn lemma_cursor_in_bounds(samples: Seq<i16>, loop_point: Option<usize>, n: nat)
    requires
        loop_point matches Some(l) && l < samples.len(),
    ensures
        0 <= cursor_after(samples, loop_point, n) <= samples.len(),
    decreases n,
{
    if n > 0 {
        lemma_cursor_in_bounds(samples, loop_point, (n - 1) as nat);
    }
}

/// The first pulls go through the samples in order.
proof fn lemma_cursor_first_pass(samples: Seq<i16>, loop_point: Option<usize>, n: nat)
    requires
        n <= samples.len(),
    ensures
        cursor_after(samples, loop_point, n) == n,
    decreases n,
{
    if n > 0 {
        lemma_cursor_first_pass(samples, loop_point, (n - 1) as nat);
    }
}

/// After the first pass and `k` more pulls, the cursor stands `k` past the
/// loop point.
proof fn lemma_cursor_second_pass(samples: Seq<i16>, l: usize, k: nat)
    requires
        l < samples.len(),
        1 <= k <= samples.len() - l,
    ensures
        cursor_after(samples, Some(l), samples.len() + k) == l + k,
    decreases k,
{
    if k == 1 {
        lemma_cursor_first_pass(samples, Some(l), samples.len());
    } else {
        lemma_cursor_second_pass(samples, l, (k - 1) as nat);
    }
}

/// After the first pass and `j` more pulls, the cursor stands `j % P` past
/// the loop point, `P` being the length of the looped part; at a multiple of
/// `P` it stands at the end of the samples.
proof fn lemma_cursor_periodic(samples: Seq<i16>, l: usize, j: nat)
    requires
        l < samples.len(),
    ensures
        cursor_after(samples, Some(l), samples.len() + j) == if (j as int) % (samples.len() - l)
            == 0 {
            samples.len() as int
        } else {
            l + (j as int) % (samples.len() - l)
        },
    decreases j,
{
    let n = samples.len() as int;
    let period = n - l;
    if j == 0 {
        lemma_cursor_first_pass(samples, Some(l), samples.len());
        lemma_fundamental_div_mod_converse(0, period, 0, 0);
    } else {
        lemma_cursor_periodic(samples, l, (j - 1) as nat);
        assert(cursor_after(samples, Some(l), samples.len() + j) == next_step(
            samples,
            cursor_after(samples, Some(l), samples.len() + (j - 1) as nat),
            Some(l),
        ).1);
        let prev = j - 1;
        lemma_fundamental_div_mod(prev, period);
        lemma_mod_pos_bound(prev, period);
        let q = prev / period;
        let r = prev % period;
        if r + 1 < period {
            lemma_fundamental_div_mod_converse(j as int, period, q, r + 1);
        } else {
            assert(j == (q + 1) * period + 0) by (nonlinear_arith)
                requires
                    prev == period * q + r,
                    r + 1 == period,
                    j == prev + 1,
            ;
            lemma_fundamental_div_mod_converse(j as int, period, q + 1, 0);
        }
    }
}

/// For a looping track whose loop point lies within its samples, pulling
/// from the start never runs out; and once every sample has been pulled, the
/// pulls go on from the loop point: pull number `len + k` yields the sample at
/// `loop + k`, for each `k` below the length of the looped part, and in
/// general pull number `m >= len` yields the sample at
/// `loop + (m - len) % (len - loop)`.
pub proof fn lemma_looping_sequence(d: DecodedHps, n: nat, k: nat)
    requires
        d.loop_point() matches Some(l) && l < d.samples_view().len(),
    ensures
        pulled(d.samples_view(), d.loop_point(), n) is Some,
        k < d.samples_view().len() - d.loop_point()->0 ==> pulled(
            d.samples_view(),
            d.loop_point(),
            d.samples_view().len() + k,
        ) == Some(d.samples_view()[d.loop_point()->0 + k]),
        n >= d.samples_view().len() ==> pulled(d.samples_view(), d.loop_point(), n) == Some(
            d.samples_view()[d.loop_point()->0 + (n - d.samples_view().len()) as int % (
            d.samples_view().len() - d.loop_point()->0) as int],
        ),
{
    let samples = d.samples_view();
    let l = d.loop_point()->0;
    lemma_cursor_in_bounds(samples, d.loop_point(), n);
    if n >= samples.len() {
        let j = (n - samples.len()) as nat;
        lemma_cursor_periodic(samples, l, j);
        lemma_mod_pos_bound(j as int, samples.len() - l);
        assert(samples.len() + j == n);
    }
    if k < samples.len() - l {
        if k == 0 {
            lemma_cursor_first_pass(samples, d.loop_point(), samples.len());
        } else {
            lemma_cursor_second_pass(samples, l, k);
        }
    }
}

} // verus!
