use hps_decode::{ChannelInfo, Hps, HpsDecodeError, HpsParseError};

const LEFT_COEFFICIENTS: [(i16, i16); 8] = [
    (492, -294),
    (2389, -1166),
    (1300, 135),
    (3015, -1133),
    (1491, -717),
    (2845, -1208),
    (1852, -11),
    (3692, -1705),
];

const RIGHT_COEFFICIENTS: [(i16, i16); 8] = [
    (411, -287),
    (2359, -1100),
    (1247, 143),
    (3147, -1288),
    (1472, -773),
    (2600, -894),
    (1745, 93),
    (3703, -1715),
];

const SIMPLE_COEFFICIENTS: [(i16, i16); 8] = [
    (2048, 0),
    (4096, -2048),
    (0, 0),
    (1000, -500),
    (0, 0),
    (0, 0),
    (0, 0),
    (0, 0),
];

fn push_u32(v: &mut Vec<u8>, x: u32) {
    v.extend_from_slice(&x.to_be_bytes());
}

fn push_i16(v: &mut Vec<u8>, x: i16) {
    v.extend_from_slice(&x.to_be_bytes());
}

fn push_channel_info(v: &mut Vec<u8>, coefficients: &[(i16, i16); 8]) {
    push_u32(v, 65536);
    v.extend_from_slice(&[0xAA; 4]);
    push_u32(v, 2874134);
    v.extend_from_slice(&[0xAA; 4]);
    for &(c1, c2) in coefficients {
        push_i16(v, c1);
        push_i16(v, c2);
    }
    v.extend_from_slice(&[0xAA; 8]);
}

fn file_header(
    sample_rate: u32,
    channel_count: u32,
    left: &[(i16, i16); 8],
    right: &[(i16, i16); 8],
) -> Vec<u8> {
    let mut v = b" HALPST\0".to_vec();
    push_u32(&mut v, sample_rate);
    push_u32(&mut v, channel_count);
    push_channel_info(&mut v, left);
    push_channel_info(&mut v, right);
    assert_eq!(v.len(), 0x80);
    v
}

/// Appends a block whose payload length is `8 * frames.len()` and returns
/// its offset.
fn push_block(v: &mut Vec<u8>, next: u32, hist: [(i16, i16); 2], frames: &[[u8; 8]]) -> u32 {
    let offset = v.len() as u32;
    push_u32(v, 8 * frames.len() as u32);
    v.extend_from_slice(&[0; 4]);
    push_u32(v, next);
    for (h1, h2) in hist {
        v.extend_from_slice(&[0x11, 0x22]);
        push_i16(v, h1);
        push_i16(v, h2);
        v.extend_from_slice(&[0; 2]);
    }
    v.extend_from_slice(&[0; 4]);
    for f in frames {
        v.extend_from_slice(f);
    }
    offset
}

const LEFT_FRAME: [u8; 8] = [0x00, 0x12, 0x34, 0x56, 0x78, 0x9A, 0xBC, 0xDE];
const RIGHT_FRAME: [u8; 8] = [0x13, 0xF0, 0x0F, 0x81, 0x7F, 0x00, 0x11, 0x22];
const LEFT_SAMPLES: [i16; 14] = [101, 103, 106, 110, 115, 121, 128, 120, 113, 107, 102, 98, 95, 93];
const RIGHT_SAMPLES: [i16; 14] = [
    -808, -1316, -1824, -2340, -2920, -3492, -4008, -4532, -5056, -5580, -6096, -6604, -7096,
    -7572,
];

fn one_block_file(next: u32) -> Vec<u8> {
    let mut v = file_header(32000, 2, &SIMPLE_COEFFICIENTS, &SIMPLE_COEFFICIENTS);
    push_block(&mut v, next, [(100, -50), (-300, 200)], &[LEFT_FRAME, RIGHT_FRAME]);
    v
}

#[test]
fn expects_halpst_header() {
    let bytes = b"hello world";
    let error = Hps::try_from(bytes.as_slice()).unwrap_err();
    assert!(matches!(error, HpsParseError::InvalidMagicNumber));
}

#[test]
fn rejects_a_buffer_shorter_than_the_magic_number() {
    let error = Hps::try_from(b" HALP".as_slice()).unwrap_err();
    assert_eq!(error, HpsParseError::InvalidMagicNumber);
}

#[test]
fn reads_metadata_of_a_built_file() {
    let mut v = file_header(32000, 2, &LEFT_COEFFICIENTS, &RIGHT_COEFFICIENTS);
    push_block(&mut v, 0x80, [(0, 0), (0, 0)], &[LEFT_FRAME, RIGHT_FRAME]);
    let hps: Hps = v.try_into().unwrap();
    assert_eq!(hps.sample_rate, 32000);
    assert_eq!(hps.channel_count, 2);
    assert_eq!(
        hps.channel_info[0],
        ChannelInfo {
            largest_block_length: 65536,
            sample_count: 2874134,
            coefficients: LEFT_COEFFICIENTS,
        }
    );
    assert_eq!(
        hps.channel_info[1],
        ChannelInfo {
            largest_block_length: 65536,
            sample_count: 2874134,
            coefficients: RIGHT_COEFFICIENTS,
        }
    );
}

#[test]
fn reads_block_fields() {
    let v = one_block_file(0xDEAD);
    let hps = Hps::try_from(&v).unwrap();
    assert_eq!(hps.blocks.len(), 1);
    let block = &hps.blocks[0];
    assert_eq!(block.offset, 0x80);
    assert_eq!(block.dsp_data_length, 16);
    assert_eq!(block.next_block_offset, 0xDEAD);
    assert_eq!(block.decoder_states[0].initial_hist_1, 100);
    assert_eq!(block.decoder_states[0].initial_hist_2, -50);
    assert_eq!(block.decoder_states[1].initial_hist_1, -300);
    assert_eq!(block.decoder_states[1].initial_hist_2, 200);
    assert_eq!(block.frames.len(), 2);
    assert_eq!(block.frames[0].header, 0x00);
    assert_eq!(block.frames[1].encoded_sample_data, [0xF0, 0x0F, 0x81, 0x7F, 0x00, 0x11, 0x22]);
    assert_eq!(hps.loop_block_index, None);
}

#[test]
fn rejects_unsupported_channel_count() {
    let v = file_header(32000, 1, &SIMPLE_COEFFICIENTS, &SIMPLE_COEFFICIENTS);
    assert_eq!(Hps::try_from(v).unwrap_err(), HpsParseError::UnsupportedChannelCount(1));
}

#[test]
fn reports_a_truncated_header() {
    let v = file_header(32000, 2, &SIMPLE_COEFFICIENTS, &SIMPLE_COEFFICIENTS);
    assert_eq!(Hps::try_from(&v[..12]).unwrap_err(), HpsParseError::Incomplete(4));
    assert_eq!(Hps::try_from(&v[..40]).unwrap_err(), HpsParseError::Incomplete(32));
    assert_eq!(Hps::try_from(&v[..100]).unwrap_err(), HpsParseError::Incomplete(28));
}

#[test]
fn reports_a_missing_block_section() {
    let mut v = file_header(32000, 2, &SIMPLE_COEFFICIENTS, &SIMPLE_COEFFICIENTS);
    assert_eq!(Hps::try_from(&v).unwrap_err(), HpsParseError::InvalidData(0));
    v.extend_from_slice(&[0; 10]);
    assert_eq!(Hps::try_from(&v).unwrap_err(), HpsParseError::Incomplete(22));
}

#[test]
fn reports_an_incomplete_trailing_block() {
    let mut v = one_block_file(0xA0);
    // a block header declaring 64 bytes of frames, followed by only 12 of them
    push_u32(&mut v, 64);
    v.extend_from_slice(&[0; 40]);
    assert_eq!(Hps::try_from(&v).unwrap_err(), HpsParseError::Incomplete(52));
}

#[test]
fn reports_a_cut_short_block_header() {
    let mut v = one_block_file(0xA0);
    v.extend_from_slice(&[0; 5]);
    assert_eq!(Hps::try_from(&v).unwrap_err(), HpsParseError::Incomplete(27));
    let first_only = one_block_file(0xA0);
    assert_eq!(
        Hps::try_from(&first_only[..0x80 + 40]).unwrap_err(),
        HpsParseError::Incomplete(8)
    );
}

#[test]
fn decodes_samples_exactly() {
    let hps = Hps::try_from(one_block_file(0xDEAD)).unwrap();
    let audio = hps.decode().unwrap();
    let mut expected = Vec::new();
    for k in 0..14 {
        expected.push(LEFT_SAMPLES[k]);
        expected.push(RIGHT_SAMPLES[k]);
    }
    assert_eq!(audio.samples(), expected.as_slice());
    let bytes: Vec<u8> = audio.samples().iter().flat_map(|s| s.to_be_bytes()).collect();
    let expected_bytes: Vec<u8> = expected.iter().flat_map(|s| s.to_be_bytes()).collect();
    assert_eq!(bytes, expected_bytes);
    assert_eq!(&bytes[..4], &[0x00, 0x65, 0xFC, 0xD8]);
}

#[test]
fn saturates_samples_to_i16() {
    let mut v = file_header(32000, 2, &SIMPLE_COEFFICIENTS, &SIMPLE_COEFFICIENTS);
    let loud = [0x0F, 0x78, 0x78, 0x00, 0x00, 0x00, 0x00, 0x00];
    push_block(&mut v, 0xDEAD, [(0, 0), (0, 0)], &[loud, loud]);
    let audio = Hps::try_from(v).unwrap().decode().unwrap();
    let left: Vec<i16> = audio.samples().iter().step_by(2).copied().collect();
    assert_eq!(
        left,
        vec![
            32767, -32768, 32767, -32768, -32768, -32768, -32768, -32768, -32768, -32768, -32768,
            -32768, -32768, -32768
        ]
    );
}

#[test]
fn rejects_invalid_coefficient_index() {
    let mut v = file_header(32000, 2, &SIMPLE_COEFFICIENTS, &SIMPLE_COEFFICIENTS);
    let mut corrupt = RIGHT_FRAME;
    corrupt[0] = 0x93;
    push_block(&mut v, 0xDEAD, [(0, 0), (0, 0)], &[LEFT_FRAME, corrupt]);
    let hps = Hps::try_from(v).unwrap();
    assert_eq!(hps.decode().unwrap_err(), HpsDecodeError::InvalidCoefficientIndex(9));
}

#[test]
fn keeps_each_block_once_and_drops_unreferenced_ones() {
    let mut v = file_header(32000, 2, &SIMPLE_COEFFICIENTS, &SIMPLE_COEFFICIENTS);
    // 0x80 -> 0xF0 (loop to the start); the block in between is referred to by none
    let a = push_block(&mut v, 0xF0, [(0, 0), (0, 0)], &[LEFT_FRAME, RIGHT_FRAME]);
    let stray = push_block(&mut v, 0x80, [(0, 0), (0, 0)], &[LEFT_FRAME, RIGHT_FRAME, LEFT_FRAME, RIGHT_FRAME]);
    let b = push_block(&mut v, 0x80, [(0, 0), (0, 0)], &[LEFT_FRAME, RIGHT_FRAME]);
    assert_eq!((a, stray, b), (0x80, 0xB0, 0xF0));
    let hps = Hps::try_from(v).unwrap();
    let offsets: Vec<u32> = hps.blocks.iter().map(|blk| blk.offset).collect();
    assert_eq!(offsets, vec![0x80, 0xF0]);
    let mut unique = offsets.clone();
    unique.dedup();
    assert_eq!(unique.len(), hps.blocks.len());
    assert_eq!(hps.loop_block_index, Some(0));
}

#[test]
fn parses_a_short_last_block_and_finds_the_loop() {
    let mut v = file_header(32000, 2, &SIMPLE_COEFFICIENTS, &SIMPLE_COEFFICIENTS);
    let frames = [LEFT_FRAME, RIGHT_FRAME, LEFT_FRAME, RIGHT_FRAME];
    // seven full blocks of 4 frames (64 bytes each), then one of 2 frames
    let mut offsets = Vec::new();
    for k in 0..7u32 {
        offsets.push(push_block(&mut v, 0x80 + 64 * (k + 1), [(0, 0), (0, 0)], &frames));
    }
    let loop_target = offsets[2];
    offsets.push(push_block(&mut v, loop_target, [(0, 0), (0, 0)], &frames[..2]));
    let hps = Hps::try_from(v).unwrap();
    assert_eq!(hps.blocks.len(), 8);
    assert_eq!(hps.blocks[7].frames.len(), 2);
    assert_eq!(hps.loop_block_index, Some(2));
    let audio = hps.decode().unwrap();
    assert!(audio.is_looping());
    assert_eq!(audio.samples().len(), 7 * 56 + 28);
}

#[test]
fn loops_back_to_the_loop_point() {
    let mut v = file_header(32000, 2, &SIMPLE_COEFFICIENTS, &SIMPLE_COEFFICIENTS);
    push_block(&mut v, 0xB0, [(100, -50), (-300, 200)], &[LEFT_FRAME, RIGHT_FRAME]);
    push_block(&mut v, 0xB0, [(7, 9), (0, 0)], &[LEFT_FRAME, RIGHT_FRAME]);
    let hps = Hps::try_from(v).unwrap();
    assert_eq!(hps.loop_block_index, Some(1));
    let mut audio = hps.decode().unwrap();
    let samples = audio.samples().to_vec();
    assert_eq!(samples.len(), 56);
    let loop_start = 28;
    let mut pulled = Vec::new();
    for _ in 0..(samples.len() + 3 * (samples.len() - loop_start)) {
        pulled.push(audio.next().expect("a looping track never ends"));
    }
    assert_eq!(&pulled[..56], samples.as_slice());
    for k in 0..(samples.len() - loop_start) {
        assert_eq!(pulled[56 + k], samples[loop_start + k]);
        assert_eq!(pulled[56 + 28 + k], samples[loop_start + k]);
    }
}

#[test]
fn a_non_looping_track_ends() {
    let hps = Hps::try_from(one_block_file(0xDEAD)).unwrap();
    let mut audio = hps.decode().unwrap();
    assert!(!audio.is_looping());
    for _ in 0..28 {
        assert!(audio.next().is_some());
    }
    assert_eq!(audio.next(), None);
    assert_eq!(audio.next(), None);
}

#[test]
fn a_block_decodes_the_same_wherever_it_stands() {
    let second = [[0x31, 0x21, 0x43, 0x65, 0x87, 0xA9, 0xCB, 0xED], [0x02, 0x11, 0x11, 0x11, 0x11, 0x11, 0x11, 0x11]];
    let mut alone = file_header(32000, 2, &SIMPLE_COEFFICIENTS, &SIMPLE_COEFFICIENTS);
    push_block(&mut alone, 0xDEAD, [(7, 9), (0, 0)], &second);
    let mut after_another = file_header(32000, 2, &SIMPLE_COEFFICIENTS, &SIMPLE_COEFFICIENTS);
    push_block(&mut after_another, 0xB0, [(100, -50), (-300, 200)], &[LEFT_FRAME, RIGHT_FRAME]);
    push_block(&mut after_another, 0xDEAD, [(7, 9), (0, 0)], &second);
    let a = Hps::try_from(alone).unwrap().decode().unwrap();
    let b = Hps::try_from(after_another).unwrap().decode().unwrap();
    assert_eq!(a.samples(), &b.samples()[28..]);
    let left: Vec<i16> = a.samples().iter().step_by(2).copied().collect();
    let right: Vec<i16> = a.samples().iter().skip(1).step_by(2).copied().collect();
    assert_eq!(left, vec![5, 3, 8, 9, 14, 15, -12, 4, -7, -18, -15, -13, -7, -6]);
    assert_eq!(right, vec![4, 8, 12, 16, 20, 24, 28, 32, 36, 40, 44, 48, 52, 56]);
}

#[test]
fn rejects_an_odd_frame_count() {
    let mut v = file_header(32000, 2, &SIMPLE_COEFFICIENTS, &SIMPLE_COEFFICIENTS);
    push_block(&mut v, 0xDEAD, [(100, -50), (-300, 200)], &[LEFT_FRAME, RIGHT_FRAME, RIGHT_FRAME]);
    let hps = Hps::try_from(v).unwrap();
    assert_eq!(hps.decode().unwrap_err(), HpsDecodeError::OddFrameCount(3));
}

#[test]
fn reports_a_bad_coefficient_index_before_an_odd_frame_count() {
    let mut corrupt = LEFT_FRAME;
    corrupt[0] = 0x93;
    let mut v = file_header(32000, 2, &SIMPLE_COEFFICIENTS, &SIMPLE_COEFFICIENTS);
    push_block(&mut v, 0xDEAD, [(0, 0), (0, 0)], &[corrupt, corrupt, corrupt]);
    let hps = Hps::try_from(v).unwrap();
    assert_eq!(hps.decode().unwrap_err(), HpsDecodeError::InvalidCoefficientIndex(9));

    // an odd block first, a bad coefficient index in the block after it
    let mut v = file_header(32000, 2, &SIMPLE_COEFFICIENTS, &SIMPLE_COEFFICIENTS);
    push_block(&mut v, 0xB8, [(0, 0), (0, 0)], &[LEFT_FRAME, RIGHT_FRAME, RIGHT_FRAME]);
    push_block(&mut v, 0xDEAD, [(0, 0), (0, 0)], &[LEFT_FRAME, corrupt]);
    let hps = Hps::try_from(v).unwrap();
    assert_eq!(hps.blocks.len(), 2);
    assert_eq!(hps.decode().unwrap_err(), HpsDecodeError::InvalidCoefficientIndex(9));
}

#[test]
fn gives_fourteen_samples_per_frame() {
    let mut v = file_header(32000, 2, &SIMPLE_COEFFICIENTS, &SIMPLE_COEFFICIENTS);
    push_block(&mut v, 0xC0, [(0, 0), (0, 0)], &[LEFT_FRAME, LEFT_FRAME, RIGHT_FRAME, RIGHT_FRAME]);
    push_block(&mut v, 0xDEAD, [(0, 0), (0, 0)], &[LEFT_FRAME, RIGHT_FRAME]);
    let audio = Hps::try_from(v).unwrap().decode().unwrap();
    assert_eq!(audio.samples().len(), 14 * 6);
}

#[test]
fn duration_counts_samples_per_second() {
    let hps = Hps::try_from(one_block_file(0xDEAD)).unwrap();
    let audio = hps.decode().unwrap();
    // 28 samples at 32000 Hz on two channels: 0.4375 ms
    assert_eq!(audio.duration(), std::time::Duration::from_millis(0));
    let mut v = file_header(7, 2, &SIMPLE_COEFFICIENTS, &SIMPLE_COEFFICIENTS);
    push_block(&mut v, 0xDEAD, [(0, 0), (0, 0)], &[LEFT_FRAME, RIGHT_FRAME]);
    let audio = Hps::try_from(v).unwrap().decode().unwrap();
    // 28 samples at 7 Hz on two channels: 2 seconds
    assert_eq!(audio.duration(), std::time::Duration::from_millis(2000));
}
