use nasbench::ChecksumSite;
use nasbench::DecodeError;
use nasbench::FrameDecoder;
use nasbench::decode_blocks;
use nasbench::encode_frame;

#[test]
fn frame_layout() {
    let data = b"payload".to_vec();
    let frame = encode_frame(&data);
    assert_eq!(frame.len(), 16 + data.len());
    assert_eq!(&frame[0..8], &(data.len() as u64).to_le_bytes());
    assert_eq!(&frame[12..12 + data.len()], &data[..]);
}

#[test]
fn round_trip_single_frame() {
    let data = b"one data block".to_vec();
    let frame = encode_frame(&data);
    let blocks = decode_blocks(&frame).expect("valid frame");
    assert_eq!(blocks, vec![data]);
}

#[test]
fn round_trip_several_frames() {
    let first = b"first".to_vec();
    let second = Vec::new();
    let third = vec![0u8; 300];
    let mut stream = encode_frame(&first);
    stream.extend_from_slice(&encode_frame(&second));
    stream.extend_from_slice(&encode_frame(&third));
    let blocks = decode_blocks(&stream).expect("valid frames");
    assert_eq!(blocks, vec![first, second, third]);
}

#[test]
fn empty_stream_yields_no_blocks() {
    let blocks = decode_blocks(&[]).expect("clean end of stream");
    assert!(blocks.is_empty());
}

#[test]
fn pull_cursor_yields_blocks_then_end() {
    let mut stream = encode_frame(b"alpha");
    stream.extend_from_slice(&encode_frame(b"beta"));
    let mut dec = FrameDecoder::new(stream);
    assert_eq!(dec.next_block().unwrap().unwrap(), b"alpha".to_vec());
    assert_eq!(dec.next_block().unwrap().unwrap(), b"beta".to_vec());
    assert!(dec.next_block().unwrap().is_none());
    assert!(dec.next_block().unwrap().is_none());
}

#[test]
fn truncation_anywhere_inside_is_detected() {
    let mut stream = encode_frame(b"abc");
    stream.extend_from_slice(&encode_frame(b"defgh"));
    let first_len = 16 + 3;
    for cut in 0..stream.len() {
        if cut == 0 || cut == first_len {
            continue;
        }
        let result = decode_blocks(&stream[..cut]);
        assert_eq!(result.unwrap_err(), DecodeError::Truncated);
    }
}

#[test]
fn truncation_at_boundary_is_clean() {
    let mut stream = encode_frame(b"abc");
    stream.extend_from_slice(&encode_frame(b"defgh"));
    let blocks = decode_blocks(&stream[..19]).expect("first frame is whole");
    assert_eq!(blocks, vec![b"abc".to_vec()]);
}

#[test]
fn bit_flip_in_length_checksum_is_detected() {
    let frame = encode_frame(b"abc");
    for offset in 8..12 {
        for bit in 0..8u8 {
            let mut corrupt = frame.clone();
            corrupt[offset] ^= 1 << bit;
            assert_eq!(
                decode_blocks(&corrupt).unwrap_err(),
                DecodeError::ChecksumMismatch(ChecksumSite::Length),
            );
        }
    }
}

#[test]
fn bit_flip_in_data_is_detected() {
    let frame = encode_frame(b"abc");
    for offset in 12..15 {
        for bit in 0..8u8 {
            let mut corrupt = frame.clone();
            corrupt[offset] ^= 1 << bit;
            assert_eq!(
                decode_blocks(&corrupt).unwrap_err(),
                DecodeError::ChecksumMismatch(ChecksumSite::Data),
            );
        }
    }
}

#[test]
fn corruption_halts_before_later_frames() {
    let mut stream = encode_frame(b"abc");
    stream.extend_from_slice(&encode_frame(b"def"));
    stream[13] ^= 0x40;
    assert_eq!(
        decode_blocks(&stream).unwrap_err(),
        DecodeError::ChecksumMismatch(ChecksumSite::Data),
    );
}
