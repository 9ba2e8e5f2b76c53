//! Byte-level tests of the COBS codec: known vectors, round trips,
//! overhead bounds, and the streaming decoder fed in chunks.

use deadbug::cobs::{cobs_decode_in_place, cobs_encode_frame, cobs_encode_in_place, CobsDecoder, DecoderStatus};

/// Deterministic byte generator so the bulk tests are reproducible.
fn lcg_bytes(seed: u64, len: usize, zero_every: Option<usize>) -> Vec<u8> {
    let mut state = seed;
    let mut out = Vec::new();
    for i in 0..len {
        state = state.wrapping_mul(6364136223846793005).wrapping_add(1442695040888963407);
        let mut b = (state >> 33) as u8;
        if let Some(z) = zero_every {
            if i % z == z - 1 {
                b = 0;
            }
        }
        out.push(b);
    }
    out
}

#[test]
fn encode_known_vectors() {
    // one zero byte becomes two code bytes
    assert_eq!(cobs_encode_frame(&[0x00]), vec![0x01, 0x01, 0x00]);
    // the classic example: zeros split the payload into blocks
    assert_eq!(cobs_encode_frame(&[0x11, 0x22, 0x00, 0x33]), vec![0x03, 0x11, 0x22, 0x02, 0x33, 0x00]);
    // no zeros: one block
    assert_eq!(cobs_encode_frame(&[0x11, 0x22, 0x33, 0x44]), vec![0x05, 0x11, 0x22, 0x33, 0x44, 0x00]);
    // empty payload: a single code byte
    assert_eq!(cobs_encode_frame(&[]), vec![0x01, 0x00]);
    // two zeros
    assert_eq!(cobs_encode_frame(&[0x00, 0x00]), vec![0x01, 0x01, 0x01, 0x00]);
}

#[test]
fn encode_full_block_boundary() {
    // exactly 254 non-zero bytes: one full block, no trailing empty block
    let data: Vec<u8> = (0..254).map(|i| (i % 255) as u8 + 1).collect();
    let frame = cobs_encode_frame(&data);
    assert_eq!(frame.len(), 256);
    assert_eq!(frame[0], 0xff);
    assert_eq!(&frame[1..255], &data[..]);
    assert_eq!(frame[255], 0x00);

    // 255 bytes: a full block then a two-byte block
    let data: Vec<u8> = (0..255).map(|_| 7u8).collect();
    let frame = cobs_encode_frame(&data);
    assert_eq!(frame[0], 0xff);
    assert_eq!(frame[255], 0x02);
    assert_eq!(frame[256], 7);
    assert_eq!(frame[257], 0x00);
}

#[test]
fn encoding_has_no_interior_zeros() {
    for seed in 0..8u64 {
        for &len in &[0usize, 1, 5, 63, 253, 254, 255, 300, 508, 509, 1000, 4096] {
            let data = lcg_bytes(seed, len, Some(17));
            let frame = cobs_encode_frame(&data);
            for &b in &frame[..frame.len() - 1] {
                assert_ne!(b, 0, "interior zero in encoding of len {}", len);
            }
            assert_eq!(*frame.last().unwrap(), 0);
        }
    }
}

#[test]
fn encoding_overhead_bound() {
    for seed in 0..4u64 {
        for &len in &[0usize, 1, 253, 254, 255, 300, 508, 509, 1000, 4096] {
            // worst case: no zeros at all
            let data = lcg_bytes(seed, len, None).iter().map(|&b| b | 1).collect::<Vec<u8>>();
            let frame = cobs_encode_frame(&data);
            let encoded_len = frame.len() - 1; // without the delimiter
            let ceil = (len + 253) / 254;
            assert!(
                encoded_len - len <= ceil + 1,
                "overhead {} over bound for len {}",
                encoded_len - len,
                len
            );
        }
    }
}

#[test]
fn one_shot_round_trip() {
    for seed in 0..8u64 {
        for &len in &[0usize, 1, 2, 63, 253, 254, 255, 300, 508, 509, 1000, 4096] {
            let data = lcg_bytes(seed, len, if seed % 2 == 0 { Some(29) } else { None });
            let frame = cobs_encode_frame(&data);
            // strip the delimiter and decode the frame body in place
            let mut body = frame[..frame.len() - 1].to_vec();
            let n = cobs_decode_in_place(&mut body).expect("valid frame must decode");
            assert_eq!(&body[..n], &data[..], "round trip failed for len {}", len);
        }
    }
}

#[test]
fn streaming_round_trip_whole_frame() {
    // the streaming decoder round-trips any payload whose zero-free runs
    // stay under a full block
    for seed in 0..8u64 {
        for &len in &[0usize, 1, 2, 63, 200, 254, 1000, 4096] {
            let data = lcg_bytes(seed, len, Some(101));
            let frame = cobs_encode_frame(&data);
            let mut decoder = CobsDecoder::new();
            // leading delimiter moves the decoder out of its idle state
            let mut stream = vec![0u8];
            stream.extend_from_slice(&frame);
            let (raw, size, status) = decoder.decode(&mut stream);
            assert_eq!(status, DecoderStatus::Finished);
            assert_eq!(raw, frame.len() + 1);
            assert_eq!(&stream[..size], &data[..]);
        }
    }
}

#[test]
fn streaming_equivalence_under_chunking() {
    // feeding the frame in chunks produces the same bytes and the same
    // boundary as feeding it whole
    let data = lcg_bytes(99, 600, Some(41));
    let frame = cobs_encode_frame(&data);
    let mut stream = vec![0u8];
    stream.extend_from_slice(&frame);

    for chunk_size in [1usize, 2, 3, 7, 64, 100, 601] {
        let mut decoder = CobsDecoder::new();
        let mut decoded: Vec<u8> = Vec::new();
        let mut finished = false;
        let mut offset = 0;
        while offset < stream.len() {
            let end = (offset + chunk_size).min(stream.len());
            let mut pos = offset;
            while pos < end {
                let mut piece = stream[pos..end].to_vec();
                let (raw, size, status) = decoder.decode(&mut piece);
                decoded.extend_from_slice(&piece[..size]);
                pos += raw;
                match status {
                    DecoderStatus::InProgress => {}
                    DecoderStatus::Finished => {
                        finished = true;
                        assert_eq!(pos, stream.len());
                    }
                    DecoderStatus::Error => panic!("unexpected framing error"),
                }
            }
            offset = end;
        }
        assert!(finished, "chunk size {} never finished", chunk_size);
        assert_eq!(decoded, data, "chunk size {} decoded differently", chunk_size);
    }
}

#[test]
fn streaming_decoder_discards_until_first_delimiter() {
    let mut decoder = CobsDecoder::new();
    let mut garbage = vec![5u8, 9, 200, 17];
    let (raw, size, status) = decoder.decode(&mut garbage);
    assert_eq!((raw, size), (4, 0));
    assert_eq!(status, DecoderStatus::InProgress);

    // a delimiter, then a whole frame
    let mut stream = vec![0u8, 0x03, 0x11, 0x22, 0x02, 0x33, 0x00];
    let (raw, size, status) = decoder.decode(&mut stream);
    assert_eq!(status, DecoderStatus::Finished);
    assert_eq!(raw, 7);
    assert_eq!(&stream[..size], &[0x11, 0x22, 0x00, 0x33]);
}

#[test]
fn streaming_decoder_reports_midframe_delimiter() {
    let mut decoder = CobsDecoder::new();
    // code byte 5 promises four data bytes, but a delimiter interrupts
    let mut stream = vec![0u8, 0x05, 0x11, 0x00];
    let (raw, size, status) = decoder.decode(&mut stream);
    assert_eq!(status, DecoderStatus::Error);
    assert_eq!(raw, 4);
    assert_eq!(size, 1);

    // the decoder resynchronises: the error left it at a boundary
    let mut stream = vec![0x02, 0x44, 0x00];
    let (_, size, status) = decoder.decode(&mut stream);
    assert_eq!(status, DecoderStatus::Finished);
    assert_eq!(&stream[..size], &[0x44]);
}

#[test]
fn streaming_decoder_tolerates_empty_frames() {
    let mut decoder = CobsDecoder::new();
    // consecutive delimiters produce no output and no boundary
    let mut stream = vec![0u8, 0, 0, 0];
    let (raw, size, status) = decoder.decode(&mut stream);
    assert_eq!((raw, size), (4, 0));
    assert_eq!(status, DecoderStatus::InProgress);

    let mut stream = vec![0x02, 0x55, 0x00];
    let (_, size, status) = decoder.decode(&mut stream);
    assert_eq!(status, DecoderStatus::Finished);
    assert_eq!(&stream[..size], &[0x55]);
}

#[test]
fn one_shot_decode_rejects_broken_frames() {
    // a code byte pointing past the end
    let mut buf = vec![0x05u8, 0x11];
    assert!(cobs_decode_in_place(&mut buf).is_err());
    // a zero code byte
    let mut buf = vec![0x00u8, 0x11];
    assert!(cobs_decode_in_place(&mut buf).is_err());
    // empty input decodes to the empty payload
    let mut buf: Vec<u8> = Vec::new();
    assert_eq!(cobs_decode_in_place(&mut buf), Ok(0));
}

#[test]
fn in_place_encoding_in_a_caller_buffer() {
    // generous padding before the payload, and a marker byte after the
    // delimiter slot: encode writes the frame at the start and nothing else
    let data = [0x11u8, 0x00, 0x22];
    let mut buffer = vec![0u8; 6];
    buffer.extend_from_slice(&data);
    buffer.push(0xEE);
    let n = cobs_encode_in_place(&mut buffer, 6, data.len());
    assert_eq!(&buffer[..n], &[0x02, 0x11, 0x02, 0x22, 0x00]);
    // bytes past the frame are untouched
    assert_eq!(buffer[9], 0xEE);
    assert_eq!(buffer.len(), 10);
}

#[test]
fn decoder_leaves_unconsumed_bytes_in_place() {
    // two frames in one buffer: after the first boundary, the rest is
    // still there to resume from
    let mut decoder = CobsDecoder::new();
    let mut stream = vec![0u8, 0x02, 0x41, 0x00, 0x02, 0x42, 0x00];
    let (raw, size, status) = decoder.decode(&mut stream);
    assert_eq!((raw, size), (4, 1));
    assert_eq!(status, DecoderStatus::Finished);
    assert_eq!(stream[0], 0x41);
    // everything from the consumed point on is untouched
    assert_eq!(&stream[raw..], &[0x02, 0x42, 0x00]);
    let mut rest = stream[raw..].to_vec();
    let (_, size, status) = decoder.decode(&mut rest);
    assert_eq!(status, DecoderStatus::Finished);
    assert_eq!(&rest[..size], &[0x42]);
}

#[test]
fn decoder_reset_returns_to_idle() {
    let mut decoder = CobsDecoder::new();
    let mut stream = vec![0u8, 0x03, 0x11];
    let (_, _, status) = decoder.decode(&mut stream);
    assert_eq!(status, DecoderStatus::InProgress);
    decoder.reset();
    // after a reset, bytes are discarded until the next delimiter
    let mut stream = vec![0x22u8, 0x33];
    let (raw, size, status) = decoder.decode(&mut stream);
    assert_eq!((raw, size), (2, 0));
    assert_eq!(status, DecoderStatus::InProgress);
}
