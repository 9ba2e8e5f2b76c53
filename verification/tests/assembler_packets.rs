//! Tests of the packet assembler: resynchronisation after garbage, frames
//! split across arbitrary chunks, oversize and broken frames, and the
//! length-prefixed records the consumer reads back.

use deadbug::assembler::{PacketConsumer, PacketProcessor};
use deadbug::bip::BipBuffer;
use deadbug::cobs::cobs_encode_frame;

fn produce(q: &mut BipBuffer, bytes: &[u8]) {
    let g = q.grant(bytes.len()).expect("grant");
    for (i, &b) in bytes.iter().enumerate() {
        q.write_byte(&g, i, b);
    }
    q.commit(bytes.len(), g);
}

/// Run the assembler until it stops making progress, then collect every
/// packet published to the packet queue.
fn pump_and_collect(
    assembler: &mut PacketProcessor,
    input: &mut BipBuffer,
    packets: &mut BipBuffer,
) -> Vec<Vec<u8>> {
    for _ in 0..64 {
        assembler.process(input, packets);
    }
    let mut consumer = PacketConsumer::new();
    let mut out = Vec::new();
    while let Some(grant) = consumer.read(packets) {
        out.push(grant.packet().clone());
        consumer.release_consume(packets, grant);
    }
    out
}

#[test]
fn assembles_one_frame() {
    let mut input = BipBuffer::new(512);
    let mut packets = BipBuffer::new(512);
    let mut assembler = PacketProcessor::new(128);
    let mut stream = vec![0u8];
    stream.extend_from_slice(&cobs_encode_frame(&[1, 2, 0, 3]));
    produce(&mut input, &stream);
    let got = pump_and_collect(&mut assembler, &mut input, &mut packets);
    assert_eq!(got, vec![vec![1, 2, 0, 3]]);
}

#[test]
fn resynchronises_after_garbage() {
    // arbitrary garbage ending in a delimiter, then a valid frame: the
    // first and only packet published is that frame's payload
    let mut input = BipBuffer::new(4096);
    let mut packets = BipBuffer::new(512);
    let mut assembler = PacketProcessor::new(128);

    let mut stream: Vec<u8> = Vec::new();
    let mut state: u64 = 12345;
    for _ in 0..2000 {
        state = state.wrapping_mul(6364136223846793005).wrapping_add(1442695040888963407);
        stream.push(((state >> 33) as u8) | 1); // never a delimiter
    }
    stream.push(0);
    stream.extend_from_slice(&cobs_encode_frame(&[1, 1, 0]));

    // feed in bounded chunks so the read grants stay small
    for chunk in stream.chunks(100) {
        produce(&mut input, chunk);
        for _ in 0..8 {
            assembler.process(&mut input, &mut packets);
        }
    }
    let got = pump_and_collect(&mut assembler, &mut input, &mut packets);
    assert_eq!(got, vec![vec![1, 1, 0]]);
}

#[test]
fn frames_survive_any_chunking() {
    let payloads: Vec<Vec<u8>> = vec![
        vec![9],
        vec![0, 0, 0],
        (0..100).map(|i| (i % 7) as u8).collect(),
        vec![1, 2, 3, 4, 5],
    ];
    let mut stream = vec![0u8];
    for p in &payloads {
        stream.extend_from_slice(&cobs_encode_frame(p));
    }
    for chunk_size in [1usize, 2, 3, 5, 17, 64, 1000] {
        let mut input = BipBuffer::new(4096);
        let mut packets = BipBuffer::new(1024);
        let mut assembler = PacketProcessor::new(128);
        let mut all: Vec<Vec<u8>> = Vec::new();
        for chunk in stream.chunks(chunk_size) {
            produce(&mut input, chunk);
            all.extend(pump_and_collect(&mut assembler, &mut input, &mut packets));
        }
        assert_eq!(all, payloads, "chunk size {}", chunk_size);
    }
}

#[test]
fn oversize_frame_is_dropped_and_stream_recovers() {
    let mut input = BipBuffer::new(4096);
    let mut packets = BipBuffer::new(512);
    // room for payloads up to 16 bytes
    let mut assembler = PacketProcessor::new(16);
    let big: Vec<u8> = (0..200).map(|i| (i % 5) as u8).collect();
    let mut stream = vec![0u8];
    stream.extend_from_slice(&cobs_encode_frame(&big));
    stream.extend_from_slice(&cobs_encode_frame(&[42, 43]));
    for chunk in stream.chunks(50) {
        produce(&mut input, chunk);
        for _ in 0..16 {
            assembler.process(&mut input, &mut packets);
        }
    }
    let got = pump_and_collect(&mut assembler, &mut input, &mut packets);
    assert_eq!(got, vec![vec![42, 43]]);
}

#[test]
fn empty_and_broken_frames_publish_nothing() {
    let mut input = BipBuffer::new(512);
    let mut packets = BipBuffer::new(512);
    let mut assembler = PacketProcessor::new(128);
    let mut stream = vec![0u8];
    // an empty frame: two consecutive delimiters
    stream.push(0);
    // a broken frame: code byte runs past the delimiter
    stream.extend_from_slice(&[9, 1, 2, 0]);
    // then a valid one
    stream.extend_from_slice(&cobs_encode_frame(&[7, 7]));
    produce(&mut input, &stream);
    let got = pump_and_collect(&mut assembler, &mut input, &mut packets);
    assert_eq!(got, vec![vec![7, 7]]);
}

#[test]
fn consumer_leaves_packet_on_release_unread() {
    let mut input = BipBuffer::new(512);
    let mut packets = BipBuffer::new(512);
    let mut assembler = PacketProcessor::new(128);
    let mut stream = vec![0u8];
    stream.extend_from_slice(&cobs_encode_frame(&[5, 6, 7]));
    produce(&mut input, &stream);
    for _ in 0..8 {
        assembler.process(&mut input, &mut packets);
    }
    let mut consumer = PacketConsumer::new();
    let grant = consumer.read(&mut packets).expect("packet");
    assert_eq!(grant.packet(), &vec![5, 6, 7]);
    consumer.release_unread(&mut packets, grant);
    // still there for the next attempt
    let grant = consumer.read(&mut packets).expect("packet again");
    assert_eq!(grant.packet(), &vec![5, 6, 7]);
    consumer.release_consume(&mut packets, grant);
    assert!(consumer.read(&mut packets).is_none());
}
