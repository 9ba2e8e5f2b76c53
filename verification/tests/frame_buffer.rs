//! The host receive buffer: frames extracted across arbitrary deliveries.

use deadbug::channels::FrameBuffer;
use deadbug::cobs::cobs_encode_frame;

#[test]
fn extracts_one_frame_after_separators() {
    let mut fb = FrameBuffer::new();
    fb.extend(&[0, 0, 0]);
    fb.extend(&cobs_encode_frame(&[0x11, 0x22, 0x00, 0x33]));
    assert_eq!(fb.next_frame(), Some(vec![0x11, 0x22, 0x00, 0x33]));
    assert_eq!(fb.next_frame(), None);
}

#[test]
fn incomplete_frames_wait_for_more_bytes() {
    let mut fb = FrameBuffer::new();
    let frame = cobs_encode_frame(&[1, 2, 3, 4, 5]);
    let (head, tail) = frame.split_at(3);
    fb.extend(head);
    assert_eq!(fb.next_frame(), None);
    fb.extend(tail);
    assert_eq!(fb.next_frame(), Some(vec![1, 2, 3, 4, 5]));
}

#[test]
fn broken_frames_are_dropped_whole() {
    let mut fb = FrameBuffer::new();
    // a code byte pointing past the delimiter, then a valid frame
    fb.extend(&[9, 1, 2, 0]);
    fb.extend(&cobs_encode_frame(&[7]));
    assert_eq!(fb.next_frame(), None);
    assert_eq!(fb.next_frame(), Some(vec![7]));
}

#[test]
fn frames_queue_up_in_order() {
    let mut fb = FrameBuffer::new();
    fb.extend(&cobs_encode_frame(&[1]));
    fb.extend(&cobs_encode_frame(&[2, 2]));
    fb.extend(&cobs_encode_frame(&[]));
    fb.extend(&cobs_encode_frame(&[3, 0, 3]));
    assert_eq!(fb.next_frame(), Some(vec![1]));
    assert_eq!(fb.next_frame(), Some(vec![2, 2]));
    assert_eq!(fb.next_frame(), Some(vec![]));
    assert_eq!(fb.next_frame(), Some(vec![3, 0, 3]));
    assert_eq!(fb.next_frame(), None);
}
