//! Tests of the transmit scheduling policy: full-size packets flow freely,
//! and after ten in a row a short packet is forced so the host flushes.

use deadbug::serial::{TxAction, TxScheduler, SHORT_PACKET_INTERVAL};

const MPS: usize = 64;

#[test]
fn idle_queue_waits() {
    let mut s = TxScheduler::new();
    assert_eq!(s.plan(0, MPS), TxAction::Wait);
}

#[test]
fn short_data_goes_out_whole() {
    let mut s = TxScheduler::new();
    assert_eq!(s.plan(10, MPS), TxAction::SendData(10));
    s.sent(10, MPS);
    // a short packet ended the transfer; the next data flows normally
    assert_eq!(s.plan(100, MPS), TxAction::SendData(MPS));
}

#[test]
fn zero_length_packet_after_interval() {
    let mut s = TxScheduler::new();
    for _ in 0..SHORT_PACKET_INTERVAL {
        assert_eq!(s.plan(MPS, MPS), TxAction::SendData(MPS));
        s.sent(MPS, MPS);
    }
    // the queue is now empty and a flush is overdue
    assert_eq!(s.plan(0, MPS), TxAction::SendZeroLength);
    s.sent(0, MPS);
    // the flush reset the run
    assert_eq!(s.plan(0, MPS), TxAction::Wait);
}

#[test]
fn truncated_packet_after_interval_with_data() {
    let mut s = TxScheduler::new();
    for _ in 0..SHORT_PACKET_INTERVAL {
        assert_eq!(s.plan(MPS, MPS), TxAction::SendData(MPS));
        s.sent(MPS, MPS);
    }
    // plenty queued, but one byte is held back to make the packet short
    assert_eq!(s.plan(1000, MPS), TxAction::SendData(MPS - 1));
    s.sent(MPS - 1, MPS);
    assert_eq!(s.plan(1000, MPS), TxAction::SendData(MPS));
}

#[test]
fn run_counter_saturates() {
    let mut s = TxScheduler::new();
    for _ in 0..(SHORT_PACKET_INTERVAL * 3) {
        s.sent(MPS, MPS);
    }
    // still overdue for a flush, and a short packet still clears it
    assert_eq!(s.plan(0, MPS), TxAction::SendZeroLength);
    s.sent(0, MPS);
    assert_eq!(s.plan(MPS, MPS), TxAction::SendData(MPS));
}
