//! Transmit scheduling for the USB serial endpoint.
//!
//! A USB host treats a transfer as finished only when a packet shorter than
//! the endpoint's maximum arrives. After [`SHORT_PACKET_INTERVAL`]
//! consecutive full-size packets the scheduler therefore forces a short
//! packet - a zero-length one if the queue is empty, a truncated one
//! otherwise - so the host flushes what it has. The decisions are made
//! here; the I/O that carries them out stays with the caller, which reports
//! back how many bytes each write took.

use vstd::prelude::*;

verus! {

/// After this many consecutive full-size packets, force a short one.
pub const SHORT_PACKET_INTERVAL: usize = 10;

/// What kind of packet is currently in flight.
#[derive(Debug, Clone, Copy, PartialEq, Eq, Structural)]
pub enum WriteState {
    /// No packet in flight.
    Idle,
    /// A short packet is in flight; the host will flush after it.
    Short,
    /// Full-size packets are in flight; the field counts how many in a row.
    Full(usize),
}

/// What the endpoint should do next.
#[derive(Debug, Clone, Copy, PartialEq, Eq, Structural)]
pub enum TxAction {
    /// Send a zero-length packet so the host flushes.
    SendZeroLength,
    /// Send this many bytes from the front of the queue.
    SendData(usize),
    /// Nothing to send; wait for more queued bytes.
    Wait,
}

/// How many full-size packets are in flight in a row.
pub open spec fn full_count(s: WriteState) -> usize {
    match s {
        WriteState::Full(c) => c,
        _ => 0,
    }
}

/// Decides what each poll of the transmit endpoint sends.
pub struct TxScheduler {
    state: WriteState,
}

impl View for TxScheduler {
    type V = WriteState;

    closed spec fn view(&self) -> WriteState {
        self.state
    }
}

impl TxScheduler {
    pub fn new() -> (r: Self)
        ensures
            r@ is Idle,
    {
        TxScheduler { state: WriteState::Idle }
    }

    /// Decide the next write, given `queued` readable bytes and the
    /// endpoint's maximum packet size. With nothing queued, a zero-length
    /// packet goes out only if a flush is overdue; with data queued, a full
    /// packet goes out unless a flush is overdue, in which case one byte is
    /// held back to make the packet short.
    pub fn plan(&mut self, queued: usize, max_packet_size: usize) -> (r: TxAction)
        requires
            max_packet_size >= 1,
        ensures
            ({
                let fc = full_count(old(self)@);
                &&& (queued == 0 && fc >= SHORT_PACKET_INTERVAL ==> r is SendZeroLength
                    && final(self)@ == old(self)@)
                &&& (queued == 0 && fc < SHORT_PACKET_INTERVAL ==> r is Wait && final(self)@ is Idle)
                &&& (queued > 0 ==> r == TxAction::SendData(
                    if (if fc >= SHORT_PACKET_INTERVAL {
                        (max_packet_size - 1) as usize
                    } else {
                        max_packet_size
                    }) <= queued {
                        if fc >= SHORT_PACKET_INTERVAL {
                            (max_packet_size - 1) as usize
                        } else {
                            max_packet_size
                        }
                    } else {
                        queued
                    },
                ) && final(self)@ == old(self)@)
            }),
    {
        let fc = match self.state {
            WriteState::Full(c) => c,
            _ => 0,
        };
        if queued == 0 {
            if fc >= SHORT_PACKET_INTERVAL {
                TxAction::SendZeroLength
            } else {
                self.state = WriteState::Idle;
                TxAction::Wait
            }
        } else {
            let max_write = if fc >= SHORT_PACKET_INTERVAL {
                max_packet_size - 1
            } else {
                max_packet_size
            };
            let size = if max_write <= queued {
                max_write
            } else {
                queued
            };
            TxAction::SendData(size)
        }
    }

    /// Record a completed write of `actual` bytes. A full-size packet
    /// extends the run (the count saturates at the interval, where its
    /// exact value stops mattering); anything shorter, a zero-length packet
    /// included, ends it.
    pub fn sent(&mut self, actual: usize, max_packet_size: usize)
        requires
            max_packet_size >= 1,
        ensures
            ({
                let fc = full_count(old(self)@);
                &&& (actual == max_packet_size ==> final(self)@ is Full && full_count(final(self)@)
                    == if fc < SHORT_PACKET_INTERVAL {
                    (fc + 1) as usize
                } else {
                    fc
                })
                &&& (actual != max_packet_size ==> final(self)@ is Short)
            }),
    {
        if actual == max_packet_size {
            let fc = match self.state {
                WriteState::Full(c) => c,
                _ => 0,
            };
            if fc < SHORT_PACKET_INTERVAL {
                self.state = WriteState::Full(fc + 1);
            } else {
                self.state = WriteState::Full(fc);
            }
        } else {
            self.state = WriteState::Short;
        }
    }
}

} // verus!
