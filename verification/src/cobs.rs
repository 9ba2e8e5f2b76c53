//! COBS (Consistent Overhead Byte Stuffing) codec.
//!
//! A frame is a byte string re-coded so that `0x00` never appears inside it;
//! `0x00` then delimits frames on the wire. The encoding splits the payload
//! into blocks at each zero byte and after every 254 consecutive non-zero
//! bytes; each block is a code byte (distance to the next block) followed by
//! the block's non-zero bytes.
//!
//! The module provides the mathematical model of the encoding
//! ([`cobs_encode`], [`cobs_decode`], [`decoder_run`]), an in-place encoder
//! and an in-place one-shot decoder over byte vectors, and a resumable
//! streaming decoder ([`CobsDecoder`]).

use vstd::prelude::*;
use vstd::arithmetic::div_mod::{lemma_div_is_ordered, lemma_div_minus_one, lemma_div_pos_is_pos};

verus! {

/// Index of the first `0x00` in `s`, or `s.len()` if there is none.
pub open spec fn first_zero(s: Seq<u8>) -> int
    decreases s.len(),
{
    if s.len() == 0 {
        0
    } else if s[0] == 0 {
        0
    } else {
        1 + first_zero(s.skip(1))
    }
}

pub proof fn lemma_first_zero(s: Seq<u8>)
    ensures
        0 <= first_zero(s) <= s.len(),
        forall|i: int| 0 <= i < first_zero(s) ==> s[i] != 0,
        first_zero(s) < s.len() ==> s[first_zero(s)] == 0,
    decreases s.len(),
{
    if s.len() == 0 {
    } else if s[0] == 0 {
    } else {
        lemma_first_zero(s.skip(1));
        let fz = first_zero(s);
        assert forall|i: int| 0 <= i < fz implies s[i] != 0 by {
            if i > 0 {
                assert(s.skip(1)[i - 1] == s[i]);
            }
        }
        if fz < s.len() {
            assert(s.skip(1)[fz - 1] == s[fz]);
        }
    }
}

/// The encoded form of `data`, without the trailing `0x00` delimiter.
///
/// A block whose code is less than `0xff` stands for its bytes followed by a
/// zero; a `0xff` block stands for 254 bytes with no zero after them. A
/// payload that ends exactly at a full block is emitted without a trailing
/// empty block, mirroring the in-place encoder below.
pub open spec fn cobs_encode(data: Seq<u8>) -> Seq<u8>
    decreases data.len(),
{
    let fz = first_zero(data);
    if 0 <= fz < 254 && fz < data.len() {
        seq![(fz + 1) as u8] + data.take(fz) + cobs_encode(data.skip(fz + 1))
    } else if data.len() < 254 {
        seq![(data.len() + 1) as u8] + data
    } else if data.len() == 254 {
        seq![255u8] + data
    } else {
        seq![255u8] + data.take(254) + cobs_encode(data.skip(254))
    }
}

/// The decoded form of an encoded frame body (the bytes between two `0x00`
/// delimiters), or `None` if the block structure is broken: a zero code
/// byte, or a code pointing past the end.
pub open spec fn cobs_decode(enc: Seq<u8>) -> Option<Seq<u8>>
    decreases enc.len(),
{
    if enc.len() == 0 {
        Some(seq![])
    } else if enc[0] == 0 || enc.len() < enc[0] {
        None
    } else {
        let code = enc[0] as int;
        let body = enc.subrange(1, code);
        match cobs_decode(enc.skip(code)) {
            None => None,
            Some(tail) => Some(
                if code < enc.len() && enc[0] != 255 {
                    body + seq![0u8] + tail
                } else {
                    body + tail
                },
            ),
        }
    }
}

/// The encoding is never empty and never contains a zero byte.
pub proof fn lemma_encode_no_zeros(data: Seq<u8>)
    ensures
        cobs_encode(data).len() >= 1,
        forall|i: int| 0 <= i < cobs_encode(data).len() ==> cobs_encode(data)[i] != 0,
    decreases data.len(),
{
    lemma_first_zero(data);
    let fz = first_zero(data);
    let e = cobs_encode(data);
    if 0 <= fz < 254 && fz < data.len() {
        lemma_encode_no_zeros(data.skip(fz + 1));
        let r = cobs_encode(data.skip(fz + 1));
        assert forall|i: int| 0 <= i < e.len() implies e[i] != 0 by {
            if i == 0 {
                assert(e[0] == (fz + 1) as u8);
            } else if i < 1 + fz {
                assert(e[i] == data.take(fz)[i - 1]);
                assert(data[i - 1] != 0);
            } else {
                assert(e[i] == r[i - 1 - fz]);
            }
        }
    } else if data.len() < 254 {
        assert forall|i: int| 0 <= i < e.len() implies e[i] != 0 by {
            if i == 0 {
                assert(e[0] == (data.len() + 1) as u8);
            } else {
                assert(e[i] == data[i - 1]);
                assert(data[i - 1] != 0);
            }
        }
    } else if data.len() == 254 {
        assert forall|i: int| 0 <= i < e.len() implies e[i] != 0 by {
            if i > 0 {
                assert(e[i] == data[i - 1]);
                assert(data[i - 1] != 0);
            }
        }
    } else {
        lemma_encode_no_zeros(data.skip(254));
        let r = cobs_encode(data.skip(254));
        assert forall|i: int| 0 <= i < e.len() implies e[i] != 0 by {
            if i == 0 {
            } else if i < 255 {
                assert(e[i] == data.take(254)[i - 1]);
                assert(data[i - 1] != 0);
            } else {
                assert(e[i] == r[i - 255]);
            }
        }
    }
}

/// Size of the encoding: at least one byte, and at most
/// `data.len() + data.len() / 254 + 1`.
pub proof fn lemma_encode_len(data: Seq<u8>)
    ensures
        1 <= cobs_encode(data).len() <= data.len() + data.len() / 254 + 1,
    decreases data.len(),
{
    lemma_first_zero(data);
    let fz = first_zero(data);
    let n = data.len() as int;
    if 0 <= fz < 254 && fz < data.len() {
        lemma_encode_len(data.skip(fz + 1));
        let m = n - fz - 1;
        assert(cobs_encode(data).len() <= 1 + fz + m + m / 254 + 1);
        lemma_div_is_ordered(m, n, 254);
    } else if data.len() < 254 {
    } else if data.len() == 254 {
        lemma_div_pos_is_pos(n, 254);
        assert(n / 254 >= 1) by {
            assert(254int / 254 == 1);
            lemma_div_is_ordered(254, n, 254);
        }
    } else {
        lemma_encode_len(data.skip(254));
        let m = n - 254;
        assert(cobs_encode(data).len() <= 255 + m + m / 254 + 1);
        lemma_div_minus_one(n, 254);
        assert(m / 254 == n / 254 - 1);
    }
}

/// The encoding overhead is bounded by one byte per 254 payload bytes,
/// rounded up, plus one.
pub proof fn lemma_encode_overhead(data: Seq<u8>)
    ensures
        cobs_encode(data).len() - data.len() <= (data.len() + 253) / 254 + 1,
{
    lemma_encode_len(data);
    lemma_div_is_ordered(data.len() as int, data.len() + 253int, 254);
}

/// Decoding inverts encoding: every payload round-trips through the codec.
pub proof fn lemma_decode_encode(data: Seq<u8>)
    ensures
        cobs_decode(cobs_encode(data)) == Some(data),
    decreases data.len(),
{
    lemma_first_zero(data);
    let fz = first_zero(data);
    let e = cobs_encode(data);
    if 0 <= fz < 254 && fz < data.len() {
        let r = cobs_encode(data.skip(fz + 1));
        lemma_encode_len(data.skip(fz + 1));
        lemma_encode_no_zeros(data.skip(fz + 1));
        lemma_decode_encode(data.skip(fz + 1));
        assert(e[0] == (fz + 1) as u8);
        let code = fz + 1;
        assert(e.len() == 1 + fz + r.len());
        assert(e.subrange(1, code) =~= data.take(fz));
        assert(e.skip(code) =~= r);
        assert(data.take(fz) + seq![0u8] + data.skip(fz + 1) =~= data);
    } else if data.len() < 254 {
        let n = data.len() as int;
        assert(e[0] == (n + 1) as u8);
        assert(e.len() == n + 1);
        assert(e.subrange(1, n + 1) =~= data);
        assert(e.skip(n + 1) =~= Seq::<u8>::empty());
        assert(cobs_decode(e.skip(n + 1)) == Some(Seq::<u8>::empty()));
        assert(data + Seq::<u8>::empty() =~= data);
    } else if data.len() == 254 {
        assert(e[0] == 255u8);
        assert(e.len() == 255);
        assert(e.subrange(1, 255) =~= data);
        assert(e.skip(255) =~= Seq::<u8>::empty());
        assert(cobs_decode(e.skip(255)) == Some(Seq::<u8>::empty()));
        assert(data + Seq::<u8>::empty() =~= data);
    } else {
        let r = cobs_encode(data.skip(254));
        lemma_encode_len(data.skip(254));
        lemma_decode_encode(data.skip(254));
        assert(e[0] == 255u8);
        assert(e.len() == 255 + r.len());
        assert(e.subrange(1, 255) =~= data.take(254));
        assert(e.skip(255) =~= r);
        assert(data.take(254) + data.skip(254) =~= data);
    }
}

/// Status reported by the streaming decoder after a call.
#[derive(Debug, Clone, Copy, PartialEq, Eq, Structural)]
pub enum DecoderStatus {
    /// More bytes are needed before the frame ends.
    InProgress,
    /// A frame boundary was reached; the decoded frame is complete.
    Finished,
    /// A `0x00` appeared in the middle of a block; the frame is broken.
    Error,
}

/// State of the streaming decoder between bytes.
#[derive(Debug, Clone, Copy, PartialEq, Eq, Structural)]
pub enum DecoderState {
    /// Discarding bytes until the first `0x00` delimiter.
    Idle,
    /// Immediately after a delimiter, awaiting the first code byte.
    Start,
    /// Inside a frame; the field counts the data bytes left in the block.
    Decoding(u8),
}

/// One transition of the streaming decoder: the next state, the bytes it
/// emits (none or one), and the status of the step.
pub open spec fn decoder_step(s: DecoderState, b: u8) -> (DecoderState, Seq<u8>, DecoderStatus) {
    match s {
        DecoderState::Idle => (
            if b == 0 {
                DecoderState::Start
            } else {
                DecoderState::Idle
            },
            seq![],
            DecoderStatus::InProgress,
        ),
        DecoderState::Start => (
            if b == 0 {
                DecoderState::Start
            } else {
                DecoderState::Decoding((b - 1) as u8)
            },
            seq![],
            DecoderStatus::InProgress,
        ),
        DecoderState::Decoding(k) => {
            if k == 0 {
                if b == 0 {
                    (DecoderState::Start, seq![], DecoderStatus::Finished)
                } else {
                    (DecoderState::Decoding((b - 1) as u8), seq![0u8], DecoderStatus::InProgress)
                }
            } else {
                if b == 0 {
                    (DecoderState::Start, seq![], DecoderStatus::Error)
                } else {
                    (DecoderState::Decoding((k - 1) as u8), seq![b], DecoderStatus::InProgress)
                }
            }
        },
    }
}

/// Result of running the streaming decoder over an input sequence.
pub struct DecodeRun {
    /// The decoder state after the run.
    pub state: DecoderState,
    /// The data bytes emitted by the run.
    pub output: Seq<u8>,
    /// How many input bytes the run consumed.
    pub used: int,
    /// `InProgress` when the input ran out, otherwise the terminal status.
    pub status: DecoderStatus,
}

/// Run the streaming decoder from state `s` over `input`, stopping at the
/// first `Finished` or `Error` step, or at the end of the input.
pub open spec fn decoder_run(s: DecoderState, input: Seq<u8>) -> DecodeRun
    decreases input.len(),
{
    if input.len() == 0 {
        DecodeRun { state: s, output: seq![], used: 0, status: DecoderStatus::InProgress }
    } else {
        let (s2, out, st) = decoder_step(s, input[0]);
        if st != DecoderStatus::InProgress {
            DecodeRun { state: s2, output: out, used: 1, status: st }
        } else {
            let rest = decoder_run(s2, input.skip(1));
            DecodeRun {
                state: rest.state,
                output: out + rest.output,
                used: 1 + rest.used,
                status: rest.status,
            }
        }
    }
}

/// Bounds of a run: it consumes at most the input, emits at most one byte
/// per consumed byte, and consumes everything unless it ended a frame.
pub proof fn lemma_decoder_run_bounds(s: DecoderState, input: Seq<u8>)
    ensures
        0 <= decoder_run(s, input).used <= input.len(),
        decoder_run(s, input).output.len() <= decoder_run(s, input).used,
        decoder_run(s, input).status is InProgress ==> decoder_run(s, input).used == input.len(),
    decreases input.len(),
{
    if input.len() == 0 {
    } else {
        let (s2, out, st) = decoder_step(s, input[0]);
        if st != DecoderStatus::InProgress {
        } else {
            lemma_decoder_run_bounds(s2, input.skip(1));
        }
    }
}

/// Feeding an input in two pieces is the same as feeding it whole: the
/// second run picks up in the state the first one left behind.
pub proof fn lemma_decoder_run_append(s: DecoderState, a: Seq<u8>, b: Seq<u8>)
    ensures
        ({
            let ra = decoder_run(s, a);
            let rb = decoder_run(ra.state, b);
            let rab = decoder_run(s, a + b);
            if ra.status is InProgress {
                &&& rab.state == rb.state
                &&& rab.output == ra.output + rb.output
                &&& rab.used == a.len() + rb.used
                &&& rab.status == rb.status
            } else {
                &&& rab.state == ra.state
                &&& rab.output == ra.output
                &&& rab.used == ra.used
                &&& rab.status == ra.status
            }
        }),
    decreases a.len(),
{
    let ra = decoder_run(s, a);
    if a.len() == 0 {
        assert(a + b =~= b);
        assert(ra.output + decoder_run(s, b).output =~= decoder_run(s, b).output);
    } else {
        let (s2, out, st) = decoder_step(s, a[0]);
        assert((a + b)[0] == a[0]);
        assert((a + b).len() > 0);
        if st != DecoderStatus::InProgress {
        } else {
            lemma_decoder_run_append(s2, a.skip(1), b);
            assert((a + b).skip(1) =~= a.skip(1) + b);
            let ra2 = decoder_run(s2, a.skip(1));
            if ra2.status is InProgress {
                let rb = decoder_run(ra2.state, b);
                assert(out + (ra2.output + rb.output) =~= (out + ra2.output) + rb.output);
            }
        }
    }
}

/// From `Decoding(k)`, `k` non-zero bytes are emitted verbatim and leave the
/// decoder at the end of the block.
proof fn lemma_run_decoding_nonzero(k: u8, p: Seq<u8>, rest: Seq<u8>)
    requires
        p.len() == k,
        forall|i: int| 0 <= i < p.len() ==> p[i] != 0,
    ensures
        ({
            let sub = decoder_run(DecoderState::Decoding(0), rest);
            let r = decoder_run(DecoderState::Decoding(k), p + rest);
            &&& r.output == p + sub.output
            &&& r.used == k + sub.used
            &&& r.state == sub.state
            &&& r.status == sub.status
        }),
    decreases k,
{
    let sub = decoder_run(DecoderState::Decoding(0), rest);
    if k == 0 {
        assert(p + rest =~= rest);
        assert(p + sub.output =~= sub.output);
    } else {
        assert((p + rest)[0] == p[0]);
        assert(p[0] != 0);
        lemma_run_decoding_nonzero((k - 1) as u8, p.skip(1), rest);
        assert((p + rest).skip(1) =~= p.skip(1) + rest);
        assert(seq![p[0]] + (p.skip(1) + sub.output) =~= p + sub.output);
    }
}

/// At the end of a block, the decoder emits the zero the block stood for
/// and then behaves exactly as a fresh frame start would.
proof fn lemma_block_end_vs_start(w: Seq<u8>)
    requires
        w.len() >= 1,
        w[0] != 0,
    ensures
        ({
            let a = decoder_run(DecoderState::Decoding(0), w);
            let b = decoder_run(DecoderState::Start, w);
            &&& a.output == seq![0u8] + b.output
            &&& a.used == b.used
            &&& a.state == b.state
            &&& a.status == b.status
        }),
{
    let b = decoder_run(DecoderState::Start, w);
    let rest = decoder_run(DecoderState::Decoding((w[0] - 1) as u8), w.skip(1));
    assert(seq![0u8] + (Seq::<u8>::empty() + rest.output) =~= seq![0u8] + rest.output);
    assert(Seq::<u8>::empty() + rest.output =~= rest.output);
}

/// Holds when no full (254-byte) block of the encoding is followed by more
/// data. Only such payloads survive a round trip through the streaming
/// decoder: after a full block it emits a zero that was never in the
/// payload.
pub open spec fn cobs_stream_decodable(data: Seq<u8>) -> bool
    decreases data.len(),
{
    let fz = first_zero(data);
    if 0 <= fz < 254 && fz < data.len() {
        cobs_stream_decodable(data.skip(fz + 1))
    } else {
        data.len() <= 254
    }
}

/// Payloads of at most 254 bytes are always streaming-decodable.
pub proof fn lemma_short_stream_decodable(data: Seq<u8>)
    requires
        data.len() <= 254,
    ensures
        cobs_stream_decodable(data),
    decreases data.len(),
{
    lemma_first_zero(data);
    let fz = first_zero(data);
    if 0 <= fz < 254 && fz < data.len() {
        lemma_short_stream_decodable(data.skip(fz + 1));
    }
}

/// Streaming round trip: fed an encoded frame and its `0x00` delimiter from
/// a frame boundary, the streaming decoder consumes exactly the frame,
/// reports `Finished`, and emits the original payload.
pub proof fn lemma_stream_round_trip(data: Seq<u8>)
    requires
        cobs_stream_decodable(data),
    ensures
        ({
            let r = decoder_run(DecoderState::Start, cobs_encode(data) + seq![0u8]);
            &&& r.status is Finished
            &&& r.output == data
            &&& r.used == cobs_encode(data).len() + 1
            &&& r.state is Start
        }),
    decreases data.len(),
{
    lemma_first_zero(data);
    let fz = first_zero(data);
    let e = cobs_encode(data);
    let n = data.len() as int;
    if 0 <= fz < 254 && fz < data.len() {
        let c = (fz + 1) as u8;
        let t = data.take(fz);
        let r2 = cobs_encode(data.skip(fz + 1));
        lemma_encode_no_zeros(data.skip(fz + 1));
        lemma_stream_round_trip(data.skip(fz + 1));
        assert(e + seq![0u8] =~= seq![c] + (t + (r2 + seq![0u8])));
        assert((seq![c] + (t + (r2 + seq![0u8])))[0] == c);
        assert((seq![c] + (t + (r2 + seq![0u8]))).skip(1) =~= t + (r2 + seq![0u8]));
        lemma_run_decoding_nonzero(fz as u8, t, r2 + seq![0u8]);
        assert((r2 + seq![0u8])[0] == r2[0]);
        lemma_block_end_vs_start(r2 + seq![0u8]);
        let x = decoder_run(DecoderState::Start, r2 + seq![0u8]);
        let r = decoder_run(DecoderState::Start, e + seq![0u8]);
        assert(r.output == Seq::<u8>::empty() + (t + (seq![0u8] + x.output)));
        assert(Seq::<u8>::empty() + (t + (seq![0u8] + data.skip(fz + 1))) =~= data);
    } else if data.len() < 254 {
        let c = (n + 1) as u8;
        assert(e + seq![0u8] =~= seq![c] + (data + seq![0u8]));
        assert((seq![c] + (data + seq![0u8]))[0] == c);
        assert((seq![c] + (data + seq![0u8])).skip(1) =~= data + seq![0u8]);
        lemma_run_decoding_nonzero(n as u8, data, seq![0u8]);
        let sub = decoder_run(DecoderState::Decoding(0), seq![0u8]);
        assert(sub.status is Finished && sub.used == 1 && sub.output =~= Seq::<u8>::empty());
        let r = decoder_run(DecoderState::Start, e + seq![0u8]);
        assert(r.output == Seq::<u8>::empty() + (data + Seq::<u8>::empty()));
        assert(Seq::<u8>::empty() + (data + Seq::<u8>::empty()) =~= data);
    } else {
        // data.len() == 254 and no zero among the first 254 bytes
        assert(data.len() == 254);
        assert(e + seq![0u8] =~= seq![255u8] + (data + seq![0u8]));
        assert((seq![255u8] + (data + seq![0u8]))[0] == 255u8);
        assert((seq![255u8] + (data + seq![0u8])).skip(1) =~= data + seq![0u8]);
        lemma_run_decoding_nonzero(254u8, data, seq![0u8]);
        let sub = decoder_run(DecoderState::Decoding(0), seq![0u8]);
        assert(sub.status is Finished && sub.used == 1 && sub.output =~= Seq::<u8>::empty());
        let r = decoder_run(DecoderState::Start, e + seq![0u8]);
        assert(r.output == Seq::<u8>::empty() + (data + Seq::<u8>::empty()));
        assert(Seq::<u8>::empty() + (data + Seq::<u8>::empty()) =~= data);
    }
}

/// Resumable streaming COBS decoder.
///
/// Bytes are fed in arbitrary chunks; the decoder compacts the decoded data
/// toward the start of each chunk and reports when a frame boundary or a
/// framing error is reached. Its whole behaviour is [`decoder_run`] applied
/// to the bytes seen so far.
pub struct CobsDecoder {
    state: DecoderState,
}

impl View for CobsDecoder {
    type V = DecoderState;

    closed spec fn view(&self) -> DecoderState {
        self.state
    }
}

impl CobsDecoder {
    /// A fresh decoder, discarding bytes until the first `0x00` delimiter.
    pub fn new() -> (r: Self)
        ensures
            r@ is Idle,
    {
        CobsDecoder { state: DecoderState::Idle }
    }

    /// Forget any partial frame and discard bytes until the next delimiter.
    pub fn reset(&mut self)
        ensures
            final(self)@ is Idle,
    {
        self.state = DecoderState::Idle;
    }

    /// Decode `buffer` in place, stopping at the first frame boundary or
    /// framing error. Returns `(raw, data, status)`: `raw` input bytes were
    /// consumed and turned into `data` decoded bytes, compacted at the start
    /// of the buffer; bytes from `raw` on are untouched, so the caller can
    /// resume there after a boundary.
    pub fn decode(&mut self, buffer: &mut Vec<u8>) -> (r: (usize, usize, DecoderStatus))
        ensures
            ({
                let run = decoder_run(old(self)@, old(buffer)@);
                &&& r.0 == run.used
                &&& r.1 == run.output.len()
                &&& r.2 == run.status
                &&& final(self)@ == run.state
                &&& final(buffer)@.len() == old(buffer)@.len()
                &&& final(buffer)@.take(r.1 as int) == run.output
                &&& final(buffer)@.skip(r.1 as int) == old(buffer)@.skip(r.1 as int)
                &&& final(buffer)@.skip(r.0 as int) == old(buffer)@.skip(r.0 as int)
            }),
    {
        let ghost input = buffer@;
        let ghost s0 = self.state;
        let n = buffer.len();
        let mut read_idx: usize = 0;
        let mut write_idx: usize = 0;
        proof {
            assert(input.skip(0) =~= input);
        }
        while read_idx < n
            invariant
                input == old(buffer)@,
                s0 == old(self)@,
                write_idx <= read_idx <= n,
                n == buffer@.len(),
                input.len() == n,
                buffer@.skip(read_idx as int) == input.skip(read_idx as int),
                buffer@.skip(write_idx as int) == input.skip(write_idx as int),
                ({
                    let full = decoder_run(s0, input);
                    let rest = decoder_run(self@, input.skip(read_idx as int));
                    &&& full.used == read_idx + rest.used
                    &&& full.output == buffer@.take(write_idx as int) + rest.output
                    &&& full.status == rest.status
                    &&& full.state == rest.state
                }),
            decreases n - read_idx,
        {
            proof {
                assert(input.skip(read_idx as int)[0] == input[read_idx as int]);
                assert(input.skip(read_idx as int).skip(1) =~= input.skip(read_idx + 1));
                assert(buffer@.skip(read_idx as int)[0] == buffer@[read_idx as int]);
            }
            let ghost r0 = read_idx as int;
            let ghost s_head = self.state;
            let byte = buffer[read_idx];
            read_idx = read_idx + 1;
            let ghost pre = buffer@;
            let ghost out_pre = buffer@.take(write_idx as int);

            match self.state {
                DecoderState::Idle => {
                    if byte == 0 {
                        self.state = DecoderState::Start;
                    }
                    proof {
                        assert(out_pre + Seq::<u8>::empty() =~= out_pre);
                        assert(Seq::<u8>::empty() + decoder_run(self@, input.skip(read_idx as int)).output
                            =~= decoder_run(self@, input.skip(read_idx as int)).output);
                    }
                },
                DecoderState::Start => {
                    if byte != 0 {
                        self.state = DecoderState::Decoding(byte - 1);
                    }
                    proof {
                        assert(Seq::<u8>::empty() + decoder_run(self@, input.skip(read_idx as int)).output
                            =~= decoder_run(self@, input.skip(read_idx as int)).output);
                    }
                },
                DecoderState::Decoding(b) => {
                    if b == 0 {
                        if byte == 0 {
                            self.state = DecoderState::Start;
                            proof {
                                let rest = decoder_run(s_head, input.skip(r0));
                                assert(input.skip(r0).len() > 0);
                                assert(rest.used == 1 && rest.output =~= Seq::<u8>::empty());
                                assert(rest.status is Finished && rest.state is Start);
                                assert(out_pre + Seq::<u8>::empty() =~= out_pre);
                            }
                            return (read_idx, write_idx, DecoderStatus::Finished);
                        } else {
                            self.state = DecoderState::Decoding(byte - 1);
                            buffer[write_idx] = 0;
                            write_idx = write_idx + 1;
                            proof {
                                assert(buffer@.take(write_idx as int)
                                    =~= out_pre + seq![0u8]);
                                assert(buffer@.skip(read_idx as int) =~= pre.skip(read_idx as int));
                                assert(buffer@.skip(write_idx as int) =~= input.skip(
                                    write_idx as int,
                                )) by {
                                    assert forall|k: int|
                                        write_idx <= k < n implies buffer@[k] == input[k] by {
                                        assert(pre.skip(write_idx - 1)[k - (write_idx - 1)]
                                            == input.skip(write_idx - 1)[k - (write_idx - 1)]);
                                    }
                                }
                                let rest = decoder_run(self@, input.skip(read_idx as int));
                                assert(out_pre + (seq![0u8] + rest.output)
                                    =~= (out_pre + seq![0u8]) + rest.output);
                            }
                        }
                    } else {
                        if byte == 0 {
                            self.state = DecoderState::Start;
                            proof {
                                let rest = decoder_run(s_head, input.skip(r0));
                                assert(input.skip(r0).len() > 0);
                                assert(rest.used == 1 && rest.output =~= Seq::<u8>::empty());
                                assert(rest.status is Error && rest.state is Start);
                                assert(out_pre + Seq::<u8>::empty() =~= out_pre);
                            }
                            return (read_idx, write_idx, DecoderStatus::Error);
                        } else {
                            self.state = DecoderState::Decoding(b - 1);
                            buffer[write_idx] = byte;
                            write_idx = write_idx + 1;
                            proof {
                                assert(buffer@.take(write_idx as int)
                                    =~= out_pre + seq![byte]);
                                assert(buffer@.skip(read_idx as int) =~= pre.skip(read_idx as int));
                                assert(buffer@.skip(write_idx as int) =~= input.skip(
                                    write_idx as int,
                                )) by {
                                    assert forall|k: int|
                                        write_idx <= k < n implies buffer@[k] == input[k] by {
                                        assert(pre.skip(write_idx - 1)[k - (write_idx - 1)]
                                            == input.skip(write_idx - 1)[k - (write_idx - 1)]);
                                    }
                                }
                                let rest = decoder_run(self@, input.skip(read_idx as int));
                                assert(out_pre + (seq![byte] + rest.output)
                                    =~= (out_pre + seq![byte]) + rest.output);
                            }
                        }
                    }
                },
            }
        }
        proof {
            assert(input.skip(n as int) =~= Seq::<u8>::empty());
            let full = decoder_run(s0, input);
            assert(full.output == buffer@.take(write_idx as int) + Seq::<u8>::empty());
            assert(buffer@.take(write_idx as int) + Seq::<u8>::empty()
                =~= buffer@.take(write_idx as int));
        }
        (read_idx, write_idx, DecoderStatus::InProgress)
    }
}

/// `first_zero` distributes over a zero-free prefix.
pub proof fn lemma_first_zero_append(p: Seq<u8>, rest: Seq<u8>)
    requires
        forall|i: int| 0 <= i < p.len() ==> p[i] != 0,
    ensures
        first_zero(p + rest) == p.len() + first_zero(rest),
    decreases p.len(),
{
    if p.len() == 0 {
        assert(p + rest =~= rest);
    } else {
        lemma_first_zero_append(p.skip(1), rest);
        assert((p + rest)[0] == p[0]);
        assert((p + rest).skip(1) =~= p.skip(1) + rest);
    }
}

/// Closing a block at a zero byte: the encoding continues after the zero.
proof fn lemma_encode_block_zero(part: Seq<u8>, rem: Seq<u8>)
    requires
        part.len() < 254,
        forall|i: int| 0 <= i < part.len() ==> part[i] != 0,
        rem.len() >= 1,
        rem[0] == 0,
    ensures
        cobs_encode(part + rem) == seq![(part.len() + 1) as u8] + part + cobs_encode(rem.skip(1)),
{
    lemma_first_zero_append(part, rem);
    let fz = first_zero(part + rem);
    assert(fz == part.len());
    assert((part + rem).take(fz) =~= part);
    assert((part + rem).skip(fz + 1) =~= rem.skip(1));
}

/// Closing a full 254-byte block: the encoding continues with no implied
/// zero.
proof fn lemma_encode_block_full(part: Seq<u8>, rem: Seq<u8>)
    requires
        part.len() == 254,
        forall|i: int| 0 <= i < part.len() ==> part[i] != 0,
        rem.len() >= 1,
    ensures
        cobs_encode(part + rem) == seq![255u8] + part + cobs_encode(rem),
{
    lemma_first_zero_append(part, rem);
    lemma_first_zero(rem);
    assert(first_zero(part + rem) >= 254);
    assert((part + rem).len() > 254);
    assert((part + rem).take(254) =~= part);
    assert((part + rem).skip(254) =~= rem);
}

/// The final block of an encoding: its code byte counts its bytes plus one.
proof fn lemma_encode_final(part: Seq<u8>)
    requires
        part.len() <= 254,
        forall|i: int| 0 <= i < part.len() ==> part[i] != 0,
    ensures
        cobs_encode(part) == seq![(part.len() + 1) as u8] + part,
{
    lemma_first_zero(part);
    assert(first_zero(part) == part.len());
}

/// Encode `data_size` bytes sitting at `data_offset` in `buffer`, in place.
///
/// The bytes below `data_offset` are the pre-padding the code bytes are
/// written into; one byte after the payload receives the `0x00` delimiter.
/// Returns the total size of the delimited frame, which now sits at the
/// start of the buffer.
pub fn cobs_encode_in_place(buffer: &mut Vec<u8>, data_offset: usize, data_size: usize) -> (n: usize)
    requires
        data_offset >= data_size / 254 + 1,
        data_offset + data_size < old(buffer)@.len(),
    ensures
        ({
            let data = old(buffer)@.subrange(data_offset as int, data_offset + data_size);
            &&& n == cobs_encode(data).len() + 1
            &&& n <= data_offset + data_size + 1
            &&& final(buffer)@.len() == old(buffer)@.len()
            &&& final(buffer)@.take(n as int) == cobs_encode(data) + seq![0u8]
            &&& final(buffer)@.skip(n as int) == old(buffer)@.skip(n as int)
            &&& final(buffer)@.skip(data_offset + data_size + 1) == old(buffer)@.skip(
                data_offset + data_size + 1,
            )
        }),
{
    let ghost data = old(buffer)@.subrange(data_offset as int, data_offset + data_size);
    let buffer_len = buffer.len();
    let end = data_offset + data_size;
    let mut read_idx: usize = data_offset;
    let mut write_idx: usize = 1;
    let mut code: u8 = 1;
    let mut code_index: usize = 0;
    let ghost mut full_count: int = 0;
    proof {
        assert(data.skip(0) =~= data);
        assert(buffer@.take(0int) =~= Seq::<u8>::empty());
        assert(buffer@.subrange(1int, 1int) =~= Seq::<u8>::empty());
        assert(Seq::<u8>::empty() + data =~= data);
    }
    while read_idx < end
        invariant
            data == old(buffer)@.subrange(data_offset as int, data_offset + data_size),
            end == data_offset + data_size,
            data_offset >= data_size / 254 + 1,
            end < buffer@.len(),
            buffer@.len() == old(buffer)@.len(),
            data_offset <= read_idx <= end,
            1 <= code <= 255,
            code_index + code == write_idx,
            write_idx == (read_idx - data_offset) + full_count + 1,
            0 <= full_count,
            full_count + 1 <= data_offset,
            full_count * 254 + (code - 1) <= read_idx - data_offset,
            buffer@.skip(read_idx as int) == old(buffer)@.skip(read_idx as int),
            buffer@.skip(write_idx as int) == old(buffer)@.skip(write_idx as int),
            ({
                let part = buffer@.subrange(code_index + 1, write_idx as int);
                let rem = data.skip(read_idx - data_offset);
                &&& part.len() == code - 1
                &&& (forall|i: int| 0 <= i < part.len() ==> part[i] != 0)
                &&& cobs_encode(data) == buffer@.take(code_index as int) + cobs_encode(part + rem)
            }),
        decreases end - read_idx, code,
    {
        let ghost part = buffer@.subrange(code_index + 1, write_idx as int);
        let ghost r = read_idx - data_offset;
        let ghost rem = data.skip(r);
        proof {
            // the writer never catches up with the reader
            assert(write_idx <= read_idx) by {
                lemma_div_is_ordered(full_count * 254, data_size as int, 254);
                vstd::arithmetic::div_mod::lemma_div_by_multiple(full_count, 254);
                assert(full_count <= data_size / 254);
            }
            assert(rem.len() == end - read_idx);
        }
        if code != 0xff {
            proof {
                assert(buffer@.skip(read_idx as int)[0] == buffer@[read_idx as int]);
                assert(old(buffer)@.skip(read_idx as int)[0] == old(buffer)@[read_idx as int]);
                assert(old(buffer)@[read_idx as int] == data[r]);
                assert(rem[0] == data[r]);
            }
            let byte = buffer[read_idx];
            read_idx = read_idx + 1;
            if byte != 0 {
                let ghost pre = buffer@;
                buffer[write_idx] = byte;
                write_idx = write_idx + 1;
                code = code + 1;
                proof {
                    assert(buffer@.take(code_index as int) =~= pre.take(code_index as int));
                    assert(buffer@.subrange(code_index + 1, write_idx as int) =~= part + seq![byte]);
                    assert(buffer@.skip(read_idx as int) =~= pre.skip(read_idx as int));
                    assert(buffer@.skip(write_idx as int) =~= old(buffer)@.skip(
                        write_idx as int,
                    )) by {
                        assert forall|k: int|
                            write_idx <= k < buffer@.len() implies buffer@[k] == old(
                            buffer,
                        )@[k] by {
                            assert(pre.skip(write_idx - 1)[k - (write_idx - 1)] == old(
                                buffer,
                            )@.skip(write_idx - 1)[k - (write_idx - 1)]);
                        }
                    }
                    assert(pre.skip(read_idx as int) =~= old(buffer)@.skip(read_idx as int)) by {
                        assert forall|i: int| read_idx <= i < pre.len() implies pre[i] == old(
                            buffer,
                        )@[i] by {
                            assert(pre.skip(read_idx - 1)[i - (read_idx - 1)] == old(buffer)@.skip(
                                read_idx - 1,
                            )[i - (read_idx - 1)]);
                        }
                    }
                    assert(data.skip(read_idx - data_offset) =~= rem.skip(1));
                    assert((part + seq![byte]) + rem.skip(1) =~= part + rem);
                }
            } else {
                let ghost pre = buffer@;
                let ghost ci0 = code_index as int;
                let ghost c0 = code;
                buffer[code_index] = code;
                code_index = write_idx;
                write_idx = write_idx + 1;
                code = 1;
                proof {
                    lemma_encode_block_zero(part, rem);
                    assert((part.len() + 1) as u8 == c0);
                    assert(buffer@.skip(write_idx as int) =~= old(buffer)@.skip(
                        write_idx as int,
                    )) by {
                        assert forall|k: int|
                            write_idx <= k < buffer@.len() implies buffer@[k] == old(
                            buffer,
                        )@[k] by {
                            assert(pre.skip(write_idx - 1)[k - (write_idx - 1)] == old(
                                buffer,
                            )@.skip(write_idx - 1)[k - (write_idx - 1)]);
                        }
                    }
                    assert(buffer@.take(code_index as int)
                        =~= pre.take(ci0) + seq![c0] + part);
                    assert(buffer@.subrange(code_index + 1, write_idx as int)
                        =~= Seq::<u8>::empty());
                    assert(buffer@.skip(read_idx as int) =~= pre.skip(read_idx as int));
                    assert(pre.skip(read_idx as int) =~= old(buffer)@.skip(read_idx as int)) by {
                        assert forall|i: int| read_idx <= i < pre.len() implies pre[i] == old(
                            buffer,
                        )@[i] by {
                            assert(pre.skip(read_idx - 1)[i - (read_idx - 1)] == old(buffer)@.skip(
                                read_idx - 1,
                            )[i - (read_idx - 1)]);
                        }
                    }
                    assert(data.skip(read_idx - data_offset) =~= rem.skip(1));
                    assert(Seq::<u8>::empty() + rem.skip(1) =~= rem.skip(1));
                    assert((pre.take(ci0) + seq![c0] + part) + cobs_encode(rem.skip(1))
                        =~= pre.take(ci0) + (seq![c0] + part + cobs_encode(rem.skip(1))));
                }
            }
        } else {
            let ghost pre = buffer@;
            let ghost ci0 = code_index as int;
            buffer[code_index] = code;
            code_index = write_idx;
            write_idx = write_idx + 1;
            code = 1;
            proof {
                full_count = full_count + 1;
                lemma_encode_block_full(part, rem);
                assert(buffer@.skip(write_idx as int) =~= old(buffer)@.skip(
                    write_idx as int,
                )) by {
                    assert forall|k: int|
                        write_idx <= k < buffer@.len() implies buffer@[k] == old(
                        buffer,
                    )@[k] by {
                        assert(pre.skip(write_idx - 1)[k - (write_idx - 1)] == old(
                            buffer,
                        )@.skip(write_idx - 1)[k - (write_idx - 1)]);
                    }
                }
                assert((full_count) * 254 == (full_count - 1) * 254 + 254);
                assert(full_count + 1 <= data_offset) by {
                    lemma_div_is_ordered(full_count * 254, data_size as int, 254);
                    vstd::arithmetic::div_mod::lemma_div_by_multiple(full_count, 254);
                    assert(full_count <= data_size / 254);
                }
                assert(buffer@.take(code_index as int) =~= pre.take(ci0) + seq![255u8] + part);
                assert(buffer@.subrange(code_index + 1, write_idx as int) =~= Seq::<u8>::empty());
                assert(buffer@.skip(read_idx as int) =~= pre.skip(read_idx as int));
                assert(Seq::<u8>::empty() + rem =~= rem);
                assert((pre.take(ci0) + seq![255u8] + part) + cobs_encode(rem)
                    =~= pre.take(ci0) + (seq![255u8] + part + cobs_encode(rem)));
            }
        }
    }
    let ghost part = buffer@.subrange(code_index + 1, write_idx as int);
    proof {
        assert(write_idx <= end) by {
            lemma_div_is_ordered(full_count * 254, data_size as int, 254);
            vstd::arithmetic::div_mod::lemma_div_by_multiple(full_count, 254);
            assert(full_count <= data_size / 254);
        }
        assert(data.skip(read_idx - data_offset) =~= Seq::<u8>::empty());
        assert(part + Seq::<u8>::empty() =~= part);
        lemma_encode_final(part);
    }
    let ghost pre = buffer@;
    buffer[code_index] = code;
    buffer[write_idx] = 0;
    proof {
        assert(buffer@.take(code_index as int) =~= pre.take(code_index as int));
        assert(buffer@.take(write_idx + 1)
            =~= pre.take(code_index as int) + seq![(part.len() + 1) as u8] + part + seq![0u8]);
        assert(pre.take(code_index as int) + (seq![(part.len() + 1) as u8] + part) + seq![0u8]
            =~= pre.take(code_index as int) + seq![(part.len() + 1) as u8] + part + seq![0u8]);
        assert(cobs_encode(data) + seq![0u8]
            =~= pre.take(code_index as int) + seq![(part.len() + 1) as u8] + part + seq![0u8]);
        assert(buffer@.skip(write_idx + 1) =~= old(buffer)@.skip(write_idx + 1)) by {
            assert forall|k: int|
                write_idx + 1 <= k < buffer@.len() implies buffer@[k] == old(buffer)@[k] by {
                assert(pre.skip(write_idx as int)[k - write_idx] == old(buffer)@.skip(
                    write_idx as int,
                )[k - write_idx]);
            }
        }
        assert(buffer@.skip(end + 1) =~= old(buffer)@.skip(end + 1)) by {
            assert forall|i: int| end + 1 <= i < buffer@.len() implies buffer@[i] == old(
                buffer,
            )@[i] by {
                assert(pre.skip(end as int)[i - end] == old(buffer)@.skip(end as int)[i - end]);
            }
        }
    }
    write_idx + 1
}

/// Decode one COBS frame body (the bytes between two delimiters) in place.
///
/// On success the decoded payload occupies the start of the buffer and its
/// length is returned. Fails exactly when the block structure is broken: a
/// zero code byte, or a code pointing past the end of the buffer.
pub fn cobs_decode_in_place(buffer: &mut Vec<u8>) -> (r: Result<usize, ()>)
    ensures
        final(buffer)@.len() == old(buffer)@.len(),
        r is Ok <==> cobs_decode(old(buffer)@) is Some,
        ({
            r matches Ok(nn) ==> nn <= old(buffer)@.len() && cobs_decode(old(buffer)@) == Some(
                final(buffer)@.take(nn as int),
            )
        }),
{
    let ghost enc = buffer@;
    let n = buffer.len();
    let mut i: usize = 0;
    let mut out: usize = 0;
    proof {
        assert(enc.skip(0) =~= enc);
    }
    while i < n
        invariant
            enc == old(buffer)@,
            out <= i <= n,
            n == buffer@.len(),
            enc.len() == n,
            buffer@.skip(i as int) == enc.skip(i as int),
            ({
                let full = cobs_decode(enc);
                let rest = cobs_decode(enc.skip(i as int));
                &&& (full is Some <==> rest is Some)
                &&& (rest matches Some(t) ==> full == Some(buffer@.take(out as int) + t))
            }),
        decreases n - i,
    {
        proof {
            assert(buffer@.skip(i as int)[0] == buffer@[i as int]);
            assert(enc.skip(i as int)[0] == enc[i as int]);
        }
        let code = buffer[i];
        if code == 0 {
            return Err(());
        }
        if (code as usize) > n - i {
            return Err(());
        }
        let ghost i0 = i as int;
        let ghost out0 = out as int;
        let count = (code - 1) as usize;
        let ghost pre = buffer@;
        proof {
            assert(buffer@.skip(i + 1) =~= enc.skip(i + 1)) by {
                assert forall|k: int| i + 1 <= k < n implies buffer@[k] == enc[k] by {
                    assert(buffer@.skip(i as int)[k - i] == enc.skip(i as int)[k - i]);
                }
            }
            assert(buffer@.subrange(out as int, out as int) =~= enc.subrange(i + 1, i + 1));
        }
        let mut j: usize = 0;
        while j < count
            invariant
                enc == old(buffer)@,
                count == code - 1,
                1 <= code <= 255,
                j <= count,
                out == out0,
                i == i0,
                out <= i,
                i + code <= n,
                n == buffer@.len(),
                enc.len() == n,
                buffer@.skip(i + 1 + j) == enc.skip(i + 1 + j),
                buffer@.take(out as int) == pre.take(out as int),
                buffer@.subrange(out as int, out + j) == enc.subrange(i + 1, i + 1 + j),
            decreases count - j,
        {
            proof {
                assert(buffer@.skip(i + 1 + j)[0] == buffer@[i + 1 + j]);
                assert(enc.skip(i + 1 + j)[0] == enc[i + 1 + j]);
            }
            let ghost mid = buffer@;
            let b = buffer[i + 1 + j];
            buffer[out + j] = b;
            j = j + 1;
            proof {
                assert(buffer@.skip(i + 1 + j) =~= enc.skip(i + 1 + j)) by {
                    assert forall|k: int| i + 1 + j <= k < n implies buffer@[k] == enc[k] by {
                        assert(mid.skip(i + 1 + (j - 1))[k - (i + j)] == enc.skip(
                            i + 1 + (j - 1),
                        )[k - (i + j)]);
                    }
                }
                assert(buffer@.take(out as int) =~= pre.take(out as int));
                assert(buffer@.subrange(out as int, out + j)
                    =~= mid.subrange(out as int, out + (j - 1)) + seq![b]);
                assert(enc.subrange(i + 1, i + 1 + j)
                    =~= enc.subrange(i + 1, i + j) + seq![enc[i + j]]);
            }
        }
        out = out + count;
        i = i + (code as usize);
        let ghost body = enc.subrange(i0 + 1, i0 + code);
        let ghost pre2 = buffer@;
        let mut wrote_zero = false;
        if i < n && code != 255 {
            buffer[out] = 0;
            out = out + 1;
            wrote_zero = true;
        }
        proof {
            let srest = enc.skip(i0);
            assert(srest[0] == code);
            assert(srest.len() == n - i0);
            assert(srest.subrange(1, code as int) =~= body);
            assert(srest.skip(code as int) =~= enc.skip(i as int));
            assert(buffer@.skip(i as int) =~= enc.skip(i as int)) by {
                assert forall|k: int| i <= k < n implies buffer@[k] == enc[k] by {
                    assert(pre2.skip(i0 + code)[k - (i0 + code)] == enc.skip(
                        i0 + code,
                    )[k - (i0 + code)]);
                }
            }
            assert(pre2.subrange(out0, out0 + count) =~= body);
            if wrote_zero {
                assert(buffer@.take(out as int) =~= pre2.take(out0) + body + seq![0u8]);
                match cobs_decode(enc.skip(i as int)) {
                    Some(t) => {
                        assert(cobs_decode(srest) == Some(body + seq![0u8] + t));
                        assert((pre2.take(out0) + body + seq![0u8]) + t
                            =~= pre2.take(out0) + ((body + seq![0u8]) + t));
                        assert(pre2.take(out0) + ((body + seq![0u8]) + t)
                            =~= pre2.take(out0) + (body + seq![0u8] + t));
                    },
                    None => {},
                }
            } else {
                assert(buffer@.take(out as int) =~= pre2.take(out0) + body);
                match cobs_decode(enc.skip(i as int)) {
                    Some(t) => {
                        assert(cobs_decode(srest) == Some(body + t));
                        assert((pre2.take(out0) + body) + t =~= pre2.take(out0) + (body + t));
                    },
                    None => {},
                }
            }
        }
    }
    proof {
        assert(enc.skip(n as int) =~= Seq::<u8>::empty());
        assert(cobs_decode(Seq::<u8>::empty()) == Some(Seq::<u8>::empty()));
        match cobs_decode(enc) {
            Some(t) => {
                assert(buffer@.take(out as int) + Seq::<u8>::empty() =~= buffer@.take(out as int));
            },
            None => {},
        }
    }
    Ok(out)
}

/// Encode `data` as one delimited frame in a fresh buffer: the padded
/// in-place layout, built and trimmed in one step.
pub fn cobs_encode_frame(data: &[u8]) -> (r: Vec<u8>)
    requires
        data@.len() <= usize::MAX - 3,
    ensures
        r@ == cobs_encode(data@) + seq![0u8],
{
    let dlen = data.len();
    let offset = dlen / 254 + 1;
    let mut buffer: Vec<u8> = Vec::new();
    let mut i: usize = 0;
    while i < offset
        invariant
            i <= offset,
            buffer@.len() == i,
        decreases offset - i,
    {
        buffer.push(0);
        i = i + 1;
    }
    let mut j: usize = 0;
    while j < dlen
        invariant
            j <= dlen,
            dlen == data@.len(),
            buffer@.len() == offset + j,
            buffer@.subrange(offset as int, offset + j) == data@.take(j as int),
        decreases dlen - j,
    {
        buffer.push(data[j]);
        j = j + 1;
        proof {
            assert(buffer@.subrange(offset as int, offset + j) =~= buffer@.subrange(
                offset as int,
                offset + (j - 1),
            ) + seq![data@[j - 1]]);
            assert(data@.take(j as int) =~= data@.take(j - 1) + seq![data@[j - 1]]);
        }
    }
    let ghost pre_term = buffer@;
    buffer.push(0);
    proof {
        assert(data@.take(dlen as int) =~= data@);
        assert(buffer@.subrange(offset as int, offset + dlen) =~= pre_term.subrange(
            offset as int,
            offset + dlen,
        ));
    }
    let n = cobs_encode_in_place(&mut buffer, offset, dlen);
    buffer.truncate(n);
    proof {
        assert(buffer@ =~= cobs_encode(data@) + seq![0u8]);
    }
    buffer
}

} // verus!
