//! Host-side transport: packet channels and the command/response exchange.
//!
//! A [`PacketChannel`] moves whole packets over some byte transport; the
//! blanket [`CommandChannel`] implementation turns it into a synchronous
//! command/response exchange by prepending the endpoint byte, sending one
//! packet, and parsing the response header off the reply.

use vstd::prelude::*;
use crate::hal::{HalError, HalErrorKind, HalResult};
use crate::cobs::{cobs_decode, cobs_decode_in_place, first_zero, lemma_first_zero};
use crate::protocol::{dec_response_header, deserialize_response_header, CommandHeader};

verus! {

/// The host's transport error type. What went wrong on the port never
/// crosses into the protocol: every transport failure becomes
/// `ProtocolError`.
#[verifier::external_type_specification]
#[verifier::external_body]
pub struct ExIoError(std::io::Error);

/// Moves whole packets over a byte transport. Implementations sit at the
/// edge of the system (a serial port, a test harness); nothing is assumed
/// of them here.
pub trait PacketChannel {
    /// Receive one packet.
    fn read_packet(&mut self) -> Result<Vec<u8>, std::io::Error>;

    /// Send one packet.
    fn write_packet(&mut self, data: &[u8]) -> Result<(), std::io::Error>;
}

/// The packet that carries one command: the endpoint byte, then the body.
pub fn command_frame(endpoint: u8, command: &[u8]) -> (r: Vec<u8>)
    ensures
        r@ == seq![endpoint] + command@,
{
    let header = CommandHeader { endpoint };
    let mut out: Vec<u8> = Vec::new();
    out.push(header.endpoint);
    let n = command.len();
    let mut i: usize = 0;
    while i < n
        invariant
            i <= n,
            n == command@.len(),
            out@ == seq![endpoint] + command@.take(i as int),
        decreases n - i,
    {
        out.push(command[i]);
        i = i + 1;
        proof {
            assert(out@ =~= (seq![endpoint] + command@.take(i - 1)) + seq![command@[i - 1]]);
            assert(seq![endpoint] + command@.take(i as int) =~= (seq![endpoint] + command@.take(
                i - 1,
            )) + seq![command@[i - 1]]);
        }
    }
    proof {
        assert(out@ =~= seq![endpoint] + command@);
    }
    out
}

/// Turn one response packet into the command's result: a success header
/// yields the payload after it, a failure header yields its kind, and a
/// packet that is not a response at all is a `ProtocolError`.
pub fn parse_command_response(resp: &Vec<u8>) -> (r: HalResult<Vec<u8>>)
    ensures
        ({
            match dec_response_header(resp@) {
                Some((h, j)) => {
                    match h {
                        Ok(u) => r matches Ok(v) && v@ == resp@.skip(j),
                        Err(k) => r matches Err(e) && e.kind() == k,
                    }
                },
                None => r matches Err(e) && e.kind() == HalErrorKind::ProtocolError,
            }
        }),
{
    let (header, header_size) = match deserialize_response_header(resp) {
        Some(h) => h,
        None => {
            return Err(HalError::from_kind(HalErrorKind::ProtocolError));
        },
    };
    match header {
        Ok(_) => {
            let mut payload: Vec<u8> = Vec::new();
            let m = resp.len();
            let mut j: usize = header_size;
            while j < m
                invariant
                    header_size <= j <= m,
                    m == resp@.len(),
                    payload@ == resp@.subrange(header_size as int, j as int),
                decreases m - j,
            {
                payload.push(resp[j]);
                j = j + 1;
                proof {
                    assert(payload@ =~= resp@.subrange(header_size as int, j - 1) + seq![resp@[j
                        - 1]]);
                    assert(resp@.subrange(header_size as int, j as int) =~= resp@.subrange(
                        header_size as int,
                        j - 1,
                    ) + seq![resp@[j - 1]]);
                }
            }
            proof {
                assert(payload@ =~= resp@.skip(header_size as int));
            }
            Ok(payload)
        },
        Err(kind) => Err(HalError::from_kind(kind)),
    }
}

/// A synchronous command/response exchange with a chosen target.
pub trait CommandChannel {
    /// Send `command` to `endpoint` and give back the response payload, or
    /// the error kind the device reported.
    fn command(&mut self, endpoint: u8, command: &[u8]) -> HalResult<Vec<u8>>;
}

impl<T: PacketChannel> CommandChannel for T {
    /// One exchange: the packet `[endpoint] ++ command` goes out, one
    /// packet comes back and is parsed by [`parse_command_response`]. A
    /// transport failure in either direction is a `ProtocolError`.
    fn command(&mut self, endpoint: u8, command: &[u8]) -> HalResult<Vec<u8>> {
        let command_buffer = command_frame(endpoint, command);
        match self.write_packet(command_buffer.as_slice()) {
            Ok(_) => {},
            Err(_) => {
                return Err(HalError::from_kind(HalErrorKind::ProtocolError));
            },
        }
        let response_buffer = match self.read_packet() {
            Ok(b) => b,
            Err(_) => {
                return Err(HalError::from_kind(HalErrorKind::ProtocolError));
            },
        };
        parse_command_response(&response_buffer)
    }
}

/// Hands one command channel to several users in turn: the channel is
/// owned here, and exclusive access is expressed through `&mut`.
pub struct SharedCommandChannel<C: CommandChannel> {
    inner: C,
}

impl<C: CommandChannel> SharedCommandChannel<C> {
    pub fn new(channel: C) -> (r: Self) {
        SharedCommandChannel { inner: channel }
    }
}

impl<C: CommandChannel> CommandChannel for SharedCommandChannel<C> {
    fn command(&mut self, endpoint: u8, command: &[u8]) -> HalResult<Vec<u8>> {
        self.inner.command(endpoint, command)
    }
}

/// A command channel pinned to one endpoint.
pub struct SharedEndpointChannel<C: CommandChannel> {
    command_channel: SharedCommandChannel<C>,
    endpoint: u8,
}

impl<C: CommandChannel> SharedEndpointChannel<C> {
    /// The endpoint every exchange addresses, for use in contracts.
    pub closed spec fn endpoint_spec(&self) -> u8 {
        self.endpoint
    }

    pub fn new(command_channel: SharedCommandChannel<C>, endpoint: u8) -> (r: Self)
        ensures
            r.endpoint_spec() == endpoint,
    {
        SharedEndpointChannel { command_channel, endpoint }
    }

    /// Exchange one command with the endpoint fixed at construction. What
    /// comes back is the channel's answer; no contract can relate it to the
    /// wire without a trace of the transport, so none is stated.
    pub fn command(&mut self, command: &[u8]) -> (r: HalResult<Vec<u8>>)
        ensures
            final(self).endpoint_spec() == old(self).endpoint_spec(),
    {
        self.command_channel.command(self.endpoint, command)
    }
}

/// Index of the first byte of `s` that is not a delimiter, or `s.len()`.
pub open spec fn first_nonzero(s: Seq<u8>) -> int
    decreases s.len(),
{
    if s.len() == 0 {
        0
    } else if s[0] != 0 {
        0
    } else {
        1 + first_nonzero(s.skip(1))
    }
}

pub proof fn lemma_first_nonzero(s: Seq<u8>)
    ensures
        0 <= first_nonzero(s) <= s.len(),
        forall|i: int| 0 <= i < first_nonzero(s) ==> s[i] == 0,
        first_nonzero(s) < s.len() ==> s[first_nonzero(s)] != 0,
    decreases s.len(),
{
    if s.len() == 0 {
    } else if s[0] != 0 {
    } else {
        lemma_first_nonzero(s.skip(1));
        let fnz = first_nonzero(s);
        assert forall|i: int| 0 <= i < fnz implies s[i] == 0 by {
            if i > 0 {
                assert(s.skip(1)[i - 1] == s[i]);
            }
        }
        if fnz < s.len() {
            assert(s.skip(1)[fnz - 1] == s[fnz]);
        }
    }
}

/// The host's receive buffer: bytes read off the port go in, decoded
/// frames come out. Leading delimiters are skipped; a frame whose encoding
/// is broken is dropped whole; an incomplete frame stays until the rest of
/// it arrives.
pub struct FrameBuffer {
    data: Vec<u8>,
}

impl View for FrameBuffer {
    type V = Seq<u8>;

    closed spec fn view(&self) -> Seq<u8> {
        self.data@
    }
}

impl FrameBuffer {
    pub fn new() -> (r: FrameBuffer)
        ensures
            r@ == Seq::<u8>::empty(),
    {
        FrameBuffer { data: Vec::new() }
    }

    /// Append bytes received from the port.
    pub fn extend(&mut self, bytes: &[u8])
        ensures
            final(self)@ == old(self)@ + bytes@,
    {
        let n = bytes.len();
        let mut i: usize = 0;
        while i < n
            invariant
                i <= n,
                n == bytes@.len(),
                self@ == old(self)@ + bytes@.take(i as int),
            decreases n - i,
        {
            self.data.push(bytes[i]);
            i = i + 1;
            proof {
                assert(self@ =~= (old(self)@ + bytes@.take(i - 1)) + seq![bytes@[i - 1]]);
                assert(old(self)@ + bytes@.take(i as int) =~= (old(self)@ + bytes@.take(i - 1))
                    + seq![bytes@[i - 1]]);
            }
        }
        proof {
            assert(self@ =~= old(self)@ + bytes@);
        }
    }

    /// Take the first complete frame off the buffer and decode it.
    ///
    /// Skips leading delimiters, cuts at the next delimiter, consumes the
    /// frame and its delimiter, and gives the decoded payload; a broken
    /// frame is consumed and yields nothing. Without a delimiter in the
    /// buffer, nothing but the leading separators is consumed.
    pub fn next_frame(&mut self) -> (r: Option<Vec<u8>>)
        ensures
            ({
                let rest = old(self)@.skip(first_nonzero(old(self)@));
                let fz = first_zero(rest);
                if fz == rest.len() {
                    &&& r is None
                    &&& final(self)@ == rest
                } else {
                    &&& final(self)@ == rest.skip(fz + 1)
                    &&& (match cobs_decode(rest.take(fz)) {
                        Some(p) => r matches Some(out) && out@ == p,
                        None => r is None,
                    })
                }
            }),
    {
        let ghost v = self@;
        let n = self.data.len();
        let mut start: usize = 0;
        while start < n && self.data[start] == 0
            invariant
                start <= n,
                n == self@.len(),
                self@ == v,
                forall|j: int| 0 <= j < start ==> v[j] == 0,
            decreases n - start,
        {
            start = start + 1;
        }
        proof {
            lemma_first_nonzero(v);
            assert(first_nonzero(v) == start);
        }
        let ghost rest = v.skip(start as int);
        let mut end: usize = start;
        while end < n && self.data[end] != 0
            invariant
                start <= end <= n,
                n == self@.len(),
                self@ == v,
                forall|j: int| start <= j < end ==> v[j] != 0,
            decreases n - end,
        {
            end = end + 1;
        }
        proof {
            lemma_first_zero(rest);
            assert forall|j: int| 0 <= j < end - start implies rest[j] != 0 by {
                assert(rest[j] == v[start + j]);
            }
            if end < n {
                assert(rest[end - start] == v[end as int]);
            }
            assert(first_zero(rest) == end - start);
        }
        if end >= n {
            // no delimiter yet: keep everything past the separators
            let mut kept: Vec<u8> = Vec::new();
            let mut i: usize = start;
            while i < n
                invariant
                    start <= i <= n,
                    n == self@.len(),
                    self@ == v,
                    kept@ == v.subrange(start as int, i as int),
                decreases n - i,
            {
                kept.push(self.data[i]);
                i = i + 1;
                proof {
                    assert(kept@ =~= v.subrange(start as int, i - 1) + seq![v[i - 1]]);
                    assert(v.subrange(start as int, i as int) =~= v.subrange(start as int, i - 1)
                        + seq![v[i - 1]]);
                }
            }
            self.data = kept;
            proof {
                assert(self@ =~= rest);
            }
            return None;
        }
        // the frame body, and the bytes after its delimiter
        let mut body: Vec<u8> = Vec::new();
        let mut i: usize = start;
        while i < end
            invariant
                start <= i <= end <= n,
                n == self@.len(),
                self@ == v,
                body@ == v.subrange(start as int, i as int),
            decreases end - i,
        {
            body.push(self.data[i]);
            i = i + 1;
            proof {
                assert(body@ =~= v.subrange(start as int, i - 1) + seq![v[i - 1]]);
                assert(v.subrange(start as int, i as int) =~= v.subrange(start as int, i - 1)
                    + seq![v[i - 1]]);
            }
        }
        let mut kept: Vec<u8> = Vec::new();
        let mut i: usize = end + 1;
        while i < n
            invariant
                end + 1 <= i <= n,
                n == self@.len(),
                self@ == v,
                kept@ == v.subrange(end + 1, i as int),
            decreases n - i,
        {
            kept.push(self.data[i]);
            i = i + 1;
            proof {
                assert(kept@ =~= v.subrange(end + 1, i - 1) + seq![v[i - 1]]);
                assert(v.subrange(end + 1, i as int) =~= v.subrange(end + 1, i - 1) + seq![v[i
                    - 1]]);
            }
        }
        self.data = kept;
        proof {
            assert(self@ =~= rest.skip((end - start) + 1));
            assert(body@ =~= rest.take((end - start) as int));
        }
        match cobs_decode_in_place(&mut body) {
            Ok(size) => {
                body.truncate(size);
                Some(body)
            },
            Err(_) => None,
        }
    }
}

} // verus!
