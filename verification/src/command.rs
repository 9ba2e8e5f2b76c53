//! The command side of the pipeline: frame transmission, the GPIO target,
//! and the dispatcher that ties packets to responses.
//!
//! [`CobsTxProducer`] publishes response bodies as delimited frames on the
//! transmit queue. [`GpioCommandTarget`] interprets command bodies against
//! the board's pins; its whole behaviour is [`target_step`]. The
//! [`CommandProcessor`] reads one packet per pass, reserves transmit room,
//! dispatches by endpoint, and either answers, or remembers the larger
//! reservation the target asked for and leaves the packet for the next
//! pass.

use vstd::prelude::*;
use vstd::arithmetic::div_mod::lemma_div_is_ordered;
use crate::assembler::{head_packet, PacketConsumer};
use crate::bip::{BipBuffer, ReadGrant, WriteGrant};
use crate::board::{BoardGpioPin, BoardGpioPinSet, PinModel};
use crate::cobs::{cobs_encode, cobs_encode_in_place, lemma_encode_len};
use crate::gpio::GpioPin;
use crate::hal::{HalError, HalErrorKind, HalResult};
use crate::protocol::{
    dec_gpio_command, deserialize_gpio_command, enc_pin_information, enc_pin_mode,
    enc_response_header, serialize_response_header, write_pin_mode, GpioCommand,
};

verus! {

/// Largest frame body the transmit path accepts.
pub const MAX_TX_BODY: usize = 60000;

/// A reservation on the transmit queue sized for a `size`-byte frame body
/// plus its encoding overhead.
pub struct CobsTxGrantW {
    grant: WriteGrant,
    size: usize,
}

impl CobsTxGrantW {
    /// The underlying queue grant, for use in contracts.
    pub closed spec fn grant_spec(&self) -> WriteGrant {
        self.grant
    }

    /// The body size this reservation was made for, for use in contracts.
    pub closed spec fn size_spec(&self) -> usize {
        self.size
    }

    /// The body size this reservation was made for.
    pub fn size(&self) -> (n: usize)
        ensures
            n == self.size_spec(),
    {
        self.size
    }
}

/// Publishes frame bodies on the transmit queue, encoding them in place
/// behind the reservation.
pub struct CobsTxProducer {}

impl CobsTxProducer {
    pub fn new() -> (r: Self) {
        CobsTxProducer {  }
    }

    /// Reserve room for a frame whose body is exactly `size` bytes: the
    /// body, one code byte per 254 body bytes, a leading code byte and the
    /// delimiter. Succeeds exactly when the queue can take that much.
    pub fn grant(&mut self, queue: &mut BipBuffer, size: usize) -> (r: Option<CobsTxGrantW>)
        requires
            old(queue).wf(),
            size <= MAX_TX_BODY,
        ensures
            final(queue).wf(),
            final(queue)@ == old(queue)@,
            final(queue).capacity() == old(queue).capacity(),
            final(queue).read_grant_open() == old(queue).read_grant_open(),
            forall|g: ReadGrant| old(queue).holds_read(g) ==> final(queue).holds_read(g),
            final(queue).first_seg_len() == old(queue).first_seg_len(),
            final(queue).unwrapped() == old(queue).unwrapped(),
            r is Some <==> old(queue).can_grant((size + size / 254 + 2) as usize),
            (match r {
                Some(g) => {
                    &&& final(queue).holds_write(g.grant_spec())
                    &&& final(queue).write_grant_open()
                    &&& g.size_spec() == size
                    &&& g.grant_spec().len() == size + size / 254 + 2
                    &&& final(queue).granted().len() == g.grant_spec().len()
                    &&& (old(queue).unwrapped() ==> !g.grant_spec().wrapped_spec())
                },
                None => {
                    &&& final(queue).write_grant_open() == old(queue).write_grant_open()
                    &&& final(queue).granted() == old(queue).granted()
                    &&& (forall|g: WriteGrant|
                        old(queue).holds_write(g) ==> final(queue).holds_write(g))
                },
            }),
    {
        let overhead = size / 254 + 2;
        match queue.grant(size + overhead) {
            Ok(g) => Some(CobsTxGrantW { grant: g, size }),
            Err(_) => None,
        }
    }

    /// Encode `data` as one delimited frame inside the reservation and
    /// publish it: the queue grows by the frame and nothing else.
    pub fn commit(&mut self, queue: &mut BipBuffer, data: &Vec<u8>, g: CobsTxGrantW)
        requires
            old(queue).wf(),
            old(queue).holds_write(g.grant_spec()),
            old(queue).write_grant_open(),
            old(queue).granted().len() == g.grant_spec().len(),
            g.grant_spec().len() == g.size_spec() + g.size_spec() / 254 + 2,
            g.size_spec() <= MAX_TX_BODY,
            data@.len() <= g.size_spec(),
        ensures
            final(queue).wf(),
            final(queue)@ == old(queue)@ + cobs_encode(data@) + seq![0u8],
            final(queue).capacity() == old(queue).capacity(),
            !final(queue).write_grant_open(),
            final(queue).read_grant_open() == old(queue).read_grant_open(),
            forall|gr: ReadGrant| old(queue).holds_read(gr) ==> final(queue).holds_read(gr),
            old(queue).unwrapped() && !g.grant_spec().wrapped_spec() ==> final(queue).unwrapped(),
    {
        let dlen = data.len();
        let size = g.size;
        let offset = size / 254 + 2;
        proof {
            lemma_div_is_ordered(dlen as int, size as int, 254);
        }

        // lay the frame out in a scratch buffer and encode it in place
        let mut frame: Vec<u8> = Vec::new();
        let mut i: usize = 0;
        while i < offset
            invariant
                i <= offset,
                frame@.len() == i,
            decreases offset - i,
        {
            frame.push(0);
            i = i + 1;
        }
        let mut j: usize = 0;
        while j < dlen
            invariant
                j <= dlen,
                dlen == data@.len(),
                frame@.len() == offset + j,
                frame@.subrange(offset as int, offset + j) == data@.take(j as int),
            decreases dlen - j,
        {
            frame.push(data[j]);
            j = j + 1;
            proof {
                assert(frame@.subrange(offset as int, offset + j) =~= frame@.subrange(
                    offset as int,
                    offset + (j - 1),
                ) + seq![data@[j - 1]]);
                assert(data@.take(j as int) =~= data@.take(j - 1) + seq![data@[j - 1]]);
            }
        }
        let ghost pre_term = frame@;
        frame.push(0);
        proof {
            assert(data@.take(dlen as int) =~= data@);
            assert(frame@.subrange(offset as int, offset + dlen) =~= pre_term.subrange(
                offset as int,
                offset + dlen,
            ));
        }
        let n = cobs_encode_in_place(&mut frame, offset, dlen);
        proof {
            lemma_encode_len(data@);
            assert(n <= dlen + dlen / 254 + 2);
            assert(n <= g.grant_spec().len());
        }

        // copy the encoded frame into the reservation and publish it
        proof {
            assert(queue.granted().take(0) =~= frame@.take(0));
        }
        let mut k: usize = 0;
        while k < n
            invariant
                k <= n,
                n <= frame@.len(),
                n <= g.grant_spec().len(),
                queue.wf(),
                queue.holds_write(g.grant_spec()),
                queue.write_grant_open(),
                queue.granted().len() == g.grant_spec().len(),
                queue@ == old(queue)@,
                queue.unwrapped() == old(queue).unwrapped(),
                queue.capacity() == old(queue).capacity(),
                queue.read_grant_open() == old(queue).read_grant_open(),
                forall|gr: ReadGrant| old(queue).holds_read(gr) ==> queue.holds_read(gr),
                queue.granted().take(k as int) == frame@.take(k as int),
            decreases n - k,
        {
            let ghost gpre = queue.granted();
            queue.write_byte(&g.grant, k, frame[k]);
            k = k + 1;
            proof {
                assert(queue.granted().take(k as int) =~= gpre.take(k - 1) + seq![frame@[k - 1]]);
                assert(frame@.take(k as int) =~= frame@.take(k - 1) + seq![frame@[k - 1]]);
            }
        }
        let ghost gfin = queue.granted();
        queue.commit(n, g.grant);
        proof {
            assert(gfin.take(n as int) =~= frame@.take(n as int));
            assert(frame@.take(n as int) == cobs_encode(data@) + seq![0u8]);
            assert(queue@ =~= old(queue)@ + cobs_encode(data@) + seq![0u8]);
        }
    }

    /// Give the reservation back without publishing anything.
    pub fn abandon(&mut self, queue: &mut BipBuffer, g: CobsTxGrantW)
        requires
            old(queue).wf(),
            old(queue).holds_write(g.grant_spec()),
        ensures
            final(queue).wf(),
            final(queue)@ == old(queue)@,
            final(queue).capacity() == old(queue).capacity(),
            !final(queue).write_grant_open(),
            final(queue).read_grant_open() == old(queue).read_grant_open(),
            forall|gr: ReadGrant| old(queue).holds_read(gr) ==> final(queue).holds_read(gr),
            old(queue).unwrapped() ==> final(queue).unwrapped(),
    {
        proof {
            if old(queue).unwrapped() {
                old(queue).lemma_unwrapped_write_grant(g.grant_spec());
            }
        }
        queue.commit(0, g.grant);
        proof {
            assert(old(queue).granted().take(0) =~= Seq::<u8>::empty());
            assert(queue@ =~= old(queue)@ + Seq::<u8>::empty());
            assert(queue@ =~= old(queue)@);
        }
    }
}

/// Why a command could not be answered in place.
#[derive(Debug, Clone, Copy)]
pub enum CommandError {
    /// The target needs at least this many response bytes; retry with a
    /// larger reservation.
    NeedWriteGrant(usize),
    /// The command failed; the kind goes back to the host.
    Hal(HalError),
}

/// Spec-level counterpart of [`CommandError`].
pub enum CommandFailure {
    NeedWriteGrant(int),
    Hal(HalErrorKind),
}

/// The wire records of a pin list: two bytes per pin.
pub open spec fn pin_records(pins: Seq<PinModel>) -> Seq<u8>
    decreases pins.len(),
{
    if pins.len() == 0 {
        seq![]
    } else {
        pin_records(pins.drop_last()) + enc_pin_information(pins.last().info)
    }
}

/// Each pin contributes exactly two bytes.
pub proof fn lemma_pin_records_len(pins: Seq<PinModel>)
    ensures
        pin_records(pins).len() == 2 * pins.len(),
    decreases pins.len(),
{
    if pins.len() > 0 {
        lemma_pin_records_len(pins.drop_last());
    }
}

/// What one command does to the pins, given `capacity` writable response
/// bytes: the response body or the failure, and the pins afterwards.
pub open spec fn target_step(pins: Seq<PinModel>, payload: Seq<u8>, capacity: int) -> (
    Result<Seq<u8>, CommandFailure>,
    Seq<PinModel>,
) {
    match dec_gpio_command(payload) {
        None => (Err(CommandFailure::Hal(HalErrorKind::InvalidParameter)), pins),
        Some(cmd) => match cmd {
            GpioCommand::EnumeratePins => {
                let need = 1 + 2 * pins.len();
                if need > capacity {
                    (Err(CommandFailure::NeedWriteGrant(need as int)), pins)
                } else {
                    (Ok(seq![pins.len() as u8] + pin_records(pins)), pins)
                }
            },
            GpioCommand::GetPinMode(i) => {
                if capacity < 2 {
                    (Err(CommandFailure::NeedWriteGrant(2)), pins)
                } else if i >= pins.len() {
                    (Err(CommandFailure::Hal(HalErrorKind::InvalidParameter)), pins)
                } else {
                    (Ok(enc_pin_mode(pins[i as int].mode)), pins)
                }
            },
            GpioCommand::SetPinMode(i, m) => {
                if i >= pins.len() {
                    (Err(CommandFailure::Hal(HalErrorKind::InvalidParameter)), pins)
                } else if m is Alternate {
                    (Err(CommandFailure::Hal(HalErrorKind::InvalidGpioMode)), pins)
                } else {
                    (
                        Ok(seq![]),
                        pins.update(
                            i as int,
                            PinModel {
                                info: pins[i as int].info,
                                mode: m,
                                level: pins[i as int].level,
                            },
                        ),
                    )
                }
            },
            GpioCommand::SetPinValue(i, v) => {
                if i >= pins.len() {
                    (Err(CommandFailure::Hal(HalErrorKind::InvalidParameter)), pins)
                } else if !(pins[i as int].mode is PushPullOutput) {
                    (Err(CommandFailure::Hal(HalErrorKind::InvalidGpioMode)), pins)
                } else {
                    (
                        Ok(seq![]),
                        pins.update(
                            i as int,
                            PinModel {
                                info: pins[i as int].info,
                                mode: pins[i as int].mode,
                                level: v,
                            },
                        ),
                    )
                }
            },
            GpioCommand::GetPinValue(i) => {
                if capacity < 1 {
                    (Err(CommandFailure::NeedWriteGrant(1)), pins)
                } else if i >= pins.len() {
                    (Err(CommandFailure::Hal(HalErrorKind::InvalidParameter)), pins)
                } else if !(pins[i as int].mode is FloatingInput) {
                    (Err(CommandFailure::Hal(HalErrorKind::InvalidGpioMode)), pins)
                } else {
                    (
                        Ok(
                            seq![
                                if pins[i as int].level {
                                    1u8
                                } else {
                                    0u8
                                },
                            ],
                        ),
                        pins,
                    )
                }
            },
        },
    }
}

/// The GPIO target: interprets command bodies against the board's pins.
pub struct GpioCommandTarget {
    pins: BoardGpioPinSet,
}

impl View for GpioCommandTarget {
    type V = Seq<PinModel>;

    closed spec fn view(&self) -> Seq<PinModel> {
        self.pins@
    }
}

impl GpioCommandTarget {
    pub fn new(pins: BoardGpioPinSet) -> (r: Self)
        requires
            pins@.len() < 256,
        ensures
            r@ == pins@,
    {
        GpioCommandTarget { pins }
    }

    /// The pin at `index`, or `InvalidParameter` past the end.
    pub fn pin(&self, index: u8) -> (r: HalResult<BoardGpioPin>)
        ensures
            index < self@.len() ==> (r matches Ok(p) && p@ == self@[index as int]),
            index >= self@.len() ==> (r matches Err(e) && e.kind()
                == HalErrorKind::InvalidParameter),
    {
        if (index as usize) < self.pins.len() {
            Ok(self.pins.at(index as usize))
        } else {
            Err(HalError::from_kind(HalErrorKind::InvalidParameter))
        }
    }

    /// Interpret one command body with `capacity` writable response bytes.
    /// The result and the pins' new state are exactly [`target_step`].
    pub fn process_command(&mut self, payload: &Vec<u8>, capacity: usize) -> (r: Result<
        Vec<u8>,
        CommandError,
    >)
        requires
            old(self)@.len() < 256,
        ensures
            final(self)@ == target_step(old(self)@, payload@, capacity as int).1,
            final(self)@.len() == old(self)@.len(),
            ({
                let res = target_step(old(self)@, payload@, capacity as int).0;
                match r {
                    Ok(v) => res matches Ok(b) && v@ == b && v@.len() <= capacity,
                    Err(CommandError::NeedWriteGrant(n)) => res == Err::<Seq<u8>, CommandFailure>(
                        CommandFailure::NeedWriteGrant(n as int),
                    ) && n <= 2 * old(self)@.len() + 2,
                    Err(CommandError::Hal(e)) => res matches Err(CommandFailure::Hal(k)) && e.kind()
                        == k,
                }
            }),
    {
        let cmd = match deserialize_gpio_command(payload) {
            Some(c) => c,
            None => {
                return Err(CommandError::Hal(HalError::from_kind(HalErrorKind::InvalidParameter)));
            },
        };
        match cmd {
            GpioCommand::EnumeratePins => {
                let n = self.pins.len();
                let need = 1 + 2 * n;
                if need > capacity {
                    return Err(CommandError::NeedWriteGrant(need));
                }
                let mut out: Vec<u8> = Vec::new();
                out.push(n as u8);
                proof {
                    assert(self@.take(0) =~= Seq::<PinModel>::empty());
                    assert(out@ =~= seq![n as u8] + pin_records(self@.take(0)));
                }
                let mut i: usize = 0;
                while i < n
                    invariant
                        i <= n,
                        n == self@.len(),
                        out@ == seq![n as u8] + pin_records(self@.take(i as int)),
                        out@.len() == 1 + 2 * i,
                    decreases n - i,
                {
                    let p = self.pins.at(i);
                    let info = p.information();
                    out.push(info.index_major);
                    out.push(info.index_minor);
                    i = i + 1;
                    proof {
                        assert(self@.take(i as int).drop_last() =~= self@.take(i - 1));
                        assert(self@.take(i as int).last() == self@[i - 1]);
                        assert(out@ =~= seq![n as u8] + pin_records(self@.take(i as int)));
                    }
                }
                proof {
                    assert(self@.take(n as int) =~= self@);
                    lemma_pin_records_len(self@);
                }
                Ok(out)
            },
            GpioCommand::GetPinMode(index) => {
                if capacity < 2 {
                    return Err(CommandError::NeedWriteGrant(2));
                }
                if (index as usize) >= self.pins.len() {
                    return Err(
                        CommandError::Hal(HalError::from_kind(HalErrorKind::InvalidParameter)),
                    );
                }
                let p = self.pins.at(index as usize);
                let mut out: Vec<u8> = Vec::new();
                write_pin_mode(&mut out, p.mode());
                proof {
                    assert(Seq::<u8>::empty() + enc_pin_mode(self@[index as int].mode)
                        =~= enc_pin_mode(self@[index as int].mode));
                }
                Ok(out)
            },
            GpioCommand::SetPinMode(index, mode) => {
                if (index as usize) >= self.pins.len() {
                    return Err(
                        CommandError::Hal(HalError::from_kind(HalErrorKind::InvalidParameter)),
                    );
                }
                let mut p = self.pins.at(index as usize);
                match p.set_mode(mode) {
                    Ok(_) => {
                        self.pins.set(index as usize, p);
                        Ok(Vec::new())
                    },
                    Err(e) => Err(CommandError::Hal(e)),
                }
            },
            GpioCommand::SetPinValue(index, value) => {
                if (index as usize) >= self.pins.len() {
                    return Err(
                        CommandError::Hal(HalError::from_kind(HalErrorKind::InvalidParameter)),
                    );
                }
                let mut p = self.pins.at(index as usize);
                match p.set_output(value) {
                    Ok(_) => {
                        self.pins.set(index as usize, p);
                        Ok(Vec::new())
                    },
                    Err(e) => Err(CommandError::Hal(e)),
                }
            },
            GpioCommand::GetPinValue(index) => {
                if capacity < 1 {
                    return Err(CommandError::NeedWriteGrant(1));
                }
                if (index as usize) >= self.pins.len() {
                    return Err(
                        CommandError::Hal(HalError::from_kind(HalErrorKind::InvalidParameter)),
                    );
                }
                let p = self.pins.at(index as usize);
                match p.get_input() {
                    Ok(v) => {
                        let mut out: Vec<u8> = Vec::new();
                        out.push(if v {
                            1
                        } else {
                            0
                        });
                        Ok(out)
                    },
                    Err(e) => Err(CommandError::Hal(e)),
                }
            },
        }
    }
}

/// The dispatcher: one packet in, one response frame out (or a remembered
/// larger reservation and another try next pass).
pub struct CommandProcessor {
    producer: CobsTxProducer,
    consumer: PacketConsumer,
    write_grant_request: Option<usize>,
    gpio_target: GpioCommandTarget,
}

impl View for CommandProcessor {
    type V = Seq<PinModel>;

    /// The GPIO target's pins.
    closed spec fn view(&self) -> Seq<PinModel> {
        self.gpio_target@
    }
}

impl CommandProcessor {
    /// The reservation size a previous pass asked for, if any.
    pub closed spec fn request_spec(&self) -> Option<usize> {
        self.write_grant_request
    }

    /// The reservation size the next pass will ask for.
    pub open spec fn effective_request(&self) -> usize {
        match self.request_spec() {
            Some(r) => r,
            None => 4,
        }
    }

    /// The remembered request stays in the range the targets can ask for,
    /// and the pin count fits the wire's one-byte pin counter.
    pub closed spec fn wf(&self) -> bool {
        &&& match self.write_grant_request {
            Some(r) => 4 <= r <= 600,
            None => true,
        }
        &&& self.gpio_target@.len() < 256
    }

    pub fn new(
        producer: CobsTxProducer,
        consumer: PacketConsumer,
        gpio_target: GpioCommandTarget,
    ) -> (r: Self)
        requires
            gpio_target@.len() < 256,
        ensures
            r.wf(),
            r@ == gpio_target@,
            r.request_spec() is None,
    {
        CommandProcessor { producer, consumer, write_grant_request: None, gpio_target }
    }

    /// One pass: if a whole packet is readable and the transmit queue can
    /// take the current reservation, dispatch it and either publish the
    /// response frame and consume the packet, or remember the larger
    /// reservation the target needs and leave the packet unread.
    pub fn process(&mut self, packets: &mut BipBuffer, tx: &mut BipBuffer)
        requires
            old(self).wf(),
            old(packets).wf(),
            old(tx).wf(),
            !old(packets).read_grant_open(),
            !old(tx).write_grant_open(),
        ensures
            final(self).wf(),
            final(packets).wf(),
            final(tx).wf(),
            !final(packets).read_grant_open(),
            !final(tx).write_grant_open(),
            final(packets).capacity() == old(packets).capacity(),
            final(tx).capacity() == old(tx).capacity(),
            final(packets).write_grant_open() == old(packets).write_grant_open(),
            final(packets).granted() == old(packets).granted(),
            forall|g: WriteGrant| old(packets).holds_write(g) ==> final(packets).holds_write(g),
            final(tx).read_grant_open() == old(tx).read_grant_open(),
            forall|g: ReadGrant| old(tx).holds_read(g) ==> final(tx).holds_read(g),
            old(tx).unwrapped() ==> final(tx).unwrapped(),
            ({
                let seg = old(packets)@.take(old(packets).first_seg_len() as int);
                let req = old(self).effective_request();
                let can = old(tx).can_grant((req + req / 254 + 2) as usize);
                match head_packet(seg) {
                    None => {
                        &&& final(packets)@ == old(packets)@
                        &&& final(packets).first_seg_len() == old(packets).first_seg_len()
                        &&& final(tx)@ == old(tx)@
                        &&& final(self).request_spec() == old(self).request_spec()
                        &&& final(self)@ == old(self)@
                    },
                    Some(p) => {
                        if p.len() < 2 {
                            &&& final(packets)@ == old(packets)@.skip(2 + p.len() as int)
                            &&& final(tx)@ == old(tx)@
                            &&& final(self).request_spec() == old(self).request_spec()
                            &&& final(self)@ == old(self)@
                        } else if !can {
                            &&& final(packets)@ == old(packets)@
                            &&& final(packets).first_seg_len() == old(packets).first_seg_len()
                            &&& final(tx)@ == old(tx)@
                            &&& final(self).request_spec() == old(self).request_spec()
                            &&& final(self)@ == old(self)@
                        } else if p[0] == 1 {
                            let step = target_step(old(self)@, p.skip(1), req - 1);
                            match step.0 {
                                Ok(body) => {
                                    &&& final(tx)@ == old(tx)@ + cobs_encode(seq![0u8] + body)
                                        + seq![0u8]
                                    &&& final(packets)@ == old(packets)@.skip(2 + p.len() as int)
                                    &&& final(self).request_spec() is None
                                    &&& final(self)@ == step.1
                                },
                                Err(CommandFailure::NeedWriteGrant(n)) => {
                                    &&& final(tx)@ == old(tx)@
                                    &&& final(packets)@ == old(packets)@
                                    &&& final(packets).first_seg_len() == old(
                                        packets,
                                    ).first_seg_len()
                                    &&& final(self).request_spec() == Some(
                                        if 1 + n < 4 {
                                            4usize
                                        } else {
                                            (1 + n) as usize
                                        },
                                    )
                                    &&& final(self)@ == old(self)@
                                },
                                Err(CommandFailure::Hal(k)) => {
                                    &&& final(tx)@ == old(tx)@ + cobs_encode(
                                        enc_response_header(Err(k)),
                                    ) + seq![0u8]
                                    &&& final(packets)@ == old(packets)@.skip(2 + p.len() as int)
                                    &&& final(self).request_spec() is None
                                    &&& final(self)@ == old(self)@
                                },
                            }
                        } else {
                            &&& final(tx)@ == old(tx)@ + cobs_encode(
                                enc_response_header(Err(HalErrorKind::UnsupportedCommand)),
                            ) + seq![0u8]
                            &&& final(packets)@ == old(packets)@.skip(2 + p.len() as int)
                            &&& final(self).request_spec() is None
                            &&& final(self)@ == old(self)@
                        }
                    },
                }
            }),
    {
        let read_grant = match self.consumer.read(packets) {
            Some(g) => g,
            None => {
                return ;
            },
        };
        let plen = read_grant.packet().len();
        if plen < 2 {
            // malformed packet: consume it without an answer
            self.consumer.release_consume(packets, read_grant);
            return ;
        }
        let req = match self.write_grant_request {
            Some(r) => r,
            None => 4,
        };
        let write_grant = match self.producer.grant(tx, req) {
            Some(g) => g,
            None => {
                self.consumer.release_unread(packets, read_grant);
                return ;
            },
        };
        let endpoint = read_grant.packet()[0];
        let mut payload: Vec<u8> = Vec::new();
        let mut i: usize = 1;
        while i < plen
            invariant
                1 <= i <= plen,
                plen == read_grant@.len(),
                payload@ == read_grant@.subrange(1, i as int),
            decreases plen - i,
        {
            payload.push(read_grant.packet()[i]);
            i = i + 1;
            proof {
                assert(payload@ =~= read_grant@.subrange(1, i - 1) + seq![read_grant@[i - 1]]);
                assert(read_grant@.subrange(1, i as int) =~= read_grant@.subrange(1, i - 1)
                    + seq![read_grant@[i - 1]]);
            }
        }
        proof {
            assert(payload@ =~= read_grant@.skip(1));
        }
        let result = if endpoint == 1 {
            self.gpio_target.process_command(&payload, req - 1)
        } else {
            Err(CommandError::Hal(HalError::from_kind(HalErrorKind::UnsupportedCommand)))
        };
        match result {
            Ok(resp) => {
                let mut data: Vec<u8> = Vec::new();
                data.push(0);
                let rlen = resp.len();
                let mut j: usize = 0;
                while j < rlen
                    invariant
                        j <= rlen,
                        rlen == resp@.len(),
                        data@ == seq![0u8] + resp@.take(j as int),
                    decreases rlen - j,
                {
                    data.push(resp[j]);
                    j = j + 1;
                    proof {
                        assert(data@ =~= (seq![0u8] + resp@.take(j - 1)) + seq![resp@[j - 1]]);
                        assert(seq![0u8] + resp@.take(j as int) =~= (seq![0u8] + resp@.take(j - 1))
                            + seq![resp@[j - 1]]);
                    }
                }
                proof {
                    assert(resp@.take(rlen as int) =~= resp@);
                }
                self.producer.commit(tx, &data, write_grant);
                self.consumer.release_consume(packets, read_grant);
                self.write_grant_request = None;
            },
            Err(CommandError::NeedWriteGrant(n)) => {
                let want = 1 + n;
                self.write_grant_request = Some(
                    if want < 4 {
                        4
                    } else {
                        want
                    },
                );
                self.producer.abandon(tx, write_grant);
                self.consumer.release_unread(packets, read_grant);
            },
            Err(CommandError::Hal(err)) => {
                let hdr = serialize_response_header(&Err(err.kind()));
                self.producer.commit(tx, &hdr, write_grant);
                self.consumer.release_consume(packets, read_grant);
                self.write_grant_request = None;
            },
        }
    }
}

} // verus!
