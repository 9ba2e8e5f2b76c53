//! The packet assembler: raw bytes in, length-prefixed packets out.
//!
//! Bytes from the receive queue arrive in arbitrary chunks, framed with
//! `0x00` delimiters. The assembler discards everything up to the first
//! delimiter, reserves room in the packet queue, copies each frame's raw
//! bytes into the reservation, decodes the frame in place, and publishes
//! the payload behind a two-byte length prefix. Broken frames, empty
//! frames, and frames larger than the reservation publish nothing; the
//! assembler then waits for the next delimiter.
//!
//! One call to [`PacketProcessor::process`] handles one contiguous chunk;
//! its whole effect is [`PacketProcessor::asm_step`] applied to the
//! assembler's model.

use vstd::prelude::*;
use crate::bip::{BipBuffer, ReadGrant, WriteGrant};
use crate::cobs::{cobs_decode, cobs_decode_in_place, cobs_encode, first_zero, lemma_decode_encode, lemma_encode_no_zeros, lemma_first_zero, lemma_first_zero_append};

verus! {

/// Upper bound on the payload size the assembler can be configured for.
pub const MAX_PACKET_SIZE_LIMIT: usize = 60000;

/// The assembler's control state.
#[derive(Debug, Clone, Copy)]
pub enum AssemblerState {
    /// No frame boundary seen yet; bytes are discarded up to and including
    /// the next `0x00`.
    Discarding,
    /// At a frame boundary, waiting for room in the packet queue.
    WaitingForGrant,
    /// Room reserved; raw frame bytes copied so far end at the offset.
    Processing(WriteGrant, usize),
}

/// The assembler as the contracts see it: its control state, with the raw
/// frame bytes gathered so far folded into the processing case.
pub enum AsmModel {
    Discarding,
    WaitingForGrant,
    Processing(Seq<u8>),
}

/// The two-byte little-endian length prefix of a published packet.
pub open spec fn len_prefix(n: int) -> Seq<u8> {
    seq![(n % 256) as u8, (n / 256) as u8]
}

/// Turns a stream of delimited frames into length-prefixed packets.
pub struct PacketProcessor {
    state: AssemblerState,
    max_data_size: usize,
}

impl PacketProcessor {
    /// Room reserved per frame beyond the length prefix: the largest
    /// encoding of a packet this size, and its delimiter.
    pub closed spec fn max_data_spec(&self) -> usize {
        self.max_data_size
    }

    /// The assembler's model, reading the partial frame out of the packet
    /// queue's granted region.
    pub closed spec fn model(&self, output: &BipBuffer) -> AsmModel {
        match self.state {
            AssemblerState::Discarding => AsmModel::Discarding,
            AssemblerState::WaitingForGrant => AsmModel::WaitingForGrant,
            AssemblerState::Processing(g, fill) => AsmModel::Processing(
                output.granted().subrange(2, fill as int),
            ),
        }
    }

    /// The assembler and the packet queue fit together: exactly in the
    /// processing state the queue has the assembler's reservation open.
    pub closed spec fn wf(&self, output: &BipBuffer) -> bool {
        &&& self.max_data_size <= MAX_PACKET_SIZE_LIMIT + MAX_PACKET_SIZE_LIMIT / 254 + 2
        &&& match self.state {
            AssemblerState::Processing(g, fill) => {
                &&& output.holds_write(g)
                &&& output.write_grant_open()
                &&& g.len() == 2 + self.max_data_size
                &&& output.granted().len() == g.len()
                &&& 2 <= fill <= g.len()
            },
            _ => !output.write_grant_open(),
        }
    }

    /// What one chunk does to the model: `seg` is the readable chunk,
    /// `max_data` the configured reservation size, `can_reserve` whether
    /// the packet queue can take a reservation now. Gives the next model,
    /// the bytes consumed from the chunk, and the bytes published to the
    /// packet queue.
    pub open spec fn asm_step(m: AsmModel, seg: Seq<u8>, max_data: int, can_reserve: bool) -> (
        AsmModel,
        int,
        Seq<u8>,
    ) {
        let fz = first_zero(seg);
        let found = fz < seg.len();
        let chunk = if found {
            fz + 1
        } else {
            seg.len() as int
        };
        if seg.len() == 0 {
            (m, 0, seq![])
        } else {
            match m {
                AsmModel::Discarding => (
                    if found {
                        AsmModel::WaitingForGrant
                    } else {
                        AsmModel::Discarding
                    },
                    chunk,
                    seq![],
                ),
                AsmModel::WaitingForGrant => (
                    if can_reserve {
                        AsmModel::Processing(seq![])
                    } else {
                        AsmModel::WaitingForGrant
                    },
                    0,
                    seq![],
                ),
                AsmModel::Processing(raw) => {
                    if raw.len() + chunk > max_data {
                        (AsmModel::Discarding, chunk, seq![])
                    } else if !found {
                        (AsmModel::Processing(raw + seg), chunk, seq![])
                    } else {
                        let frame = raw + seg.take(fz);
                        match cobs_decode(frame) {
                            Some(p) => {
                                if p.len() > 0 {
                                    (
                                        AsmModel::WaitingForGrant,
                                        chunk,
                                        len_prefix(p.len() as int) + p,
                                    )
                                } else {
                                    (AsmModel::WaitingForGrant, chunk, seq![])
                                }
                            },
                            None => (AsmModel::WaitingForGrant, chunk, seq![]),
                        }
                    }
                },
            }
        }
    }

    /// An assembler for payloads up to `max_packet_size` bytes, initially
    /// discarding bytes until the first frame boundary.
    pub fn new(max_packet_size: usize) -> (r: Self)
        requires
            max_packet_size <= MAX_PACKET_SIZE_LIMIT,
        ensures
            r.max_data_spec() == max_packet_size + max_packet_size / 254 + 2,
            forall|q: BipBuffer|
                (#[trigger] r.model(&q)) == AsmModel::Discarding && (!q.write_grant_open()
                    ==> r.wf(&q)),
    {
        PacketProcessor {
            state: AssemblerState::Discarding,
            max_data_size: max_packet_size + max_packet_size / 254 + 2,
        }
    }

    /// Drain one readable chunk of `input` into the assembler.
    ///
    /// The effect on the model, the bytes consumed from `input`, and the
    /// bytes published to `output` are exactly [`Self::asm_step`] of the
    /// chunk.
    pub fn process(&mut self, input: &mut BipBuffer, output: &mut BipBuffer)
        requires
            old(self).wf(old(output)),
            old(input).wf(),
            old(output).wf(),
            !old(input).read_grant_open(),
        ensures
            final(self).wf(final(output)),
            final(input).wf(),
            final(output).wf(),
            !final(input).read_grant_open(),
            final(self).max_data_spec() == old(self).max_data_spec(),
            final(input).capacity() == old(input).capacity(),
            final(output).capacity() == old(output).capacity(),
            final(input).write_grant_open() == old(input).write_grant_open(),
            final(input).granted() == old(input).granted(),
            forall|g: WriteGrant| old(input).holds_write(g) ==> final(input).holds_write(g),
            final(output).read_grant_open() == old(output).read_grant_open(),
            forall|g: ReadGrant| old(output).holds_read(g) ==> final(output).holds_read(g),
            old(output).unwrapped() ==> final(output).unwrapped(),
            ({
                let seg = old(input)@.take(old(input).first_seg_len() as int);
                let step = Self::asm_step(
                    old(self).model(old(output)),
                    seg,
                    old(self).max_data_spec() as int,
                    old(output).can_grant((2 + old(self).max_data_spec()) as usize),
                );
                &&& final(self).model(final(output)) == step.0
                &&& final(input)@ == old(input)@.skip(step.1)
                &&& final(output)@ == old(output)@ + step.2
            }),
    {
        let ghost in0 = input@;
        let ghost out0 = output@;
        let grant_r = match input.read() {
            Ok(g) => g,
            Err(_) => {
                proof {
                    old(input).lemma_first_seg_len();
                    assert(old(input)@.len() == 0);
                    assert(old(input)@.take(old(input).first_seg_len() as int) =~= Seq::<
                        u8,
                    >::empty());
                    assert(old(output)@ + Seq::<u8>::empty() =~= old(output)@);
                    assert(input@ =~= old(input)@.skip(0));
                }
                return ;
            },
        };
        let n = grant_r.len();
        let ghost seg = old(input)@.take(n as int);
        proof {
            assert(seg.len() == n);
        }

        // find the first frame delimiter in the chunk
        let mut i: usize = 0;
        let mut found = false;
        while i < n
            invariant_except_break
                !found,
                i <= n,
                n == grant_r.len(),
                input.wf(),
                input.holds_read(grant_r),
                input@ == old(input)@,
                n <= input@.len(),
                seg == input@.take(n as int),
                forall|j: int| 0 <= j < i ==> seg[j] != 0,
            ensures
                i <= n,
                input.wf(),
                input.holds_read(grant_r),
                input@ == old(input)@,
                n == grant_r.len(),
                n <= input@.len(),
                found ==> i < n && seg[i as int] == 0 && (forall|j: int| 0 <= j < i ==> seg[j] != 0),
                !found ==> i == n && (forall|j: int| 0 <= j < n ==> seg[j] != 0),
            decreases n - i,
        {
            proof {
                assert(input@.take(n as int)[i as int] == input@[i as int]);
            }
            if input.read_byte(&grant_r, i) == 0 {
                found = true;
                break ;
            }
            i = i + 1;
        }
        proof {
            lemma_first_zero(seg);
            if found {
                assert(first_zero(seg) == i);
            } else {
                assert(first_zero(seg) == n);
            }
        }
        let chunk: usize = if found {
            i + 1
        } else {
            n
        };

        match self.state {
            AssemblerState::Discarding => {
                if found {
                    self.state = AssemblerState::WaitingForGrant;
                }
                input.release(chunk, grant_r);
                proof {
                    assert(output@ + Seq::<u8>::empty() =~= output@);
                }
            },
            AssemblerState::WaitingForGrant => {
                match output.grant(2 + self.max_data_size) {
                    Ok(grant_w) => {
                        self.state = AssemblerState::Processing(grant_w, 2);
                        proof {
                            assert(output.granted().subrange(2, 2) =~= Seq::<u8>::empty());
                        }
                    },
                    Err(_) => {
                    },
                }
                input.release(0, grant_r);
                proof {
                    assert(input@ =~= old(input)@.skip(0));
                    assert(output@ + Seq::<u8>::empty() =~= output@);
                }
            },
            AssemblerState::Processing(grant_w, fill) => {
                proof {
                    if old(output).unwrapped() {
                        old(output).lemma_unwrapped_write_grant(grant_w);
                    }
                }
                let ghost raw0 = output.granted().subrange(2, fill as int);
                let glen = grant_w.len();
                if chunk > glen - fill {
                    // frame too large for the reservation: drop it
                    output.commit(0, grant_w);
                    self.state = AssemblerState::Discarding;
                    input.release(chunk, grant_r);
                    proof {
                        assert(old(output).granted().take(0) =~= Seq::<u8>::empty());
                        assert(output@ =~= old(output)@ + Seq::<u8>::empty());
                    }
                } else {
                    // copy the raw chunk into the reservation
                    let new_fill = fill + chunk;
                    let mut j: usize = 0;
                    while j < chunk
                        invariant
                            j <= chunk,
                            fill + chunk <= grant_w.len(),
                            2 <= fill,
                            chunk <= n <= input@.len(),
                            n == grant_r.len(),
                            input.wf(),
                            input.holds_read(grant_r),
                            input@ == old(input)@,
                            seg == input@.take(n as int),
                            output.wf(),
                            output.holds_write(grant_w),
                            output.write_grant_open(),
                            output.granted().len() == grant_w.len(),
                            output@ == old(output)@,
                            output.unwrapped() == old(output).unwrapped(),
                            output.capacity() == old(output).capacity(),
                            output.read_grant_open() == old(output).read_grant_open(),
                            forall|g: ReadGrant|
                                old(output).holds_read(g) ==> output.holds_read(g),
                            output.granted().subrange(2, fill as int) == raw0,
                            output.granted().subrange(fill as int, fill + j) == seg.take(j as int),
                        decreases chunk - j,
                    {
                        proof {
                            assert(input@.take(n as int)[j as int] == input@[j as int]);
                        }
                        let b = input.read_byte(&grant_r, j);
                        let ghost gpre = output.granted();
                        output.write_byte(&grant_w, fill + j, b);
                        j = j + 1;
                        proof {
                            assert(output.granted().subrange(2, fill as int) =~= raw0);
                            assert(output.granted().subrange(fill as int, fill + j)
                                =~= gpre.subrange(fill as int, fill + (j - 1)) + seq![b]);
                            assert(seg.take(j as int) =~= seg.take(j - 1) + seq![seg[j - 1]]);
                        }
                    }
                    if !found {
                        self.state = AssemblerState::Processing(grant_w, new_fill);
                        input.release(chunk, grant_r);
                        proof {
                            assert(output.granted().subrange(2, new_fill as int) =~= raw0
                                + seg.take(chunk as int));
                            assert(seg.take(chunk as int) =~= seg);
                            assert(output@ + Seq::<u8>::empty() =~= output@);
                        }
                    } else {
                        // frame complete: decode it and publish the payload
                        let ghost frame_spec = raw0 + seg.take(i as int);
                        let mut frame: Vec<u8> = Vec::new();
                        let mut k: usize = 2;
                        while k < new_fill - 1
                            invariant
                                2 <= k <= new_fill - 1,
                                2 <= fill <= new_fill - 1,
                                new_fill == fill + chunk,
                                chunk >= 1,
                                new_fill <= grant_w.len(),
                                output.wf(),
                                output.holds_write(grant_w),
                                output.write_grant_open(),
                                output.granted().len() == grant_w.len(),
                                output.unwrapped() == old(output).unwrapped(),
                                frame@ == output.granted().subrange(2, k as int),
                            decreases new_fill - k,
                        {
                            frame.push(output.granted_byte(&grant_w, k));
                            k = k + 1;
                            proof {
                                assert(output.granted().subrange(2, k as int)
                                    =~= output.granted().subrange(2, k - 1) + seq![output.granted()[
                                    k - 1]]);
                            }
                        }
                        proof {
                            assert(output.granted().subrange(2, new_fill - 1) =~= frame_spec);
                            assert(frame@ == frame_spec);
                        }
                        let dec = cobs_decode_in_place(&mut frame);
                        match dec {
                            Ok(psize) if psize > 0 => {
                                let ghost p = cobs_decode(frame_spec)->Some_0;
                                proof {
                                    assert(psize <= frame_spec.len());
                                    assert(frame_spec.len() <= grant_w.len() - 3);
                                    assert(psize < 65536);
                                }
                                // length prefix, then the decoded payload
                                output.write_byte(&grant_w, 0, (psize % 256) as u8);
                                output.write_byte(&grant_w, 1, (psize / 256) as u8);
                                proof {
                                    assert(output.granted().subrange(0, 2) =~= len_prefix(
                                        psize as int,
                                    ));
                                    assert(output.granted().subrange(2, 2) =~= frame@.take(0));
                                }
                                let mut t: usize = 0;
                                while t < psize
                                    invariant
                                        t <= psize,
                                        psize + 2 <= grant_w.len(),
                                        psize <= frame@.len(),
                                        output.wf(),
                                        output.holds_write(grant_w),
                                        output.write_grant_open(),
                                        output.granted().len() == grant_w.len(),
                                        output@ == old(output)@,
                                        output.unwrapped() == old(output).unwrapped(),
                                        output.capacity() == old(output).capacity(),
                                        output.read_grant_open() == old(output).read_grant_open(),
                                        forall|g: ReadGrant|
                                            old(output).holds_read(g) ==> output.holds_read(g),
                                        output.granted().subrange(0, 2) == len_prefix(psize as int),
                                        output.granted().subrange(2, 2 + t) == frame@.take(
                                            t as int,
                                        ),
                                    decreases psize - t,
                                {
                                    let ghost gpre = output.granted();
                                    output.write_byte(&grant_w, 2 + t, frame[t]);
                                    t = t + 1;
                                    proof {
                                        assert(output.granted().subrange(0, 2) =~= gpre.subrange(
                                            0,
                                            2,
                                        ));
                                        assert(output.granted().subrange(2, 2 + t) =~= gpre.subrange(
                                            2,
                                            2 + (t - 1),
                                        ) + seq![frame@[t - 1]]);
                                        assert(frame@.take(t as int) =~= frame@.take(t - 1)
                                            + seq![frame@[t - 1]]);
                                    }
                                }
                                let ghost gfin = output.granted();
                                output.commit(2 + psize, grant_w);
                                self.state = AssemblerState::WaitingForGrant;
                                input.release(chunk, grant_r);
                                proof {
                                    assert(gfin.take(2 + psize) =~= len_prefix(psize as int)
                                        + frame@.take(psize as int));
                                    assert(p =~= frame@.take(psize as int));
                                    assert(output@ =~= old(output)@ + (len_prefix(p.len() as int)
                                        + p));
                                }
                            },
                            _ => {
                                output.commit(0, grant_w);
                                self.state = AssemblerState::WaitingForGrant;
                                input.release(chunk, grant_r);
                                proof {
                                    assert(old(output).granted().take(0) =~= Seq::<u8>::empty());
                                    assert(output@ =~= old(output)@ + Seq::<u8>::empty());
                                }
                            },
                        }
                    }
                }
            },
        }
    }
}

/// The packet at the head of a readable segment: a two-byte little-endian
/// length, then that many payload bytes. `None` when the segment does not
/// yet hold a whole record.
pub open spec fn head_packet(seg: Seq<u8>) -> Option<Seq<u8>> {
    if seg.len() >= 2 {
        let plen = seg[0] + 256 * seg[1];
        if 2 + plen <= seg.len() {
            Some(seg.subrange(2, 2 + plen))
        } else {
            None
        }
    } else {
        None
    }
}

/// A borrowed packet: the queue's read grant and a copy of the payload.
pub struct PacketConsumerGrantR {
    grant: ReadGrant,
    packet: Vec<u8>,
}

impl View for PacketConsumerGrantR {
    type V = Seq<u8>;

    closed spec fn view(&self) -> Seq<u8> {
        self.packet@
    }
}

impl PacketConsumerGrantR {
    /// The underlying read grant, for use in contracts.
    pub closed spec fn grant_spec(&self) -> ReadGrant {
        self.grant
    }

    /// The packet's payload bytes.
    pub fn packet(&self) -> (r: &Vec<u8>)
        ensures
            r@ == self@,
    {
        &self.packet
    }
}

/// Reads length-prefixed packets back out of the packet queue.
pub struct PacketConsumer {}

impl PacketConsumer {
    pub fn new() -> (r: Self) {
        PacketConsumer {  }
    }

    /// Borrow the packet at the head of the queue, if a whole one is
    /// readable.
    pub fn read(&mut self, queue: &mut BipBuffer) -> (r: Option<PacketConsumerGrantR>)
        requires
            old(queue).wf(),
            !old(queue).read_grant_open(),
        ensures
            final(queue).wf(),
            final(queue)@ == old(queue)@,
            final(queue).capacity() == old(queue).capacity(),
            final(queue).write_grant_open() == old(queue).write_grant_open(),
            final(queue).granted() == old(queue).granted(),
            forall|g: WriteGrant| old(queue).holds_write(g) ==> final(queue).holds_write(g),
            final(queue).first_seg_len() == old(queue).first_seg_len(),
            old(queue).unwrapped() ==> final(queue).unwrapped(),
            ({
                let seg = old(queue)@.take(old(queue).first_seg_len() as int);
                match r {
                    Some(g) => {
                        &&& head_packet(seg) == Some(g@)
                        &&& final(queue).holds_read(g.grant_spec())
                        &&& final(queue).read_grant_open()
                        &&& g.grant_spec().len() == seg.len()
                        &&& 2 + g@.len() <= seg.len()
                    },
                    None => {
                        &&& head_packet(seg) is None
                        &&& !final(queue).read_grant_open()
                    },
                }
            }),
    {
        let ghost seg = old(queue)@.take(old(queue).first_seg_len() as int);
        let grant = match queue.read() {
            Ok(g) => g,
            Err(_) => {
                proof {
                    old(queue).lemma_first_seg_len();
                }
                return None;
            },
        };
        let n = grant.len();
        proof {
            assert(seg.len() == n);
            assert(forall|j: int| 0 <= j < n ==> seg[j] == old(queue)@[j]);
        }
        if n >= 2 {
            let lo = queue.read_byte(&grant, 0) as usize;
            let hi = queue.read_byte(&grant, 1) as usize;
            let plen = lo + 256 * hi;
            if 2 + plen <= n {
                let mut packet: Vec<u8> = Vec::new();
                let mut j: usize = 0;
                while j < plen
                    invariant
                        j <= plen,
                        2 + plen <= n,
                        n == grant.len(),
                        queue.wf(),
                        queue.holds_read(grant),
                        queue@ == old(queue)@,
                        queue.capacity() == old(queue).capacity(),
                        queue.write_grant_open() == old(queue).write_grant_open(),
                        queue.granted() == old(queue).granted(),
                        forall|g: WriteGrant|
                            old(queue).holds_write(g) ==> queue.holds_write(g),
                        n <= queue@.len(),
                        packet@ == old(queue)@.subrange(2, 2 + j),
                    decreases plen - j,
                {
                    packet.push(queue.read_byte(&grant, 2 + j));
                    j = j + 1;
                    proof {
                        assert(packet@ =~= old(queue)@.subrange(2, 2 + (j - 1)) + seq![old(
                            queue,
                        )@[2 + j - 1]]);
                        assert(old(queue)@.subrange(2, 2 + j) =~= old(queue)@.subrange(
                            2,
                            2 + (j - 1),
                        ) + seq![old(queue)@[2 + j - 1]]);
                    }
                }
                proof {
                    assert(seg.subrange(2, 2 + plen) =~= old(queue)@.subrange(2, 2 + plen));
                }
                return Some(PacketConsumerGrantR { grant, packet });
            }
            queue.release(0, grant);
            proof {
                assert(queue@ =~= old(queue)@.skip(0));
            }
            return None;
        }
        queue.release(0, grant);
        proof {
            assert(queue@ =~= old(queue)@.skip(0));
        }
        None
    }

    /// Release the packet's grant and consume the whole record.
    pub fn release_consume(&mut self, queue: &mut BipBuffer, g: PacketConsumerGrantR)
        requires
            old(queue).wf(),
            old(queue).holds_read(g.grant_spec()),
            2 + g@.len() <= g.grant_spec().len(),
        ensures
            final(queue).wf(),
            final(queue)@ == old(queue)@.skip(2 + g@.len() as int),
            final(queue).capacity() == old(queue).capacity(),
            !final(queue).read_grant_open(),
            final(queue).write_grant_open() == old(queue).write_grant_open(),
            final(queue).granted() == old(queue).granted(),
            forall|gw: WriteGrant| old(queue).holds_write(gw) ==> final(queue).holds_write(gw),
    {
        let used = 2 + g.packet.len();
        queue.release(used, g.grant);
    }

    /// Release the packet's grant without consuming anything: the view and
    /// the readable segment are unchanged, so the next read sees the same
    /// packet and it can be retried with a larger response reservation.
    pub fn release_unread(&mut self, queue: &mut BipBuffer, g: PacketConsumerGrantR)
        requires
            old(queue).wf(),
            old(queue).holds_read(g.grant_spec()),
        ensures
            final(queue).wf(),
            final(queue)@ == old(queue)@,
            final(queue).capacity() == old(queue).capacity(),
            !final(queue).read_grant_open(),
            final(queue).write_grant_open() == old(queue).write_grant_open(),
            final(queue).granted() == old(queue).granted(),
            forall|gw: WriteGrant| old(queue).holds_write(gw) ==> final(queue).holds_write(gw),
            final(queue).first_seg_len() == old(queue).first_seg_len(),
            old(queue).unwrapped() ==> final(queue).unwrapped(),
    {
        queue.release(0, g.grant);
        proof {
            assert(queue@ =~= old(queue)@.skip(0));
        }
    }
}

/// Resynchronisation: in the discarding state, a chunk that contains a
/// delimiter is consumed up to and including the first one, nothing is
/// published, and the assembler stands at a frame boundary.
pub proof fn lemma_resync_discards_garbage(seg: Seq<u8>, max_data: int, can_reserve: bool)
    requires
        exists|i: int| 0 <= i < seg.len() && seg[i] == 0,
    ensures
        ({
            let step = PacketProcessor::asm_step(AsmModel::Discarding, seg, max_data, can_reserve);
            &&& step.0 == AsmModel::WaitingForGrant
            &&& step.1 == first_zero(seg) + 1
            &&& step.2 == Seq::<u8>::empty()
        }),
{
    lemma_first_zero(seg);
    let i = choose|i: int| 0 <= i < seg.len() && seg[i] == 0;
    assert(first_zero(seg) < seg.len());
}

/// After a boundary, a chunk holding one whole encoded frame and its
/// delimiter publishes exactly that frame's payload behind its length
/// prefix: the first packet published after garbage is the first valid
/// frame after the delimiter that ended it.
pub proof fn lemma_frame_publishes_payload(p: Seq<u8>, max_data: int, can_reserve: bool)
    requires
        p.len() > 0,
        cobs_encode(p).len() + 1 <= max_data,
    ensures
        ({
            let seg = cobs_encode(p) + seq![0u8];
            let step = PacketProcessor::asm_step(
                AsmModel::Processing(Seq::<u8>::empty()),
                seg,
                max_data,
                can_reserve,
            );
            &&& step.0 == AsmModel::WaitingForGrant
            &&& step.1 == seg.len()
            &&& step.2 == len_prefix(p.len() as int) + p
        }),
{
    lemma_encode_no_zeros(p);
    lemma_decode_encode(p);
    let enc = cobs_encode(p);
    let seg = enc + seq![0u8];
    lemma_first_zero_append(enc, seq![0u8]);
    assert(first_zero(seq![0u8]) == 0);
    assert(first_zero(seg) == enc.len());
    assert(seg.take(enc.len() as int) =~= enc);
    assert(Seq::<u8>::empty() + seg.take(enc.len() as int) =~= enc);
}

} // verus!
