//! A bounded byte queue with reservation semantics (a bip-buffer).
//!
//! A producer asks for a contiguous writable region of exactly `n` bytes (a
//! [`WriteGrant`]) and later commits a prefix of it; a consumer asks for the
//! longest contiguous readable region (a [`ReadGrant`]) and later releases a
//! prefix of it. Reservation may wrap to the start of the storage when the
//! trailing free region is too small; the skipped tail is remembered and the
//! consumer jumps over it.
//!
//! The queue's view is the sequence of committed, unreleased bytes, in
//! commit order. The contracts state the FIFO discipline: `commit` appends
//! exactly the written prefix of the granted region to the view, reads
//! expose a prefix of the view, `release` drops one, and bytes inside an
//! uncommitted grant are never part of the view.

use vstd::prelude::*;

verus! {

/// Why a grant or read request was refused.
#[derive(Debug, Clone, Copy, PartialEq, Eq, Structural)]
pub enum QueueError {
    /// A grant on the same side is already outstanding.
    GrantInProgress,
    /// No contiguous free region of the requested size (producer side), or
    /// no committed bytes to read (consumer side).
    InsufficientSize,
}

/// A reservation over a contiguous writable region of a [`BipBuffer`].
#[derive(Debug, Clone, Copy)]
pub struct WriteGrant {
    start: usize,
    len: usize,
    wrapped: bool,
}

impl WriteGrant {
    /// Size of the granted region, for use in contracts.
    pub closed spec fn spec_len(&self) -> usize {
        self.len
    }

    /// Whether this reservation wrapped to the start of storage, for use
    /// in contracts.
    pub closed spec fn wrapped_spec(&self) -> bool {
        self.wrapped
    }

    /// Size of the granted region.
    #[verifier::when_used_as_spec(spec_len)]
    pub fn len(&self) -> (n: usize)
        ensures
            n == self.spec_len(),
    {
        self.len
    }
}

/// A borrow of the longest contiguous readable region of a [`BipBuffer`].
#[derive(Debug, Clone, Copy)]
pub struct ReadGrant {
    start: usize,
    len: usize,
}

impl ReadGrant {
    /// Number of readable bytes, for use in contracts.
    pub closed spec fn spec_len(&self) -> usize {
        self.len
    }

    /// Number of readable bytes.
    #[verifier::when_used_as_spec(spec_len)]
    pub fn len(&self) -> (n: usize)
        ensures
            n == self.spec_len(),
    {
        self.len
    }
}

/// The queue itself: fixed storage, a read index, a write index, and the
/// watermark `last` that marks where committed data ends when the producer
/// has wrapped.
pub struct BipBuffer {
    buf: Vec<u8>,
    read: usize,
    write: usize,
    last: usize,
    write_res: Option<WriteGrant>,
    read_res: Option<ReadGrant>,
}

impl View for BipBuffer {
    type V = Seq<u8>;

    /// The committed, unreleased bytes, oldest first.
    closed spec fn view(&self) -> Seq<u8> {
        if self.write >= self.read {
            self.buf@.subrange(self.read as int, self.write as int)
        } else {
            self.buf@.subrange(self.read as int, self.last as int) + self.buf@.subrange(
                0,
                self.write as int,
            )
        }
    }
}

impl BipBuffer {
    /// Total storage size.
    pub closed spec fn capacity(&self) -> usize {
        self.buf@.len() as usize
    }

    /// Internal consistency of the indices and outstanding grants.
    pub closed spec fn wf(&self) -> bool {
        &&& self.read <= self.last <= self.buf@.len()
        &&& self.write <= self.buf@.len()
        &&& (self.write >= self.read ==> self.last == self.write)
        &&& (match self.write_res {
            Some(g) => {
                &&& if g.wrapped {
                    &&& g.start == 0
                    &&& self.write >= self.read
                    &&& g.len < self.read
                } else {
                    &&& g.start == self.write
                    &&& (self.write >= self.read ==> self.write + g.len <= self.buf@.len())
                    &&& (self.write < self.read ==> self.write + g.len < self.read)
                }
            },
            None => true,
        })
        &&& (match self.read_res {
            Some(g) => {
                &&& g.start == self.read
                &&& (self.write >= self.read ==> self.read + g.len <= self.write)
                &&& (self.write < self.read ==> self.read + g.len <= self.last)
            },
            None => true,
        })
    }

    /// Whether a write grant is outstanding.
    pub closed spec fn write_grant_open(&self) -> bool {
        self.write_res is Some
    }

    /// Whether a read grant is outstanding.
    pub closed spec fn read_grant_open(&self) -> bool {
        self.read_res is Some
    }

    /// The grant `g` is the one this queue currently has outstanding.
    pub closed spec fn holds_write(&self, g: WriteGrant) -> bool {
        self.write_res == Some(g)
    }

    /// The read grant `g` is the one this queue currently has outstanding.
    pub closed spec fn holds_read(&self, g: ReadGrant) -> bool {
        self.read_res == Some(g)
    }

    /// Contents of the outstanding write grant's region.
    pub closed spec fn granted(&self) -> Seq<u8> {
        match self.write_res {
            Some(g) => self.buf@.subrange(g.start as int, g.start + g.len),
            None => Seq::empty(),
        }
    }

    /// A grant of `n` bytes will succeed: no grant is outstanding and a
    /// contiguous free region of `n` bytes exists, possibly by wrapping.
    pub closed spec fn can_grant(&self, n: usize) -> bool {
        &&& self.write_res is None
        &&& if self.write >= self.read {
            n <= self.buf@.len() - self.write || n < self.read
        } else {
            n + 1 <= self.read - self.write
        }
    }

    /// The readable bytes form one contiguous run from the start of
    /// storage: the consumer stands at the origin and the producer has not
    /// wrapped past it. Fresh queues are in this state, and stay in it as
    /// long as only unwrapped reservations are committed and reads release
    /// nothing.
    pub closed spec fn unwrapped(&self) -> bool {
        self.read == 0 && self.write >= self.read
    }

    /// In the unwrapped state the whole view is one readable segment, and
    /// a grant succeeds exactly when the free space past the view holds it.
    pub proof fn lemma_unwrapped(&self)
        requires
            self.wf(),
            self.unwrapped(),
        ensures
            self.first_seg_len() == self@.len(),
            forall|n: usize|
                #[trigger] self.can_grant(n) <==> (!self.write_grant_open() && n <= self.capacity()
                    - self@.len()),
    {
        assert(vstd::std_specs::vec::spec_vec_len(&self.buf) == self.buf@.len());
        assert(self@.len() == self.write - self.read);
        assert forall|n: usize|
            #[trigger] self.can_grant(n) <==> (!self.write_grant_open() && n <= self.capacity()
                - self@.len()) by {
            assert(!(n < self.read));
        }
    }

    /// An unwrapped queue holds no wrapped reservation.
    pub proof fn lemma_unwrapped_write_grant(&self, g: WriteGrant)
        requires
            self.wf(),
            self.unwrapped(),
            self.holds_write(g),
        ensures
            !g.wrapped_spec(),
    {
    }

    /// Length of the longest contiguous readable region.
    pub closed spec fn first_seg_len(&self) -> usize {
        if self.write >= self.read {
            (self.write - self.read) as usize
        } else if self.read == self.last {
            self.write
        } else {
            (self.last - self.read) as usize
        }
    }

    /// The first readable segment is never longer than the view, and is
    /// empty exactly when the view is.
    pub proof fn lemma_first_seg_len(&self)
        requires
            self.wf(),
        ensures
            self.first_seg_len() <= self@.len(),
            self.first_seg_len() == 0 <==> self@.len() == 0,
    {
    }

    /// An empty queue over `capacity` bytes of storage.
    pub fn new(capacity: usize) -> (r: BipBuffer)
        ensures
            r.wf(),
            r@ == Seq::<u8>::empty(),
            r.capacity() == capacity,
            !r.write_grant_open(),
            !r.read_grant_open(),
            r.unwrapped(),
            r.first_seg_len() == 0,
            forall|n: usize| n <= capacity ==> #[trigger] r.can_grant(n),
    {
        let mut buf: Vec<u8> = Vec::new();
        while buf.len() < capacity
            invariant
                buf@.len() <= capacity,
            decreases capacity - buf@.len(),
        {
            buf.push(0);
        }
        let r = BipBuffer { buf, read: 0, write: 0, last: 0, write_res: None, read_res: None };
        proof {
            assert(r@ =~= Seq::<u8>::empty());
        }
        r
    }

    /// Reserve a contiguous writable region of exactly `n` bytes.
    ///
    /// Succeeds exactly when no write grant is outstanding and the free
    /// space holds `n` contiguous bytes, wrapping to the start of storage if
    /// the tail is too short. Nothing becomes readable until `commit`.
    pub fn grant(&mut self, n: usize) -> (r: Result<WriteGrant, QueueError>)
        requires
            old(self).wf(),
        ensures
            final(self).wf(),
            final(self)@ == old(self)@,
            final(self).capacity() == old(self).capacity(),
            final(self).read_grant_open() == old(self).read_grant_open(),
            forall|g: ReadGrant| old(self).holds_read(g) ==> final(self).holds_read(g),
            final(self).first_seg_len() == old(self).first_seg_len(),
            final(self).unwrapped() == old(self).unwrapped(),
            r is Ok <==> old(self).can_grant(n),
            (match r {
                Ok(g) => {
                    &&& final(self).write_grant_open()
                    &&& final(self).holds_write(g)
                    &&& g.len() == n
                    &&& final(self).granted().len() == n
                    &&& (old(self).unwrapped() ==> !g.wrapped_spec())
                },
                Err(e) => {
                    &&& *final(self) == *old(self)
                    &&& (e is GrantInProgress <==> old(self).write_grant_open())
                },
            }),
    {
        if self.write_res.is_some() {
            return Err(QueueError::GrantInProgress);
        }
        let cap = self.buf.len();
        if self.write >= self.read {
            if n <= cap - self.write {
                let g = WriteGrant { start: self.write, len: n, wrapped: false };
                self.write_res = Some(WriteGrant { start: self.write, len: n, wrapped: false });
                Ok(g)
            } else if n < self.read {
                let g = WriteGrant { start: 0, len: n, wrapped: true };
                self.write_res = Some(WriteGrant { start: 0, len: n, wrapped: true });
                Ok(g)
            } else {
                Err(QueueError::InsufficientSize)
            }
        } else {
            if n <= self.read - self.write - 1 {
                let g = WriteGrant { start: self.write, len: n, wrapped: false };
                self.write_res = Some(WriteGrant { start: self.write, len: n, wrapped: false });
                Ok(g)
            } else {
                Err(QueueError::InsufficientSize)
            }
        }
    }

    /// Write one byte inside the granted region. The byte is not readable
    /// until committed: the queue's view does not change.
    pub fn write_byte(&mut self, grant: &WriteGrant, offset: usize, value: u8)
        requires
            old(self).wf(),
            old(self).holds_write(*grant),
            offset < grant.len(),
        ensures
            final(self).wf(),
            final(self)@ == old(self)@,
            final(self).capacity() == old(self).capacity(),
            final(self).holds_write(*grant),
            final(self).write_grant_open(),
            final(self).read_grant_open() == old(self).read_grant_open(),
            forall|g: ReadGrant| old(self).holds_read(g) ==> final(self).holds_read(g),
            final(self).first_seg_len() == old(self).first_seg_len(),
            final(self).unwrapped() == old(self).unwrapped(),
            final(self).granted() == old(self).granted().update(offset as int, value),
    {
        let ghost pre = self.buf@;
        let cap = self.buf.len();
        let start = grant.start;
        self.buf[start + offset] = value;
        proof {
            let g = old(self).write_res->Some_0;
            assert(self.granted() =~= old(self).granted().update(offset as int, value));
            if self.write >= self.read {
                assert(self@ =~= old(self)@);
            } else {
                assert(self.buf@.subrange(self.read as int, self.last as int) =~= pre.subrange(
                    self.read as int,
                    self.last as int,
                ));
                assert(self.buf@.subrange(0, self.write as int) =~= pre.subrange(
                    0,
                    self.write as int,
                ));
                assert(self@ =~= old(self)@);
            }
        }
    }

    /// Publish the first `used` bytes of the granted region: they are
    /// appended, in order, to the readable sequence. The rest of the grant
    /// is discarded and the grant is closed.
    pub fn commit(&mut self, used: usize, grant: WriteGrant)
        requires
            old(self).wf(),
            old(self).holds_write(grant),
            used <= grant.len(),
        ensures
            final(self).wf(),
            final(self)@ == old(self)@ + old(self).granted().take(used as int),
            final(self).capacity() == old(self).capacity(),
            !final(self).write_grant_open(),
            final(self).read_grant_open() == old(self).read_grant_open(),
            forall|g: ReadGrant| old(self).holds_read(g) ==> final(self).holds_read(g),
            old(self).unwrapped() && !grant.wrapped_spec() ==> final(self).unwrapped(),
    {
        let ghost pre = self.buf@;
        let cap = self.buf.len();
        if grant.wrapped {
            self.last = self.write;
            self.write = used;
            self.write_res = None;
            proof {
                assert(old(self).write >= old(self).read);
                assert(self.write < self.read);
                assert(self@ =~= old(self)@ + old(self).granted().take(used as int));
            }
        } else {
            self.write = self.write + used;
            if self.write >= self.read {
                self.last = self.write;
            }
            self.write_res = None;
            proof {
                if old(self).write >= old(self).read {
                    assert(self@ =~= old(self)@ + old(self).granted().take(used as int));
                } else {
                    assert(self.write < self.read);
                    assert(self.buf@.subrange(self.read as int, self.last as int) =~= pre.subrange(
                        self.read as int,
                        self.last as int,
                    ));
                    assert(self@ =~= old(self)@ + old(self).granted().take(used as int));
                }
            }
        }
    }

    /// Borrow the longest contiguous readable region.
    ///
    /// Succeeds exactly when no read grant is outstanding and committed
    /// bytes are waiting. If the producer wrapped, one call returns the
    /// bytes up to the wrap point and the next call returns the rest.
    pub fn read(&mut self) -> (r: Result<ReadGrant, QueueError>)
        requires
            old(self).wf(),
        ensures
            final(self).wf(),
            final(self)@ == old(self)@,
            final(self).capacity() == old(self).capacity(),
            final(self).write_grant_open() == old(self).write_grant_open(),
            final(self).granted() == old(self).granted(),
            forall|g: WriteGrant| old(self).holds_write(g) ==> final(self).holds_write(g),
            final(self).first_seg_len() == old(self).first_seg_len(),
            old(self).unwrapped() ==> final(self).unwrapped(),
            r is Ok <==> (!old(self).read_grant_open() && old(self)@.len() > 0),
            (match r {
                Ok(g) => {
                    &&& final(self).holds_read(g)
                    &&& final(self).read_grant_open()
                    &&& g.len() == old(self).first_seg_len()
                    &&& 1 <= g.len() <= old(self)@.len()
                },
                Err(e) => {
                    &&& final(self)@ == old(self)@
                    &&& final(self).read_grant_open() == old(self).read_grant_open()
                    &&& (e is GrantInProgress <==> old(self).read_grant_open())
                },
            }),
    {
        if self.read_res.is_some() {
            return Err(QueueError::GrantInProgress);
        }
        if self.write < self.read && self.read == self.last {
            self.read = 0;
            self.last = self.write;
        }
        let len = if self.write >= self.read {
            self.write - self.read
        } else {
            self.last - self.read
        };
        if len == 0 {
            return Err(QueueError::InsufficientSize);
        }
        let g = ReadGrant { start: self.read, len };
        self.read_res = Some(ReadGrant { start: self.read, len });
        Ok(g)
    }

    /// Read one byte of the outstanding read grant; it is the byte at the
    /// same offset of the queue's view.
    pub fn read_byte(&self, grant: &ReadGrant, offset: usize) -> (b: u8)
        requires
            self.wf(),
            self.holds_read(*grant),
            offset < grant.len(),
        ensures
            b == self@[offset as int],
    {
        self.buf[grant.start + offset]
    }

    /// Read back one byte of the outstanding write grant's region.
    pub fn granted_byte(&self, grant: &WriteGrant, offset: usize) -> (b: u8)
        requires
            self.wf(),
            self.holds_write(*grant),
            offset < grant.len(),
        ensures
            b == self.granted()[offset as int],
    {
        let cap = self.buf.len();
        self.buf[grant.start + offset]
    }

    /// Close the read grant and consume its first `used` bytes: they leave
    /// the readable sequence for good.
    pub fn release(&mut self, used: usize, grant: ReadGrant)
        requires
            old(self).wf(),
            old(self).holds_read(grant),
            used <= grant.len(),
        ensures
            final(self).wf(),
            final(self)@ == old(self)@.skip(used as int),
            final(self).capacity() == old(self).capacity(),
            !final(self).read_grant_open(),
            final(self).write_grant_open() == old(self).write_grant_open(),
            final(self).granted() == old(self).granted(),
            forall|g: WriteGrant| old(self).holds_write(g) ==> final(self).holds_write(g),
            used == 0 ==> final(self).first_seg_len() == old(self).first_seg_len(),
            old(self).unwrapped() && used == 0 ==> final(self).unwrapped(),
    {
        self.read = self.read + used;
        if self.write < self.read && self.read == self.last {
            self.read = 0;
            self.last = self.write;
        }
        self.read_res = None;
        proof {
            assert(self@ =~= old(self)@.skip(used as int));
        }
    }
}

} // verus!
