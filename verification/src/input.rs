//! Where a reader gets its input from, and the buffer it takes it through.

use vstd::prelude::*;

use crate::engine::{tail_of, IN_REQUIRED};
use crate::error::Error;
use crate::range::RangeReader;

verus! {

/// How much is asked of a source at once.
pub const BUFFER_SIZE: usize = 0x1_0000;

/// A source of bytes.
pub trait Read: Sized {
    /// What can go wrong with it.
    type Error;

    /// The bytes it hands out before it ends or fails. A source of which that
    /// cannot be told beforehand, such as a socket, leaves this open: some bytes
    /// that depend on the state it is in.
    open spec fn remaining(&self) -> Seq<u8> {
        arbitrary::<spec_fn(Self) -> Seq<u8>>()(*self)
    }

    /// What it fails with then, or nothing where it ends. This can be left open
    /// in the same way.
    open spec fn failure(&self) -> Option<Self::Error> {
        arbitrary::<spec_fn(Self) -> Option<Self::Error>>()(*self)
    }

    /// Puts bytes into `buf` and returns how many. None at all into a `buf` that
    /// could take some means that the source is at its end.
    fn read(&mut self, buf: &mut [u8]) -> (r: Result<usize, Self::Error>)
        ensures
            final(buf)@.len() == old(buf)@.len(),
            match r {
                Ok(n) => {
                    &&& n <= old(buf)@.len()
                    &&& old(self).remaining() == final(buf)@.take(n as int)
                        + final(self).remaining()
                    &&& final(self).failure() == old(self).failure()
                    &&& n == 0 && old(buf)@.len() > 0 ==> {
                        &&& old(self).remaining().len() == 0
                        &&& old(self).failure() is None
                    }
                },
                Err(e) => {
                    &&& old(self).remaining().len() == 0
                    &&& old(self).failure() == Some(e)
                },
            },
    ;
}

impl<'a> Read for &'a [u8] {
    type Error = Error;

    open spec fn remaining(&self) -> Seq<u8> {
        self@
    }

    open spec fn failure(&self) -> Option<Error> {
        None
    }

    fn read(&mut self, buf: &mut [u8]) -> (r: Result<usize, Error>) {
        let n = if self.len() < buf.len() { self.len() } else { buf.len() };
        let ghost all = self@;
        let mut i: usize = 0;
        while i < n
            invariant
                i <= n,
                n <= self@.len(),
                n <= buf@.len(),
                buf@.len() == old(buf)@.len(),
                self@ == all,
                buf@.take(i as int) =~= all.take(i as int),
            decreases n - i,
        {
            buf[i] = self[i];
            i = i + 1;
        }
        *self = &self[n..self.len()];
        assert(all =~= buf@.take(n as int) + self@);
        Ok(n)
    }
}

/// What a reader can fail with: what its source failed with, or what is wrong
/// with the data.
#[derive(Debug)]
pub enum ReadError<E> {
    Source(E),
    Data(Error),
}

/// A buffer in front of a source.
pub struct InputBuffer<R: Read> {
    inner: R,
    buf: Vec<u8>,
    pos: usize,
    len: usize,
    /// What came instead of a byte.
    failure: Option<ReadError<R::Error>>,
    lack: Ghost<nat>,
}

impl<R: Read> InputBuffer<R> {
    pub closed spec fn source(&self) -> R {
        self.inner
    }

    /// What has been read from the source and not been taken yet.
    pub closed spec fn buffered(&self) -> Seq<u8> {
        self.buf@.subrange(self.pos as int, self.len as int)
    }

    pub fn new(inner: R) -> (b: Self)
        ensures
            b.wf(),
            b.lack() == 0,
            b.source() == inner,
            b.buffered() == Seq::<u8>::empty(),
            b.rest() == inner.remaining(),
            b.end() == inner.failure(),
    {
        let b = InputBuffer {
            inner,
            buf: vec![0u8; BUFFER_SIZE],
            pos: 0,
            len: 0,
            failure: None,
            lack: Ghost(0),
        };
        assert(b.buffered() =~= Seq::<u8>::empty());
        assert(b.rest() =~= inner.remaining());
        b
    }

    /// What has been read from the source and not been taken yet.
    pub fn unread(&self) -> (s: &[u8])
        requires
            self.wf(),
        ensures
            s@ == self.buffered(),
    {
        &self.buf[self.pos..self.len]
    }

    /// Takes `n` of the bytes that are there.
    pub fn advance(&mut self, n: usize)
        requires
            old(self).wf(),
            n <= old(self).buffered().len(),
        ensures
            final(self).wf(),
            final(self).source() == old(self).source(),
            final(self).buffered() == old(self).buffered().skip(n as int),
            final(self).rest() == old(self).rest().skip(n as int),
            final(self).lack() == old(self).lack(),
            final(self).end() == old(self).end(),
    {
        self.pos = self.pos + n;
        proof {
            assert(self.buffered() =~= old(self).buffered().skip(n as int));
            assert(self.rest() =~= old(self).rest().skip(n as int));
        }
    }

    /// What came instead of a byte, if anything did since this was asked last.
    pub fn take_failure(&mut self) -> (r: Option<ReadError<R::Error>>)
        requires
            old(self).wf(),
        ensures
            final(self).wf(),
            final(self).lack() == 0,
            final(self).source() == old(self).source(),
            final(self).buffered() == old(self).buffered(),
            r is Some <==> old(self).lack() > 0,
            match r {
                None => {
                    &&& final(self).rest() == old(self).rest()
                    &&& final(self).end() == old(self).end()
                },
                Some(ReadError::Source(e)) => old(self).end() == Some(e),
                Some(ReadError::Data(e)) => e == Error::UnexpectedEnd && old(self).end() is None,
            },
    {
        proof {
            self.lack@ = 0;
        }
        self.failure.take()
    }

    /// The source.
    pub fn inner(&self) -> (r: &R)
        ensures
            *r == self.source(),
    {
        &self.inner
    }

    /// The source, to be changed.
    pub fn inner_mut(&mut self) -> (r: &mut R)
        requires
            old(self).wf(),
            old(self).lack() == 0,
        ensures
            *r == old(self).source(),
            final(self).source() == *final(r),
            final(self).wf(),
            final(self).buffered() == old(self).buffered(),
            final(self).rest() == old(self).buffered() + final(r).remaining(),
            final(self).end() == final(r).failure(),
            final(self).lack() == 0,
    {
        &mut self.inner
    }

    /// The source, and what was read from it and not taken.
    pub fn into_parts(self) -> (r: (R, Vec<u8>))
        requires
            self.wf(),
        ensures
            r.0 == self.source(),
            r.1@ == self.buffered(),
    {
        let left = tail_of(&self.buf[0..self.len], self.pos);
        assert(left@ =~= self.buffered());
        (self.inner, left)
    }

    /// The source. What was read from it and not taken is dropped.
    pub fn into_inner(self) -> (r: R)
        ensures
            r == self.source(),
    {
        self.inner
    }

    /// How things stand, in terms of what the source has to say.
    pub proof fn lemma_state(&self)
        requires
            self.wf(),
        ensures
            self.lack() == 0 ==> {
                &&& self.rest() == self.buffered() + self.source().remaining()
                &&& self.end() == self.source().failure()
            },
            self.lack() > 0 ==> self.buffered().len() == 0,
            self.buffered().len() <= BUFFER_SIZE,
            self.floor() == 0,
            self.tail() == -1,
            self.may_start() == (self.lack() == 0 && self.buffered().len() < IN_REQUIRED),
    {
    }
}

impl<R: Read> RangeReader for InputBuffer<R> {
    type End = Option<R::Error>;

    closed spec fn wf(&self) -> bool {
        &&& self.buf@.len() == BUFFER_SIZE
        &&& self.pos <= self.len <= BUFFER_SIZE
        &&& self.failure is Some <==> self.lack@ > 0
        &&& self.failure is Some ==> self.pos == self.len
        &&& self.failure matches Some(ReadError::Data(e)) ==> e == Error::UnexpectedEnd
    }

    closed spec fn rest(&self) -> Seq<u8> {
        if self.failure is Some {
            self.buffered()
        } else {
            self.buffered() + self.inner.remaining()
        }
    }

    closed spec fn end(&self) -> Option<R::Error> {
        match self.failure {
            None => self.inner.failure(),
            Some(ReadError::Source(e)) => Some(e),
            Some(ReadError::Data(_)) => None,
        }
    }

    closed spec fn lack(&self) -> nat {
        self.lack@
    }

    closed spec fn floor(&self) -> nat {
        0
    }

    closed spec fn tape(&self) -> Seq<u8> {
        Seq::empty()
    }

    closed spec fn tail(&self) -> int {
        -1
    }

    closed spec fn may_start(&self) -> bool {
        self.failure is None && self.len - self.pos < IN_REQUIRED
    }

    fn next_byte(&mut self) -> (b: u8) {
        if self.pos == self.len && self.failure.is_none() {
            assert(old(self).rest() =~= old(self).inner.remaining());
            match self.inner.read(self.buf.as_mut_slice()) {
                Ok(n) => {
                    self.pos = 0;
                    self.len = n;
                    if n == 0 {
                        self.failure = Some(ReadError::Data(Error::UnexpectedEnd));
                    }
                    proof {
                        assert(self.buffered() =~= self.buf@.take(n as int));
                        assert(self.rest() =~= old(self).rest());
                    }
                },
                Err(e) => {
                    self.failure = Some(ReadError::Source(e));
                    assert(self.rest() =~= old(self).rest());
                },
            }
        }
        if self.failure.is_some() {
            proof {
                self.lack@ = self.lack@ + 1;
            }
            return 0;
        }
        let b = self.buf[self.pos];
        self.pos = self.pos + 1;
        proof {
            assert(self.rest() =~= old(self).rest().drop_first());
            assert(old(self).rest()[0] == b);
        }
        b
    }

    fn can_start_symbol(&self) -> (r: bool) {
        self.failure.is_none() && self.len - self.pos < IN_REQUIRED
    }

    fn can_normalize(&self) -> (r: bool) {
        true
    }
}

} // verus!
