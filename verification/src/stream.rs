//! Byte sources and byte sinks: what the decoder reads from and the encoder
//! writes to, one byte at a time, and two of them that live in memory.

use vstd::prelude::*;

verus! {

/// A source of bytes, read one at a time.
///
/// A source is modelled by the bytes that it has yet to deliver, and by the
/// error with which it answers once they have run out.
pub trait ByteSource {
    /// What a failed read reports.
    type Error;

    /// The bytes that the source has yet to deliver, next one first.
    spec fn pending(&self) -> Seq<u8>;

    /// The error with which a read is answered when nothing is pending.
    spec fn failure(&self) -> Self::Error;

    /// Takes the next byte. Fails, and changes nothing, when nothing is
    /// pending.
    fn read_byte(&mut self) -> (r: Result<u8, Self::Error>)
        ensures
            match r {
                Ok(b) => {
                    &&& old(self).pending().len() > 0
                    &&& b == old(self).pending()[0]
                    &&& final(self).pending() == old(self).pending().skip(1)
                    &&& final(self).failure() == old(self).failure()
                },
                Err(e) => {
                    &&& old(self).pending().len() == 0
                    &&& e == old(self).failure()
                    &&& final(self).pending() == old(self).pending()
                    &&& final(self).failure() == old(self).failure()
                },
            },
    ;
}

/// A sink of bytes, written one at a time.
///
/// A sink is modelled by the bytes that it has accepted, by the number of
/// bytes that it will still accept, and by the error with which it refuses
/// once it is full.
pub trait ByteSink {
    /// What a failed write reports.
    type Error;

    /// The bytes accepted so far, in the order in which they were written.
    spec fn written(&self) -> Seq<u8>;

    /// How many more bytes the sink accepts.
    spec fn room(&self) -> nat;

    /// The error with which a write is refused when there is no room.
    spec fn failure(&self) -> Self::Error;

    /// Appends one byte. Fails, and changes nothing, when there is no room.
    fn write_byte(&mut self, b: u8) -> (r: Result<(), Self::Error>)
        ensures
            match r {
                Ok(_) => {
                    &&& old(self).room() > 0
                    &&& final(self).written() == old(self).written().push(b)
                    &&& final(self).room() == old(self).room() - 1
                    &&& final(self).failure() == old(self).failure()
                },
                Err(e) => {
                    &&& old(self).room() == 0
                    &&& e == old(self).failure()
                    &&& final(self).written() == old(self).written()
                    &&& final(self).room() == old(self).room()
                    &&& final(self).failure() == old(self).failure()
                },
            },
    ;
}

/// Why an in-memory source or sink refused.
#[derive(Clone, Copy, Debug, PartialEq, Eq)]
pub enum IoErrorKind {
    /// A source had no byte left.
    EndOfFile,
    /// A sink had no room left.
    OtherIoError,
}

/// The error of the in-memory source and sink.
#[derive(Clone, Copy, Debug, PartialEq, Eq)]
pub struct IoError {
    pub kind: IoErrorKind,
}

/// A source that delivers the bytes of a slice, from a position onwards.
pub struct SliceSource<'a> {
    data: &'a [u8],
    pos: usize,
}

impl<'a> SliceSource<'a> {
    /// A source that delivers all of `data`.
    pub fn new(data: &'a [u8]) -> (s: Self)
        ensures
            s.pending() == data@,
    {
        SliceSource { data, pos: 0 }
    }
}

impl<'a> ByteSource for SliceSource<'a> {
    type Error = IoError;

    closed spec fn pending(&self) -> Seq<u8> {
        if self.pos <= self.data@.len() {
            self.data@.skip(self.pos as int)
        } else {
            Seq::empty()
        }
    }

    open spec fn failure(&self) -> IoError {
        IoError { kind: IoErrorKind::EndOfFile }
    }

    fn read_byte(&mut self) -> (r: Result<u8, IoError>) {
        if self.pos < self.data.len() {
            let b = self.data[self.pos];
            self.pos = self.pos + 1;
            assert(self.data@.skip(self.pos as int) =~= self.data@.skip(self.pos - 1).skip(1));
            Ok(b)
        } else {
            Err(IoError { kind: IoErrorKind::EndOfFile })
        }
    }
}

/// A sink that keeps what is written to it, up to a fixed number of bytes.
pub struct BoundedSink {
    buf: Vec<u8>,
    limit: usize,
}

impl BoundedSink {
    /// An empty sink that accepts `limit` bytes.
    pub fn new(limit: usize) -> (s: Self)
        ensures
            s.written() == Seq::<u8>::empty(),
            s.room() == limit,
    {
        BoundedSink { buf: Vec::new(), limit }
    }

    /// The bytes written so far.
    pub fn as_slice(&self) -> (s: &[u8])
        ensures
            s@ == self.written(),
    {
        self.buf.as_slice()
    }
}

impl ByteSink for BoundedSink {
    type Error = IoError;

    closed spec fn written(&self) -> Seq<u8> {
        self.buf@
    }

    closed spec fn room(&self) -> nat {
        if self.buf@.len() <= self.limit {
            (self.limit - self.buf@.len()) as nat
        } else {
            0
        }
    }

    open spec fn failure(&self) -> IoError {
        IoError { kind: IoErrorKind::OtherIoError }
    }

    fn write_byte(&mut self, b: u8) -> (r: Result<(), IoError>) {
        if self.buf.len() < self.limit {
            self.buf.push(b);
            Ok(())
        } else {
            Err(IoError { kind: IoErrorKind::OtherIoError })
        }
    }
}

} // verus!
