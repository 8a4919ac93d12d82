//! Byte-stream read and write interfaces, and in-memory transports.
//!
//! A sink is modelled by `log()`, the sequence of bytes it has accepted so
//! far; a source by `remaining()`, the sequence of bytes it has not yet
//! delivered. A source that returns `Ok(0)` for a non-empty destination has
//! reached the end of its stream.

use vstd::prelude::*;

use crate::ErrorKind;

verus! {

/// A byte sink. After any method of it reports an error, nothing more is
/// known of the bytes it has accepted: the caller abandons the sink, as a
/// failed send leaves a connection's protocol state undefined.
pub trait Write: Sized {
    /// Internal consistency of the sink's state.
    spec fn wf(&self) -> bool;

    /// The bytes this sink has accepted so far.
    spec fn log(&self) -> Seq<u8>;

    /// A marker the sink chose when its current framing began; no write
    /// moves it, so callers can measure output against it even through
    /// writes they did not make themselves.
    spec fn base_log(&self) -> Seq<u8>;

    /// Accepted bytes that have not yet been pushed on to the underlying
    /// device; a successful flush leaves none.
    spec fn pending_log(&self) -> Seq<u8>;

    /// Write some prefix of `buf`, returning how many bytes were accepted;
    /// a successful write on a non-empty `buf` accepts at least one byte.
    fn write(&mut self, buf: &[u8]) -> (r: Result<usize, ErrorKind>)
        requires
            old(self).wf(),
        ensures
            (*final(self)).wf(),
            (*final(self)).base_log() == old(self).base_log(),
            match r {
                Ok(n) => n <= buf@.len() && (buf@.len() > 0 ==> n > 0) && (*final(self)).log()
                    == old(self).log() + buf@.subrange(0, n as int),
                Err(_) => true,
            },
    ;

    /// Write all of `buf`.
    fn write_all(&mut self, buf: &[u8]) -> (r: Result<(), ErrorKind>)
        requires
            old(self).wf(),
        ensures
            (*final(self)).wf(),
            (*final(self)).base_log() == old(self).base_log(),
            match r {
                Ok(()) => (*final(self)).log() == old(self).log() + buf@,
                Err(_) => true,
            },
    ;

    /// Push buffered bytes towards the underlying device. On success the
    /// accepted bytes are unchanged and none of them remain pending; after
    /// an error the sink's state is unspecified, as after a failed write,
    /// and the caller abandons it.
    fn flush(&mut self) -> (r: Result<(), ErrorKind>)
        requires
            old(self).wf(),
        ensures
            (*final(self)).wf(),
            (*final(self)).base_log() == old(self).base_log(),
            r matches Ok(_) ==> (*final(self)).log() == old(self).log()
                && (*final(self)).pending_log() == Seq::<u8>::empty(),
    ;
}

/// A byte source.
pub trait Read: Sized {
    /// Internal consistency of the source's state.
    spec fn wf(&self) -> bool;

    /// The bytes this source has not yet delivered.
    spec fn remaining(&self) -> Seq<u8>;

    /// Read some bytes into a prefix of `buf`, returning how many were read.
    /// `Ok(0)` means the destination is empty or the stream has ended.
    fn read(&mut self, buf: &mut Vec<u8>) -> (r: Result<usize, ErrorKind>)
        requires
            old(self).wf(),
        ensures
            (*final(self)).wf(),
            final(buf)@.len() == old(buf)@.len(),
            match r {
                Ok(n) => n <= old(buf)@.len() && n <= old(self).remaining().len() && final(buf)@
                    == old(self).remaining().subrange(0, n as int) + old(buf)@.subrange(
                    n as int,
                    old(buf)@.len() as int,
                ) && (*final(self)).remaining() == old(self).remaining().skip(n as int) && (n == 0
                    ==> old(buf)@.len() == 0 || old(self).remaining().len() == 0),
                Err(_) => final(buf)@ == old(buf)@ && (*final(self)).remaining() == old(
                    self,
                ).remaining(),
            },
    ;
}

/// An in-memory sink that accepts every write. The tests stand it in for a
/// network connection.
pub struct VecSink {
    pub data: Vec<u8>,
}

impl VecSink {
    pub fn new() -> (r: VecSink)
        ensures
            r.wf(),
            r.log() == Seq::<u8>::empty(),
    {
        VecSink { data: Vec::new() }
    }
}

impl Write for VecSink {
    open spec fn wf(&self) -> bool {
        true
    }

    open spec fn log(&self) -> Seq<u8> {
        self.data@
    }

    open spec fn base_log(&self) -> Seq<u8> {
        Seq::empty()
    }

    open spec fn pending_log(&self) -> Seq<u8> {
        Seq::empty()
    }

    fn write(&mut self, buf: &[u8]) -> (r: Result<usize, ErrorKind>) {
        self.data.extend_from_slice(buf);
        assert(self.data@ == old(self).data@ + buf@.subrange(0, buf@.len() as int));
        Ok(buf.len())
    }

    fn write_all(&mut self, buf: &[u8]) -> (r: Result<(), ErrorKind>) {
        self.data.extend_from_slice(buf);
        Ok(())
    }

    fn flush(&mut self) -> (r: Result<(), ErrorKind>) {
        Ok(())
    }
}

/// An in-memory source that delivers a fixed byte string, at most
/// `read_length` bytes per read. The tests stand it in for a network
/// connection that trickles data.
pub struct SliceSource {
    data: Vec<u8>,
    offset: usize,
    read_length: usize,
}

impl SliceSource {
    pub fn new(data: Vec<u8>, read_length: usize) -> (r: SliceSource)
        requires
            read_length >= 1,
        ensures
            r.wf(),
            r.remaining() == data@,
    {
        SliceSource { data, offset: 0, read_length }
    }

    pub fn is_exhausted(&self) -> (r: bool)
        requires
            self.wf(),
        ensures
            r <==> self.remaining().len() == 0,
    {
        self.offset == self.data.len()
    }
}

impl Read for SliceSource {
    closed spec fn wf(&self) -> bool {
        self.offset <= self.data@.len() && self.read_length >= 1
    }

    closed spec fn remaining(&self) -> Seq<u8> {
        self.data@.skip(self.offset as int)
    }

    fn read(&mut self, buf: &mut Vec<u8>) -> (r: Result<usize, ErrorKind>) {
        let dlen = self.data.len();
        let available = dlen - self.offset;
        let mut n = if self.read_length < available {
            self.read_length
        } else {
            available
        };
        if buf.len() < n {
            n = buf.len();
        }
        let mut i: usize = 0;
        while i < n
            invariant
                0 <= i <= n,
                n <= buf@.len(),
                self == old(self),
                self.wf(),
                self.offset + n <= self.data@.len() <= usize::MAX,
                buf@.len() == old(buf)@.len(),
                buf@ == old(self).remaining().subrange(0, i as int) + old(buf)@.subrange(
                    i as int,
                    buf@.len() as int,
                ),
            decreases n - i,
        {
            let b = self.data[self.offset + i];
            buf[i] = b;
            assert(buf@ == old(self).remaining().subrange(0, i + 1 as int) + old(buf)@.subrange(
                i + 1 as int,
                buf@.len() as int,
            ));
            i = i + 1;
        }
        self.offset = self.offset + n;
        assert(self.remaining() == old(self).remaining().skip(n as int));
        Ok(n)
    }
}

/// A two-way in-memory connection for exercising whole exchanges: writes
/// accumulate in `sent`, reads deliver a pre-loaded response.
pub struct TestConnection {
    pub sent: VecSink,
    pub source: SliceSource,
}

impl TestConnection {
    pub fn new(response: Vec<u8>) -> (r: TestConnection)
        ensures
            <TestConnection as Write>::wf(&r),
            <TestConnection as Read>::wf(&r),
            r.log() == Seq::<u8>::empty(),
            r.remaining() == response@,
    {
        TestConnection { sent: VecSink::new(), source: SliceSource::new(response, 16) }
    }
}

impl Write for TestConnection {
    open spec fn wf(&self) -> bool {
        <SliceSource as Read>::wf(&self.source)
    }

    open spec fn log(&self) -> Seq<u8> {
        self.sent.log()
    }

    open spec fn base_log(&self) -> Seq<u8> {
        Seq::empty()
    }

    open spec fn pending_log(&self) -> Seq<u8> {
        Seq::empty()
    }

    fn write(&mut self, buf: &[u8]) -> (r: Result<usize, ErrorKind>) {
        self.sent.write(buf)
    }

    fn write_all(&mut self, buf: &[u8]) -> (r: Result<(), ErrorKind>) {
        self.sent.write_all(buf)
    }

    fn flush(&mut self) -> (r: Result<(), ErrorKind>) {
        self.sent.flush()
    }
}

impl Read for TestConnection {
    open spec fn wf(&self) -> bool {
        <SliceSource as Read>::wf(&self.source)
    }

    open spec fn remaining(&self) -> Seq<u8> {
        self.source.remaining()
    }

    fn read(&mut self, buf: &mut Vec<u8>) -> (r: Result<usize, ErrorKind>) {
        self.source.read(buf)
    }
}

} // verus!
