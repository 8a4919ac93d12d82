//! A write adapter that accumulates small writes in a caller buffer and
//! flushes when the buffer fills; a single write that is already larger than
//! the buffer bypasses it.

use vstd::prelude::*;

use crate::bytebuf::{shift_left, splice};
use crate::io::{Read, Write};
use crate::ErrorKind;

verus! {

/// Buffers writes towards `conn` in a fixed-size byte buffer.
pub struct BufferedWrite<C: Write> {
    conn: C,
    buf: Vec<u8>,
    pos: usize,
}

impl<C: Write> BufferedWrite<C> {
    /// The bytes accepted but not yet handed to the underlying sink.
    pub closed spec fn pending(&self) -> Seq<u8> {
        self.buf@.take(self.pos as int)
    }

    /// The bytes the underlying sink has accepted.
    pub closed spec fn conn_log(&self) -> Seq<u8> {
        self.conn.log()
    }

    pub fn new(conn: C, buf: Vec<u8>) -> (r: BufferedWrite<C>)
        requires
            conn.wf(),
        ensures
            r.wf(),
            r.log() == conn.log(),
            r.pending() == Seq::<u8>::empty(),
    {
        let r = BufferedWrite { conn, buf, pos: 0 };
        proof {
            assert(r.pending() =~= Seq::<u8>::empty());
            assert(r.log() =~= r.conn.log());
        }
        r
    }

    /// Hand the underlying sink back; pending bytes are dropped, so flush
    /// first.
    pub fn into_inner(self) -> (r: C)
        requires
            self.wf(),
        ensures
            r.wf(),
            r.log() == self.conn_log(),
    {
        self.conn
    }
}

impl<C: Write> Write for BufferedWrite<C> {
    closed spec fn wf(&self) -> bool {
        &&& self.conn.wf()
        &&& self.buf@.len() > 0 ==> self.pos < self.buf@.len()
        &&& self.buf@.len() == 0 ==> self.pos == 0
    }

    /// Accepted bytes: what the sink has, then what waits in the buffer.
    closed spec fn log(&self) -> Seq<u8> {
        self.conn.log() + self.buf@.take(self.pos as int)
    }

    closed spec fn base_log(&self) -> Seq<u8> {
        self.conn.base_log()
    }

    /// What waits in this adapter's buffer, then what the sink holds back.
    closed spec fn pending_log(&self) -> Seq<u8> {
        self.buf@.take(self.pos as int) + self.conn.pending_log()
    }

    fn write(&mut self, buf: &[u8]) -> (r: Result<usize, ErrorKind>) {
        if buf.len() == 0 {
            proof {
                assert(self.log() + buf@.subrange(0, 0) =~= self.log());
            }
            return Ok(0);
        }
        let cap = self.buf.len();
        if self.pos == 0 && buf.len() >= cap {
            // Fast path: nothing buffered and the write is large.
            match self.conn.write(buf) {
                Ok(n) => {
                    proof {
                        assert(self.log() =~= old(self).log() + buf@.subrange(0, n as int));
                    }
                    return Ok(n);
                },
                Err(e) => {
                    return Err(e);
                },
            }
        }
        let buffered = if buf.len() < cap - self.pos {
            buf.len()
        } else {
            cap - self.pos
        };
        if buffered > 0 {
            let piece = vstd::slice::slice_subrange(buf, 0, buffered);
            splice(&mut self.buf, self.pos, piece);
            self.pos = self.pos + buffered;
        }
        proof {
            assert(self.log() =~= old(self).log() + buf@.subrange(0, buffered as int));
        }
        let ghost mid = self.log();
        if self.pos == self.buf.len() {
            // The buffer is full: hand it to the sink.
            let ghost bmid = self.buf@;
            let ghost pfull = self.pos as int;
            let full = vstd::slice::slice_subrange(self.buf.as_slice(), 0, self.pos);
            let written = match self.conn.write(full) {
                Ok(w) => w,
                Err(e) => {
                    // The sink failed; its state is unspecified and the
                    // caller abandons it, so the pending bytes go too.
                    self.pos = 0;
                    return Err(e);
                },
            };
            if written < self.pos {
                shift_left(&mut self.buf, 0, written, self.pos - written);
                self.pos = self.pos - written;
                proof {
                    assert(self.pending() =~= bmid.subrange(written as int, pfull));
                    assert(self.log() =~= self.conn.log() + bmid.subrange(written as int, pfull));
                    assert(self.conn.log() =~= mid.take(mid.len() - (pfull - written)));
                    assert(self.log() =~= mid);
                }
            } else {
                self.pos = 0;
                proof {
                    assert(self.pending() =~= Seq::<u8>::empty());
                    assert(full@.subrange(0, written as int) =~= bmid.take(pfull));
                    assert(self.log() =~= mid);
                }
            }
        }
        Ok(buffered)
    }

    fn write_all(&mut self, buf: &[u8]) -> (r: Result<(), ErrorKind>) {
        let mut offset: usize = 0;
        proof {
            assert(self.log() + buf@.subrange(0, 0) =~= self.log());
        }
        while offset < buf.len()
            invariant
                0 <= offset <= buf@.len(),
                self.wf(),
                self.base_log() == old(self).base_log(),
                self.log() == old(self).log() + buf@.subrange(0, offset as int),
            decreases buf@.len() - offset,
        {
            let rest = vstd::slice::slice_subrange(buf, offset, buf.len());
            match self.write(rest) {
                Ok(n) => {
                    proof {
                        assert(n > 0);
                        assert(old(self).log() + buf@.subrange(0, offset + n as int) =~= old(
                            self,
                        ).log() + buf@.subrange(0, offset as int) + rest@.subrange(0, n as int));
                    }
                    offset = offset + n;
                },
                Err(e) => {
                    return Err(e);
                },
            }
        }
        proof {
            assert(buf@.subrange(0, buf@.len() as int) =~= buf@);
        }
        Ok(())
    }

    fn flush(&mut self) -> (r: Result<(), ErrorKind>) {
        if self.pos > 0 {
            let full = vstd::slice::slice_subrange(self.buf.as_slice(), 0, self.pos);
            match self.conn.write_all(full) {
                Ok(()) => (),
                Err(e) => {
                    return Err(e);
                },
            }
            self.pos = 0;
            proof {
                assert(self.log() =~= old(self).log());
            }
        }
        match self.conn.flush() {
            Ok(()) => Ok(()),
            Err(e) => Err(e),
        }
    }
}

impl<C: Write + Read> Read for BufferedWrite<C> {
    closed spec fn wf(&self) -> bool {
        <C as Read>::wf(&self.conn)
    }

    closed spec fn remaining(&self) -> Seq<u8> {
        self.conn.remaining()
    }

    fn read(&mut self, buf: &mut Vec<u8>) -> (r: Result<usize, ErrorKind>) {
        self.conn.read(buf)
    }
}

} // verus!
