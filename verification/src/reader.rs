//! A reading adapter that first drains bytes already loaded into a buffer,
//! then pulls from the underlying transport.

use vstd::prelude::*;

use crate::bytebuf::shift_left;
use crate::io::Read;
use crate::ErrorKind;

verus! {

/// A buffer holding `loaded` not-yet-consumed bytes at its front.
pub struct ReadBuffer {
    buffer: Vec<u8>,
    loaded: usize,
}

impl ReadBuffer {
    /// The bytes waiting in the buffer.
    pub closed spec fn loaded_bytes(&self) -> Seq<u8> {
        self.buffer@.take(self.loaded as int)
    }

    /// The buffer's fixed capacity.
    pub closed spec fn capacity(&self) -> nat {
        self.buffer@.len()
    }

    pub closed spec fn wf(&self) -> bool {
        self.loaded <= self.buffer@.len()
    }

    pub fn new(buffer: Vec<u8>, loaded: usize) -> (r: ReadBuffer)
        requires
            loaded <= buffer@.len(),
        ensures
            r.wf(),
            r.loaded_bytes() == buffer@.take(loaded as int),
            r.capacity() == buffer@.len(),
    {
        ReadBuffer { buffer, loaded }
    }

    pub fn is_empty(&self) -> (r: bool)
        requires
            self.wf(),
        ensures
            r <==> self.loaded_bytes().len() == 0,
    {
        self.loaded == 0
    }

    /// Copy buffered bytes into a prefix of `buf` and consume them.
    pub fn read(&mut self, buf: &mut Vec<u8>) -> (n: usize)
        requires
            old(self).wf(),
        ensures
            (*final(self)).wf(),
            (*final(self)).capacity() == old(self).capacity(),
            final(buf)@.len() == old(buf)@.len(),
            n <= old(buf)@.len(),
            n <= old(self).loaded_bytes().len(),
            n == if old(buf)@.len() <= old(self).loaded_bytes().len() {
                old(buf)@.len() as int
            } else {
                old(self).loaded_bytes().len() as int
            },
            final(buf)@ == old(self).loaded_bytes().subrange(0, n as int) + old(buf)@.subrange(
                n as int,
                old(buf)@.len() as int,
            ),
            (*final(self)).loaded_bytes() == old(self).loaded_bytes().skip(n as int),
    {
        let blen = self.buffer.len();
        let amt = if self.loaded < buf.len() {
            self.loaded
        } else {
            buf.len()
        };
        let mut i: usize = 0;
        while i < amt
            invariant
                0 <= i <= amt,
                amt <= self.loaded <= self.buffer@.len() <= usize::MAX,
                amt <= buf@.len(),
                self == old(self),
                buf@.len() == old(buf)@.len(),
                buf@ == old(self).loaded_bytes().subrange(0, i as int) + old(buf)@.subrange(
                    i as int,
                    old(buf)@.len() as int,
                ),
            decreases amt - i,
        {
            let b = self.buffer[i];
            buf[i] = b;
            proof {
                assert(buf@ =~= old(self).loaded_bytes().subrange(0, i + 1 as int) + old(
                    buf,
                )@.subrange(i + 1 as int, old(buf)@.len() as int));
            }
            i = i + 1;
        }
        self.consume(amt);
        amt
    }

    /// The buffered bytes, without consuming them.
    pub fn fill_buf(&self) -> (r: &[u8])
        requires
            self.wf(),
        ensures
            r@ == self.loaded_bytes(),
    {
        vstd::slice::slice_subrange(self.buffer.as_slice(), 0, self.loaded)
    }

    /// Drop up to `amt` bytes from the front of the buffer, returning how
    /// many of `amt` exceeded what was buffered.
    pub fn consume(&mut self, amt: usize) -> (unconsumed: usize)
        requires
            old(self).wf(),
        ensures
            (*final(self)).wf(),
            (*final(self)).capacity() == old(self).capacity(),
            (*final(self)).loaded_bytes() == old(self).loaded_bytes().skip(
                if amt <= old(self).loaded_bytes().len() {
                    amt as int
                } else {
                    old(self).loaded_bytes().len() as int
                },
            ),
            unconsumed == amt - (if amt <= old(self).loaded_bytes().len() {
                amt as int
            } else {
                old(self).loaded_bytes().len() as int
            }),
    {
        let to_consume = if amt < self.loaded {
            amt
        } else {
            self.loaded
        };
        shift_left(&mut self.buffer, 0, to_consume, self.loaded - to_consume);
        self.loaded = self.loaded - to_consume;
        proof {
            assert((*final(self)).loaded_bytes() =~= old(self).loaded_bytes().skip(
                to_consume as int,
            ));
        }
        amt - to_consume
    }
}

/// Reads first from an in-buffer prefix, then from the transport.
pub struct BufferingReader {
    pub(crate) buffer: ReadBuffer,
}

/// The bytes a `BufferingReader` over `conn` has not yet delivered: the
/// buffered prefix, then the transport's stream.
pub open spec fn buffered_remaining<C: Read>(br: &BufferingReader, conn: &C) -> Seq<u8> {
    br.loaded_bytes() + conn.remaining()
}

impl BufferingReader {
    pub closed spec fn wf(&self) -> bool {
        self.buffer.wf()
    }

    /// The bytes waiting in the buffer.
    pub closed spec fn loaded_bytes(&self) -> Seq<u8> {
        self.buffer.loaded_bytes()
    }

    /// The buffer's fixed capacity.
    pub closed spec fn capacity(&self) -> nat {
        self.buffer.capacity()
    }

    pub fn new(buffer: Vec<u8>, loaded: usize) -> (r: BufferingReader)
        requires
            loaded <= buffer@.len(),
        ensures
            r.wf(),
            r.loaded_bytes() == buffer@.take(loaded as int),
            r.capacity() == buffer@.len(),
    {
        BufferingReader { buffer: ReadBuffer::new(buffer, loaded) }
    }

    /// The buffer's capacity.
    pub fn capacity_exec(&self) -> (r: usize)
        ensures
            r == self.capacity(),
    {
        self.buffer.capacity_exec()
    }

    /// The buffered bytes, without consuming them and without pulling from
    /// the transport.
    pub fn peek(&self) -> (r: &[u8])
        requires
            self.wf(),
        ensures
            r@ == self.loaded_bytes(),
    {
        self.buffer.fill_buf()
    }

    /// Read into a prefix of `buf`, draining the buffered bytes first: while
    /// the buffer holds bytes, they are delivered without touching the
    /// transport; only an empty buffer delegates to the transport.
    pub fn read<C: Read>(&mut self, conn: &mut C, buf: &mut Vec<u8>) -> (r: Result<
        usize,
        ErrorKind,
    >)
        requires
            old(self).wf(),
            old(conn).wf(),
        ensures
            (*final(self)).wf(),
            (*final(conn)).wf(),
            (*final(self)).capacity() == old(self).capacity(),
            final(buf)@.len() == old(buf)@.len(),
            match r {
                Ok(n) => {
                    let rem = buffered_remaining(old(self), old(conn));
                    let loaded = old(self).loaded_bytes().len();
                    &&& n <= old(buf)@.len()
                    &&& n <= rem.len()
                    &&& final(buf)@ == rem.subrange(0, n as int) + old(buf)@.subrange(
                        n as int,
                        old(buf)@.len() as int,
                    )
                    &&& buffered_remaining(final(self), final(conn)) == rem.skip(n as int)
                    &&& (n == 0 ==> old(buf)@.len() == 0 || rem.len() == 0)
                    &&& if loaded > 0 {
                        &&& n == (if old(buf)@.len() <= loaded {
                            old(buf)@.len() as int
                        } else {
                            loaded as int
                        })
                        &&& *final(conn) == *old(conn)
                        &&& (*final(self)).loaded_bytes() == old(self).loaded_bytes().skip(n as int)
                    } else {
                        &&& (*final(self)).loaded_bytes() == old(self).loaded_bytes()
                        &&& (*final(conn)).remaining() == old(conn).remaining().skip(n as int)
                    }
                },
                Err(_) => final(buf)@ == old(buf)@ && buffered_remaining(final(self), final(conn))
                    == buffered_remaining(old(self), old(conn)),
            },
    {
        if !self.buffer.is_empty() {
            let amt = self.buffer.read(buf);
            proof {
                let rem = buffered_remaining(old(self), old(conn));
                assert(final(buf)@ =~= rem.subrange(0, amt as int) + old(buf)@.subrange(
                    amt as int,
                    old(buf)@.len() as int,
                ));
                assert(buffered_remaining(final(self), final(conn)) =~= rem.skip(amt as int));
            }
            return Ok(amt);
        }
        let r = conn.read(buf);
        proof {
            match r {
                Ok(n) => {
                    let rem = buffered_remaining(old(self), old(conn));
                    assert(rem =~= old(conn).remaining());
                    assert(buffered_remaining(final(self), final(conn)) =~= rem.skip(n as int));
                },
                Err(_) => {},
            }
        }
        r
    }

    /// Expose buffered bytes, pulling from the transport when the buffer is
    /// empty. An empty result means the stream has ended, unless the buffer
    /// has no capacity at all.
    pub fn fill_buf<C: Read>(&mut self, conn: &mut C) -> (r: Result<&[u8], ErrorKind>)
        requires
            old(self).wf(),
            old(conn).wf(),
        ensures
            (*final(self)).wf(),
            (*final(conn)).wf(),
            (*final(self)).capacity() == old(self).capacity(),
            match r {
                Ok(s) => {
                    let rem = buffered_remaining(old(self), old(conn));
                    &&& s@ == (*final(self)).loaded_bytes()
                    &&& s@ == rem.subrange(0, s@.len() as int)
                    &&& buffered_remaining(final(self), final(conn)) == rem
                    &&& (s@.len() == 0 ==> rem.len() == 0 || old(self).capacity() == 0)
                },
                Err(_) => buffered_remaining(final(self), final(conn)) == buffered_remaining(
                    old(self),
                    old(conn),
                ),
            },
    {
        if self.buffer.is_empty() {
            let cap = self.buffer.capacity_exec();
            let mut scratch: Vec<u8> = self.buffer.take_vec();
            let r = conn.read(&mut scratch);
            match r {
                Ok(n) => {
                    self.buffer.put_vec(scratch, n);
                    proof {
                        assert(buffered_remaining(final(self), final(conn)) =~= buffered_remaining(
                            old(self),
                            old(conn),
                        ));
                    }
                },
                Err(e) => {
                    self.buffer.put_vec(scratch, 0);
                    return Err(e);
                },
            }
        }
        let s = self.buffer.fill_buf();
        proof {
            assert(s@ =~= buffered_remaining(old(self), old(conn)).subrange(0, s@.len() as int));
        }
        Ok(s)
    }

    /// Read exactly one byte, or learn that the stream has ended.
    pub fn read_one<C: Read>(&mut self, conn: &mut C) -> (r: Result<Option<u8>, ErrorKind>)
        requires
            old(self).wf(),
            old(conn).wf(),
        ensures
            (*final(self)).wf(),
            (*final(conn)).wf(),
            (*final(self)).capacity() == old(self).capacity(),
            match r {
                Ok(b) => {
                    let rem = buffered_remaining(old(self), old(conn));
                    match b {
                        Some(v) => rem.len() >= 1 && v == rem[0] && buffered_remaining(
                            final(self),
                            final(conn),
                        ) == rem.skip(1),
                        None => rem.len() == 0 && buffered_remaining(final(self), final(conn))
                            == rem,
                    }
                },
                Err(_) => buffered_remaining(final(self), final(conn)) == buffered_remaining(
                    old(self),
                    old(conn),
                ),
            },
    {
        let mut one: Vec<u8> = Vec::new();
        one.push(0);
        match self.read(conn, &mut one) {
            Ok(0) => Ok(None),
            Ok(_) => {
                let b = one[0];
                proof {
                    let rem = buffered_remaining(old(self), old(conn));
                    assert(one@[0] == rem.subrange(0, 1)[0]);
                }
                Ok(Some(b))
            },
            Err(e) => Err(e),
        }
    }

    /// Read into a prefix of `buf`, but no more than `limit` bytes.
    pub fn read_at_most<C: Read>(
        &mut self,
        conn: &mut C,
        buf: &mut Vec<u8>,
        limit: usize,
    ) -> (r: Result<usize, ErrorKind>)
        requires
            old(self).wf(),
            old(conn).wf(),
        ensures
            (*final(self)).wf(),
            (*final(conn)).wf(),
            (*final(self)).capacity() == old(self).capacity(),
            final(buf)@.len() == old(buf)@.len(),
            match r {
                Ok(n) => {
                    let rem = buffered_remaining(old(self), old(conn));
                    &&& n <= limit
                    &&& n <= old(buf)@.len()
                    &&& n <= rem.len()
                    &&& final(buf)@ == rem.subrange(0, n as int) + old(buf)@.subrange(
                        n as int,
                        old(buf)@.len() as int,
                    )
                    &&& buffered_remaining(final(self), final(conn)) == rem.skip(n as int)
                    &&& (n == 0 ==> limit == 0 || old(buf)@.len() == 0 || rem.len() == 0)
                },
                Err(_) => final(buf)@ == old(buf)@ && buffered_remaining(final(self), final(conn))
                    == buffered_remaining(old(self), old(conn)),
            },
    {
        if limit >= buf.len() {
            return self.read(conn, buf);
        }
        let mut tmp: Vec<u8> = Vec::new();
        let mut j: usize = 0;
        while j < limit
            invariant
                0 <= j <= limit,
                tmp@.len() == j,
            decreases limit - j,
        {
            tmp.push(0);
            j = j + 1;
        }
        match self.read(conn, &mut tmp) {
            Ok(n) => {
                let mut k: usize = 0;
                while k < n
                    invariant
                        0 <= k <= n,
                        n <= tmp@.len() < buf@.len() == old(buf)@.len() <= usize::MAX,
                        buf@ == tmp@.subrange(0, k as int) + old(buf)@.subrange(
                            k as int,
                            old(buf)@.len() as int,
                        ),
                    decreases n - k,
                {
                    let b = tmp[k];
                    buf[k] = b;
                    proof {
                        assert(buf@ =~= tmp@.subrange(0, k + 1 as int) + old(buf)@.subrange(
                            k + 1 as int,
                            old(buf)@.len() as int,
                        ));
                    }
                    k = k + 1;
                }
                proof {
                    let rem = buffered_remaining(old(self), old(conn));
                    assert(tmp@.subrange(0, n as int) =~= rem.subrange(0, n as int));
                    assert(buf@ =~= rem.subrange(0, n as int) + old(buf)@.subrange(
                        n as int,
                        old(buf)@.len() as int,
                    ));
                }
                Ok(n)
            },
            Err(e) => Err(e),
        }
    }

    /// Drop up to `amt` bytes from the front of the buffered prefix.
    pub fn consume(&mut self, amt: usize)
        requires
            old(self).wf(),
        ensures
            (*final(self)).wf(),
            (*final(self)).capacity() == old(self).capacity(),
            (*final(self)).loaded_bytes() == old(self).loaded_bytes().skip(
                if amt <= old(self).loaded_bytes().len() {
                    amt as int
                } else {
                    old(self).loaded_bytes().len() as int
                },
            ),
    {
        let _unconsumed = self.buffer.consume(amt);
    }
}

impl ReadBuffer {
    /// The buffer's capacity.
    pub fn capacity_exec(&self) -> (r: usize)
        ensures
            r == self.capacity(),
    {
        self.buffer.len()
    }

    /// Move the underlying storage out to use as a read destination; the
    /// buffer is left empty.
    pub(crate) fn take_vec(&mut self) -> (r: Vec<u8>)
        requires
            old(self).loaded_bytes().len() == 0,
        ensures
            r@.len() == old(self).capacity(),
            (*final(self)).loaded_bytes().len() == 0,
            (*final(self)).capacity() == 0,
    {
        self.loaded = 0;
        let mut stolen: Vec<u8> = Vec::new();
        core::mem::swap(&mut stolen, &mut self.buffer);
        stolen
    }

    /// Put the storage back with its first `loaded` bytes valid.
    pub(crate) fn put_vec(&mut self, buffer: Vec<u8>, loaded: usize)
        requires
            loaded <= buffer@.len(),
        ensures
            (*final(self)).wf(),
            (*final(self)).loaded_bytes() == buffer@.take(loaded as int),
            (*final(self)).capacity() == buffer@.len(),
    {
        self.buffer = buffer;
        self.loaded = loaded;
    }
}

} // verus!
