//! Fixed-length response body reader: yields exactly the declared number of
//! body bytes from the buffered source, and no more.

use vstd::prelude::*;

use crate::io::Read;
use crate::reader::{buffered_remaining, BufferingReader};
use crate::Error;

verus! {

/// Reads up to `remaining` body bytes; the stream's framing ends when the
/// counter reaches zero.
pub struct FixedLengthBodyReader {
    pub raw_body: BufferingReader,
    pub remaining: usize,
}

impl FixedLengthBodyReader {
    pub open spec fn wf(&self) -> bool {
        self.raw_body.wf()
    }

    /// The wire bytes not yet consumed.
    pub open spec fn wire<C: Read>(&self, conn: &C) -> Seq<u8> {
        buffered_remaining(&self.raw_body, conn)
    }

    /// Read body bytes into a prefix of `buf`, bounded by the declared
    /// length. `Ok(0)` with a non-empty `buf` means the body is done or the
    /// stream has ended.
    pub fn read<C: Read>(&mut self, conn: &mut C, buf: &mut Vec<u8>) -> (r: Result<usize, Error>)
        requires
            old(self).wf(),
            old(conn).wf(),
        ensures
            (*final(self)).wf(),
            (*final(conn)).wf(),
            final(buf)@.len() == old(buf)@.len(),
            match r {
                Ok(n) => {
                    let w0 = old(self).wire(old(conn));
                    &&& n <= old(buf)@.len()
                    &&& n <= old(self).remaining
                    &&& n <= w0.len()
                    &&& final(buf)@ == w0.subrange(0, n as int) + old(buf)@.subrange(
                        n as int,
                        old(buf)@.len() as int,
                    )
                    &&& (*final(self)).wire(final(conn)) == w0.skip(n as int)
                    &&& (*final(self)).remaining == old(self).remaining - n
                    &&& (n == 0 ==> old(self).remaining == 0 || old(buf)@.len() == 0 || w0.len()
                        == 0)
                },
                Err(e) => e matches Error::Network(_),
            },
    {
        if self.remaining == 0 {
            proof {
                assert(final(buf)@ =~= old(self).wire(old(conn)).subrange(0, 0) + old(
                    buf,
                )@.subrange(0, old(buf)@.len() as int));
                assert(old(self).wire(old(conn)).skip(0) =~= old(self).wire(old(conn)));
            }
            return Ok(0);
        }
        match self.raw_body.read_at_most(conn, buf, self.remaining) {
            Ok(n) => {
                self.remaining = self.remaining - n;
                Ok(n)
            },
            Err(k) => Err(Error::Network(k)),
        }
    }

    /// Expose up to `remaining` buffered body bytes; a stream that ends
    /// before the declared length is an aborted connection.
    pub fn fill_buf<C: Read>(&mut self, conn: &mut C) -> (r: Result<&[u8], Error>)
        requires
            old(self).wf(),
            old(conn).wf(),
        ensures
            (*final(self)).wf(),
            (*final(conn)).wf(),
            (*final(self)).remaining == old(self).remaining,
            match r {
                Ok(s) => {
                    let w0 = old(self).wire(old(conn));
                    &&& s@.len() <= old(self).remaining
                    &&& s@ == w0.subrange(0, s@.len() as int)
                    &&& (*final(self)).wire(final(conn)) == w0
                    &&& (old(self).remaining > 0 ==> s@.len() > 0)
                },
                Err(e) => e == Error::ConnectionAborted || (e matches Error::Network(_)),
            },
    {
        if self.remaining == 0 {
            let whole = self.raw_body.peek();
            let empty = vstd::slice::slice_subrange(whole, 0, 0);
            proof {
                assert(empty@ =~= old(self).wire(old(conn)).subrange(0, 0));
            }
            return Ok(empty);
        }
        match self.raw_body.fill_buf(conn) {
            Ok(loaded) => {
                let len = if loaded.len() < self.remaining {
                    loaded.len()
                } else {
                    self.remaining
                };
                if len == 0 {
                    return Err(Error::ConnectionAborted);
                }
                let piece = vstd::slice::slice_subrange(loaded, 0, len);
                proof {
                    assert(piece@ =~= old(self).wire(old(conn)).subrange(0, len as int));
                }
                Ok(piece)
            },
            Err(k) => Err(Error::Network(k)),
        }
    }

    /// Drop up to `remaining` body bytes from the buffered prefix.
    pub fn consume(&mut self, amt: usize)
        requires
            old(self).wf(),
        ensures
            (*final(self)).wf(),
            (*final(self)).remaining == old(self).remaining - (if amt <= old(self).remaining {
                amt as int
            } else {
                old(self).remaining as int
            }),
            (*final(self)).raw_body.loaded_bytes() == old(self).raw_body.loaded_bytes().skip(
                {
                    let a = if amt <= old(self).remaining {
                        amt as int
                    } else {
                        old(self).remaining as int
                    };
                    if a <= old(self).raw_body.loaded_bytes().len() {
                        a
                    } else {
                        old(self).raw_body.loaded_bytes().len() as int
                    }
                },
            ),
    {
        let amt = if amt < self.remaining {
            amt
        } else {
            self.remaining
        };
        self.remaining = self.remaining - amt;
        self.raw_body.consume(amt);
    }
}

} // verus!
