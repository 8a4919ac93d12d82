//! A reader that drains one source, then another.

use vstd::prelude::*;

use crate::io::Read;
use crate::ErrorKind;

verus! {

/// Reads `first` to its end, then `last`.
pub struct ConcatReader<A, B> where A: Read, B: Read {
    pub first: A,
    pub last: B,
    pub first_exhausted: bool,
}

impl<A, B> ConcatReader<A, B> where A: Read, B: Read {
    pub fn new(first: A, last: B) -> (r: ConcatReader<A, B>)
        requires
            first.wf(),
            last.wf(),
        ensures
            r.wf(),
            r.remaining() == first.remaining() + last.remaining(),
    {
        let r = ConcatReader { first, last, first_exhausted: false };
        proof {
            assert(r.remaining() =~= first.remaining() + last.remaining());
        }
        r
    }
}

/// Which of the two sources failed.
pub enum ConcatReaderError {
    First(ErrorKind),
    Last(ErrorKind),
}

impl ConcatReaderError {
    /// The failing source's own classification.
    pub fn kind(&self) -> (r: ErrorKind)
        ensures
            r == match *self {
                ConcatReaderError::First(a) => a,
                ConcatReaderError::Last(b) => b,
            },
    {
        match self {
            ConcatReaderError::First(a) => *a,
            ConcatReaderError::Last(b) => *b,
        }
    }
}

impl<A, B> Read for ConcatReader<A, B> where A: Read, B: Read {
    open spec fn wf(&self) -> bool {
        self.first.wf() && self.last.wf()
    }

    open spec fn remaining(&self) -> Seq<u8> {
        (if self.first_exhausted {
            Seq::<u8>::empty()
        } else {
            self.first.remaining()
        }) + self.last.remaining()
    }

    fn read(&mut self, buf: &mut Vec<u8>) -> (r: Result<usize, ErrorKind>) {
        if !self.first_exhausted {
            let ghost rem = old(self).remaining();
            match self.first.read(buf) {
                Ok(n) => {
                    if n > 0 {
                        proof {
                            assert(final(buf)@ =~= rem.subrange(0, n as int) + old(buf)@.subrange(
                                n as int,
                                old(buf)@.len() as int,
                            ));
                            assert((*final(self)).remaining() =~= rem.skip(n as int));
                        }
                        return Ok(n);
                    }
                    if buf.len() == 0 {
                        proof {
                            assert(final(buf)@ =~= rem.subrange(0, 0) + old(buf)@.subrange(
                                0,
                                old(buf)@.len() as int,
                            ));
                            assert((*final(self)).remaining() =~= rem.skip(0));
                        }
                        return Ok(0);
                    }
                    // The first source has ended for good.
                    self.first_exhausted = true;
                },
                Err(e) => {
                    return Err(e);
                },
            }
        }
        let ghost rem = self.remaining();
        proof {
            assert(rem =~= old(self).remaining());
        }
        let r = self.last.read(buf);
        proof {
            match r {
                Ok(n) => {
                    assert((*final(self)).remaining() =~= self.last.remaining());
                    assert(final(buf)@ =~= rem.subrange(0, n as int) + old(buf)@.subrange(
                        n as int,
                        old(buf)@.len() as int,
                    ));
                    assert((*final(self)).remaining() =~= rem.skip(n as int));
                },
                Err(_) => {
                    assert((*final(self)).remaining() =~= old(self).remaining());
                },
            }
        }
        r
    }
}

} // verus!
