//! Request body writers: a counting pass-through for bodies of known length,
//! a streaming chunked writer that frames every caller write as one chunk,
//! and a buffering chunked writer that coalesces writes inside a caller
//! buffer so each chunk leaves in a single transport write.

use vstd::prelude::*;

use crate::encoding::{
    all_chunks_nonempty, chunk_encoding, chunked_encoding, crlf, encode_chunks, flatten,
    get_max_chunk_header_size, hex_rep, lemma_encode_chunks_push, lemma_flatten_push,
    lemma_hex_rep_len_monotone, lemma_hex_rep_len_pos, make_chunk_header,
    spec_max_chunk_header_size, terminator, CR, LF,
};
use crate::io::Write;
use crate::ErrorKind;

verus! {

/// A pass-through body writer that tallies how many bytes it has accepted,
/// so a caller can hold the tally against a declared Content-Length.
pub struct FixedBodyWriter<C: Write> {
    conn: C,
    written: usize,
    base: Ghost<Seq<u8>>,
    broken: bool,
}

impl<C: Write> FixedBodyWriter<C> {

    /// Whether an underlying write has failed; the tally means nothing then.
    pub closed spec fn is_broken(&self) -> bool {
        self.broken
    }

    /// Whether an underlying write has failed, observable at run time, so a
    /// caller that only wrote through the sink interface can still trust the
    /// tally afterwards.
    pub fn is_poisoned(&self) -> (r: bool)
        ensures
            r == self.is_broken(),
    {
        self.broken
    }

    /// The number of body bytes accepted since construction: everything the
    /// sink accepted past the construction-time marker.
    pub open spec fn counted(&self) -> nat {
        (self.log().len() - self.base_log().len()) as nat
    }

    pub fn new(conn: C) -> (r: FixedBodyWriter<C>)
        requires
            conn.wf(),
        ensures
            r.wf(),
            r.log() == conn.log(),
            r.base_log() == conn.log(),
            !r.is_broken(),
    {
        let base = Ghost(conn.log());
        FixedBodyWriter { conn, written: 0, base, broken: false }
    }

    /// The tally of accepted body bytes, saturating at the machine limit.
    pub fn written(&self) -> (r: usize)
        requires
            self.wf(),
        ensures
            !self.is_broken() ==> r == if self.counted() > usize::MAX {
                usize::MAX as nat
            } else {
                self.counted()
            },
    {
        self.written
    }

    /// Hand the underlying sink back.
    pub fn into_inner(self) -> (r: C)
        requires
            self.wf(),
        ensures
            r.wf(),
            r.log() == self.log(),
    {
        self.conn
    }
}

impl<C: Write> Write for FixedBodyWriter<C> {
    closed spec fn wf(&self) -> bool {
        &&& self.conn.wf()
        &&& !self.broken ==> {
            &&& self.base@.is_prefix_of(self.conn.log())
            &&& self.written as nat == if self.counted() > usize::MAX {
                usize::MAX as nat
            } else {
                self.counted()
            }
        }
    }

    closed spec fn log(&self) -> Seq<u8> {
        self.conn.log()
    }

    closed spec fn base_log(&self) -> Seq<u8> {
        self.base@
    }

    closed spec fn pending_log(&self) -> Seq<u8> {
        self.conn.pending_log()
    }

    fn write(&mut self, buf: &[u8]) -> (r: Result<usize, ErrorKind>) {
        match self.conn.write(buf) {
            Ok(n) => {
                self.written = match self.written.checked_add(n) {
                    Some(w) => w,
                    None => usize::MAX,
                };
                Ok(n)
            },
            Err(e) => {
                self.broken = true;
                Err(e)
            },
        }
    }

    fn write_all(&mut self, buf: &[u8]) -> (r: Result<(), ErrorKind>) {
        match self.conn.write_all(buf) {
            Ok(()) => {
                self.written = match self.written.checked_add(buf.len()) {
                    Some(w) => w,
                    None => usize::MAX,
                };
                Ok(())
            },
            Err(e) => {
                self.broken = true;
                Err(e)
            },
        }
    }

    fn flush(&mut self) -> (r: Result<(), ErrorKind>) {
        match self.conn.flush() {
            Ok(()) => Ok(()),
            Err(e) => {
                self.broken = true;
                Err(e)
            },
        }
    }
}

/// A body writer that expands every non-empty caller write into one chunk on
/// the wire: hex size, CRLF, payload, CRLF. An empty caller write is a no-op,
/// as a zero-sized chunk would terminate the body.
pub struct ChunkedBodyWriter<C: Write> {
    conn: C,
    base: Ghost<Seq<u8>>,
    chunks: Ghost<Seq<Seq<u8>>>,
    broken: bool,
}

impl<C: Write> ChunkedBodyWriter<C> {
    /// The sink's accepted bytes when this writer was constructed.
    pub closed spec fn base(&self) -> Seq<u8> {
        self.base@
    }

    /// The chunks emitted so far, one per non-empty caller write.
    pub closed spec fn chunks(&self) -> Seq<Seq<u8>> {
        self.chunks@
    }

    /// Whether an underlying write has failed; no framing is claimed past
    /// one.
    pub closed spec fn is_broken(&self) -> bool {
        self.broken
    }

    /// The bytes the underlying sink has accepted.
    pub closed spec fn conn_log(&self) -> Seq<u8> {
        self.conn.log()
    }

    pub fn new(conn: C) -> (r: ChunkedBodyWriter<C>)
        requires
            conn.wf(),
        ensures
            r.wf(),
            r.log() == Seq::<u8>::empty(),
            r.base() == conn.log(),
            r.base_log() == conn.log(),
            r.chunks() == Seq::<Seq<u8>>::empty(),
            !r.is_broken(),
    {
        let base = Ghost(conn.log());
        let r = ChunkedBodyWriter { conn, base, chunks: Ghost(Seq::empty()), broken: false };
        proof {
            assert(r.log() =~= Seq::<u8>::empty());
        }
        r
    }

    /// Terminate the request body by writing an empty chunk.
    ///
    /// On success the sink holds, after what it had at construction, exactly
    /// the chunked encoding of every caller write, in order.
    pub fn terminate(&mut self) -> (r: Result<(), ErrorKind>)
        requires
            old(self).wf(),
        ensures
            (*final(self)).wf(),
            match r {
                Ok(()) => {
                    &&& (*final(self)).conn_log() == old(self).base_log() + chunked_encoding(
                        old(self).chunks(),
                    )
                    &&& flatten(old(self).chunks()) == old(self).log()
                    &&& all_chunks_nonempty(old(self).chunks())
                },
                Err(_) => true,
            },
    {
        if self.broken {
            // An earlier failure left the framing unknown.
            return Err(ErrorKind::Other);
        }
        let empty_chunk: [u8; 5] = [48, CR, LF, CR, LF];
        match self.conn.write_all(empty_chunk.as_slice()) {
            Ok(()) => {
                proof {
                    assert(empty_chunk@ =~= terminator());
                    assert(self.conn.log() =~= self.base@ + chunked_encoding(self.chunks@));
                }
                // The body is closed: no further write may claim framing.
                self.broken = true;
                Ok(())
            },
            Err(e) => {
                self.broken = true;
                Err(e)
            },
        }
    }

    /// Hand the underlying sink back.
    pub fn into_inner(self) -> (r: C)
        requires
            self.wf(),
        ensures
            r.wf(),
            r.log() == self.conn_log(),
    {
        self.conn
    }

    /// Emit one chunk: the hex size, CRLF, the payload, CRLF, as three sink
    /// writes; an empty `buf` emits nothing, as a zero-sized chunk would
    /// terminate the body.
    ///
    /// On success the sink's bytes grow by exactly the chunk's encoding, and
    /// the chunk takes its place at the end of the chunk list, so a caller
    /// can name the precise wire its writes produced.
    pub fn write_chunk(&mut self, buf: &[u8]) -> (r: Result<(), ErrorKind>)
        requires
            old(self).wf(),
        ensures
            (*final(self)).wf(),
            (*final(self)).base() == old(self).base(),
            (*final(self)).base_log() == old(self).base_log(),
            match r {
                Ok(()) => {
                    &&& (*final(self)).is_broken() == old(self).is_broken()
                    &&& (*final(self)).log() == old(self).log() + buf@
                    &&& if buf@.len() == 0 {
                        (*final(self)).chunks() == old(self).chunks() && (*final(self)).conn_log()
                            == old(self).conn_log()
                    } else {
                        (*final(self)).chunks() == old(self).chunks().push(buf@)
                            && (*final(self)).conn_log() == old(self).conn_log()
                            + chunk_encoding(buf@)
                    }
                },
                Err(_) => (*final(self)).is_broken(),
            },
    {
        if buf.len() == 0 {
            proof {
                assert(self.log() + buf@ =~= self.log());
            }
            return Ok(());
        }
        let header = make_chunk_header(buf.len());
        match self.conn.write_all(header.as_slice()) {
            Ok(()) => (),
            Err(e) => {
                self.broken = true;
                return Err(e);
            },
        }
        match self.conn.write_all(buf) {
            Ok(()) => (),
            Err(e) => {
                self.broken = true;
                return Err(e);
            },
        }
        let newline: [u8; 2] = [CR, LF];
        match self.conn.write_all(newline.as_slice()) {
            Ok(()) => (),
            Err(e) => {
                self.broken = true;
                return Err(e);
            },
        }
        proof {
            let prev = self.chunks@;
            self.chunks@ = prev.push(buf@);
            lemma_flatten_push(prev, buf@);
            assert(self.conn.log() =~= old(self).conn.log() + chunk_encoding(buf@));
            if !self.broken {
                lemma_encode_chunks_push(prev, buf@);
                assert(self.conn.log() =~= self.base@ + encode_chunks(self.chunks@));
            }
        }
        Ok(())
    }
}

impl<C: Write> Write for ChunkedBodyWriter<C> {
    closed spec fn wf(&self) -> bool {
        &&& self.conn.wf()
        &&& !self.broken ==> {
            &&& self.conn.log() == self.base@ + encode_chunks(self.chunks@)
            &&& all_chunks_nonempty(self.chunks@)
        }
    }

    /// The body bytes accepted so far: the concatenation of the chunks.
    closed spec fn log(&self) -> Seq<u8> {
        flatten(self.chunks@)
    }

    closed spec fn base_log(&self) -> Seq<u8> {
        self.base@
    }

    closed spec fn pending_log(&self) -> Seq<u8> {
        self.conn.pending_log()
    }

    /// All of `buf` is framed and accepted; the return distinguishes no short
    /// writes.
    fn write(&mut self, buf: &[u8]) -> (r: Result<usize, ErrorKind>) {
        match self.write_all(buf) {
            Ok(()) => {
                proof {
                    assert(buf@.subrange(0, buf@.len() as int) =~= buf@);
                }
                Ok(buf.len())
            },
            Err(e) => Err(e),
        }
    }

    fn write_all(&mut self, buf: &[u8]) -> (r: Result<(), ErrorKind>) {
        match self.write_chunk(buf) {
            Ok(()) => Ok(()),
            Err(e) => Err(e),
        }
    }

    fn flush(&mut self) -> (r: Result<(), ErrorKind>) {
        match self.conn.flush() {
            Ok(()) => Ok(()),
            Err(e) => {
                self.broken = true;
                Err(e)
            },
        }
    }
}

/// A body writer that coalesces caller writes inside a caller-supplied
/// buffer. A header slot wide enough for any chunk that could still fit is
/// reserved up front; payload accumulates after it; when the chunk closes,
/// the real header is written into the slot, the payload is nudged left over
/// the unused slot bytes, and header, payload and footer leave in one
/// transport write.
///
/// The buffer layout is always
/// `[ pending wire bytes | header slot | current payload | free ]`
/// with `header_pos` at the end of the pending bytes and `pos` at the end of
/// the payload.
pub struct BufferingChunkedBodyWriter<C: Write> {
    conn: C,
    buf: Vec<u8>,
    header_pos: usize,
    allocated_header: usize,
    pos: usize,
    terminated: bool,
    prefix: Ghost<Seq<u8>>,
    base: Ghost<Seq<u8>>,
    chunks: Ghost<Seq<Seq<u8>>>,
    broken: bool,
}

impl<C: Write> BufferingChunkedBodyWriter<C> {
    /// The sink's accepted bytes when this writer was constructed.
    pub closed spec fn base(&self) -> Seq<u8> {
        self.base@
    }

    /// The bytes that already sat at the start of the buffer at construction,
    /// typically the serialised request head.
    pub closed spec fn prefix(&self) -> Seq<u8> {
        self.prefix@
    }

    /// The chunks finished so far.
    pub closed spec fn chunks(&self) -> Seq<Seq<u8>> {
        self.chunks@
    }

    /// The payload of the currently open chunk.
    pub closed spec fn cur_chunk(&self) -> Seq<u8> {
        self.buf@.subrange(self.header_pos + self.allocated_header, self.pos as int)
    }

    /// Finished wire bytes not yet handed to the sink.
    pub closed spec fn pending(&self) -> Seq<u8> {
        self.buf@.take(self.header_pos as int)
    }

    /// All body bytes accepted so far.
    pub open spec fn body(&self) -> Seq<u8> {
        flatten(self.chunks()) + self.cur_chunk()
    }

    /// The bytes the underlying sink has accepted.
    pub closed spec fn conn_log(&self) -> Seq<u8> {
        self.conn.log()
    }

    /// Whether the terminating empty chunk has been written.
    pub closed spec fn is_terminated(&self) -> bool {
        self.terminated
    }

    /// Whether an underlying write has failed or the body was terminated; no
    /// framing is claimed past either.
    pub closed spec fn is_broken(&self) -> bool {
        self.broken
    }

    /// The fixed size of the caller's buffer.
    pub closed spec fn buf_len(&self) -> nat {
        self.buf@.len()
    }

    /// How many payload bytes the open chunk can still take, leaving its
    /// two-byte footer in place; zero when no header slot is reserved.
    pub closed spec fn free_space(&self) -> int {
        if self.allocated_header == 0 {
            0int
        } else if self.pos + 2 <= self.buf@.len() {
            self.buf@.len() - 2 - self.pos
        } else {
            0int
        }
    }

    spec fn inv_core(&self) -> bool {
        &&& self.conn.wf()
        &&& 6 <= self.buf@.len() <= usize::MAX
        &&& self.header_pos + self.allocated_header <= self.pos <= self.buf@.len()
        &&& self.allocated_header == spec_max_chunk_header_size(
            (self.buf@.len() - self.header_pos) as nat,
        )
        &&& self.allocated_header == 0 ==> self.pos == self.header_pos
        &&& !self.broken ==> {
            &&& self.conn.log() + self.pending() == self.base@ + self.prefix@ + encode_chunks(
                self.chunks@,
            )
            &&& all_chunks_nonempty(self.chunks@)
        }
    }

    /// Take ownership of the sink and of a buffer whose first `written`
    /// bytes are already valid, and reserve the header slot after them.
    pub fn new_with_data(conn: C, buf: Vec<u8>, written: usize) -> (r: BufferingChunkedBodyWriter<
        C,
    >)
        requires
            conn.wf(),
            written <= buf@.len(),
            buf@.len() >= 6,
        ensures
            r.wf(),
            r.base() == conn.log(),
            r.base_log() == conn.log() + buf@.take(written as int),
            r.prefix() == buf@.take(written as int),
            r.chunks() == Seq::<Seq<u8>>::empty(),
            r.body() == Seq::<u8>::empty(),
            r.conn_log() == conn.log(),
            !r.is_terminated(),
            !r.is_broken(),
            r.buf_len() == buf@.len(),
    {
        let buf_len = buf.len();
        let allocated_header = get_max_chunk_header_size(buf_len - written);
        proof {
            lemma_slot_fits((buf_len - written) as nat);
        }
        let r = BufferingChunkedBodyWriter {
            conn,
            prefix: Ghost(buf@.take(written as int)),
            buf,
            header_pos: written,
            allocated_header,
            pos: written + allocated_header,
            terminated: false,
            base: Ghost(Seq::empty()),
            chunks: Ghost(Seq::empty()),
            broken: false,
        };
        let r = BufferingChunkedBodyWriter { base: Ghost(r.conn.log()), ..r };
        proof {
            assert(r.cur_chunk() =~= Seq::<u8>::empty());
            assert(r.body() =~= Seq::<u8>::empty());
            assert(r.conn.log() + r.pending() =~= r.base@ + r.prefix@ + encode_chunks(r.chunks@));
        }
        r
    }

    /// Append payload to the open chunk, bounded by the footer reservation;
    /// nothing is appended when no header slot is reserved.
    fn append_current_chunk(&mut self, src: &[u8]) -> (n: usize)
        requires
            old(self).wf(),
        ensures
            (*final(self)).inv_core(),
            (*final(self)).conn == old(self).conn,
            (*final(self)).base == old(self).base,
            (*final(self)).prefix == old(self).prefix,
            (*final(self)).chunks == old(self).chunks,
            (*final(self)).broken == old(self).broken,
            (*final(self)).terminated == old(self).terminated,
            (*final(self)).header_pos == old(self).header_pos,
            (*final(self)).allocated_header == old(self).allocated_header,
            (*final(self)).buf_len() == old(self).buf_len(),
            (*final(self)).pending() == old(self).pending(),
            (*final(self)).pos == old(self).pos + n,
            (*final(self)).cur_chunk() == old(self).cur_chunk() + src@.subrange(0, n as int),
            n <= src@.len(),
            n > 0 ==> (*final(self)).pos + 2 <= (*final(self)).buf_len() && old(
                self,
            ).allocated_header > 0 && old(self).pos + 2 <= old(self).buf_len(),
            n == 0 ==> old(self).allocated_header == 0 || old(self).pos + 2 >= old(self).buf_len()
                || src@.len() == 0,
            old(self).allocated_header > 0 && old(self).pos + 2 <= old(self).buf_len() ==> n == (
            if src@.len() <= old(self).buf_len() - 2 - old(self).pos {
                src@.len() as int
            } else {
                old(self).buf_len() - 2 - old(self).pos
            }),
    {
        if self.allocated_header == 0 {
            proof {
                assert(self.cur_chunk() =~= self.cur_chunk() + src@.subrange(0, 0));
            }
            return 0;
        }
        let buf_len = self.buf.len();
        let cap = if self.pos <= buf_len - 2 {
            buf_len - 2 - self.pos
        } else {
            0
        };
        let n = if src.len() < cap {
            src.len()
        } else {
            cap
        };
        if n == 0 {
            proof {
                assert(self.cur_chunk() =~= self.cur_chunk() + src@.subrange(0, 0));
            }
            return 0;
        }
        let piece = vstd::slice::slice_subrange(src, 0, n);
        crate::bytebuf::splice(&mut self.buf, self.pos, piece);
        self.pos = self.pos + n;
        proof {
            assert((*final(self)).pending() =~= old(self).pending());
            assert((*final(self)).cur_chunk() =~= old(self).cur_chunk() + src@.subrange(0, n as int));
        }
        n
    }

    /// The open chunk has grown to the last two bytes reserved for its
    /// footer.
    fn current_chunk_is_full(&self) -> (r: bool)
        requires
            self.inv_core(),
        ensures
            r <==> self.pos + 2 == self.buf_len(),
    {
        self.buf.len() - self.pos == 2
    }

    /// Close the open chunk in place: write the hex header into the reserved
    /// slot, pull the payload left over the slot bytes the header did not
    /// need, append the CRLF footer, and reserve the next header slot.
    #[verifier::rlimit(100)]
    fn finish_current_chunk(&mut self)
        requires
            old(self).inv_core(),
            old(self).header_pos + old(self).allocated_header < old(self).pos,
            old(self).pos + 2 <= old(self).buf_len(),
        ensures
            (*final(self)).inv_core(),
            (*final(self)).wf(),
            (*final(self)).conn == old(self).conn,
            (*final(self)).base == old(self).base,
            (*final(self)).prefix == old(self).prefix,
            (*final(self)).broken == old(self).broken,
            (*final(self)).terminated == old(self).terminated,
            (*final(self)).buf_len() == old(self).buf_len(),
            (*final(self)).chunks@ == old(self).chunks@.push(old(self).cur_chunk()),
            (*final(self)).pending() == old(self).pending() + chunk_encoding(old(self).cur_chunk()),
            (*final(self)).cur_chunk() == Seq::<u8>::empty(),
            (*final(self)).pos == (*final(self)).header_pos + (*final(self)).allocated_header,
            (*final(self)).body() == old(self).body(),
    {
        let ghost cur = old(self).cur_chunk();
        let buf_len = self.buf.len();
        let chunk_len = self.pos - self.header_pos - self.allocated_header;
        proof {
            // The slot is wide enough for the real header: the payload is at
            // most the free space the slot was sized for.
            assert(self.allocated_header >= 3 && self.buf@.len() - self.header_pos >= 4) by {
                if self.allocated_header == 0 {
                    assert(false);
                } else {
                    lemma_hex_rep_len_pos((self.buf@.len() - self.header_pos - 4) as nat);
                }
            }
            lemma_hex_rep_len_monotone(
                chunk_len as nat,
                (self.buf@.len() - self.header_pos - 4) as nat,
            );
        }
        let header = make_chunk_header(chunk_len);
        let header_len = header.len();
        let spacing = self.allocated_header - header_len;

        // Write the header into the start of the reserved slot.
        crate::bytebuf::splice(&mut self.buf, self.header_pos, header.as_slice());
        let ghost buf1 = self.buf@;
        proof {
            assert(buf1.take(self.header_pos as int) =~= old(self).pending());
            assert(buf1.subrange(
                self.header_pos + self.allocated_header,
                self.pos as int,
            ) =~= cur);
            assert(buf1.take(self.header_pos + header_len) =~= old(self).pending() + header@);
        }
        // Pull the payload left over the unused slot bytes.
        crate::bytebuf::shift_left(
            &mut self.buf,
            self.header_pos + header_len,
            self.header_pos + self.allocated_header,
            chunk_len,
        );
        self.pos = self.pos - spacing;
        proof {
            assert(self.buf@.take(self.pos as int) =~= old(self).pending() + header@ + cur);
        }
        // Append the CRLF footer after the payload.
        let footer: [u8; 2] = [CR, LF];
        crate::bytebuf::splice(&mut self.buf, self.pos, footer.as_slice());
        self.pos = self.pos + 2;
        proof {
            assert(footer@ =~= crlf());
            assert(self.buf@.take(self.pos as int) =~= old(self).pending() + header@ + cur
                + crlf());
            assert(header@ + cur + crlf() =~= chunk_encoding(cur));
            assert(self.buf@.take(self.pos as int) =~= old(self).pending() + chunk_encoding(cur));
        }
        // Start the next chunk: reserve a fresh header slot.
        self.header_pos = self.pos;
        let allocated_header = get_max_chunk_header_size(buf_len - self.header_pos);
        proof {
            lemma_slot_fits((self.buf@.len() - self.header_pos) as nat);
        }
        self.allocated_header = allocated_header;
        self.pos = self.header_pos + allocated_header;
        proof {
            let prev = self.chunks@;
            self.chunks@ = prev.push(cur);
            lemma_flatten_push(prev, cur);
            lemma_encode_chunks_push(prev, cur);
            assert(self.cur_chunk() =~= Seq::<u8>::empty());
            assert(self.pending() =~= old(self).pending() + chunk_encoding(cur));
            if !self.broken {
                assert(self.conn.log() + self.pending() =~= (self.conn.log() + old(self).pending())
                    + chunk_encoding(cur));
                assert(self.conn.log() + self.pending() =~= self.base@ + self.prefix@
                    + encode_chunks(self.chunks@));
            }
            assert(self.body() =~= old(self).body());
        }
    }

    /// Hand every finished wire byte to the sink and rewind the buffer.
    fn emit_buffered(&mut self) -> (r: Result<(), ErrorKind>)
        requires
            old(self).inv_core(),
            old(self).pos == old(self).header_pos + old(self).allocated_header,
        ensures
            (*final(self)).inv_core(),
            (*final(self)).wf(),
            (*final(self)).base == old(self).base,
            (*final(self)).prefix == old(self).prefix,
            (*final(self)).chunks == old(self).chunks,
            (*final(self)).terminated == old(self).terminated,
            (*final(self)).buf_len() == old(self).buf_len(),
            match r {
                Ok(()) => {
                    &&& (*final(self)).broken == old(self).broken
                    &&& (*final(self)).conn_log() == old(self).conn_log() + old(self).pending()
                    &&& (*final(self)).pending() == Seq::<u8>::empty()
                    &&& (*final(self)).cur_chunk() == Seq::<u8>::empty()
                    &&& (*final(self)).body() == old(self).body()
                    &&& (*final(self)).pos == (*final(self)).header_pos + (*final(self)).allocated_header
                    &&& (*final(self)).header_pos == 0
                },
                Err(_) => (*final(self)).is_broken(),
            },
    {
        proof {
            assert(old(self).cur_chunk() =~= Seq::<u8>::empty());
        }
        let pending = vstd::slice::slice_subrange(self.buf.as_slice(), 0, self.header_pos);
        proof {
            assert(pending@ =~= self.pending());
        }
        match self.conn.write_all(pending) {
            Ok(()) => (),
            Err(e) => {
                self.broken = true;
                return Err(e);
            },
        }
        self.header_pos = 0;
        let allocated_header = get_max_chunk_header_size(self.buf.len());
        proof {
            lemma_slot_fits(self.buf@.len());
        }
        self.allocated_header = allocated_header;
        self.pos = allocated_header;
        proof {
            assert(self.pending() =~= Seq::<u8>::empty());
            assert(self.cur_chunk() =~= Seq::<u8>::empty());
            assert(self.body() =~= old(self).body());
            if !self.broken {
                assert(self.conn.log() =~= (old(self).conn.log() + old(self).pending()));
                assert(self.conn.log() + self.pending() =~= self.base@ + self.prefix@
                    + encode_chunks(self.chunks@));
            }
        }
        Ok(())
    }

    /// Terminate the request body: close any open chunk, write the
    /// terminating empty chunk, and hand everything to the sink.
    ///
    /// On success the sink holds, after what it had at construction, the
    /// pre-written prefix followed by a valid chunked encoding of exactly
    /// the accepted body bytes.
    #[verifier::rlimit(100)]
    pub fn terminate(&mut self) -> (r: Result<(), ErrorKind>)
        requires
            old(self).wf(),
        ensures
            (*final(self)).wf(),
            match r {
                Ok(()) => (*final(self)).is_terminated() && ({
                    // The chunks are exactly those finished so far, with the
                    // open payload closing the list.
                    let cs = if old(self).cur_chunk().len() > 0 {
                        old(self).chunks().push(old(self).cur_chunk())
                    } else {
                        old(self).chunks()
                    };
                    &&& all_chunks_nonempty(cs)
                    &&& flatten(cs) == old(self).body()
                    &&& (*final(self)).conn_log() == old(self).base_log() + chunked_encoding(cs)
                }),
                Err(_) => true,
            },
    {
        if self.terminated {
            // The body is already closed; a second terminator would corrupt
            // the framing.
            return Err(ErrorKind::Other);
        }
        if self.broken {
            // An earlier failure left the framing unknown.
            return Err(ErrorKind::Other);
        }
        if self.pos > self.header_pos + self.allocated_header {
            self.finish_current_chunk();
        }
        let ghost cs = self.chunks@;
        proof {
            assert(self.cur_chunk() =~= Seq::<u8>::empty());
            lemma_flatten_push(old(self).chunks@, old(self).cur_chunk());
            assert(flatten(cs) + Seq::<u8>::empty() =~= flatten(cs));
            assert(flatten(cs) == old(self).body());
        }
        let buf_len = self.buf.len();
        if buf_len - self.header_pos < 5 {
            match self.emit_buffered() {
                Ok(()) => (),
                Err(e) => {
                    return Err(e);
                },
            }
        }
        // Place the terminating empty chunk after the pending bytes.
        let term: [u8; 5] = [48, CR, LF, CR, LF];
        let ghost pend = self.pending();
        crate::bytebuf::splice(&mut self.buf, self.header_pos, term.as_slice());
        let end = self.header_pos + 5;
        proof {
            assert(term@ =~= terminator());
            assert(self.buf@.subrange(0, end as int) =~= pend + terminator());
        }
        let pending = vstd::slice::slice_subrange(self.buf.as_slice(), 0, end);
        let ghost conn_before = self.conn.log();
        proof {
            assert(pend =~= self.pending());
            assert(pending@ =~= pend + terminator());
            assert(conn_before + pend == self.base@ + self.prefix@ + encode_chunks(cs));
        }
        match self.conn.write_all(pending) {
            Ok(()) => (),
            Err(e) => {
                self.broken = true;
                return Err(e);
            },
        }
        self.header_pos = 0;
        let allocated_header = get_max_chunk_header_size(buf_len);
        proof {
            lemma_slot_fits(self.buf@.len());
        }
        self.allocated_header = allocated_header;
        self.pos = allocated_header;
        self.terminated = true;
        proof {
            assert(self.conn.log() =~= conn_before + (pend + terminator()));
            assert(self.conn.log() =~= (conn_before + pend) + terminator());
            assert(self.conn.log() =~= (self.base@ + self.prefix@ + encode_chunks(cs))
                + terminator());
            assert(self.conn.log() =~= (self.base@ + self.prefix@) + (encode_chunks(cs)
                + terminator()));
            assert(self.conn.log() == self.base_log() + chunked_encoding(cs));
        }
        // The body is closed: no further framing is claimed.
        self.broken = true;
        Ok(())
    }

    /// Hand the underlying sink back.
    pub fn into_inner(self) -> (r: C)
        requires
            self.wf(),
        ensures
            r.wf(),
            r.log() == self.conn_log(),
    {
        self.conn
    }
}

impl<C: Write> BufferingChunkedBodyWriter<C> {
    /// Append body bytes, with the exact buffering behaviour visible: what
    /// fits joins the open chunk; when nothing fits, the buffer is emitted
    /// first and the bytes start a fresh chunk; a chunk grown to its footer
    /// is closed and emitted at once. The return counts the bytes taken from
    /// the front of `buf` in this call.
    #[verifier::rlimit(100)]
    pub fn write_buffered(&mut self, buf: &[u8]) -> (r: Result<usize, ErrorKind>)
        requires
            old(self).wf(),
        ensures
            (*final(self)).wf(),
            (*final(self)).buf_len() == old(self).buf_len(),
            (*final(self)).base() == old(self).base(),
            (*final(self)).prefix() == old(self).prefix(),
            (*final(self)).base_log() == old(self).base_log(),
            match r {
                Ok(n) => {
                    &&& !old(self).is_terminated() && !(*final(self)).is_terminated()
                    &&& (*final(self)).is_broken() == old(self).is_broken()
                    &&& (*final(self)).body() == old(self).body() + buf@.subrange(0, n as int)
                    &&& if buf@.len() == 0 {
                        n == 0 && *final(self) == *old(self)
                    } else if old(self).free_space() > 0 {
                        let cap = old(self).free_space();
                        let m = if buf@.len() <= cap {
                            buf@.len() as int
                        } else {
                            cap
                        };
                        &&& n == m
                        &&& if m == cap {
                            // The chunk filled exactly: closed and emitted.
                            &&& (*final(self)).chunks() == old(self).chunks().push(
                                old(self).cur_chunk() + buf@.subrange(0, m),
                            )
                            &&& (!old(self).is_broken() ==> (*final(self)).conn_log() == old(
                                self,
                            ).conn_log() + old(self).pending() + chunk_encoding(
                                old(self).cur_chunk() + buf@.subrange(0, m),
                            ))
                            &&& (*final(self)).pending() == Seq::<u8>::empty()
                            &&& (*final(self)).cur_chunk() == Seq::<u8>::empty()
                        } else {
                            // The bytes joined the open chunk in place.
                            &&& (*final(self)).chunks() == old(self).chunks()
                            &&& (*final(self)).conn_log() == old(self).conn_log()
                            &&& (*final(self)).pending() == old(self).pending()
                            &&& (*final(self)).cur_chunk() == old(self).cur_chunk()
                                + buf@.subrange(0, m)
                        }
                    } else {
                        // Nothing fit beside the pending bytes: they go out
                        // first and the bytes start a fresh chunk.
                        let cap = old(self).buf_len() - 2 - spec_max_chunk_header_size(
                            old(self).buf_len(),
                        );
                        let m = if buf@.len() <= cap {
                            buf@.len() as int
                        } else {
                            cap
                        };
                        &&& old(self).cur_chunk() == Seq::<u8>::empty()
                        &&& n == m
                        &&& if m == cap {
                            &&& (*final(self)).chunks() == old(self).chunks().push(
                                buf@.subrange(0, m),
                            )
                            &&& (!old(self).is_broken() ==> (*final(self)).conn_log() == old(
                                self,
                            ).conn_log() + old(self).pending() + chunk_encoding(
                                buf@.subrange(0, m),
                            ))
                            &&& (*final(self)).pending() == Seq::<u8>::empty()
                            &&& (*final(self)).cur_chunk() == Seq::<u8>::empty()
                        } else {
                            &&& (*final(self)).chunks() == old(self).chunks()
                            &&& (!old(self).is_broken() ==> (*final(self)).conn_log() == old(
                                self,
                            ).conn_log() + old(self).pending())
                            &&& (*final(self)).pending() == Seq::<u8>::empty()
                            &&& (*final(self)).cur_chunk() == buf@.subrange(0, m)
                        }
                    }
                },
                Err(_) => (*final(self)).is_terminated() == old(self).is_terminated(),
            },
    {
        if self.terminated {
            // The body is closed; accepting more would corrupt the framing.
            return Err(ErrorKind::Other);
        }
        if buf.len() == 0 {
            proof {
                assert(self.body() + buf@.subrange(0, 0) =~= self.body());
            }
            return Ok(0);
        }
        let mut n = self.append_current_chunk(buf);
        let ghost fresh_start = n == 0;
        if n == 0 {
            // Nothing fit: the buffer is occupied by pre-written bytes.
            proof {
                assert(old(self).free_space() == 0);
                assert(self.pos == self.header_pos + self.allocated_header);
                assert(old(self).cur_chunk() =~= Seq::<u8>::empty());
            }
            match self.emit_buffered() {
                Ok(()) => (),
                Err(e) => {
                    return Err(e);
                },
            }
            proof {
                lemma_slot_fits(self.buf@.len());
            }
            n = self.append_current_chunk(buf);
            proof {
                assert(n > 0);
            }
        } else {
            proof {
                assert(old(self).free_space() == old(self).buf_len() - 2 - old(self).pos);
                assert(n == if buf@.len() <= old(self).free_space() {
                    buf@.len() as int
                } else {
                    old(self).free_space()
                });
            }
        }
        let ghost pre_full = *self;
        proof {
            assert(n > 0);
            assert(self.pos > self.header_pos + self.allocated_header);
            assert(old(self).body() + buf@.subrange(0, n as int) == self.body());
            if fresh_start {
                assert(self.cur_chunk() =~= buf@.subrange(0, n as int));
            } else {
                assert(self.cur_chunk() =~= old(self).cur_chunk() + buf@.subrange(0, n as int));
            }
        }
        if self.current_chunk_is_full() {
            proof {
                // The chunk filled exactly: the count reached the capacity.
                if fresh_start {
                    assert(n == self.buf_len() - 2 - spec_max_chunk_header_size(self.buf_len()));
                } else {
                    assert(n == old(self).free_space());
                }
            }
            self.finish_current_chunk();
            match self.emit_buffered() {
                Ok(()) => (),
                Err(e) => {
                    return Err(e);
                },
            }
            proof {
                if !self.broken {
                    assert(self.conn.log() =~= (pre_full.conn.log() + pre_full.pending())
                        + chunk_encoding(pre_full.cur_chunk()));
                    if fresh_start {
                        assert(pre_full.pending() =~= Seq::<u8>::empty());
                        assert(self.conn.log() =~= (old(self).conn.log() + old(self).pending())
                            + chunk_encoding(buf@.subrange(0, n as int)));
                        assert(self.conn.log() =~= old(self).conn.log() + old(self).pending()
                            + chunk_encoding(buf@.subrange(0, n as int)));
                    } else {
                        assert(pre_full.pending() =~= old(self).pending());
                        assert(pre_full.conn.log() =~= old(self).conn.log());
                        assert(self.conn.log() =~= old(self).conn.log() + old(self).pending()
                            + chunk_encoding(old(self).cur_chunk() + buf@.subrange(0, n as int)));
                    }
                }
            }
        } else {
            proof {
                if fresh_start {
                    assert(n < self.buf_len() - 2 - spec_max_chunk_header_size(self.buf_len()));
                    assert(self.pending() =~= Seq::<u8>::empty());
                } else {
                    assert(n < old(self).free_space());
                }
            }
        }
        Ok(n)
    }
}

impl<C: Write> Write for BufferingChunkedBodyWriter<C> {
    closed spec fn wf(&self) -> bool {
        &&& self.inv_core()
        &&& (self.pos == self.header_pos + self.allocated_header || self.pos + 2 < self.buf@.len())
    }

    /// The body bytes accepted so far.
    open spec fn log(&self) -> Seq<u8> {
        self.body()
    }

    /// The sink's bytes at construction, then the pre-written prefix: every
    /// later write lands after them.
    closed spec fn base_log(&self) -> Seq<u8> {
        self.base@ + self.prefix@
    }

    /// Finished wire bytes still in the buffer, the open chunk's payload,
    /// and whatever the sink itself holds back.
    closed spec fn pending_log(&self) -> Seq<u8> {
        self.pending() + self.cur_chunk() + self.conn.pending_log()
    }

    fn write(&mut self, buf: &[u8]) -> (r: Result<usize, ErrorKind>) {
        match self.write_buffered(buf) {
            Ok(n) => {
                proof {
                    if buf@.len() > 0 {
                        lemma_slot_fits(self.buf@.len());
                    }
                }
                Ok(n)
            },
            Err(e) => Err(e),
        }
    }

    fn write_all(&mut self, buf: &[u8]) -> (r: Result<(), ErrorKind>) {
        let mut offset: usize = 0;
        proof {
            assert(self.body() + buf@.subrange(0, 0) =~= self.body());
        }
        while offset < buf.len()
            invariant
                0 <= offset <= buf@.len(),
                self.wf(),
                self.base_log() == old(self).base_log(),
                self.body() == old(self).body() + buf@.subrange(0, offset as int),
            decreases buf@.len() - offset,
        {
            let rest = vstd::slice::slice_subrange(buf, offset, buf.len());
            match self.write(rest) {
                Ok(n) => {
                    proof {
                        assert(n > 0);
                        assert(old(self).body() + buf@.subrange(0, offset + n as int)
                            =~= old(self).body() + buf@.subrange(0, offset as int) + rest@.subrange(
                            0,
                            n as int,
                        ));
                    }
                    offset = offset + n;
                },
                Err(e) => {
                    return Err(e);
                },
            }
        }
        proof {
            assert(buf@.subrange(0, buf@.len() as int) =~= buf@);
        }
        Ok(())
    }

    fn flush(&mut self) -> (r: Result<(), ErrorKind>) {
        if self.pos > self.header_pos + self.allocated_header {
            // Close and send the open chunk.
            self.finish_current_chunk();
            match self.emit_buffered() {
                Ok(()) => (),
                Err(e) => {
                    return Err(e);
                },
            }
        } else if self.header_pos > 0 {
            // No open chunk, but pre-written bytes wait in the buffer.
            match self.emit_buffered() {
                Ok(()) => (),
                Err(e) => {
                    return Err(e);
                },
            }
        }
        match self.conn.flush() {
            Ok(()) => Ok(()),
            Err(e) => {
                self.broken = true;
                Err(e)
            },
        }
    }
}

/// The pre-written prefix preservation law: when a sink's accepted bytes are
/// what it had, then the pre-written prefix, then anything else, the prefix
/// bytes stand unchanged at their place in the output.
pub proof fn lemma_prefix_preserved(log: Seq<u8>, base: Seq<u8>, prefix: Seq<u8>, rest: Seq<u8>)
    requires
        log == base + prefix + rest,
    ensures
        log.subrange(base.len() as int, base.len() + prefix.len() as int) == prefix,
{
    assert(log.subrange(base.len() as int, base.len() + prefix.len() as int) =~= prefix);
}

/// The reserved slot and footer always fit in the free space they were sized
/// for, and for a buffer of at least six bytes they leave room for payload.
proof fn lemma_slot_fits(n: nat)
    requires
        n <= usize::MAX,
    ensures
        spec_max_chunk_header_size(n) == 0 || spec_max_chunk_header_size(n) + 1 <= n,
        n >= 6 ==> spec_max_chunk_header_size(n) + 2 < n,
        spec_max_chunk_header_size(n) <= 18,
{
    if n >= 4 {
        let m = (n - 4) as nat;
        lemma_hex_rep_len_le_value(m);
        lemma_hex_rep_len_pos(m);
        crate::encoding::lemma_hex_rep_len_bound(m);
    }
}

/// The hex representation of `n` has at most `max(1, n)` digits, and for
/// `n` at least two, strictly fewer than `n`.
proof fn lemma_hex_rep_len_le_value(n: nat)
    ensures
        n == 0 ==> hex_rep(n).len() == 1,
        n >= 1 ==> hex_rep(n).len() <= n,
        n >= 2 ==> hex_rep(n).len() < n,
    decreases n,
{
    if n >= 16 {
        lemma_hex_rep_len_le_value(n / 16);
    }
}

} // verus!

