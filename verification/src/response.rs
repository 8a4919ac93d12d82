//! The response header reader: incremental reads into a caller buffer until
//! the external parser reports a complete head, extraction of the well-known
//! fields, and the hand-over of the same buffer to a body reader.

use vstd::prelude::*;
use vstd::string::StringSliceAdditionalSpecFns;

use crate::bytebuf::shift_left;
use crate::headers::{
    spec_content_type_of, spec_keep_alive_of, spec_transfer_encoding_of, ContentType, KeepAlive,
    TransferEncoding,
};
use crate::io::Read;
use crate::request::Method;
use crate::status::StatusCode;
use crate::Error;

verus! {

/// What the external header parser said about a byte prefix.
pub enum ParseOutcome {
    /// The status line and headers are complete: they span `header_len`
    /// bytes, carry status `code`, and `headers` holds each name and value.
    Complete { header_len: usize, code: u16, headers: Vec<(Vec<u8>, Vec<u8>)> },
    /// More bytes are needed.
    Partial,
    /// The bytes are not a valid response head.
    Malformed,
}

/// The parse of a byte string as a response head, as the external parser
/// determines it: a function of the bytes alone.
pub struct HeaderParse {
    pub complete: bool,
    pub malformed: bool,
    pub header_len: int,
    pub code: u16,
    pub headers: Seq<(Seq<u8>, Seq<u8>)>,
}

pub uninterp spec fn httparse_of(s: Seq<u8>) -> HeaderParse;

/// Relies on httparse's `Response::parse` with 64 header slots: it is
/// deterministic in the input bytes; on `Complete(n)`, `n` is at most the
/// input length, the status code was parsed, and the headers hold the parsed
/// name/value pairs in order. Too many headers is a parse error.
#[verifier::external_body]
fn parse_response_head(buf: &[u8]) -> (r: ParseOutcome)
    ensures
        ({
            let p = httparse_of(buf@);
            match r {
                ParseOutcome::Complete { header_len, code, headers } => {
                    &&& p.complete
                    &&& !p.malformed
                    &&& header_len == p.header_len
                    &&& 0 <= p.header_len <= buf@.len()
                    &&& code == p.code
                    &&& headers.deep_view() == p.headers
                },
                ParseOutcome::Partial => !p.complete && !p.malformed,
                ParseOutcome::Malformed => p.malformed,
            }
        }),
{
    let mut slots = [httparse::EMPTY_HEADER; 64];
    let mut resp = httparse::Response::new(&mut slots);
    match resp.parse(buf) {
        Ok(httparse::Status::Complete(n)) => ParseOutcome::Complete {
            header_len: n,
            code: resp.code.unwrap_or(0),
            headers: resp.headers.iter().map(
                |h| (h.name.as_bytes().to_vec(), h.value.to_vec()),
            ).collect(),
        },
        Ok(httparse::Status::Partial) => ParseOutcome::Partial,
        Err(_) => ParseOutcome::Malformed,
    }
}

/// The well-known fields of a response head.
pub struct ResponseFields {
    pub content_type: Option<ContentType>,
    pub content_length: Option<usize>,
    pub transfer_encoding: Vec<TransferEncoding>,
    pub keep_alive: Option<KeepAlive>,
}

/// The spec-level mirror of `ResponseFields`.
pub struct SpecFields {
    pub content_type: Option<ContentType>,
    pub content_length: Option<usize>,
    pub transfer_encoding: Seq<TransferEncoding>,
    pub keep_alive: Option<KeepAlive>,
}

impl ResponseFields {
    pub open spec fn view_fields(&self) -> SpecFields {
        SpecFields {
            content_type: self.content_type,
            content_length: self.content_length,
            transfer_encoding: self.transfer_encoding@,
            keep_alive: self.keep_alive,
        }
    }
}

/// What `usize::from_str` accepts: an optional plus sign, then decimal
/// digits whose value fits the machine word.
pub open spec fn spec_parse_usize(v: Seq<u8>) -> Option<usize> {
    let d = if v.len() > 0 && v[0] == 43 {
        v.skip(1)
    } else {
        v
    };
    if d.len() == 0 || !crate::headers::all_dec(d) || crate::headers::dec_value(d) > usize::MAX {
        None
    } else {
        Some(crate::headers::dec_value(d) as usize)
    }
}

/// Fields gathered from the headers in order. A Content-Length that is not a
/// decimal number, an unknown transfer encoding, a fifth transfer encoding,
/// or a keep-alive value that is not text, each refuse the response.
pub open spec fn spec_extract(hs: Seq<(Seq<u8>, Seq<u8>)>) -> Result<SpecFields, ()>
    decreases hs.len(),
{
    if hs.len() == 0 {
        Ok(
            SpecFields {
                content_type: None,
                content_length: None,
                transfer_encoding: Seq::empty(),
                keep_alive: None,
            },
        )
    } else {
        match spec_extract(hs.drop_last()) {
            Err(()) => Err(()),
            Ok(f) => spec_apply_header(f, hs.last().0, hs.last().1),
        }
    }
}

/// One header applied to the fields gathered so far.
pub open spec fn spec_apply_header(f: SpecFields, name: Seq<u8>, value: Seq<u8>) -> Result<
    SpecFields,
    (),
> {
    if crate::headers::eq_ignore_case(name, "content-type".spec_bytes()) {
        Ok(SpecFields { content_type: Some(spec_content_type_of(value)), ..f })
    } else if crate::headers::eq_ignore_case(name, "content-length".spec_bytes()) {
        match spec_parse_usize(value) {
            Some(n) => Ok(SpecFields { content_length: Some(n), ..f }),
            None => Err(()),
        }
    } else if crate::headers::eq_ignore_case(name, "transfer-encoding".spec_bytes()) {
        match spec_transfer_encoding_of(value) {
            Some(te) => {
                if f.transfer_encoding.len() >= 4 {
                    Err(())
                } else {
                    Ok(SpecFields { transfer_encoding: f.transfer_encoding.push(te), ..f })
                }
            },
            None => Err(()),
        }
    } else if crate::headers::eq_ignore_case(name, "keep-alive".spec_bytes()) {
        match spec_keep_alive_of(value) {
            Some(ka) => Ok(SpecFields { keep_alive: Some(ka), ..f }),
            None => Err(()),
        }
    } else {
        Ok(f)
    }
}

/// Once a header has refused the response, later headers cannot unrefuse it.
proof fn lemma_extract_err_propagates(hs: Seq<(Seq<u8>, Seq<u8>)>, k: int)
    requires
        0 <= k <= hs.len(),
        spec_extract(hs.subrange(0, k)) is Err,
    ensures
        spec_extract(hs) is Err,
    decreases hs.len() - k,
{
    if k == hs.len() {
        assert(hs.subrange(0, k) =~= hs);
    } else {
        assert(hs.subrange(0, k + 1).drop_last() =~= hs.subrange(0, k));
        assert(spec_extract(hs.subrange(0, k + 1)) is Err);
        lemma_extract_err_propagates(hs, k + 1);
    }
}

/// Parse a header value as `usize::from_str` would.
#[verifier::loop_isolation(false)]
fn parse_usize_bytes(v: &[u8]) -> (r: Option<usize>)
    ensures
        r == spec_parse_usize(v@),
{
    let vlen = v.len();
    let mut a: usize = 0;
    if 0 < vlen && v[0] == 43 {
        proof {
            assert(v@.skip(1) =~= v@.subrange(1, v@.len() as int));
        }
        a = 1;
    }
    let ghost d = v@.subrange(a as int, v@.len() as int);
    proof {
        if a == 0 {
            assert(d =~= v@);
        }
    }
    if a == vlen {
        return None;
    }
    let mut value: usize = 0;
    let mut i = a;
    while i < vlen
        invariant
            a <= i <= vlen,
            crate::headers::all_dec(d.subrange(0, i - a)),
            value == crate::headers::dec_value(d.subrange(0, i - a)),
        decreases vlen - i,
    {
        let b = v[i];
        if !(48 <= b && b <= 57) {
            proof {
                assert(d[i - a] == b);
                assert(!crate::headers::all_dec(d));
            }
            return None;
        }
        proof {
            assert(d.subrange(0, i - a + 1).drop_last() =~= d.subrange(0, i - a));
            assert(d.subrange(0, i - a + 1).last() == b);
        }
        let next = match value.checked_mul(10) {
            Some(m) => m.checked_add((b - 48) as usize),
            None => None,
        };
        match next {
            Some(n) => {
                value = n;
            },
            None => {
                proof {
                    crate::headers::lemma_dec_value_grows(d, i - a + 1);
                }
                return None;
            },
        }
        i = i + 1;
    }
    proof {
        assert(d.subrange(0, (vlen - a) as int) =~= d);
    }
    Some(value)
}

/// Extract the well-known fields from the parsed headers, applied in order.
/// This is where a malformed Content-Length, an unknown or fifth transfer
/// encoding, or a malformed Keep-Alive surface as a codec error.
#[verifier::loop_isolation(false)]
pub fn extract_response_fields(headers: &Vec<(Vec<u8>, Vec<u8>)>) -> (r: Result<
    ResponseFields,
    Error,
>)
    ensures
        match r {
            Ok(f) => spec_extract(headers.deep_view()) == Ok::<SpecFields, ()>(f.view_fields()),
            Err(e) => e == Error::Codec && spec_extract(headers.deep_view()) == Err::<
                SpecFields,
                (),
            >(()),
        },
{
    let mut fields = ResponseFields {
        content_type: None,
        content_length: None,
        transfer_encoding: Vec::new(),
        keep_alive: None,
    };
    let n = headers.len();
    let ghost hs = headers.deep_view();
    proof {
        assert(hs.subrange(0, 0) =~= Seq::<(Seq<u8>, Seq<u8>)>::empty());
        assert(fields.view_fields().transfer_encoding =~= Seq::<TransferEncoding>::empty());
    }
    let mut i: usize = 0;
    while i < n
        invariant
            0 <= i <= n,
            n == hs.len(),
            hs == headers.deep_view(),
            spec_extract(hs.subrange(0, i as int)) == Ok::<SpecFields, ()>(fields.view_fields()),
        decreases n - i,
    {
        let name = &headers[i].0;
        let value = &headers[i].1;
        proof {
            assert(hs.subrange(0, i + 1).drop_last() =~= hs.subrange(0, i as int));
            assert(hs.subrange(0, i + 1).last() == hs[i as int]);
            assert(hs[i as int] == headers@[i as int].deep_view());
            assert(headers@[i as int].deep_view().0 =~= headers@[i as int].0@);
            assert(headers@[i as int].deep_view().1 =~= headers@[i as int].1@);
        }
        if crate::bytebuf::slice_eq_ignore_case(name.as_slice(), "content-type".as_bytes()) {
            fields.content_type = Some(ContentType::from_bytes(value.as_slice()));
        } else if crate::bytebuf::slice_eq_ignore_case(
            name.as_slice(),
            "content-length".as_bytes(),
        ) {
            match parse_usize_bytes(value.as_slice()) {
                Some(len) => {
                    fields.content_length = Some(len);
                },
                None => {
                    proof {
                        assert(spec_extract(hs.subrange(0, i + 1)) is Err);
                        lemma_extract_err_propagates(hs, i + 1);
                    }
                    return Err(Error::Codec);
                },
            }
        } else if crate::bytebuf::slice_eq_ignore_case(
            name.as_slice(),
            "transfer-encoding".as_bytes(),
        ) {
            match TransferEncoding::from_bytes(value.as_slice()) {
                Ok(te) => {
                    if fields.transfer_encoding.len() >= 4 {
                        proof {
                            assert(spec_extract(hs.subrange(0, i + 1)) is Err);
                            lemma_extract_err_propagates(hs, i + 1);
                        }
                        return Err(Error::Codec);
                    }
                    fields.transfer_encoding.push(te);
                },
                Err(()) => {
                    proof {
                        assert(spec_extract(hs.subrange(0, i + 1)) is Err);
                        lemma_extract_err_propagates(hs, i + 1);
                    }
                    return Err(Error::Codec);
                },
            }
        } else if crate::bytebuf::slice_eq_ignore_case(name.as_slice(), "keep-alive".as_bytes()) {
            match KeepAlive::parse(value.as_slice()) {
                Ok(ka) => {
                    fields.keep_alive = Some(ka);
                },
                Err(_) => {
                    proof {
                        assert(spec_extract(hs.subrange(0, i + 1)) is Err);
                        lemma_extract_err_propagates(hs, i + 1);
                    }
                    return Err(Error::Codec);
                },
            }
        }
        i = i + 1;
    }
    proof {
        assert(hs.subrange(0, n as int) =~= hs);
    }
    Ok(fields)
}

} // verus!

verus! {

/// The head is informational or No Content: such a response carries no body.
pub open spec fn spec_bodyless_code(code: u16) -> bool {
    (100 <= code <= 199) || code == 204
}

/// The decision taken on a complete head read with `consumed_len` bytes off
/// the transport: the extracted fields, with a Content-Length of zero
/// synthesised for bodyless codes; refused when extraction fails, when a
/// bodyless code declares a non-zero length, or when more body bytes were
/// already read than the declared length allows.
pub open spec fn spec_finish_head(p: HeaderParse, consumed_len: int) -> Result<SpecFields, ()> {
    match spec_extract(p.headers) {
        Err(()) => Err(()),
        Ok(f) => {
            if spec_bodyless_code(p.code) && !(f.content_length is None || f.content_length
                == Some(0usize)) {
                Err(())
            } else {
                let cl = if spec_bodyless_code(p.code) {
                    Some(0usize)
                } else {
                    f.content_length
                };
                if cl matches Some(n) && n < consumed_len - p.header_len {
                    Err(())
                } else {
                    Ok(SpecFields { content_length: cl, ..f })
                }
            }
        },
    }
}

/// A parsed HTTP response: the well-known fields, and the caller's buffer
/// holding the head and any body bytes read past it.
pub struct Response {
    pub method: Method,
    pub status: StatusCode,
    pub content_type: Option<ContentType>,
    pub content_length: Option<usize>,
    pub transfer_encoding: Vec<TransferEncoding>,
    pub keep_alive: Option<KeepAlive>,
    pub header_buf: Vec<u8>,
    pub header_len: usize,
    pub raw_body_read: usize,
    pub consumed: Ghost<Seq<u8>>,
}


impl Response {
    /// The bytes taken off the transport while reading the head.
    pub open spec fn consumed(&self) -> Seq<u8> {
        self.consumed@
    }

    /// The length of the head within the consumed bytes.
    pub open spec fn spec_header_len(&self) -> int {
        self.header_len as int
    }

    /// The head bytes themselves.
    pub open spec fn head_bytes(&self) -> Seq<u8> {
        self.consumed().take(self.spec_header_len())
    }

    /// Body bytes read past the head while scanning for its end.
    pub open spec fn body_prefix(&self) -> Seq<u8> {
        self.consumed().skip(self.spec_header_len())
    }

    /// The caller buffer's fixed size.
    pub open spec fn buffer_len(&self) -> nat {
        self.header_buf@.len()
    }

    pub open spec fn wf(&self) -> bool {
        &&& self.header_len + self.raw_body_read <= self.header_buf@.len()
        &&& self.consumed@.len() == self.header_len + self.raw_body_read
        &&& self.header_buf@.take(self.consumed@.len() as int) == self.consumed@
        &&& self.raw_body_read == self.body_prefix().len()
    }

    /// Read from the transport until the head is complete, then extract the
    /// fields. The head and any over-read body bytes stay in the buffer.
    #[verifier::loop_isolation(false)]
    pub fn read<C: Read>(conn: &mut C, method: Method, header_buf: Vec<u8>) -> (r: Result<
        Response,
        Error,
    >)
        requires
            old(conn).wf(),
        ensures
            (*final(conn)).wf(),
            ({
                let s0 = old(conn).remaining();
                let cap = header_buf@.len();
                match r {
                    Ok(resp) => {
                        let p = httparse_of(resp.consumed());
                        &&& resp.wf()
                        &&& resp.method == method
                        &&& resp.buffer_len() == cap
                        &&& resp.consumed().len() <= cap
                        &&& resp.consumed() == s0.take(resp.consumed().len() as int)
                        &&& (*final(conn)).remaining() == s0.skip(resp.consumed().len() as int)
                        &&& p.complete
                        &&& !p.malformed
                        &&& resp.spec_header_len() == p.header_len
                        &&& resp.status == StatusCode(p.code)
                        &&& spec_finish_head(p, resp.consumed().len() as int) matches Ok(f) && {
                            &&& resp.content_type == f.content_type
                            &&& resp.content_length == f.content_length
                            &&& resp.transfer_encoding@ == f.transfer_encoding
                            &&& resp.keep_alive == f.keep_alive
                        }
                    },
                    Err(e) => match e {
                        Error::Codec => exists|k: int|
                            0 <= k <= s0.len() && k <= cap && ({
                                let p = #[trigger] httparse_of(s0.take(k));
                                ||| p.malformed
                                ||| (p.complete && spec_finish_head(p, k) is Err)
                            }),
                        Error::ConnectionAborted => s0.len() < cap && (s0.len() > 0
                            ==> !httparse_of(s0).complete && !httparse_of(s0).malformed),
                        Error::BufferTooSmall => s0.len() >= cap && (cap > 0 ==> !httparse_of(
                            s0.take(cap as int),
                        ).complete && !httparse_of(s0.take(cap as int)).malformed),
                        Error::Network(_) => true,
                        _ => false,
                    },
                }
            }),
    {
        let ghost s0 = old(conn).remaining();
        let cap = header_buf.len();
        let mut buf = header_buf;
        let mut pos: usize = 0;
        proof {
            assert(s0.take(0) =~= Seq::<u8>::empty());
        }
        while pos < cap
            invariant
                conn.wf(),
                0 <= pos <= cap,
                buf@.len() == cap,
                pos <= s0.len(),
                buf@.take(pos as int) == s0.take(pos as int),
                conn.remaining() == s0.skip(pos as int),
                pos > 0 ==> !httparse_of(s0.take(pos as int)).complete && !httparse_of(
                    s0.take(pos as int),
                ).malformed,
            decreases cap - pos,
        {
            let mut tmp: Vec<u8> = Vec::new();
            let mut j: usize = 0;
            while j < cap - pos
                invariant
                    0 <= j <= cap - pos,
                    tmp@.len() == j,
                decreases cap - pos - j,
            {
                tmp.push(0);
                j = j + 1;
            }
            let n = match conn.read(&mut tmp) {
                Ok(n) => n,
                Err(k) => {
                    return Err(Error::Network(k));
                },
            };
            if n == 0 {
                proof {
                    assert(s0.skip(pos as int).len() == 0);
                    assert(pos == s0.len());
                    if pos > 0 {
                        assert(s0.take(pos as int) =~= s0);
                    }
                }
                return Err(Error::ConnectionAborted);
            }
            let piece = vstd::slice::slice_subrange(tmp.as_slice(), 0, n);
            crate::bytebuf::splice(&mut buf, pos, piece);
            pos = pos + n;
            proof {
                assert(buf@.take(pos as int) =~= s0.take(pos as int));
            }
            let head = vstd::slice::slice_subrange(buf.as_slice(), 0, pos);
            proof {
                assert(head@ == s0.take(pos as int));
            }
            match parse_response_head(head) {
                ParseOutcome::Complete { header_len, code, headers } => {
                    let fields = match extract_response_fields(&headers) {
                        Ok(f) => f,
                        Err(_) => {
                            return Err(Error::Codec);
                        },
                    };
                    let status = StatusCode(code);
                    let mut content_length = fields.content_length;
                    if status.is_informational() || code == 204 {
                        // A server must not announce a body on these codes.
                        let bad = match content_length {
                            Some(n) => n != 0,
                            None => false,
                        };
                        if bad {
                            return Err(Error::Codec);
                        }
                        content_length = Some(0);
                    }
                    let raw_body_read = pos - header_len;
                    match content_length {
                        Some(n) => {
                            if n < raw_body_read {
                                // More body arrived than the head declared.
                                return Err(Error::Codec);
                            }
                        },
                        None => (),
                    }
                    let resp = Response {
                        method,
                        status,
                        content_type: fields.content_type,
                        content_length,
                        transfer_encoding: fields.transfer_encoding,
                        keep_alive: fields.keep_alive,
                        header_buf: buf,
                        header_len,
                        raw_body_read,
                        consumed: Ghost(s0.take(pos as int)),
                    };
                    proof {
                        assert(resp.wf());
                    }
                    return Ok(resp);
                },
                ParseOutcome::Partial => (),
                ParseOutcome::Malformed => {
                    return Err(Error::Codec);
                },
            }
        }
        Err(Error::BufferTooSmall)
    }
}

} // verus!

verus! {

/// An iterator-style walk over the parsed header names and values.
pub struct HeaderIterator {
    headers: Vec<(Vec<u8>, Vec<u8>)>,
    index: usize,
}

impl HeaderIterator {
    /// The headers this walk will yield.
    pub closed spec fn items(&self) -> Seq<(Seq<u8>, Seq<u8>)> {
        self.headers.deep_view()
    }

    pub closed spec fn position(&self) -> int {
        self.index as int
    }

    /// The next header, if any are left.
    pub fn next(&mut self) -> (r: Option<(Vec<u8>, Vec<u8>)>)
        ensures
            (*final(self)).items() == old(self).items(),
            match r {
                Some(h) => old(self).position() < old(self).items().len() && (h.0@, h.1@) == old(
                    self,
                ).items()[old(self).position()] && (*final(self)).position() == old(self).position()
                    + 1,
                None => old(self).position() >= old(self).items().len() && (*final(self)).position()
                    == old(self).position(),
            },
    {
        if self.index < self.headers.len() {
            let ghost i = self.index as int;
            let name = clone_bytes(&self.headers[self.index].0);
            let value = clone_bytes(&self.headers[self.index].1);
            self.index = self.index + 1;
            proof {
                assert(self.items()[i] == old(self).headers@[i].deep_view());
                assert(old(self).headers@[i].deep_view().0 =~= old(self).headers@[i].0@);
                assert(old(self).headers@[i].deep_view().1 =~= old(self).headers@[i].1@);
            }
            Some((name, value))
        } else {
            None
        }
    }
}

/// A byte vector copied.
fn clone_bytes(v: &Vec<u8>) -> (r: Vec<u8>)
    ensures
        r@ == v@,
{
    let mut out: Vec<u8> = Vec::new();
    out.extend_from_slice(v.as_slice());
    proof {
        assert(out@ =~= v@);
    }
    out
}

/// What a walk over the stored head yields: the parsed headers when the head
/// bytes parse completely, nothing otherwise.
pub open spec fn spec_headers_of(head: Seq<u8>) -> Seq<(Seq<u8>, Seq<u8>)> {
    if httparse_of(head).complete && !httparse_of(head).malformed {
        httparse_of(head).headers
    } else {
        Seq::empty()
    }
}

impl Response {
    /// Walk the response headers, parsed afresh from the stored head bytes.
    pub fn headers(&self) -> (r: HeaderIterator)
        requires
            self.wf(),
        ensures
            r.items() == spec_headers_of(self.head_bytes()),
            r.position() == 0,
    {
        let head = vstd::slice::slice_subrange(self.header_buf.as_slice(), 0, self.header_len);
        proof {
            assert(head@ =~= self.head_bytes());
        }
        match parse_response_head(head) {
            ParseOutcome::Complete { header_len: _, code: _, headers } => HeaderIterator {
                headers,
                index: 0,
            },
            _ => {
                let empty_headers: Vec<(Vec<u8>, Vec<u8>)> = Vec::new();
                proof {
                    assert(empty_headers.deep_view() =~= Seq::<(Seq<u8>, Seq<u8>)>::empty());
                }
                HeaderIterator { headers: empty_headers, index: 0 }
            },
        }
    }
}

/// Reading the headers is idempotent: on one response, every walk yields the
/// same sequence, because the yield is a function of the stored head bytes
/// alone.
pub proof fn lemma_headers_idempotent(
    resp: &Response,
    first: Seq<(Seq<u8>, Seq<u8>)>,
    second: Seq<(Seq<u8>, Seq<u8>)>,
)
    requires
        first == spec_headers_of(resp.head_bytes()),
        second == spec_headers_of(resp.head_bytes()),
    ensures
        first == second,
{
}

/// Which body reader the response calls for.
#[derive(Clone, Copy, PartialEq, Eq, Structural, Debug)]
pub enum ReaderHint {
    /// No body at all: the response to a HEAD request.
    Empty,
    /// A declared number of body bytes.
    FixedLength(usize),
    /// Chunked transfer coding.
    Chunked,
    /// The body runs to the end of the connection.
    ToEnd,
}

/// The reader hint a response implies: HEAD yields nothing; a declared
/// length wins over transfer encodings; chunked coding next; otherwise the
/// body runs to the end of the connection.
pub open spec fn spec_reader_hint(
    method: Method,
    content_length: Option<usize>,
    te: Seq<TransferEncoding>,
) -> ReaderHint {
    if method == Method::HEAD {
        ReaderHint::Empty
    } else if content_length is Some {
        ReaderHint::FixedLength(content_length->0)
    } else if te.contains(TransferEncoding::Chunked) {
        ReaderHint::Chunked
    } else {
        ReaderHint::ToEnd
    }
}

/// The response body: the original buffer, now holding the over-read body
/// bytes at its front, and the reader hint.
pub struct ResponseBody {
    pub reader_hint: ReaderHint,
    pub raw_body_read: usize,
    pub body_buf: Vec<u8>,
}

impl ResponseBody {
    pub open spec fn wf(&self) -> bool {
        self.raw_body_read <= self.body_buf@.len()
    }

    /// The body bytes already in the buffer.
    pub open spec fn body_prefix(&self) -> Seq<u8> {
        self.body_buf@.take(self.raw_body_read as int)
    }
}

impl Response {
    /// Turn the response into its body: the body bytes over-read while
    /// scanning the head move to the front of the same buffer.
    pub fn body(self) -> (r: ResponseBody)
        requires
            self.wf(),
        ensures
            r.wf(),
            r.reader_hint == spec_reader_hint(
                self.method,
                self.content_length,
                self.transfer_encoding@,
            ),
            r.body_prefix() == self.body_prefix(),
            r.body_buf@.len() == self.buffer_len(),
    {
        let reader_hint = if matches!(self.method, Method::HEAD) {
            ReaderHint::Empty
        } else if let Some(content_length) = self.content_length {
            ReaderHint::FixedLength(content_length)
        } else if contains_chunked(&self.transfer_encoding) {
            ReaderHint::Chunked
        } else {
            ReaderHint::ToEnd
        };
        let mut buf = self.header_buf;
        shift_left(&mut buf, 0, self.header_len, self.raw_body_read);
        let r = ResponseBody { reader_hint, raw_body_read: self.raw_body_read, body_buf: buf };
        proof {
            assert(r.body_prefix() =~= self.body_prefix());
        }
        r
    }
}

/// Whether the transfer encodings include chunked coding.
fn contains_chunked(te: &Vec<TransferEncoding>) -> (r: bool)
    ensures
        r <==> te@.contains(TransferEncoding::Chunked),
{
    let n = te.len();
    let mut i: usize = 0;
    while i < n
        invariant
            0 <= i <= n,
            n == te@.len(),
            forall|j: int| 0 <= j < i ==> te@[j] != TransferEncoding::Chunked,
        decreases n - i,
    {
        if matches!(te[i], TransferEncoding::Chunked) {
            return true;
        }
        i = i + 1;
    }
    proof {
        assert(!te@.contains(TransferEncoding::Chunked));
    }
    false
}

} // verus!

verus! {

/// A body reader: one variant per framing.
pub enum BodyReader {
    Empty,
    FixedLength(crate::fixed_length::FixedLengthBodyReader),
    Chunked(crate::chunked::ChunkedBodyReader),
    ToEnd(crate::reader::BufferingReader),
}

impl BodyReader {
    pub open spec fn wf(&self) -> bool {
        match self {
            BodyReader::Empty => true,
            BodyReader::FixedLength(r) => r.wf(),
            BodyReader::Chunked(r) => r.wf(),
            BodyReader::ToEnd(b) => b.wf(),
        }
    }

    /// Whether the framing says the body is over. A reader that runs to the
    /// end of the connection never knows.
    pub fn is_done(&self) -> (r: bool)
        ensures
            r == match self {
                BodyReader::Empty => true,
                BodyReader::FixedLength(fr) => fr.remaining == 0,
                BodyReader::Chunked(cr) => cr.state() is Empty,
                BodyReader::ToEnd(_) => false,
            },
    {
        match self {
            BodyReader::Empty => true,
            BodyReader::FixedLength(reader) => reader.remaining == 0,
            BodyReader::Chunked(reader) => reader.is_done(),
            BodyReader::ToEnd(_) => false,
        }
    }
}

impl ResponseBody {
    /// Turn the body into a streaming reader over the in-buffer prefix and
    /// the transport.
    pub fn reader(self) -> (r: BodyReader)
        requires
            self.wf(),
        ensures
            r.wf(),
            match self.reader_hint {
                ReaderHint::Empty => r is Empty,
                ReaderHint::FixedLength(n) => r matches BodyReader::FixedLength(fr)
                    && fr.remaining == n && fr.raw_body.loaded_bytes() == self.body_prefix()
                    && fr.raw_body.capacity() == self.body_buf@.len(),
                ReaderHint::Chunked => r matches BodyReader::Chunked(cr) && cr.state()
                    is NoChunk && cr.inner().loaded_bytes() == self.body_prefix() && cr.capacity()
                    == self.body_buf@.len(),
                ReaderHint::ToEnd => r matches BodyReader::ToEnd(b) && b.loaded_bytes()
                    == self.body_prefix() && b.capacity() == self.body_buf@.len(),
            },
    {
        let ghost prefix = self.body_prefix();
        let raw_body = crate::reader::BufferingReader::new(self.body_buf, self.raw_body_read);
        match self.reader_hint {
            ReaderHint::Empty => BodyReader::Empty,
            ReaderHint::FixedLength(content_length) => BodyReader::FixedLength(
                crate::fixed_length::FixedLengthBodyReader {
                    raw_body,
                    remaining: content_length,
                },
            ),
            ReaderHint::Chunked => BodyReader::Chunked(
                crate::chunked::ChunkedBodyReader::new(raw_body),
            ),
            ReaderHint::ToEnd => BodyReader::ToEnd(raw_body),
        }
    }
}

/// Collect exactly `remaining` body bytes from a fixed-length reader; a body
/// over `cap` bytes, or a stream that ends early, is over the buffer.
#[verifier::loop_isolation(false)]
fn collect_fixed<C: Read>(
    reader: crate::fixed_length::FixedLengthBodyReader,
    conn: &mut C,
    cap: usize,
) -> (r: Result<Vec<u8>, Error>)
    requires
        reader.wf(),
        old(conn).wf(),
    ensures
        (*final(conn)).wf(),
        ({
            let w0 = reader.wire(old(conn));
            let want = reader.remaining as int;
            match r {
                Ok(out) => out@ == w0.take(want) && want <= w0.len() && want <= cap,
                Err(e) => (e == Error::BufferTooSmall && (want > cap || w0.len() < want)) || (
                e matches Error::Network(_)),
            }
        }),
{
    let ghost w0 = reader.wire(old(conn));
    let ghost want = reader.remaining as int;
    let mut fr = reader;
    let mut out: Vec<u8> = Vec::new();
    proof {
        assert(out@ =~= w0.take(0));
    }
    loop
        invariant
            fr.wf(),
            conn.wf(),
            out@.len() <= cap,
            out@.len() <= w0.len(),
            out@.len() + fr.remaining == want,
            out@ == w0.take(out@.len() as int),
            fr.wire(conn) == w0.skip(out@.len() as int),
        decreases fr.remaining,
    {
        let ghost prev = out@.len() as int;
        let mut tmp: Vec<u8> = Vec::new();
        let mut j: usize = 0;
        while j < 128
            invariant
                0 <= j <= 128,
                tmp@.len() == j,
            decreases 128 - j,
        {
            tmp.push(0);
            j = j + 1;
        }
        let n = match fr.read(conn, &mut tmp) {
            Ok(n) => n,
            Err(e) => {
                return Err(e);
            },
        };
        if n == 0 {
            if fr.remaining > 0 {
                proof {
                    assert(fr.wire(conn).len() == 0);
                    assert(w0.len() == out@.len() < want);
                }
                return Err(Error::BufferTooSmall);
            }
            proof {
                assert(out@ =~= w0.take(want));
            }
            return Ok(out);
        }
        let piece = vstd::slice::slice_subrange(tmp.as_slice(), 0, n);
        out.extend_from_slice(piece);
        proof {
            assert(tmp@.subrange(0, n as int) =~= w0.subrange(prev, prev + n));
            assert(out@ =~= w0.take(out@.len() as int));
            assert(w0.skip(prev).skip(n as int) =~= w0.skip(out@.len() as int));
        }
        if out.len() > cap {
            return Err(Error::BufferTooSmall);
        }
    }
}

/// Collect body bytes until the connection ends; a body over `cap` bytes is
/// over the buffer.
#[verifier::loop_isolation(false)]
fn collect_to_end<C: Read>(
    reader: crate::reader::BufferingReader,
    conn: &mut C,
    cap: usize,
) -> (r: Result<Vec<u8>, Error>)
    requires
        reader.wf(),
        old(conn).wf(),
    ensures
        (*final(conn)).wf(),
        ({
            let w0 = crate::reader::buffered_remaining(&reader, old(conn));
            match r {
                Ok(out) => out@ == w0 && w0.len() <= cap,
                Err(e) => (e == Error::BufferTooSmall && w0.len() > cap) || (
                e matches Error::Network(_)),
            }
        }),
{
    let ghost w0 = crate::reader::buffered_remaining(&reader, old(conn));
    let mut br = reader;
    let mut out: Vec<u8> = Vec::new();
    proof {
        assert(out@ =~= w0.take(0));
    }
    loop
        invariant
            br.wf(),
            conn.wf(),
            out@.len() <= cap,
            out@.len() <= w0.len(),
            out@ == w0.take(out@.len() as int),
            crate::reader::buffered_remaining(&br, conn) == w0.skip(out@.len() as int),
        decreases w0.len() - out@.len(),
    {
        let ghost prev = out@.len() as int;
        let mut tmp: Vec<u8> = Vec::new();
        let mut j: usize = 0;
        while j < 128
            invariant
                0 <= j <= 128,
                tmp@.len() == j,
            decreases 128 - j,
        {
            tmp.push(0);
            j = j + 1;
        }
        let n = match br.read(conn, &mut tmp) {
            Ok(n) => n,
            Err(k) => {
                return Err(Error::Network(k));
            },
        };
        if n == 0 {
            proof {
                assert(w0.skip(out@.len() as int).len() == 0);
                assert(out@ =~= w0);
            }
            return Ok(out);
        }
        let piece = vstd::slice::slice_subrange(tmp.as_slice(), 0, n);
        out.extend_from_slice(piece);
        proof {
            assert(tmp@.subrange(0, n as int) =~= w0.subrange(prev, prev + n));
            assert(out@ =~= w0.take(out@.len() as int));
            assert(w0.skip(prev).skip(n as int) =~= w0.skip(out@.len() as int));
        }
        if out.len() > cap {
            return Err(Error::BufferTooSmall);
        }
    }
}

impl ResponseBody {
    /// Read the entire body, using the buffer the head was read into as the
    /// size limit: a body that would not have fit that buffer is refused.
    pub fn read_to_end<C: Read>(self, conn: &mut C) -> (r: Result<Vec<u8>, Error>)
        requires
            self.wf(),
            old(conn).wf(),
        ensures
            (*final(conn)).wf(),
            ({
                let w0 = self.body_prefix() + old(conn).remaining();
                let cap = self.body_buf@.len();
                match self.reader_hint {
                    ReaderHint::Empty => r matches Ok(out) && out@ == Seq::<u8>::empty(),
                    ReaderHint::FixedLength(n) => match r {
                        Ok(out) => out@ == w0.take(n as int) && n <= w0.len() && n <= cap,
                        Err(e) => (e == Error::BufferTooSmall && (n > cap || w0.len() < n)) || (
                        e matches Error::Network(_)),
                    },
                    ReaderHint::Chunked => match r {
                        Ok(out) => crate::chunked::decode_from(
                            crate::chunked::ChunkState::NoChunk,
                            w0,
                        ) matches crate::chunked::Decoded::Done { payload, consumed } && out@
                            == payload && payload.len() <= cap,
                        Err(e) => {
                            let d = crate::chunked::decode_from(
                                crate::chunked::ChunkState::NoChunk,
                                w0,
                            );
                            (e == Error::Codec && d is Bad) || (e == Error::ConnectionAborted && d
                                is Short) || (e == Error::BufferTooSmall && (
                            d matches crate::chunked::Decoded::Done { payload, consumed }
                                ==> payload.len() > cap)) || (e matches Error::Network(_))
                        },
                    },
                    ReaderHint::ToEnd => match r {
                        Ok(out) => out@ == w0 && w0.len() <= cap,
                        Err(e) => (e == Error::BufferTooSmall && w0.len() > cap) || (
                        e matches Error::Network(_)),
                    },
                }
            }),
    {
        let cap = self.body_buf.len();
        let ghost prefix = self.body_prefix();
        let reader = self.reader();
        match reader {
            BodyReader::Empty => {
                let out: Vec<u8> = Vec::new();
                Ok(out)
            },
            BodyReader::FixedLength(fr) => collect_fixed(fr, conn, cap),
            BodyReader::Chunked(cr) => cr.read_to_end(conn),
            BodyReader::ToEnd(br) => collect_to_end(br, conn, cap),
        }
    }

    /// Read and throw away the entire body, returning how many bytes it
    /// held. A stream that ends early ends the count early.
    pub fn discard<C: Read>(self, conn: &mut C) -> (r: Result<usize, Error>)
        requires
            self.wf(),
            old(conn).wf(),
        ensures
            (*final(conn)).wf(),
            ({
                let w0 = self.body_prefix() + old(conn).remaining();
                match self.reader_hint {
                    ReaderHint::Empty => r matches Ok(n) && n == 0,
                    ReaderHint::FixedLength(n) => match r {
                        Ok(count) => count == if n <= w0.len() {
                            n as int
                        } else {
                            w0.len() as int
                        },
                        Err(e) => e matches Error::Network(_),
                    },
                    ReaderHint::Chunked => match r {
                        Ok(count) => crate::chunked::decode_from(
                            crate::chunked::ChunkState::NoChunk,
                            w0,
                        ) matches crate::chunked::Decoded::Done { payload, consumed } ==> count
                            == payload.len(),
                        Err(e) => {
                            let d = crate::chunked::decode_from(
                                crate::chunked::ChunkState::NoChunk,
                                w0,
                            );
                            (e == Error::Codec && d is Bad) || (e == Error::ConnectionAborted && d
                                is Short) || (e == Error::BufferTooSmall && (
                            d matches crate::chunked::Decoded::Done { payload, consumed }
                                ==> payload.len() > usize::MAX)) || (e matches Error::Network(_))
                        },
                    },
                    ReaderHint::ToEnd => match r {
                        Ok(count) => count == w0.len(),
                        Err(e) => (e == Error::BufferTooSmall && w0.len() > usize::MAX) || (
                        e matches Error::Network(_)),
                    },
                }
            }),
    {
        let reader = self.reader();
        match reader {
            BodyReader::Empty => Ok(0),
            BodyReader::FixedLength(fr) => discard_fixed(fr, conn),
            BodyReader::Chunked(cr) => discard_chunked(cr, conn),
            BodyReader::ToEnd(br) => discard_to_end(br, conn),
        }
    }
}

/// Drain a fixed-length body, counting its bytes; a stream that ends early
/// ends the count early.
#[verifier::loop_isolation(false)]
fn discard_fixed<C: Read>(
    reader: crate::fixed_length::FixedLengthBodyReader,
    conn: &mut C,
) -> (r: Result<usize, Error>)
    requires
        reader.wf(),
        old(conn).wf(),
    ensures
        (*final(conn)).wf(),
        ({
            let w0 = reader.wire(old(conn));
            match r {
                Ok(count) => count == if reader.remaining <= w0.len() {
                    reader.remaining as int
                } else {
                    w0.len() as int
                },
                Err(e) => e matches Error::Network(_),
            }
        }),
{
    let ghost w0 = reader.wire(old(conn));
    let ghost want = reader.remaining as int;
    let mut fr = reader;
    let mut count: usize = 0;
    loop
        invariant
            fr.wf(),
            conn.wf(),
            count + fr.remaining == want,
            count <= w0.len(),
            fr.wire(conn) == w0.skip(count as int),
        decreases fr.remaining,
    {
        let mut tmp: Vec<u8> = Vec::new();
        let mut j: usize = 0;
        while j < 128
            invariant
                0 <= j <= 128,
                tmp@.len() == j,
            decreases 128 - j,
        {
            tmp.push(0);
            j = j + 1;
        }
        let ghost prev = count as int;
        let n = match fr.read(conn, &mut tmp) {
            Ok(n) => n,
            Err(e) => {
                return Err(e);
            },
        };
        if n == 0 {
            proof {
                if fr.remaining > 0 {
                    assert(fr.wire(conn).len() == 0);
                    assert(w0.len() == count);
                }
            }
            return Ok(count);
        }
        count = count + n;
        proof {
            assert(w0.skip(prev).skip(n as int) =~= w0.skip(count as int));
        }
    }
}

/// Drain a chunked body, counting the decoded payload bytes.
#[verifier::loop_isolation(false)]
fn discard_chunked<C: Read>(reader: crate::chunked::ChunkedBodyReader, conn: &mut C) -> (r: Result<
    usize,
    Error,
>)
    requires
        reader.wf(),
        old(conn).wf(),
    ensures
        (*final(conn)).wf(),
        ({
            let d = crate::chunked::decode_from(reader.state(), reader.wire(old(conn)));
            match r {
                Ok(count) => d matches crate::chunked::Decoded::Done { payload, consumed }
                    ==> count == payload.len(),
                Err(e) => (e == Error::Codec && d is Bad) || (e == Error::ConnectionAborted && d
                    is Short) || (e == Error::BufferTooSmall && (
                d matches crate::chunked::Decoded::Done { payload, consumed } ==> payload.len()
                    > usize::MAX)) || (e matches Error::Network(_)),
            }
        }),
{
    let ghost st0 = reader.state();
    let ghost w0 = reader.wire(old(conn));
    let ghost d0 = crate::chunked::decode_from(st0, w0);
    let mut cr = reader;
    let mut count: usize = 0;
    loop
        invariant
            cr.wf(),
            conn.wf(),
            match d0 {
                crate::chunked::Decoded::Done { payload, consumed } => {
                    &&& count <= payload.len()
                    &&& crate::chunked::decode_from(cr.state(), cr.wire(conn))
                        matches crate::chunked::Decoded::Done { payload: p2, consumed: c2 } && p2
                        == payload.skip(count as int)
                },
                crate::chunked::Decoded::Bad => crate::chunked::decode_from(
                    cr.state(),
                    cr.wire(conn),
                ) is Bad,
                crate::chunked::Decoded::Short => crate::chunked::decode_from(
                    cr.state(),
                    cr.wire(conn),
                ) is Short,
            },
        decreases cr.wire(conn).len() + 1,
    {
        let mut tmp: Vec<u8> = Vec::new();
        let mut j: usize = 0;
        while j < 128
            invariant
                0 <= j <= 128,
                tmp@.len() == j,
            decreases 128 - j,
        {
            tmp.push(0);
            j = j + 1;
        }
        let ghost st_i = cr.state();
        let ghost w_i = cr.wire(conn);
        let n = match cr.read(conn, &mut tmp) {
            Ok(n) => n,
            Err(e) => {
                proof {
                    match d0 {
                        crate::chunked::Decoded::Done { payload, consumed } => {
                            assert(!(crate::chunked::decode_from(st_i, w_i) is Bad));
                            assert(!(crate::chunked::decode_from(st_i, w_i) is Short));
                        },
                        crate::chunked::Decoded::Bad => {
                            assert(!(crate::chunked::decode_from(st_i, w_i) is Done));
                            assert(!(crate::chunked::decode_from(st_i, w_i) is Short));
                        },
                        crate::chunked::Decoded::Short => {
                            assert(!(crate::chunked::decode_from(st_i, w_i) is Done));
                            assert(!(crate::chunked::decode_from(st_i, w_i) is Bad));
                        },
                    }
                }
                return Err(e);
            },
        };
        if n == 0 {
            if cr.is_done() {
                proof {
                    match d0 {
                        crate::chunked::Decoded::Done { payload, consumed } => {
                            assert(crate::chunked::decode_from(cr.state(), cr.wire(conn))
                                matches crate::chunked::Decoded::Done { payload: p2, consumed: c2 }
                                && p2 == payload.skip(count as int));
                            assert(payload.skip(count as int).len() == 0);
                        },
                        crate::chunked::Decoded::Bad => {
                            assert(false);
                        },
                        crate::chunked::Decoded::Short => {
                            assert(false);
                        },
                    }
                }
                return Ok(count);
            } else {
                proof {
                    assert(cr.state() matches crate::chunked::ChunkState::NotEmpty(k) && k > 0
                        && cr.wire(conn).len() == 0);
                    assert(crate::chunked::decode_from(cr.state(), cr.wire(conn)) is Short);
                    match d0 {
                        crate::chunked::Decoded::Done { payload, consumed } => {
                            assert(false);
                        },
                        crate::chunked::Decoded::Bad => {
                            assert(false);
                        },
                        crate::chunked::Decoded::Short => {},
                    }
                }
                return Err(Error::ConnectionAborted);
            }
        }
        let ghost prev = count as int;
        count = match count.checked_add(n) {
            Some(c) => c,
            None => {
                // A body of more bytes than the machine can even address.
                proof {
                    match d0 {
                        crate::chunked::Decoded::Done { payload, consumed } => {
                            assert(prev + n <= payload.len());
                        },
                        _ => {},
                    }
                }
                return Err(Error::BufferTooSmall);
            },
        };
        proof {
            match d0 {
                crate::chunked::Decoded::Done { payload, consumed } => {
                    assert(payload.skip(prev).skip(n as int) =~= payload.skip(count as int));
                },
                _ => {},
            }
        }
    }
}

/// Drain a body that runs to the end of the connection, counting its bytes.
#[verifier::loop_isolation(false)]
fn discard_to_end<C: Read>(reader: crate::reader::BufferingReader, conn: &mut C) -> (r: Result<
    usize,
    Error,
>)
    requires
        reader.wf(),
        old(conn).wf(),
    ensures
        (*final(conn)).wf(),
        ({
            let w0 = crate::reader::buffered_remaining(&reader, old(conn));
            match r {
                Ok(count) => count == w0.len(),
                Err(e) => (e == Error::BufferTooSmall && w0.len() > usize::MAX) || (
                e matches Error::Network(_)),
            }
        }),
{
    let ghost w0 = crate::reader::buffered_remaining(&reader, old(conn));
    let mut br = reader;
    let mut count: usize = 0;
    loop
        invariant
            br.wf(),
            conn.wf(),
            count <= w0.len(),
            crate::reader::buffered_remaining(&br, conn) == w0.skip(count as int),
        decreases w0.len() - count,
    {
        let mut tmp: Vec<u8> = Vec::new();
        let mut j: usize = 0;
        while j < 128
            invariant
                0 <= j <= 128,
                tmp@.len() == j,
            decreases 128 - j,
        {
            tmp.push(0);
            j = j + 1;
        }
        let ghost prev = count as int;
        let n = match br.read(conn, &mut tmp) {
            Ok(n) => n,
            Err(k) => {
                return Err(Error::Network(k));
            },
        };
        if n == 0 {
            proof {
                assert(w0.skip(count as int).len() == 0);
            }
            return Ok(count);
        }
        count = match count.checked_add(n) {
            Some(c) => c,
            None => {
                return Err(Error::BufferTooSmall);
            },
        };
        proof {
            assert(w0.skip(prev).skip(n as int) =~= w0.skip(count as int));
        }
    }
}

} // verus!

verus! {

impl BodyReader {
    /// Read the entire body into a prefix of `buf`; a body that does not fit
    /// is refused rather than truncated.
    pub fn read_to_end<C: Read>(self, conn: &mut C, buf: &mut Vec<u8>) -> (r: Result<usize, Error>)
        requires
            self.wf(),
            old(conn).wf(),
        ensures
            (*final(conn)).wf(),
            final(buf)@.len() == old(buf)@.len(),
            match r {
                Ok(n) => n <= old(buf)@.len() && (match self {
                    BodyReader::Empty => n == 0 && final(buf)@ == old(buf)@,
                    BodyReader::FixedLength(fr) => {
                        let w0 = fr.wire(old(conn));
                        &&& n == fr.remaining
                        &&& n <= w0.len()
                        &&& final(buf)@ == w0.take(n as int) + old(buf)@.skip(n as int)
                    },
                    BodyReader::Chunked(cr) => {
                        let d = crate::chunked::decode_from(cr.state(), cr.wire(old(conn)));
                        d matches crate::chunked::Decoded::Done { payload, consumed } && n
                            == payload.len() && final(buf)@ == payload + old(buf)@.skip(n as int)
                    },
                    BodyReader::ToEnd(br) => {
                        let w0 = crate::reader::buffered_remaining(&br, old(conn));
                        n == w0.len() && final(buf)@ == w0 + old(buf)@.skip(n as int)
                    },
                }),
                Err(e) => match self {
                    BodyReader::Empty => false,
                    BodyReader::FixedLength(fr) => (e == Error::BufferTooSmall && (fr.remaining
                        > old(buf)@.len() || fr.wire(old(conn)).len() < fr.remaining)) || (
                    e matches Error::Network(_)),
                    BodyReader::Chunked(cr) => {
                        let d = crate::chunked::decode_from(cr.state(), cr.wire(old(conn)));
                        (e == Error::Codec && d is Bad) || (e == Error::ConnectionAborted && d
                            is Short) || (e == Error::BufferTooSmall && (
                        d matches crate::chunked::Decoded::Done { payload, consumed }
                            ==> payload.len() > old(buf)@.len())) || (e matches Error::Network(_))
                    },
                    BodyReader::ToEnd(br) => (e == Error::BufferTooSmall
                        && crate::reader::buffered_remaining(&br, old(conn)).len() > old(
                        buf,
                    )@.len()) || (e matches Error::Network(_)),
                },
            },
    {
        match self {
            BodyReader::Empty => {
                proof {
                    assert(final(buf)@ =~= old(buf)@);
                }
                Ok(0)
            },
            BodyReader::FixedLength(fr) => {
                let out = match collect_fixed(fr, conn, buf.len()) {
                    Ok(out) => out,
                    Err(e) => {
                        return Err(e);
                    },
                };
                let n = out.len();
                crate::bytebuf::splice(buf, 0, out.as_slice());
                proof {
                    assert(final(buf)@ =~= out@ + old(buf)@.skip(n as int));
                }
                Ok(n)
            },
            BodyReader::Chunked(cr) => {
                let out = match cr.collect_with_limit(conn, buf.len()) {
                    Ok(out) => out,
                    Err(e) => {
                        return Err(e);
                    },
                };
                let n = out.len();
                crate::bytebuf::splice(buf, 0, out.as_slice());
                proof {
                    assert(final(buf)@ =~= out@ + old(buf)@.skip(n as int));
                }
                Ok(n)
            },
            BodyReader::ToEnd(br) => {
                let out = match collect_to_end(br, conn, buf.len()) {
                    Ok(out) => out,
                    Err(e) => {
                        return Err(e);
                    },
                };
                let n = out.len();
                crate::bytebuf::splice(buf, 0, out.as_slice());
                proof {
                    assert(final(buf)@ =~= out@ + old(buf)@.skip(n as int));
                }
                Ok(n)
            },
        }
    }
}

} // verus!
