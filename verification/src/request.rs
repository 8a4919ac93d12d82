//! Request values, the request builder, and the request-head encoder.

use vstd::prelude::*;
use vstd::string::StringSliceAdditionalSpecFns;

use crate::encoding::{dec_rep, flatten, lemma_flatten_push, push_dec};
use crate::headers::{spec_content_type_bytes, ContentType};
use crate::io::Write;
use crate::{Error, ErrorKind};

verus! {

/// HTTP request methods.
#[derive(Clone, Copy, Debug, PartialEq, Eq, Structural)]
pub enum Method {
    GET,
    PUT,
    POST,
    DELETE,
    HEAD,
}

/// The wire name of each method, as bytes.
pub open spec fn spec_method_bytes(m: Method) -> Seq<u8> {
    match m {
        Method::GET => seq![71u8, 69u8, 84u8],
        Method::PUT => seq![80u8, 85u8, 84u8],
        Method::POST => seq![80u8, 79u8, 83u8, 84u8],
        Method::DELETE => seq![68u8, 69u8, 76u8, 69u8, 84u8, 69u8],
        Method::HEAD => seq![72u8, 69u8, 65u8, 68u8],
    }
}

impl Method {
    /// The upper-case name of the method.
    pub fn as_str(&self) -> (r: &'static str)
        ensures
            r.spec_bytes() == spec_method_bytes(*self),
    {
        broadcast use vstd::string::is_ascii_spec_bytes;

        match self {
            Method::GET => {
                proof {
                    reveal_strlit("GET");
                    assert(vstd::string::is_ascii("GET"));
                    assert("GET".spec_bytes() =~= spec_method_bytes(Method::GET));
                }
                "GET"
            },
            Method::PUT => {
                proof {
                    reveal_strlit("PUT");
                    assert(vstd::string::is_ascii("PUT"));
                    assert("PUT".spec_bytes() =~= spec_method_bytes(Method::PUT));
                }
                "PUT"
            },
            Method::POST => {
                proof {
                    reveal_strlit("POST");
                    assert(vstd::string::is_ascii("POST"));
                    assert("POST".spec_bytes() =~= spec_method_bytes(Method::POST));
                }
                "POST"
            },
            Method::DELETE => {
                proof {
                    reveal_strlit("DELETE");
                    assert(vstd::string::is_ascii("DELETE"));
                    assert("DELETE".spec_bytes() =~= spec_method_bytes(Method::DELETE));
                }
                "DELETE"
            },
            Method::HEAD => {
                proof {
                    reveal_strlit("HEAD");
                    assert(vstd::string::is_ascii("HEAD"));
                    assert("HEAD".spec_bytes() =~= spec_method_bytes(Method::HEAD));
                }
                "HEAD"
            },
        }
    }
}

/// Request authentication scheme.
#[derive(Clone, Copy, Debug)]
pub enum Auth<'a> {
    Basic { username: &'a str, password: &'a str },
}

/// The request body: an optional known length, and the body itself as a
/// sequence of writes to a byte sink. A body whose length is known causes a
/// Content-Length header; an unknown length causes chunked transfer coding.
pub trait RequestBody {
    /// The byte strings this body hands to the sink, one per write.
    spec fn segments(&self) -> Seq<Seq<u8>>;

    /// The known length, if any.
    spec fn spec_len(&self) -> Option<usize>;

    /// Get the length of the body, if known. A known length is exactly the
    /// number of bytes the body writes.
    fn len(&self) -> (r: Option<usize>)
        ensures
            r == self.spec_len(),
            r matches Some(n) ==> flatten(self.segments()).len() == n,
    ;

    /// Write the body to the provided writer.
    fn write<W: Write>(&self, writer: &mut W) -> (r: Result<(), ErrorKind>)
        requires
            old(writer).wf(),
        ensures
            (*final(writer)).wf(),
            (*final(writer)).base_log() == old(writer).base_log(),
            r matches Ok(_) ==> (*final(writer)).log() == old(writer).log() + flatten(
                self.segments(),
            ),
    ;
}

impl RequestBody for () {
    open spec fn segments(&self) -> Seq<Seq<u8>> {
        Seq::empty()
    }

    open spec fn spec_len(&self) -> Option<usize> {
        None
    }

    fn len(&self) -> (r: Option<usize>) {
        None
    }

    fn write<W: Write>(&self, writer: &mut W) -> (r: Result<(), ErrorKind>) {
        proof {
            assert(writer.log() + flatten(self.segments()) =~= writer.log());
        }
        Ok(())
    }
}

impl<'b> RequestBody for &'b [u8] {
    open spec fn segments(&self) -> Seq<Seq<u8>> {
        seq![self@]
    }

    open spec fn spec_len(&self) -> Option<usize> {
        Some(self@.len() as usize)
    }

    fn len(&self) -> (r: Option<usize>) {
        proof {
            lemma_flatten_single(self@);
        }
        Some(<[u8]>::len(self))
    }

    fn write<W: Write>(&self, writer: &mut W) -> (r: Result<(), ErrorKind>) {
        let r = writer.write_all(self);
        proof {
            lemma_flatten_single(self@);
        }
        r
    }
}

impl<T> RequestBody for Option<T> where T: RequestBody {
    open spec fn segments(&self) -> Seq<Seq<u8>> {
        match self {
            Some(inner) => inner.segments(),
            None => Seq::empty(),
        }
    }

    open spec fn spec_len(&self) -> Option<usize> {
        match self {
            Some(inner) => inner.spec_len(),
            None => None,
        }
    }

    fn len(&self) -> (r: Option<usize>) {
        match self {
            Some(inner) => inner.len(),
            None => None,
        }
    }

    fn write<W: Write>(&self, writer: &mut W) -> (r: Result<(), ErrorKind>) {
        match self {
            Some(inner) => inner.write(writer),
            None => {
                proof {
                    assert(writer.log() + flatten(self.segments()) =~= writer.log());
                }
                Ok(())
            },
        }
    }
}

/// Concatenation of byte strings regrouped to the right of a common prefix.
proof fn lemma_concat_reassoc5(
    g: Seq<u8>,
    p1: Seq<u8>,
    p2: Seq<u8>,
    p3: Seq<u8>,
    p4: Seq<u8>,
    p5: Seq<u8>,
)
    ensures
        g + p1 + p2 + p3 + p4 + p5 == g + (p1 + p2 + p3 + p4 + p5),
{
    assert(g + p1 + p2 + p3 + p4 + p5 =~= g + (p1 + p2 + p3 + p4 + p5));
}

/// The concatenation of a one-element list is its element.
proof fn lemma_flatten_single(x: Seq<u8>)
    ensures
        flatten(seq![x]) == x,
{
    assert(seq![x].skip(1) =~= Seq::<Seq<u8>>::empty());
    assert(flatten(seq![x]) == x + flatten(Seq::<Seq<u8>>::empty()));
    assert(flatten(seq![x]) =~= x);
}

/// A body given as a list of byte strings, one transport write each, with
/// no declared length: it always goes out chunked.
pub struct StreamedBody<'a> {
    pub parts: &'a [&'a [u8]],
}

impl<'a> RequestBody for StreamedBody<'a> {
    open spec fn segments(&self) -> Seq<Seq<u8>> {
        Seq::new(self.parts@.len(), |i: int| self.parts@[i]@)
    }

    open spec fn spec_len(&self) -> Option<usize> {
        None
    }

    fn len(&self) -> (r: Option<usize>) {
        None
    }

    fn write<W: Write>(&self, writer: &mut W) -> (r: Result<(), ErrorKind>) {
        let n = self.parts.len();
        let mut i: usize = 0;
        proof {
            assert(flatten(self.segments().subrange(0, 0)) =~= Seq::<u8>::empty());
            assert(writer.log() + flatten(self.segments().subrange(0, 0)) =~= writer.log());
        }
        while i < n
            invariant
                0 <= i <= n,
                n == self.parts@.len(),
                writer.wf(),
                writer.base_log() == old(writer).base_log(),
                writer.log() == old(writer).log() + flatten(self.segments().subrange(0, i as int)),
            decreases n - i,
        {
            let part = vstd::slice::slice_index_get(self.parts, i);
            match writer.write_all(part) {
                Ok(()) => (),
                Err(e) => {
                    return Err(e);
                },
            }
            proof {
                lemma_flatten_push(self.segments().subrange(0, i as int), self.segments()[i as int]);
                assert(self.segments().subrange(0, i + 1) =~= self.segments().subrange(
                    0,
                    i as int,
                ).push(self.segments()[i as int]));
                assert(old(writer).log() + flatten(self.segments().subrange(0, i + 1)) =~= old(
                    writer,
                ).log() + flatten(self.segments().subrange(0, i as int)) + part@);
            }
            i = i + 1;
        }
        proof {
            assert(self.segments().subrange(0, n as int) =~= self.segments());
        }
        Ok(())
    }
}

/// A read-only HTTP request.
pub struct Request<'req, B> where B: RequestBody {
    pub method: Method,
    pub base_path: Option<&'req str>,
    pub path: &'req str,
    pub auth: Option<Auth<'req>>,
    pub host: Option<&'req str>,
    pub body: Option<B>,
    pub content_type: Option<ContentType>,
    pub accept: Option<ContentType>,
    pub extra_headers: Option<&'req [(&'req str, &'req str)]>,
}

impl Default for Request<'_, ()> {
    fn default() -> (r: Self)
        ensures
            r.method == Method::GET,
            r.base_path is None,
            r.path@ == "/"@,
            r.auth is None,
            r.host is None,
            r.body is None,
            r.content_type is None,
            r.accept is None,
            r.extra_headers is None,
    {
        Request {
            method: Method::GET,
            base_path: None,
            path: "/",
            auth: None,
            host: None,
            body: None,
            content_type: None,
            accept: None,
            extra_headers: None,
        }
    }
}

/// A base path with its trailing slashes removed.
pub open spec fn trim_trailing_slashes(s: Seq<u8>) -> Seq<u8>
    decreases s.len(),
{
    if s.len() > 0 && s.last() == 47u8 {
        trim_trailing_slashes(s.drop_last())
    } else {
        s
    }
}

/// The request target: the trimmed base path, a slash unless the path brings
/// its own, then the path.
pub open spec fn spec_target(base_path: Option<&str>, path: &str) -> Seq<u8> {
    match base_path {
        None => path.spec_bytes(),
        Some(bp) => trim_trailing_slashes(bp.spec_bytes()) + (if path.spec_bytes().len() > 0
            && path.spec_bytes()[0] == 47u8 {
            Seq::<u8>::empty()
        } else {
            "/".spec_bytes()
        }) + path.spec_bytes(),
    }
}

/// One header line: name, colon and space, value, CRLF.
pub open spec fn spec_header_line(name: Seq<u8>, value: Seq<u8>) -> Seq<u8> {
    name + ": ".spec_bytes() + value + "\r\n".spec_bytes()
}

/// The Authorization header for Basic auth: the base64 of user, colon,
/// password, unwrapped.
pub open spec fn spec_auth_bytes(auth: Auth<'_>) -> Seq<u8> {
    match auth {
        Auth::Basic { username, password } => "Authorization: Basic ".spec_bytes() + base64_of(
            username.spec_bytes() + ":".spec_bytes() + password.spec_bytes(),
        ) + "\r\n".spec_bytes(),
    }
}

/// Whether the credential pair fits the encoder's fixed formatting buffer.
pub open spec fn spec_auth_fits(auth: &Option<Auth<'_>>) -> bool {
    match auth {
        None => true,
        Some(Auth::Basic { username, password }) => username.spec_bytes().len() + 1
            + password.spec_bytes().len() <= 128,
    }
}

/// The extra header lines, in caller order.
pub open spec fn spec_extra_headers(hs: Seq<(&str, &str)>) -> Seq<u8>
    decreases hs.len(),
{
    if hs.len() == 0 {
        Seq::<u8>::empty()
    } else {
        spec_header_line(hs[0].0.spec_bytes(), hs[0].1.spec_bytes()) + spec_extra_headers(
            hs.skip(1),
        )
    }
}

proof fn lemma_extra_headers_push(hs: Seq<(&str, &str)>, h: (&str, &str))
    ensures
        spec_extra_headers(hs.push(h)) == spec_extra_headers(hs) + spec_header_line(
            h.0.spec_bytes(),
            h.1.spec_bytes(),
        ),
    decreases hs.len(),
{
    if hs.len() == 0 {
        assert(hs.push(h).skip(1) =~= Seq::<(&str, &str)>::empty());
        assert(hs.push(h)[0] == h);
        assert(spec_extra_headers(hs.push(h)) == spec_header_line(
            h.0.spec_bytes(),
            h.1.spec_bytes(),
        ) + spec_extra_headers(Seq::<(&str, &str)>::empty()));
        assert(spec_extra_headers(hs.push(h)) =~= spec_extra_headers(hs) + spec_header_line(
            h.0.spec_bytes(),
            h.1.spec_bytes(),
        ));
    } else {
        assert(hs.push(h).skip(1) =~= hs.skip(1).push(h));
        lemma_extra_headers_push(hs.skip(1), h);
        assert(hs.push(h)[0] == hs[0]);
        assert(spec_extra_headers(hs.push(h)) =~= spec_extra_headers(hs) + spec_header_line(
            h.0.spec_bytes(),
            h.1.spec_bytes(),
        ));
    }
}

/// The Content-Length or Transfer-Encoding header implied by the body.
pub open spec fn spec_body_header<B: RequestBody>(body: &Option<B>) -> Seq<u8> {
    match body {
        None => Seq::<u8>::empty(),
        Some(b) => match b.spec_len() {
            Some(n) => spec_header_line("Content-Length".spec_bytes(), dec_rep(n as nat)),
            None => spec_header_line("Transfer-Encoding".spec_bytes(), "chunked".spec_bytes()),
        },
    }
}

/// The request line: method, target, version, CRLF.
pub open spec fn spec_request_line(m: Method, base_path: Option<&str>, path: &str) -> Seq<u8> {
    spec_method_bytes(m) + " ".spec_bytes() + spec_target(base_path, path)
        + " HTTP/1.1\r\n".spec_bytes()
}

/// The fixed-order headers: Authorization, Host, Content-Type, Accept, then
/// Content-Length or Transfer-Encoding.
pub open spec fn spec_fixed_headers<B: RequestBody>(req: &Request<'_, B>) -> Seq<u8> {
    (match req.auth {
        Some(a) => spec_auth_bytes(a),
        None => Seq::<u8>::empty(),
    }) + (match req.host {
        Some(h) => spec_header_line("Host".spec_bytes(), h.spec_bytes()),
        None => Seq::<u8>::empty(),
    }) + (match req.content_type {
        Some(ct) => spec_header_line("Content-Type".spec_bytes(), spec_content_type_bytes(ct)),
        None => Seq::<u8>::empty(),
    }) + (match req.accept {
        Some(ct) => spec_header_line("Accept".spec_bytes(), spec_content_type_bytes(ct)),
        None => Seq::<u8>::empty(),
    }) + spec_body_header(&req.body)
}

/// The serialised request head: request line, the headers in their fixed
/// order, the extra headers in caller order, and the blank line.
pub open spec fn spec_request_head<B: RequestBody>(req: &Request<'_, B>) -> Seq<u8> {
    spec_request_line(req.method, req.base_path, req.path) + spec_fixed_headers(req) + (
    match req.extra_headers {
        Some(hs) => spec_extra_headers(hs@),
        None => Seq::<u8>::empty(),
    }) + "\r\n".spec_bytes()
}

/// The result of base64-encoding a byte string with the standard alphabet
/// and padding; it depends on the input alone.
pub uninterp spec fn base64_of(s: Seq<u8>) -> Seq<u8>;

/// Relies on the base64 crate's standard engine (`STANDARD`: standard
/// alphabet, with padding): `encode` returns the base64 encoding of the
/// input, a pure function of the input bytes, four output characters for
/// every three input bytes begun.
#[verifier::external_body]
fn base64_standard(input: &[u8]) -> (r: Vec<u8>)
    ensures
        r@ == base64_of(input@),
        r@.len() == 4 * ((input@.len() + 2) / 3),
{
    base64::Engine::encode(&base64::engine::general_purpose::STANDARD, input).into_bytes()
}

/// Write a string's bytes to the sink; a transport failure is a network
/// error.
fn write_str<C: Write>(c: &mut C, data: &str) -> (r: Result<(), Error>)
    requires
        old(c).wf(),
    ensures
        (*final(c)).wf(),
        match r {
            Ok(()) => (*final(c)).log() == old(c).log() + data.spec_bytes(),
            Err(e) => e matches Error::Network(_),
        },
{
    match c.write_all(data.as_bytes()) {
        Ok(()) => Ok(()),
        Err(k) => Err(Error::Network(k)),
    }
}

/// Write raw bytes to the sink; a transport failure is a network error.
fn write_bytes<C: Write>(c: &mut C, data: &[u8]) -> (r: Result<(), Error>)
    requires
        old(c).wf(),
    ensures
        (*final(c)).wf(),
        match r {
            Ok(()) => (*final(c)).log() == old(c).log() + data@,
            Err(e) => e matches Error::Network(_),
        },
{
    match c.write_all(data) {
        Ok(()) => Ok(()),
        Err(k) => Err(Error::Network(k)),
    }
}

/// Write one header line.
fn write_header_line<C: Write>(c: &mut C, key: &str, value: &[u8]) -> (r: Result<(), Error>)
    requires
        old(c).wf(),
    ensures
        (*final(c)).wf(),
        match r {
            Ok(()) => (*final(c)).log() == old(c).log() + spec_header_line(
                key.spec_bytes(),
                value@,
            ),
            Err(e) => e matches Error::Network(_),
        },
{
    match write_str(c, key) {
        Ok(()) => (),
        Err(e) => {
            return Err(e);
        },
    }
    match write_str(c, ": ") {
        Ok(()) => (),
        Err(e) => {
            return Err(e);
        },
    }
    match write_bytes(c, value) {
        Ok(()) => (),
        Err(e) => {
            return Err(e);
        },
    }
    match write_str(c, "\r\n") {
        Ok(()) => (),
        Err(e) => {
            return Err(e);
        },
    }
    proof {
        assert((*final(c)).log() =~= old(c).log() + spec_header_line(key.spec_bytes(), value@));
    }
    Ok(())
}

/// The index where the trailing slashes of `s` begin.
fn find_trim_point(s: &[u8]) -> (cut: usize)
    ensures
        s@.take(cut as int) == trim_trailing_slashes(s@),
        cut <= s@.len(),
{
    let mut cut = s.len();
    proof {
        assert(s@.take(s@.len() as int) =~= s@);
    }
    while cut > 0 && s[cut - 1] == 47
        invariant
            0 <= cut <= s@.len(),
            forall|j: int| cut <= j < s@.len() ==> s@[j] == 47u8,
            trim_trailing_slashes(s@) == trim_trailing_slashes(s@.take(cut as int)),
        decreases cut,
    {
        proof {
            assert(s@.take(cut as int).last() == 47u8);
            assert(s@.take(cut as int).drop_last() =~= s@.take(cut - 1));
        }
        cut = cut - 1;
    }
    proof {
        if cut > 0 {
            assert(s@.take(cut as int).last() == s@[cut - 1]);
            assert(s@[cut - 1] != 47u8);
        }
        assert(trim_trailing_slashes(s@.take(cut as int)) == s@.take(cut as int));
    }
    cut
}

/// Write the Authorization header for Basic auth. Credentials longer than
/// the fixed formatting buffer are a codec error.
fn write_auth<C: Write>(c: &mut C, username: &str, password: &str) -> (r: Result<(), Error>)
    requires
        old(c).wf(),
    ensures
        (*final(c)).wf(),
        match r {
            Ok(()) => username.spec_bytes().len() + 1 + password.spec_bytes().len() <= 128 && (
            *final(c)).log() == old(c).log() + spec_auth_bytes(
                Auth::Basic { username, password },
            ),
            Err(e) => (e == Error::Codec && username.spec_bytes().len() + 1
                + password.spec_bytes().len() > 128) || (e matches Error::Network(_)),
        },
{
    proof {
        reveal_strlit(":");
        broadcast use vstd::string::is_ascii_spec_bytes;

        assert(vstd::string::is_ascii(":"));
        assert(":".spec_bytes().len() == 1);
    }
    let mut combined: Vec<u8> = Vec::new();
    combined.extend_from_slice(username.as_bytes());
    combined.extend_from_slice(":".as_bytes());
    combined.extend_from_slice(password.as_bytes());
    proof {
        assert(combined@ =~= username.spec_bytes() + ":".spec_bytes() + password.spec_bytes());
    }
    if combined.len() > 128 {
        return Err(Error::Codec);
    }
    let authz = base64_standard(combined.as_slice());
    match write_str(c, "Authorization: Basic ") {
        Ok(()) => (),
        Err(e) => {
            return Err(e);
        },
    }
    match write_bytes(c, authz.as_slice()) {
        Ok(()) => (),
        Err(e) => {
            return Err(e);
        },
    }
    match write_str(c, "\r\n") {
        Ok(()) => (),
        Err(e) => {
            return Err(e);
        },
    }
    proof {
        assert((*final(c)).log() =~= old(c).log() + spec_auth_bytes(
            Auth::Basic { username, password },
        ));
    }
    Ok(())
}

impl<'req, B> Request<'req, B> where B: RequestBody {
    /// Serialise the request head to the sink: the request line, each header
    /// at most once in fixed order, the extra headers verbatim, and a blank
    /// line. The body itself is not written.
    ///
    /// On success the sink has accepted exactly the head bytes. A credential
    /// pair longer than the fixed formatting buffer is a codec error; an I/O
    /// failure is a network error.
    pub fn write_header<C: Write>(&self, c: &mut C) -> (r: Result<(), Error>)
        requires
            old(c).wf(),
        ensures
            (*final(c)).wf(),
            match r {
                Ok(()) => spec_auth_fits(&self.auth) && (*final(c)).log() == old(c).log()
                    + spec_request_head(self),
                Err(e) => (e == Error::Codec && !spec_auth_fits(&self.auth)) || (
                e matches Error::Network(_)),
            },
    {
        let ghost base = c.log();
        match self.write_request_line(c) {
            Ok(()) => (),
            Err(e) => {
                return Err(e);
            },
        }
        match self.write_fixed_headers(c) {
            Ok(()) => (),
            Err(e) => {
                return Err(e);
            },
        }
        match self.write_extra_headers(c) {
            Ok(()) => (),
            Err(e) => {
                return Err(e);
            },
        }
        match write_str(c, "\r\n") {
            Ok(()) => (),
            Err(e) => {
                return Err(e);
            },
        }
        proof {
            assert(c.log() =~= base + spec_request_head(self));
        }
        Ok(())
    }

    /// Write the request line.
    fn write_request_line<C: Write>(&self, c: &mut C) -> (r: Result<(), Error>)
        requires
            old(c).wf(),
        ensures
            (*final(c)).wf(),
            match r {
                Ok(()) => (*final(c)).log() == old(c).log() + spec_request_line(
                    self.method,
                    self.base_path,
                    self.path,
                ),
                Err(e) => e matches Error::Network(_),
            },
    {
        match write_str(c, self.method.as_str()) {
            Ok(()) => (),
            Err(e) => {
                return Err(e);
            },
        }
        match write_str(c, " ") {
            Ok(()) => (),
            Err(e) => {
                return Err(e);
            },
        }
        if let Some(base_path) = self.base_path {
            let bp_bytes = base_path.as_bytes();
            let cut = find_trim_point(bp_bytes);
            let trimmed = vstd::slice::slice_subrange(bp_bytes, 0, cut);
            match write_bytes(c, trimmed) {
                Ok(()) => (),
                Err(e) => {
                    return Err(e);
                },
            }
            let path_bytes = self.path.as_bytes();
            if !(path_bytes.len() > 0 && path_bytes[0] == 47) {
                match write_str(c, "/") {
                    Ok(()) => (),
                    Err(e) => {
                        return Err(e);
                    },
                }
            }
        }
        match write_str(c, self.path) {
            Ok(()) => (),
            Err(e) => {
                return Err(e);
            },
        }
        match write_str(c, " HTTP/1.1\r\n") {
            Ok(()) => (),
            Err(e) => {
                return Err(e);
            },
        }
        proof {
            assert(c.log() =~= old(c).log() + spec_request_line(
                self.method,
                self.base_path,
                self.path,
            ));
        }
        Ok(())
    }

    /// Write the fixed-order headers.
    #[verifier::rlimit(100)]
    fn write_fixed_headers<C: Write>(&self, c: &mut C) -> (r: Result<(), Error>)
        requires
            old(c).wf(),
        ensures
            (*final(c)).wf(),
            match r {
                Ok(()) => spec_auth_fits(&self.auth) && (*final(c)).log() == old(c).log()
                    + spec_fixed_headers(self),
                Err(e) => (e == Error::Codec && !spec_auth_fits(&self.auth)) || (
                e matches Error::Network(_)),
            },
    {
        let ghost g0 = old(c).log();
        if let Some(auth) = &self.auth {
            match auth {
                Auth::Basic { username, password } => {
                    match write_auth(c, username, password) {
                        Ok(()) => (),
                        Err(e) => {
                            return Err(e);
                        },
                    }
                },
            }
        }
        let ghost g1 = g0 + (match self.auth {
            Some(a) => spec_auth_bytes(a),
            None => Seq::<u8>::empty(),
        });
        proof {
            assert(c.log() =~= g1);
        }
        if let Some(host) = &self.host {
            match write_header_line(c, "Host", host.as_bytes()) {
                Ok(()) => (),
                Err(e) => {
                    return Err(e);
                },
            }
        }
        let ghost g2 = g1 + (match self.host {
            Some(h) => spec_header_line("Host".spec_bytes(), h.spec_bytes()),
            None => Seq::<u8>::empty(),
        });
        proof {
            assert(c.log() =~= g2);
        }
        if let Some(content_type) = &self.content_type {
            match write_header_line(c, "Content-Type", content_type.as_str().as_bytes()) {
                Ok(()) => (),
                Err(e) => {
                    return Err(e);
                },
            }
        }
        let ghost g3 = g2 + (match self.content_type {
            Some(ct) => spec_header_line("Content-Type".spec_bytes(), spec_content_type_bytes(ct)),
            None => Seq::<u8>::empty(),
        });
        proof {
            assert(c.log() =~= g3);
        }
        if let Some(accept) = &self.accept {
            match write_header_line(c, "Accept", accept.as_str().as_bytes()) {
                Ok(()) => (),
                Err(e) => {
                    return Err(e);
                },
            }
        }
        let ghost g4 = g3 + (match self.accept {
            Some(ct) => spec_header_line("Accept".spec_bytes(), spec_content_type_bytes(ct)),
            None => Seq::<u8>::empty(),
        });
        proof {
            assert(c.log() =~= g4);
        }
        if let Some(body) = self.body.as_ref() {
            match body.len() {
                Some(len) => {
                    let mut s: Vec<u8> = Vec::new();
                    push_dec(&mut s, len);
                    match write_header_line(c, "Content-Length", s.as_slice()) {
                        Ok(()) => (),
                        Err(e) => {
                            return Err(e);
                        },
                    }
                },
                None => {
                    match write_header_line(c, "Transfer-Encoding", "chunked".as_bytes()) {
                        Ok(()) => (),
                        Err(e) => {
                            return Err(e);
                        },
                    }
                },
            }
        }
        let ghost g5 = g4 + spec_body_header(&self.body);
        proof {
            assert(c.log() =~= g5);
            lemma_concat_reassoc5(
                g0,
                match self.auth {
                    Some(a) => spec_auth_bytes(a),
                    None => Seq::<u8>::empty(),
                },
                match self.host {
                    Some(h) => spec_header_line("Host".spec_bytes(), h.spec_bytes()),
                    None => Seq::<u8>::empty(),
                },
                match self.content_type {
                    Some(ct) => spec_header_line(
                        "Content-Type".spec_bytes(),
                        spec_content_type_bytes(ct),
                    ),
                    None => Seq::<u8>::empty(),
                },
                match self.accept {
                    Some(ct) => spec_header_line(
                        "Accept".spec_bytes(),
                        spec_content_type_bytes(ct),
                    ),
                    None => Seq::<u8>::empty(),
                },
                spec_body_header(&self.body),
            );
        }
        Ok(())
    }

    /// Write the caller's extra headers, in order.
    fn write_extra_headers<C: Write>(&self, c: &mut C) -> (r: Result<(), Error>)
        requires
            old(c).wf(),
        ensures
            (*final(c)).wf(),
            match r {
                Ok(()) => (*final(c)).log() == old(c).log() + (match self.extra_headers {
                    Some(hs) => spec_extra_headers(hs@),
                    None => Seq::<u8>::empty(),
                }),
                Err(e) => e matches Error::Network(_),
            },
    {
        let ghost base = c.log();
        if let Some(extra_headers) = self.extra_headers {
            let n = extra_headers.len();
            let mut i: usize = 0;
            proof {
                assert(spec_extra_headers(extra_headers@.take(0)) =~= Seq::<u8>::empty());
                assert(c.log() =~= base + spec_extra_headers(extra_headers@.take(0)));
            }
            while i < n
                invariant
                    0 <= i <= n,
                    n == extra_headers@.len(),
                    c.wf(),
                    c.log() == base + spec_extra_headers(extra_headers@.take(i as int)),
                decreases n - i,
            {
                let pair = vstd::slice::slice_index_get(extra_headers, i);
                match write_header_line(c, pair.0, pair.1.as_bytes()) {
                    Ok(()) => (),
                    Err(e) => {
                        return Err(e);
                    },
                }
                proof {
                    lemma_extra_headers_push(
                        extra_headers@.take(i as int),
                        extra_headers@[i as int],
                    );
                    assert(extra_headers@.take(i + 1 as int) =~= extra_headers@.take(i as int).push(
                        extra_headers@[i as int],
                    ));
                    assert(c.log() =~= base + spec_extra_headers(
                        extra_headers@.take(i + 1 as int),
                    ));
                }
                i = i + 1;
            }
            proof {
                assert(extra_headers@.take(n as int) =~= extra_headers@);
            }
        } else {
            proof {
                assert(c.log() =~= base + Seq::<u8>::empty());
            }
        }
        Ok(())
    }
}

impl<'req> Request<'req, ()> {
    /// Create a new HTTP request.
    pub fn new(method: Method, path: &'req str) -> (r: DefaultRequestBuilder<'req, ()>)
        ensures
            r.0.method == method,
            r.0.path == path,
            r.0.base_path is None,
            r.0.auth is None,
            r.0.host is None,
            r.0.body is None,
            r.0.content_type is None,
            r.0.accept is None,
            r.0.extra_headers is None,
    {
        DefaultRequestBuilder(
            Request {
                method,
                base_path: None,
                path,
                auth: None,
                host: None,
                body: None,
                content_type: None,
                accept: None,
                extra_headers: None,
            },
        )
    }

    /// Create a new GET request.
    pub fn get(path: &'req str) -> (r: DefaultRequestBuilder<'req, ()>)
        ensures
            r.0.method == Method::GET,
            r.0.path == path,
    {
        Self::new(Method::GET, path)
    }

    /// Create a new POST request.
    pub fn post(path: &'req str) -> (r: DefaultRequestBuilder<'req, ()>)
        ensures
            r.0.method == Method::POST,
            r.0.path == path,
    {
        Self::new(Method::POST, path)
    }

    /// Create a new PUT request.
    pub fn put(path: &'req str) -> (r: DefaultRequestBuilder<'req, ()>)
        ensures
            r.0.method == Method::PUT,
            r.0.path == path,
    {
        Self::new(Method::PUT, path)
    }

    /// Create a new DELETE request.
    pub fn delete(path: &'req str) -> (r: DefaultRequestBuilder<'req, ()>)
        ensures
            r.0.method == Method::DELETE,
            r.0.path == path,
    {
        Self::new(Method::DELETE, path)
    }

    /// Create a new HEAD request.
    pub fn head(path: &'req str) -> (r: DefaultRequestBuilder<'req, ()>)
        ensures
            r.0.method == Method::HEAD,
            r.0.path == path,
    {
        Self::new(Method::HEAD, path)
    }
}

/// An HTTP request builder.
pub struct DefaultRequestBuilder<'req, B>(pub Request<'req, B>) where B: RequestBody;

impl<'req, B> DefaultRequestBuilder<'req, B> where B: RequestBody {
    /// Set optional headers on the request.
    pub fn headers(self, headers: &'req [(&'req str, &'req str)]) -> (r: Self)
        ensures
            r.0 == (Request { extra_headers: Some(headers), ..self.0 }),
    {
        let mut req = self.0;
        req.extra_headers = Some(headers);
        DefaultRequestBuilder(req)
    }

    /// Set the path of the request.
    pub fn path(self, path: &'req str) -> (r: Self)
        ensures
            r.0 == (Request { path, ..self.0 }),
    {
        let mut req = self.0;
        req.path = path;
        DefaultRequestBuilder(req)
    }

    /// Set the data to send in the request body.
    pub fn body<T: RequestBody>(self, body: T) -> (r: DefaultRequestBuilder<'req, T>)
        ensures
            r.0.method == self.0.method,
            r.0.base_path == self.0.base_path,
            r.0.path == self.0.path,
            r.0.auth == self.0.auth,
            r.0.host == self.0.host,
            r.0.body == Some(body),
            r.0.content_type == self.0.content_type,
            r.0.accept == self.0.accept,
            r.0.extra_headers == self.0.extra_headers,
    {
        DefaultRequestBuilder(
            Request {
                method: self.0.method,
                base_path: self.0.base_path,
                path: self.0.path,
                auth: self.0.auth,
                host: self.0.host,
                body: Some(body),
                content_type: self.0.content_type,
                accept: self.0.accept,
                extra_headers: self.0.extra_headers,
            },
        )
    }

    /// Set the host header.
    pub fn host(self, host: &'req str) -> (r: Self)
        ensures
            r.0 == (Request { host: Some(host), ..self.0 }),
    {
        let mut req = self.0;
        req.host = Some(host);
        DefaultRequestBuilder(req)
    }

    /// Set the content type header.
    pub fn content_type(self, content_type: ContentType) -> (r: Self)
        ensures
            r.0 == (Request { content_type: Some(content_type), ..self.0 }),
    {
        let mut req = self.0;
        req.content_type = Some(content_type);
        DefaultRequestBuilder(req)
    }

    /// Set the accept header.
    pub fn accept(self, content_type: ContentType) -> (r: Self)
        ensures
            r.0 == (Request { accept: Some(content_type), ..self.0 }),
    {
        let mut req = self.0;
        req.accept = Some(content_type);
        DefaultRequestBuilder(req)
    }

    /// Set the basic authentication header.
    pub fn basic_auth(self, username: &'req str, password: &'req str) -> (r: Self)
        ensures
            r.0 == (Request { auth: Some(Auth::Basic { username, password }), ..self.0 }),
    {
        let mut req = self.0;
        req.auth = Some(Auth::Basic { username, password });
        DefaultRequestBuilder(req)
    }

    /// Return the finished request.
    pub fn build(self) -> (r: Request<'req, B>)
        ensures
            r == self.0,
    {
        self.0
    }
}

} // verus!
