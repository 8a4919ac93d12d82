//! A parsed URL: scheme, host, port and path.

use vstd::prelude::*;
use vstd::string::StringSliceAdditionalSpecFns;

use crate::headers::{dec_value, eq_ignore_case, find_byte, lemma_find_byte_bounds};
use crate::Error;

verus! {

/// A parsed URL to extract different parts of the URL.
pub struct Url<'a> {
    pub host: &'a str,
    pub scheme: UrlScheme,
    pub port: u16,
    pub path: &'a str,
}

/// The connection scheme.
#[derive(PartialEq, Eq, Structural, Clone, Copy, Debug)]
pub enum UrlScheme {
    /// HTTP scheme.
    HTTP,
    /// HTTPS (HTTP over TLS) scheme.
    HTTPS,
}

impl UrlScheme {
    /// The port used when the URL names none.
    pub fn default_port(&self) -> (r: u16)
        ensures
            r == spec_default_port(*self),
    {
        match self {
            UrlScheme::HTTP => 80,
            UrlScheme::HTTPS => 443,
        }
    }
}

pub open spec fn spec_default_port(s: UrlScheme) -> u16 {
    match s {
        UrlScheme::HTTP => 80u16,
        UrlScheme::HTTPS => 443u16,
    }
}

/// The position of the first `://`.
pub open spec fn find_scheme_sep(b: Seq<u8>, i: int) -> Option<int>
    decreases b.len() - i,
{
    if i < 0 || i + 3 > b.len() {
        None
    } else if b[i] == 58 && b[i + 1] == 47 && b[i + 2] == 47 {
        Some(i)
    } else {
        find_scheme_sep(b, i + 1)
    }
}

/// What `u16::from_str` accepts.
pub open spec fn spec_parse_u16(v: Seq<u8>) -> Option<u16> {
    let d = if v.len() > 0 && v[0] == 43 {
        v.skip(1)
    } else {
        v
    };
    if d.len() == 0 || !crate::headers::all_dec(d) || dec_value(d) > 65535 {
        None
    } else {
        Some(dec_value(d) as u16)
    }
}

/// The parts of a parsed URL, at the specification level.
pub struct SpecUrl {
    pub scheme: UrlScheme,
    pub host: Seq<u8>,
    pub port: u16,
    pub path: Seq<u8>,
}

/// How a URL string parses: the scheme up to `://`, case-insensitive; then
/// the host up to a `:` or `/` or the end; an explicit port falls back to
/// the scheme's default when it is not a number; the path defaults to `/`.
/// The port colon is the first colon anywhere in the remainder, so a colon
/// inside a path without an explicit port reads as a port delimiter.
pub open spec fn spec_url_parse(b: Seq<u8>) -> Option<SpecUrl> {
    match find_scheme_sep(b, 0) {
        None => None,
        Some(i) => {
            let scheme_bytes = b.take(i);
            if !(eq_ignore_case(scheme_bytes, "http".spec_bytes()) || eq_ignore_case(
                scheme_bytes,
                "https".spec_bytes(),
            )) {
                None
            } else {
                let scheme = if eq_ignore_case(scheme_bytes, "http".spec_bytes()) {
                    UrlScheme::HTTP
                } else {
                    UrlScheme::HTTPS
                };
                let dp = spec_default_port(scheme);
                let rest = b.skip(i + 3);
                Some(
                    match find_byte(rest, 58) {
                        Some(p) => {
                            let host = rest.take(p);
                            let after = rest.skip(p);
                            match find_byte(after, 47) {
                                Some(q) => SpecUrl {
                                    scheme,
                                    host,
                                    port: spec_port_or(after.subrange(1, q), dp),
                                    path: after.skip(q),
                                },
                                None => SpecUrl {
                                    scheme,
                                    host,
                                    port: spec_port_or(after.skip(1), dp),
                                    path: "/".spec_bytes(),
                                },
                            }
                        },
                        None => match find_byte(rest, 47) {
                            Some(q) => SpecUrl {
                                scheme,
                                host: rest.take(q),
                                port: dp,
                                path: rest.skip(q),
                            },
                            None => SpecUrl { scheme, host: rest, port: dp, path: "/".spec_bytes() },
                        },
                    },
                )
            }
        },
    }
}

/// The port digits, or the fallback when they do not parse.
pub open spec fn spec_port_or(v: Seq<u8>, fallback: u16) -> u16 {
    match spec_parse_u16(v) {
        Some(p) => p,
        None => fallback,
    }
}

impl<'a> Url<'a> {
    pub open spec fn spec_scheme(&self) -> UrlScheme {
        self.scheme
    }

    pub open spec fn spec_host(&self) -> Seq<u8> {
        self.host.spec_bytes()
    }

    pub open spec fn spec_port(&self) -> u16 {
        self.port
    }

    pub open spec fn spec_path(&self) -> Seq<u8> {
        self.path.spec_bytes()
    }

    /// Parse the provided URL. Anything without a recognised scheme before
    /// `://` is invalid, and everything with one parses.
    #[verifier::rlimit(100)]
    pub fn parse(url: &'a str) -> (r: Result<Url<'a>, Error>)
        ensures
            match r {
                Ok(u) => spec_url_parse(url.spec_bytes()) matches Some(s) && u.spec_scheme()
                    == s.scheme && u.spec_host() == s.host && u.spec_port() == s.port
                    && u.spec_path() == s.path,
                Err(e) => e == Error::InvalidUrl,
            },
            r is Ok <==> spec_url_parse(url.spec_bytes()) is Some,
    {
        let b = url.as_bytes();
        let blen = b.len();
        let ghost bs = url.spec_bytes();
        let sep = match find_scheme_sep_exec(b) {
            Some(i) => i,
            None => {
                return Err(Error::InvalidUrl);
            },
        };
        let is_http = crate::bytebuf::slice_eq_ignore_case(
            vstd::slice::slice_subrange(b, 0, sep),
            "http".as_bytes(),
        );
        let is_https = crate::bytebuf::slice_eq_ignore_case(
            vstd::slice::slice_subrange(b, 0, sep),
            "https".as_bytes(),
        );
        proof {
            assert(b@.subrange(0, sep as int) =~= bs.take(sep as int));
        }
        if !(is_http || is_https) {
            return Err(Error::InvalidUrl);
        }
        let scheme = if is_http {
            UrlScheme::HTTP
        } else {
            UrlScheme::HTTPS
        };
        let default_port = scheme.default_port();
        // Every split position below sits beside an ASCII byte of the
        // grammar, which in well-formed text is always a character boundary.
        proof {
            vstd::utf8::encode_utf8_valid_utf8(url@);
            lemma_scheme_sep_bytes(bs, 0);
            lemma_ascii_boundary(bs, sep + 2);
        }
        let rest = str_tail(url, sep + 3);
        let ghost rb = bs.skip(sep + 3);
        let rest_bytes = rest.as_bytes();
        proof {
            vstd::utf8::encode_utf8_valid_utf8(rest@);
        }
        match crate::headers::find_byte_from(rest_bytes, 0, 58) {
            Some(p) => {
                proof {
                    assert(rb.skip(0) =~= rb);
                    lemma_find_byte_bounds(rb, 58);
                    lemma_ascii_boundary(rb, p as int);
                }
                let host = str_prefix(rest, p);
                proof {
                    assert(host.spec_bytes() =~= rb.take(p as int));
                }
                let after = str_tail(rest, p);
                let ghost ab = rb.skip(p as int);
                let after_bytes = after.as_bytes();
                proof {
                    vstd::utf8::encode_utf8_valid_utf8(after@);
                }
                match crate::headers::find_byte_from(after_bytes, 0, 47) {
                    Some(q) => {
                        proof {
                            assert(ab.skip(0) =~= ab);
                            lemma_find_byte_bounds(ab, 47);
                            assert(ab[0] == rb[p as int]);
                            assert(ab[q as int] == 47 && ab[0] == 58);
                            assert(q >= 1);
                        }
                        let port = port_or_default(after_bytes, 1, q, default_port);
                        proof {
                            assert(after_bytes@.subrange(1, q as int) =~= ab.subrange(1, q as int));
                            lemma_ascii_boundary(ab, q as int);
                        }
                        let path = str_tail(after, q);
                        proof {
                            assert(path.spec_bytes() =~= ab.skip(q as int));
                            let su = spec_url_parse(bs)->Some_0;
                            assert(su.scheme == scheme);
                            assert(su.host == host.spec_bytes());
                            assert(su.port == port);
                            assert(su.path == path.spec_bytes());
                        }
                        Ok(Url { scheme, host, port, path })
                    },
                    None => {
                        proof {
                            assert(ab.skip(0) =~= ab);
                        }
                        let alen = after.as_bytes().len();
                        let port = if 1 <= alen {
                            port_or_default(after_bytes, 1, alen, default_port)
                        } else {
                            default_port
                        };
                        proof {
                            if 1 <= alen {
                                assert(after_bytes@.subrange(1, alen as int) =~= ab.skip(1));
                            } else {
                                assert(ab.skip(1) =~= Seq::<u8>::empty());
                                assert(spec_parse_u16(ab.skip(1)) is None);
                            }
                            let su = spec_url_parse(bs)->Some_0;
                            assert(su.port == port);
                            assert(su.path == "/".spec_bytes());
                        }
                        Ok(Url { scheme, host, port, path: "/" })
                    },
                }
            },
            None => {
                proof {
                    assert(rb.skip(0) =~= rb);
                }
                match crate::headers::find_byte_from(rest_bytes, 0, 47) {
                    Some(q) => {
                        proof {
                            lemma_find_byte_bounds(rb, 47);
                            lemma_ascii_boundary(rb, q as int);
                        }
                        let host = str_prefix(rest, q);
                        proof {
                            assert(host.spec_bytes() =~= rb.take(q as int));
                        }
                        let path = str_tail(rest, q);
                        proof {
                            assert(path.spec_bytes() =~= rb.skip(q as int));
                            let su = spec_url_parse(bs)->Some_0;
                            assert(su.port == default_port);
                            assert(su.path == path.spec_bytes());
                        }
                        Ok(Url { scheme, host, port: default_port, path })
                    },
                    None => {
                        proof {
                            let su = spec_url_parse(bs)->Some_0;
                            assert(su.port == default_port);
                            assert(su.path == "/".spec_bytes());
                        }
                        Ok(Url { scheme, host: rest, port: default_port, path: "/" })
                    },
                }
            },
        }
    }

    pub fn scheme(&self) -> (r: UrlScheme)
        ensures
            r == self.spec_scheme(),
    {
        self.scheme
    }

    pub fn host(&self) -> (r: &'a str)
        ensures
            r.spec_bytes() == self.spec_host(),
    {
        self.host
    }

    pub fn port(&self) -> (r: u16)
        ensures
            r == self.spec_port(),
    {
        self.port
    }

    pub fn path(&self) -> (r: &'a str)
        ensures
            r.spec_bytes() == self.spec_path(),
    {
        self.path
    }
}

/// The first `://` in `b`.
fn find_scheme_sep_exec(b: &[u8]) -> (r: Option<usize>)
    ensures
        match r {
            Some(i) => find_scheme_sep(b@, 0) == Some(i as int) && i + 3 <= b@.len(),
            None => find_scheme_sep(b@, 0) is None,
        },
{
    let n = b.len();
    if n < 3 {
        return None;
    }
    let mut i: usize = 0;
    while i <= n - 3
        invariant
            0 <= i <= n - 2,
            3 <= n == b@.len(),
            find_scheme_sep(b@, 0) == find_scheme_sep(b@, i as int),
        decreases n - i,
    {
        if b[i] == 58 && b[i + 1] == 47 && b[i + 2] == 47 {
            return Some(i);
        }
        i = i + 1;
    }
    None
}

/// In valid UTF-8, a byte below 0x80 is a whole scalar of its own: its
/// position and the position after it are both character boundaries.
proof fn lemma_ascii_boundary(bytes: Seq<u8>, i: int)
    requires
        vstd::utf8::valid_utf8(bytes),
        0 <= i < bytes.len(),
        bytes[i] < 0x80,
    ensures
        vstd::utf8::is_char_boundary(bytes, i),
        vstd::utf8::is_char_boundary(bytes, i + 1),
    decreases bytes.len(),
{
    let len1 = vstd::utf8::length_of_first_scalar(bytes);
    let pop = vstd::utf8::pop_first_scalar(bytes);
    assert(vstd::utf8::valid_first_scalar(bytes));
    assert(1 <= len1 <= 4);
    if i == 0 {
        assert(vstd::utf8::is_leading_byte_width_1(bytes[0]));
        assert(len1 == 1);
        assert(vstd::utf8::is_char_boundary(bytes, 0));
        assert(vstd::utf8::is_char_boundary(pop, 0));
        assert(vstd::utf8::is_char_boundary(bytes, 1));
    } else {
        // Every byte of the first scalar past its leading byte is a
        // continuation byte, at or above 0x80, so `i` lies past the scalar.
        assert(i >= len1) by {
            if i < len1 {
                assert(vstd::utf8::is_continuation_byte(bytes[i]));
            }
        }
        assert(pop.len() == bytes.len() - len1);
        assert(pop[i - len1] == bytes[i]);
        assert(vstd::utf8::valid_utf8(pop));
        lemma_ascii_boundary(pop, i - len1);
        assert(vstd::utf8::is_char_boundary(bytes, i));
        assert(vstd::utf8::is_char_boundary(bytes, i + 1));
    }
}

/// The separator's position carries its three bytes.
proof fn lemma_scheme_sep_bytes(b: Seq<u8>, i: int)
    ensures
        find_scheme_sep(b, i) matches Some(sep) ==> i <= sep && sep + 3 <= b.len() && b[sep] == 58
            && b[sep + 1] == 47 && b[sep + 2] == 47,
    decreases b.len() - i,
{
    if 0 <= i && i + 3 <= b.len() && !(b[i] == 58 && b[i + 1] == 47 && b[i + 2] == 47) {
        lemma_scheme_sep_bytes(b, i + 1);
    }
}

/// The first `j` bytes of `s`, cut at a character boundary.
fn str_prefix<'a>(s: &'a str, j: usize) -> (r: &'a str)
    requires
        j <= s.spec_bytes().len(),
        vstd::utf8::is_char_boundary(s.spec_bytes(), j as int),
    ensures
        r.spec_bytes() == s.spec_bytes().subrange(0, j as int),
{
    let (head, _) = s.split_at(j);
    head
}

/// The tail of `s` from byte `i` on, cut at a character boundary.
fn str_tail<'a>(s: &'a str, i: usize) -> (r: &'a str)
    requires
        i <= s.spec_bytes().len(),
        vstd::utf8::is_char_boundary(s.spec_bytes(), i as int),
    ensures
        r.spec_bytes() == s.spec_bytes().skip(i as int),
{
    let (_, piece) = s.split_at(i);
    proof {
        assert(piece.spec_bytes() =~= s.spec_bytes().skip(i as int));
    }
    piece
}

/// The port in `b[lo..hi]`, or the scheme's default when those bytes are not
/// a port number.
fn port_or_default(b: &[u8], lo: usize, hi: usize, fallback: u16) -> (r: u16)
    requires
        lo <= hi <= b@.len(),
    ensures
        r == spec_port_or(b@.subrange(lo as int, hi as int), fallback),
{
    match parse_u16_range(b, lo, hi) {
        Some(p) => p,
        None => fallback,
    }
}

/// Parse `b[lo..hi]` as `u16::from_str` would.
#[verifier::loop_isolation(false)]
fn parse_u16_range(b: &[u8], lo: usize, hi: usize) -> (r: Option<u16>)
    requires
        lo <= hi <= b@.len(),
    ensures
        r == spec_parse_u16(b@.subrange(lo as int, hi as int)),
{
    let ghost v = b@.subrange(lo as int, hi as int);
    let mut a = lo;
    if lo < hi && b[lo] == 43 {
        proof {
            assert(v[0] == 43);
            assert(v.skip(1) =~= b@.subrange(lo + 1, hi as int));
        }
        a = a + 1;
    }
    let ghost d = b@.subrange(a as int, hi as int);
    proof {
        if a == lo {
            assert(v.len() > 0 ==> v[0] == b@[lo as int]);
            assert(d =~= v);
        }
    }
    if a == hi {
        return None;
    }
    let mut value: u32 = 0;
    let mut i = a;
    while i < hi
        invariant
            a <= i <= hi,
            crate::headers::all_dec(d.subrange(0, i - a)),
            value == dec_value(d.subrange(0, i - a)),
            value <= 65535,
        decreases hi - i,
    {
        let c = b[i];
        if !(48 <= c && c <= 57) {
            proof {
                assert(d[i - a] == c);
                assert(!crate::headers::all_dec(d));
            }
            return None;
        }
        let next = value * 10 + (c - 48) as u32;
        proof {
            assert(d.subrange(0, i - a + 1).drop_last() =~= d.subrange(0, i - a));
            assert(d.subrange(0, i - a + 1).last() == c);
        }
        if next > 65535 {
            proof {
                crate::headers::lemma_dec_value_grows(d, i - a + 1);
            }
            return None;
        }
        value = next;
        i = i + 1;
    }
    proof {
        assert(d.subrange(0, (hi - a) as int) =~= d);
    }
    Some(value as u16)
}

} // verus!
