//! Well-known header values: content types and transfer encodings.

use vstd::prelude::*;
use vstd::string::StringSliceAdditionalSpecFns;

use crate::bytebuf::slice_eq;

verus! {

/// HTTP content types, a small closed set. Unknown types are preserved as
/// `application/octet-stream`, not rejected.
#[derive(Clone, Copy, Debug, PartialEq, Eq, Structural)]
pub enum ContentType {
    TextHtml,
    TextPlain,
    ApplicationJson,
    ApplicationCbor,
    ApplicationOctetStream,
}

/// The canonical serialisation of each content type.
pub open spec fn spec_content_type_bytes(ct: ContentType) -> Seq<u8> {
    match ct {
        ContentType::TextHtml => "text/html".spec_bytes(),
        ContentType::TextPlain => "text/plain".spec_bytes(),
        ContentType::ApplicationJson => "application/json".spec_bytes(),
        ContentType::ApplicationCbor => "application/cbor".spec_bytes(),
        ContentType::ApplicationOctetStream => "application/octet-stream".spec_bytes(),
    }
}

/// The total mapping from a header value to a content type: every
/// unrecognised value collapses to `application/octet-stream`.
pub open spec fn spec_content_type_of(v: Seq<u8>) -> ContentType {
    if v == "application/json".spec_bytes() {
        ContentType::ApplicationJson
    } else if v == "application/cbor".spec_bytes() {
        ContentType::ApplicationCbor
    } else if v == "text/html".spec_bytes() {
        ContentType::TextHtml
    } else if v == "text/plain".spec_bytes() {
        ContentType::TextPlain
    } else {
        ContentType::ApplicationOctetStream
    }
}

impl ContentType {
    /// The mapping of `spec_content_type_of`, over a raw header value.
    pub fn from_bytes(v: &[u8]) -> (r: ContentType)
        ensures
            r == spec_content_type_of(v@),
    {
        if slice_eq(v, "application/json".as_bytes()) {
            ContentType::ApplicationJson
        } else if slice_eq(v, "application/cbor".as_bytes()) {
            ContentType::ApplicationCbor
        } else if slice_eq(v, "text/html".as_bytes()) {
            ContentType::TextHtml
        } else if slice_eq(v, "text/plain".as_bytes()) {
            ContentType::TextPlain
        } else {
            ContentType::ApplicationOctetStream
        }
    }

    /// The canonical name of the content type.
    pub fn as_str(&self) -> (r: &'static str)
        ensures
            r.spec_bytes() == spec_content_type_bytes(*self),
    {
        match self {
            ContentType::TextHtml => "text/html",
            ContentType::TextPlain => "text/plain",
            ContentType::ApplicationJson => "application/json",
            ContentType::ApplicationCbor => "application/cbor",
            ContentType::ApplicationOctetStream => "application/octet-stream",
        }
    }
}

impl<'a> From<&'a [u8]> for ContentType {
    fn from(from: &'a [u8]) -> (r: ContentType)
    {
        ContentType::from_bytes(from)
    }
}

impl<'a> vstd::std_specs::convert::FromSpecImpl<&'a [u8]> for ContentType {
    open spec fn obeys_from_spec() -> bool {
        true
    }

    open spec fn from_spec(from: &'a [u8]) -> ContentType {
        spec_content_type_of(from@)
    }
}

/// Transfer encodings. Only `chunked` affects framing; the others are
/// recorded but not decoded.
#[derive(Clone, Copy, Debug, PartialEq, Eq, Structural)]
pub enum TransferEncoding {
    Chunked,
    Compress,
    Deflate,
    Gzip,
}

/// The canonical serialisation of each transfer encoding.
pub open spec fn spec_transfer_encoding_bytes(te: TransferEncoding) -> Seq<u8> {
    match te {
        TransferEncoding::Chunked => "chunked".spec_bytes(),
        TransferEncoding::Compress => "compress".spec_bytes(),
        TransferEncoding::Deflate => "deflate".spec_bytes(),
        TransferEncoding::Gzip => "gzip".spec_bytes(),
    }
}

/// The partial mapping from a header value to a transfer encoding.
pub open spec fn spec_transfer_encoding_of(v: Seq<u8>) -> Option<TransferEncoding> {
    if v == "chunked".spec_bytes() {
        Some(TransferEncoding::Chunked)
    } else if v == "compress".spec_bytes() {
        Some(TransferEncoding::Compress)
    } else if v == "deflate".spec_bytes() {
        Some(TransferEncoding::Deflate)
    } else if v == "gzip".spec_bytes() {
        Some(TransferEncoding::Gzip)
    } else {
        None
    }
}

impl TransferEncoding {
    /// The mapping of `spec_transfer_encoding_of`, over a raw header value;
    /// an unrecognised value is an error.
    pub fn from_bytes(v: &[u8]) -> (r: Result<TransferEncoding, ()>)
        ensures
            match r {
                Ok(te) => spec_transfer_encoding_of(v@) == Some(te),
                Err(()) => spec_transfer_encoding_of(v@) is None,
            },
    {
        if slice_eq(v, "chunked".as_bytes()) {
            Ok(TransferEncoding::Chunked)
        } else if slice_eq(v, "compress".as_bytes()) {
            Ok(TransferEncoding::Compress)
        } else if slice_eq(v, "deflate".as_bytes()) {
            Ok(TransferEncoding::Deflate)
        } else if slice_eq(v, "gzip".as_bytes()) {
            Ok(TransferEncoding::Gzip)
        } else {
            Err(())
        }
    }

    /// The canonical name of the transfer encoding.
    pub fn as_str(&self) -> (r: &'static str)
        ensures
            r.spec_bytes() == spec_transfer_encoding_bytes(*self),
    {
        match self {
            TransferEncoding::Deflate => "deflate",
            TransferEncoding::Chunked => "chunked",
            TransferEncoding::Compress => "compress",
            TransferEncoding::Gzip => "gzip",
        }
    }
}

impl<'a> TryFrom<&'a [u8]> for TransferEncoding {
    type Error = ();

    fn try_from(value: &'a [u8]) -> (r: Result<TransferEncoding, ()>)
    {
        let r = TransferEncoding::from_bytes(value);
        proof {
            match r {
                Ok(te) => {
                    assert(spec_transfer_encoding_of(value@) == Some(te));
                },
                Err(e) => {
                    assert(spec_transfer_encoding_of(value@) is None);
                    assert(e == ());
                },
            }
        }
        r
    }
}

impl<'a> vstd::std_specs::convert::TryFromSpecImpl<&'a [u8]> for TransferEncoding {
    open spec fn obeys_try_from_spec() -> bool {
        true
    }

    open spec fn try_from_spec(value: &'a [u8]) -> Result<TransferEncoding, ()> {
        match spec_transfer_encoding_of(value@) {
            Some(te) => Ok(te),
            None => Err(()),
        }
    }
}

} // verus!

verus! {

/// Keep-alive parameters: optional timeout and maximum request count,
/// parsed from a comma-separated key=value list with case-insensitive keys.
#[derive(Clone, Copy, Debug, PartialEq, Eq, Structural)]
pub struct KeepAlive {
    pub timeout: Option<u8>,
    pub max: Option<u8>,
}

/// An ASCII whitespace byte, as `trim` removes at a value's ends.
pub open spec fn is_ws(b: u8) -> bool {
    b == 9 || b == 10 || b == 11 || b == 12 || b == 13 || b == 32
}

/// A byte string without leading whitespace.
pub open spec fn trim_front(s: Seq<u8>) -> Seq<u8>
    decreases s.len(),
{
    if s.len() > 0 && is_ws(s[0]) {
        trim_front(s.skip(1))
    } else {
        s
    }
}

/// A byte string without trailing whitespace.
pub open spec fn trim_back(s: Seq<u8>) -> Seq<u8>
    decreases s.len(),
{
    if s.len() > 0 && is_ws(s.last()) {
        trim_back(s.drop_last())
    } else {
        s
    }
}

/// A byte string without whitespace at either end.
pub open spec fn trim_of(s: Seq<u8>) -> Seq<u8> {
    trim_back(trim_front(s))
}

/// The position of the first occurrence of `b`.
pub open spec fn find_byte(s: Seq<u8>, b: u8) -> Option<int>
    decreases s.len(),
{
    if s.len() == 0 {
        None
    } else if s[0] == b {
        Some(0int)
    } else {
        match find_byte(s.skip(1), b) {
            Some(i) => Some(i + 1),
            None => None,
        }
    }
}

/// The found position lies within the string, at its byte.
pub proof fn lemma_find_byte_bounds(s: Seq<u8>, b: u8)
    ensures
        find_byte(s, b) matches Some(i) ==> 0 <= i < s.len() && s[i] == b,
    decreases s.len(),
{
    if s.len() > 0 && s[0] != b {
        lemma_find_byte_bounds(s.skip(1), b);
    }
}

/// The pieces of `s` between occurrences of `sep`, in order.
pub open spec fn split_on(s: Seq<u8>, sep: u8) -> Seq<Seq<u8>>
    decreases s.len(),
    via split_on_dec
{
    match find_byte(s, sep) {
        None => seq![s],
        Some(i) => seq![s.take(i)] + split_on(s.skip(i + 1), sep),
    }
}

#[via_fn]
proof fn split_on_dec(s: Seq<u8>, sep: u8) {
    lemma_find_byte_bounds(s, sep);
}

/// The lower-case form of an ASCII byte.
pub open spec fn ascii_lower(b: u8) -> u8 {
    if 65 <= b <= 90 {
        (b + 32) as u8
    } else {
        b
    }
}

/// Byte strings equal up to ASCII case.
pub open spec fn eq_ignore_case(a: Seq<u8>, b: Seq<u8>) -> bool {
    a.len() == b.len() && forall|i: int|
        0 <= i < a.len() ==> ascii_lower(#[trigger] a[i]) == ascii_lower(b[i])
}

/// A decimal digit.
pub open spec fn is_dec_digit(b: u8) -> bool {
    48 <= b <= 57
}

/// Every byte is a decimal digit.
pub open spec fn all_dec(s: Seq<u8>) -> bool {
    forall|i: int| 0 <= i < s.len() ==> is_dec_digit(#[trigger] s[i])
}

/// The value of a big-endian decimal digit string.
pub open spec fn dec_value(s: Seq<u8>) -> nat
    decreases s.len(),
{
    if s.len() == 0 {
        0
    } else {
        dec_value(s.drop_last()) * 10 + (s.last() - 48) as nat
    }
}

/// What `u8::from_str` accepts: an optional plus sign, then decimal digits
/// whose value fits in eight bits.
pub open spec fn spec_parse_u8(v: Seq<u8>) -> Option<u8> {
    let d = if v.len() > 0 && v[0] == 43 {
        v.skip(1)
    } else {
        v
    };
    if d.len() == 0 || !all_dec(d) || dec_value(d) > 255 {
        None
    } else {
        Some(dec_value(d) as u8)
    }
}

/// One `key=value` element applied to the parameters gathered so far; an
/// element without `=`, or with an unknown key, changes nothing.
pub open spec fn spec_apply_part(acc: KeepAlive, part: Seq<u8>) -> KeepAlive {
    match find_byte(part, 61) {
        None => acc,
        Some(i) => {
            let key = trim_of(part.take(i));
            let segs = split_on(part.skip(i + 1), 61);
            let value = trim_of(segs[0]);
            if eq_ignore_case(key, "timeout".spec_bytes()) {
                KeepAlive { timeout: spec_parse_u8(value), max: acc.max }
            } else if eq_ignore_case(key, "max".spec_bytes()) {
                KeepAlive { timeout: acc.timeout, max: spec_parse_u8(value) }
            } else {
                acc
            }
        },
    }
}

/// The elements applied left to right; a later element overrides an earlier
/// one.
pub open spec fn spec_keep_alive_fold(acc: KeepAlive, parts: Seq<Seq<u8>>) -> KeepAlive
    decreases parts.len(),
{
    if parts.len() == 0 {
        acc
    } else {
        spec_keep_alive_fold(spec_apply_part(acc, parts[0]), parts.skip(1))
    }
}

/// The keep-alive parameters carried by a header value; a value that is not
/// UTF-8 is rejected.
pub open spec fn spec_keep_alive_of(v: Seq<u8>) -> Option<KeepAlive> {
    if vstd::utf8::valid_utf8(v) {
        Some(
            spec_keep_alive_fold(
                KeepAlive { timeout: None, max: None },
                split_on(v, 44),
            ),
        )
    } else {
        None
    }
}

/// Relies on core::str::from_utf8: it returns `Ok` exactly on valid UTF-8,
/// and the checked bytes are returned unchanged.
#[verifier::external_body]
fn check_utf8(v: &[u8]) -> (r: bool)
    ensures
        r <==> vstd::utf8::valid_utf8(v@),
{
    core::str::from_utf8(v).is_ok()
}

/// The position of the first occurrence of `b` in `s[from..]`, if any.
pub fn find_byte_from(s: &[u8], from: usize, b: u8) -> (r: Option<usize>)
    requires
        from <= s@.len(),
    ensures
        match r {
            Some(i) => from <= i < s@.len() && find_byte(s@.skip(from as int), b) == Some(
                i - from,
            ),
            None => find_byte(s@.skip(from as int), b) is None,
        },
    decreases s@.len() - from,
{
    if from == s.len() {
        return None;
    }
    if s[from] == b {
        proof {
            assert(s@.skip(from as int)[0] == b);
        }
        return Some(from);
    }
    proof {
        assert(s@.skip(from as int)[0] != b);
        assert(s@.skip(from as int).skip(1) =~= s@.skip(from + 1));
    }
    match find_byte_from(s, from + 1, b) {
        Some(i) => Some(i),
        None => None,
    }
}

/// The bounds of `s[lo..hi]` after trimming whitespace from both ends.
fn trim_range(s: &[u8], lo: usize, hi: usize) -> (r: (usize, usize))
    requires
        lo <= hi <= s@.len(),
    ensures
        lo <= r.0 <= r.1 <= hi,
        s@.subrange(r.0 as int, r.1 as int) == trim_of(s@.subrange(lo as int, hi as int)),
{
    let mut a = lo;
    let mut z = hi;
    while a < z && (s[a] == 9 || s[a] == 10 || s[a] == 11 || s[a] == 12 || s[a] == 13 || s[a]
        == 32)
        invariant
            lo <= a <= z <= hi <= s@.len(),
            trim_front(s@.subrange(lo as int, hi as int)) == trim_front(
                s@.subrange(a as int, z as int),
            ),
            z == hi,
        decreases z - a,
    {
        proof {
            assert(s@.subrange(a as int, z as int)[0] == s@[a as int]);
            assert(s@.subrange(a as int, z as int).skip(1) =~= s@.subrange(a + 1, z as int));
        }
        a = a + 1;
    }
    proof {
        assert(trim_front(s@.subrange(a as int, z as int)) == s@.subrange(a as int, z as int));
    }
    while a < z && (s[z - 1] == 9 || s[z - 1] == 10 || s[z - 1] == 11 || s[z - 1] == 12 || s[z - 1]
        == 13 || s[z - 1] == 32)
        invariant
            lo <= a <= z <= hi <= s@.len(),
            trim_of(s@.subrange(lo as int, hi as int)) == trim_back(
                s@.subrange(a as int, z as int),
            ),
        decreases z - a,
    {
        proof {
            assert(s@.subrange(a as int, z as int).last() == s@[z - 1]);
            assert(s@.subrange(a as int, z as int).drop_last() =~= s@.subrange(a as int, z - 1));
        }
        z = z - 1;
    }
    proof {
        assert(trim_back(s@.subrange(a as int, z as int)) == s@.subrange(a as int, z as int));
    }
    (a, z)
}

/// Whether `s[lo..hi]` equals `key` up to ASCII case.
fn range_eq_ignore_case(s: &[u8], lo: usize, hi: usize, key: &[u8]) -> (r: bool)
    requires
        lo <= hi <= s@.len(),
    ensures
        r <==> eq_ignore_case(s@.subrange(lo as int, hi as int), key@),
{
    if hi - lo != key.len() {
        return false;
    }
    let n = key.len();
    let mut i: usize = 0;
    while i < n
        invariant
            0 <= i <= n,
            n == key@.len() == hi - lo,
            lo <= hi <= s@.len(),
            forall|j: int|
                0 <= j < i ==> ascii_lower(#[trigger] s@.subrange(lo as int, hi as int)[j])
                    == ascii_lower(key@[j]),
        decreases n - i,
    {
        let mut a = s[lo + i];
        let mut b = key[i];
        if 65 <= a && a <= 90 {
            a = a + 32;
        }
        if 65 <= b && b <= 90 {
            b = b + 32;
        }
        if a != b {
            proof {
                assert(s@.subrange(lo as int, hi as int)[i as int] == s@[lo + i]);
            }
            return false;
        }
        proof {
            assert(s@.subrange(lo as int, hi as int)[i as int] == s@[lo + i]);
        }
        i = i + 1;
    }
    true
}

/// Parse `s[lo..hi]` as `u8::from_str` would.
#[verifier::loop_isolation(false)]
fn parse_u8_range(s: &[u8], lo: usize, hi: usize) -> (r: Option<u8>)
    requires
        lo <= hi <= s@.len(),
    ensures
        r == spec_parse_u8(s@.subrange(lo as int, hi as int)),
{
    let ghost v = s@.subrange(lo as int, hi as int);
    let mut a = lo;
    if lo < hi && s[lo] == 43 {
        proof {
            assert(v[0] == 43);
            assert(v.skip(1) =~= s@.subrange(lo + 1, hi as int));
        }
        a = a + 1;
    }
    let ghost d = s@.subrange(a as int, hi as int);
    proof {
        if a == lo {
            assert(v.len() > 0 ==> v[0] == s@[lo as int]);
            assert(d =~= v);
        }
    }
    if a == hi {
        return None;
    }
    let mut value: u32 = 0;
    let mut i = a;
    while i < hi
        invariant
            a <= i <= hi <= s@.len(),
            d == s@.subrange(a as int, hi as int),
            all_dec(d.subrange(0, i - a)),
            value == dec_value(d.subrange(0, i - a)),
            value <= 255,
        decreases hi - i,
    {
        let b = s[i];
        if !(48 <= b && b <= 57) {
            proof {
                assert(d[i - a] == b);
                assert(!all_dec(d));
            }
            return None;
        }
        let next = value * 10 + (b - 48) as u32;
        proof {
            assert(d.subrange(0, i - a + 1).drop_last() =~= d.subrange(0, i - a));
            assert(d.subrange(0, i - a + 1).last() == b);
        }
        if next > 255 {
            proof {
                lemma_dec_value_grows(d, i - a + 1);
            }
            return None;
        }
        value = next;
        i = i + 1;
    }
    proof {
        assert(d.subrange(0, (hi - a) as int) =~= d);
    }
    Some(value as u8)
}

/// Adding digits to a decimal string never lowers its value.
pub proof fn lemma_dec_value_grows(d: Seq<u8>, k: int)
    requires
        0 <= k <= d.len(),
    ensures
        dec_value(d) >= dec_value(d.subrange(0, k)),
    decreases d.len() - k,
{
    if k < d.len() {
        lemma_dec_value_grows(d, k + 1);
        assert(d.subrange(0, k + 1).drop_last() =~= d.subrange(0, k));
        assert(dec_value(d.subrange(0, k + 1)) >= dec_value(d.subrange(0, k)));
    } else {
        assert(d.subrange(0, k) =~= d);
    }
}

impl KeepAlive {
    /// Parse a Keep-Alive header value; a value that is not UTF-8 is a codec
    /// error.
    #[verifier::loop_isolation(false)]
    #[verifier::rlimit(100)]
    pub fn parse(from: &[u8]) -> (r: Result<KeepAlive, crate::Error>)
        ensures
            match r {
                Ok(ka) => spec_keep_alive_of(from@) == Some(ka),
                Err(e) => e == crate::Error::Codec && spec_keep_alive_of(from@) is None,
            },
    {
        if !check_utf8(from) {
            return Err(crate::Error::Codec);
        }
        let flen = from.len();
        let mut acc = KeepAlive { timeout: None, max: None };
        let mut start: usize = 0;
        proof {
            assert(from@.skip(0) =~= from@);
        }
        loop
            invariant
                start <= from@.len(),
                spec_keep_alive_fold(
                    KeepAlive { timeout: None, max: None },
                    split_on(from@, 44),
                ) == spec_keep_alive_fold(acc, split_on(from@.skip(start as int), 44)),
            decreases from@.len() - start,
        {
            match find_byte_from(from, start, 44) {
                Some(i) => {
                    acc = apply_part(acc, from, start, i);
                    proof {
                        let rest = from@.skip(start as int);
                        let parts = split_on(rest, 44);
                        assert(rest.take(i - start) =~= from@.subrange(start as int, i as int));
                        assert(rest.skip(i - start + 1) =~= from@.skip(i + 1));
                        assert(parts[0] == from@.subrange(start as int, i as int));
                        assert(parts.skip(1) =~= split_on(from@.skip(i + 1), 44));
                    }
                    start = i + 1;
                },
                None => {
                    let new_acc = apply_part(acc, from, start, from.len());
                    proof {
                        let rest = from@.skip(start as int);
                        let parts = split_on(rest, 44);
                        assert(rest =~= from@.subrange(start as int, from@.len() as int));
                        assert(parts =~= seq![rest]);
                        assert(parts[0] == rest);
                        assert(parts.skip(1) =~= Seq::<Seq<u8>>::empty());
                        assert(spec_keep_alive_fold(
                            spec_apply_part(acc, rest),
                            Seq::<Seq<u8>>::empty(),
                        ) == spec_apply_part(acc, rest));
                        assert(spec_keep_alive_fold(acc, parts) == spec_apply_part(acc, rest));
                        assert(new_acc == spec_apply_part(acc, rest));
                    }
                    return Ok(new_acc);
                },
            }
        }
    }
}

/// Apply the `key=value` element at `s[lo..hi]` to the parameters so far.
fn apply_part(acc: KeepAlive, s: &[u8], lo: usize, hi: usize) -> (r: KeepAlive)
    requires
        lo <= hi <= s@.len(),
    ensures
        r == spec_apply_part(acc, s@.subrange(lo as int, hi as int)),
{
    let ghost part = s@.subrange(lo as int, hi as int);
    let found = find_byte_from(s, lo, 61);
    match found {
        Some(eq_pos) if eq_pos < hi => {
            proof {
                lemma_find_byte_subrange(s@, lo as int, hi as int, eq_pos as int, 61);
            }
            let (klo, khi) = trim_range(s, lo, eq_pos);
            // The value runs to the next '=' inside the element, or its end.
            let next_eq = find_byte_from(s, eq_pos + 1, 61);
            let vend = match next_eq {
                Some(j) if j < hi => j,
                _ => hi,
            };
            proof {
                assert(part.take(eq_pos - lo) =~= s@.subrange(lo as int, eq_pos as int));
                assert(part.skip(eq_pos - lo + 1) =~= s@.subrange(eq_pos + 1, hi as int));
                lemma_split_first_seg(
                    part.skip(eq_pos - lo + 1),
                    s@,
                    eq_pos + 1,
                    hi as int,
                    vend as int,
                );
            }
            let (vlo, vhi) = trim_range(s, eq_pos + 1, vend);
            let is_timeout = range_eq_ignore_case(s, klo, khi, "timeout".as_bytes());
            let is_max = range_eq_ignore_case(s, klo, khi, "max".as_bytes());
            if is_timeout {
                KeepAlive { timeout: parse_u8_range(s, vlo, vhi), max: acc.max }
            } else if is_max {
                KeepAlive { timeout: acc.timeout, max: parse_u8_range(s, vlo, vhi) }
            } else {
                acc
            }
        },
        _ => {
            proof {
                lemma_no_find_in_subrange(s@, lo as int, hi as int, 61);
            }
            acc
        },
    }
}

/// Locating a byte in the enclosing string locates it in the piece.
proof fn lemma_find_byte_subrange(s: Seq<u8>, lo: int, hi: int, at: int, b: u8)
    requires
        0 <= lo <= at < hi <= s.len(),
        find_byte(s.skip(lo), b) == Some(at - lo),
    ensures
        find_byte(s.subrange(lo, hi), b) == Some(at - lo),
    decreases at - lo,
{
    let piece = s.subrange(lo, hi);
    let whole = s.skip(lo);
    if at == lo {
        assert(whole[0] == b) by {
            if whole[0] != b {
                lemma_find_byte_bounds(whole.skip(1), b);
            }
        }
        assert(piece[0] == b);
    } else {
        assert(whole[0] != b) by {
            if whole[0] == b {
                assert(find_byte(whole, b) == Some(0int));
            }
        }
        assert(piece[0] != b);
        assert(whole.skip(1) =~= s.skip(lo + 1));
        assert(piece.skip(1) =~= s.subrange(lo + 1, hi));
        lemma_find_byte_subrange(s, lo + 1, hi, at, b);
    }
}

/// A byte absent past `lo` is absent from any piece starting there.
proof fn lemma_no_find_in_subrange(s: Seq<u8>, lo: int, hi: int, b: u8)
    requires
        0 <= lo <= hi <= s.len(),
        ({
            ||| find_byte(s.skip(lo), b) is None
            ||| (find_byte(s.skip(lo), b) matches Some(i) && i + lo >= hi)
        }),
    ensures
        find_byte(s.subrange(lo, hi), b) is None,
    decreases hi - lo,
{
    let piece = s.subrange(lo, hi);
    let whole = s.skip(lo);
    if lo < hi {
        assert(whole[0] != b) by {
            if whole[0] == b {
                assert(find_byte(whole, b) == Some(0int));
            }
        }
        assert(piece[0] != b);
        assert(whole.skip(1) =~= s.skip(lo + 1));
        assert(piece.skip(1) =~= s.subrange(lo + 1, hi));
        match find_byte(s.skip(lo), b) {
            Some(i) => {
                assert(find_byte(s.skip(lo + 1), b) == Some(i - 1));
            },
            None => {
                assert(find_byte(s.skip(lo + 1), b) is None);
            },
        }
        lemma_no_find_in_subrange(s, lo + 1, hi, b);
    }
}

/// The first piece of a split matches the scan for the separator.
proof fn lemma_split_first_seg(part: Seq<u8>, s: Seq<u8>, lo: int, hi: int, vend: int)
    requires
        0 <= lo <= vend <= hi <= s.len(),
        part == s.subrange(lo, hi),
        vend < hi ==> find_byte(s.skip(lo), 61) == Some(vend - lo),
        vend == hi ==> ({
            ||| find_byte(s.skip(lo), 61) is None
            ||| (find_byte(s.skip(lo), 61) matches Some(i) && i + lo >= hi)
        }),
    ensures
        split_on(part, 61)[0] == s.subrange(lo, vend),
{
    if vend < hi {
        lemma_find_byte_subrange(s, lo, hi, vend, 61);
        assert(split_on(part, 61)[0] == part.take(vend - lo));
        assert(part.take(vend - lo) =~= s.subrange(lo, vend));
    } else {
        lemma_no_find_in_subrange(s, lo, hi, 61);
        assert(split_on(part, 61)[0] == part);
        assert(part =~= s.subrange(lo, vend));
    }
}

} // verus!
