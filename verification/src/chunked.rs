//! The chunked transfer-coding decoder: parses hex chunk sizes, enforces
//! CRLF framing, and drives the transitions between chunks and end of body.

use vstd::prelude::*;

use crate::encoding::{
    all_chunks_nonempty, chunk_encoding, chunked_encoding, crlf, encode_chunks, flatten, hex_rep,
    terminator, CR, LF,
};
use crate::io::Read;
use crate::reader::{buffered_remaining, BufferingReader};
use crate::{Error, ErrorKind};

verus! {

/// Progress through the current chunk: no chunk-size line read yet, a chunk
/// with so many payload bytes left, or the terminating empty chunk seen.
#[derive(Clone, Copy, PartialEq, Eq, Structural, Debug)]
pub enum ChunkState {
    NoChunk,
    NotEmpty(u32),
    Empty,
}

impl ChunkState {
    /// Take up to `amt` bytes off the open chunk's counter; only an open
    /// chunk has bytes to consume.
    pub fn consume(&mut self, amt: usize) -> (consumed: usize)
        ensures
            match *old(self) {
                ChunkState::NotEmpty(remaining) => {
                    &&& consumed == if amt <= remaining as nat {
                        amt as int
                    } else {
                        remaining as int
                    }
                    &&& *final(self) == ChunkState::NotEmpty((remaining - consumed) as u32)
                },
                _ => consumed == 0 && *final(self) == *old(self),
            },
    {
        match self {
            ChunkState::NotEmpty(remaining) => {
                let consumed: u32 = if amt < *remaining as usize {
                    amt as u32
                } else {
                    *remaining
                };
                *remaining = *remaining - consumed;
                consumed as usize
            },
            _ => 0,
        }
    }

    /// The bytes left in the open chunk; zero in any other state.
    pub fn len(self) -> (r: usize)
        ensures
            r == match self {
                ChunkState::NotEmpty(n) => n as int,
                _ => 0,
            },
    {
        if let ChunkState::NotEmpty(len) = self {
            len as usize
        } else {
            0
        }
    }
}

/// An ASCII hex digit, either case.
pub open spec fn is_hex_digit(b: u8) -> bool {
    (48 <= b <= 57) || (97 <= b <= 102) || (65 <= b <= 70)
}

/// The value of one hex digit.
pub open spec fn hex_digit_value(b: u8) -> nat {
    if 48 <= b <= 57 {
        (b - 48) as nat
    } else if 97 <= b <= 102 {
        (b - 87) as nat
    } else {
        (b - 55) as nat
    }
}

/// Every byte is a hex digit.
pub open spec fn all_hex(s: Seq<u8>) -> bool {
    forall|j: int| 0 <= j < s.len() ==> is_hex_digit(#[trigger] s[j])
}

/// The value of a big-endian string of hex digits; leading zeros are
/// permitted and ignored, and no digits at all mean zero.
pub open spec fn hex_value(digits: Seq<u8>) -> nat
    decreases digits.len(),
{
    if digits.len() == 0 {
        0
    } else {
        hex_value(digits.drop_last()) * 16 + hex_digit_value(digits.last())
    }
}

/// The outcome of reading one chunk-size line.
pub enum SizeParse {
    /// A size line of `consumed` bytes carrying `value`.
    SizeFound { value: nat, consumed: int },
    /// The framing is wrong: a lone LF, a missing CR, a non-hex digit, or an
    /// overlong size.
    SizeBad,
    /// The bytes end before the size line does.
    SizeShort,
}

/// Scan for the LF ending the size line, mirroring a ten-byte window: eight
/// hex digits at most, then CR LF.
pub open spec fn scan_size(s: Seq<u8>, i: int) -> SizeParse
    decreases 10 - i,
{
    if i < 0 || i > 9 {
        SizeParse::SizeBad
    } else if i >= s.len() {
        SizeParse::SizeShort
    } else if s[i] == LF {
        if i == 0 || s[i - 1] != CR || !all_hex(s.subrange(0, i - 1)) {
            SizeParse::SizeBad
        } else {
            SizeParse::SizeFound { value: hex_value(s.subrange(0, i - 1)), consumed: i + 1 }
        }
    } else if i == 9 {
        SizeParse::SizeBad
    } else {
        scan_size(s, i + 1)
    }
}

/// The chunk-size line at the front of `s`.
pub open spec fn spec_size_line(s: Seq<u8>) -> SizeParse {
    scan_size(s, 0)
}

/// The outcome of decoding a chunked body.
pub enum Decoded {
    /// The body decodes to `payload`, consuming `consumed` wire bytes.
    Done { payload: Seq<u8>, consumed: int },
    /// The framing is malformed.
    Bad,
    /// The bytes end before the body does.
    Short,
}

/// What a chunked decoder in state `st` reads from the wire bytes `s`: the
/// remaining payload and how many wire bytes it consumes. Entering the
/// `Empty` state consumes the final CRLF at once, so `Empty` consumes
/// nothing further.
pub open spec fn decode_from(st: ChunkState, s: Seq<u8>) -> Decoded
    decreases s.len(), 2int,
{
    match st {
        ChunkState::Empty => Decoded::Done { payload: Seq::empty(), consumed: 0 },
        ChunkState::NotEmpty(k) => {
            if k == 0 {
                if s.len() < 2 {
                    Decoded::Short
                } else if s[0] == CR && s[1] == LF {
                    decode_size_then(s.skip(2), 2)
                } else {
                    Decoded::Bad
                }
            } else {
                if s.len() < k as int {
                    Decoded::Short
                } else {
                    match decode_from(ChunkState::NotEmpty(0), s.skip(k as int)) {
                        Decoded::Done { payload, consumed } => Decoded::Done {
                            payload: s.take(k as int) + payload,
                            consumed: k + consumed,
                        },
                        Decoded::Bad => Decoded::Bad,
                        Decoded::Short => Decoded::Short,
                    }
                }
            }
        },
        ChunkState::NoChunk => decode_size_then(s, 0),
    }
}

/// Decode a size line at the front of `s`, then the rest of the body; a zero
/// size is the terminating chunk and must be followed by its own CRLF.
pub open spec fn decode_size_then(s: Seq<u8>, already: int) -> Decoded
    decreases s.len(), 1int,
    via decode_size_then_dec
{
    match spec_size_line(s) {
        SizeParse::SizeBad => Decoded::Bad,
        SizeParse::SizeShort => Decoded::Short,
        SizeParse::SizeFound { value, consumed } => {
            if value == 0 {
                if s.len() < consumed + 2 {
                    Decoded::Short
                } else if s[consumed] == CR && s[consumed + 1] == LF {
                    Decoded::Done { payload: Seq::empty(), consumed: already + consumed + 2 }
                } else {
                    Decoded::Bad
                }
            } else {
                if s.len() < consumed + value {
                    Decoded::Short
                } else {
                    match decode_from(
                        ChunkState::NotEmpty(0),
                        s.skip(consumed + value as int),
                    ) {
                        Decoded::Done { payload, consumed: c2 } => Decoded::Done {
                            payload: s.subrange(consumed, consumed + value as int) + payload,
                            consumed: already + consumed + value + c2,
                        },
                        Decoded::Bad => Decoded::Bad,
                        Decoded::Short => Decoded::Short,
                    }
                }
            }
        },
    }
}

#[via_fn]
proof fn decode_size_then_dec(s: Seq<u8>, already: int) {
    lemma_scan_size_consumed(s, 0);
}

/// A found size line consumed at least its CR and LF.
proof fn lemma_scan_size_consumed(s: Seq<u8>, i: int)
    requires
        0 <= i,
    ensures
        scan_size(s, i) matches SizeParse::SizeFound { value, consumed } ==> consumed >= 2
            && consumed <= s.len(),
    decreases 10 - i,
{
    if 0 <= i <= 9 && i < s.len() && s[i] != LF && i < 9 {
        lemma_scan_size_consumed(s, i + 1);
    }
}

/// The hex round trip: the value of a number's hex representation is the
/// number, and the representation is all hex digits, at most eight of them
/// for any value below sixteen to the eighth.
pub proof fn lemma_hex_value_rep(n: nat)
    ensures
        hex_value(hex_rep(n)) == n,
        all_hex(hex_rep(n)),
        n < 0x100000000 ==> hex_rep(n).len() <= 8,
    decreases n,
{
    if n < 16 {
        assert(hex_rep(n) =~= seq![crate::encoding::hex_digit(n as u8)]);
        assert(hex_rep(n).drop_last() =~= Seq::<u8>::empty());
        assert(hex_rep(n).last() == crate::encoding::hex_digit(n as u8));
        assert(hex_value(Seq::<u8>::empty()) == 0);
        assert(hex_digit_value(crate::encoding::hex_digit(n as u8)) == n);
    } else {
        lemma_hex_value_rep(n / 16);
        assert(hex_rep(n).drop_last() =~= hex_rep(n / 16));
        assert(hex_rep(n).last() == crate::encoding::hex_digit((n % 16) as u8));
        assert(hex_digit_value(crate::encoding::hex_digit((n % 16) as u8)) == n % 16);
        assert(hex_value(hex_rep(n)) == (n / 16) * 16 + n % 16);
        assert((n / 16) * 16 + n % 16 == n) by (nonlinear_arith);
        assert(all_hex(hex_rep(n))) by {
            assert(forall|j: int|
                0 <= j < hex_rep(n).len() - 1 ==> hex_rep(n)[j] == hex_rep(n / 16)[j]);
            assert(is_hex_digit(hex_rep(n).last()));
            assert(forall|j: int|
                0 <= j < hex_rep(n).len() ==> is_hex_digit(#[trigger] hex_rep(n)[j]));
        }
    }
    if n < 0x100000000 {
        lemma_hex_len_le_8(n);
    }
}

proof fn lemma_hex_len_le_8(n: nat)
    requires
        n < 0x100000000,
    ensures
        hex_rep(n).len() <= 8,
{
    assert(n < crate::encoding::pow16(8)) by {
        reveal_with_fuel(crate::encoding::pow16, 9);
        assert(crate::encoding::pow16(8) == 0x100000000);
    }
    crate::encoding::lemma_hex_rep_len_le(n, 8);
}

/// A size line made of the hex representation of `n` followed by CRLF scans
/// back to `n`.
pub proof fn lemma_size_line_of_encoding(n: nat, tail: Seq<u8>)
    requires
        n < 0x100000000,
    ensures
        spec_size_line(hex_rep(n) + crlf() + tail) == (SizeParse::SizeFound {
            value: n,
            consumed: hex_rep(n).len() + 2int,
        }),
{
    let s = hex_rep(n) + crlf() + tail;
    let d = hex_rep(n).len() as int;
    lemma_hex_value_rep(n);
    assert(s.subrange(0, d) =~= hex_rep(n));
    assert(s[d] == CR);
    assert(s[d + 1] == LF);
    assert(forall|j: int| 0 <= j < d ==> is_hex_digit(#[trigger] s[j]) && s[j] != LF) by {
        assert(forall|j: int| 0 <= j < d ==> s[j] == hex_rep(n)[j]);
    }
    lemma_scan_reaches(s, d, 0);
}

/// Scanning from any position inside the digits reaches the LF and yields
/// the digits' value.
proof fn lemma_scan_reaches(s: Seq<u8>, d: int, i: int)
    requires
        0 <= i <= d + 1,
        0 <= d <= 8,
        d + 1 < s.len(),
        forall|j: int| 0 <= j < d ==> is_hex_digit(#[trigger] s[j]) && s[j] != LF,
        s[d] == CR,
        s[d + 1] == LF,
        all_hex(s.subrange(0, d)),
    ensures
        scan_size(s, i) == (SizeParse::SizeFound {
            value: hex_value(s.subrange(0, d)),
            consumed: d + 2,
        }),
    decreases d + 2 - i,
{
    if i == d + 1 {
        assert(s[i] == LF);
        assert(s[i - 1] == CR);
        assert(s.subrange(0, i - 1) =~= s.subrange(0, d));
    } else if i == d {
        assert(s[i] == CR);
        assert(s[i] != LF) by {
            assert(CR != LF);
        }
        lemma_scan_reaches(s, d, i + 1);
    } else {
        assert(s[i] != LF);
        lemma_scan_reaches(s, d, i + 1);
    }
}

/// Buffering is semantics-preserving: whenever a writer has laid down a
/// valid chunked encoding of chunks that concatenate to the caller's body,
/// the decoder reads exactly that body back, whatever follows on the wire
/// and however the writes were regrouped into chunks.
pub proof fn lemma_chunked_writer_decodes_back(cs: Seq<Seq<u8>>, body: Seq<u8>, tail: Seq<u8>)
    requires
        all_chunks_nonempty(cs),
        forall|i: int| 0 <= i < cs.len() ==> #[trigger] cs[i].len() < 0x100000000,
        flatten(cs) == body,
    ensures
        decode_from(ChunkState::NoChunk, chunked_encoding(cs) + tail) == (Decoded::Done {
            payload: body,
            consumed: chunked_encoding(cs).len() as int,
        }),
{
    lemma_chunked_round_trip(cs, tail);
}

/// The buffering writer is semantics-preserving against the streaming one:
/// the streaming writer frames each caller write as its own chunk, the
/// buffering writer regroups the same bytes into other non-empty chunks, and
/// both wires decode to exactly the same body.
pub proof fn lemma_buffering_matches_streaming(
    writes: Seq<Seq<u8>>,
    regrouped: Seq<Seq<u8>>,
    tail: Seq<u8>,
)
    requires
        all_chunks_nonempty(writes),
        all_chunks_nonempty(regrouped),
        forall|i: int| 0 <= i < writes.len() ==> #[trigger] writes[i].len() < 0x100000000,
        forall|i: int| 0 <= i < regrouped.len() ==> #[trigger] regrouped[i].len() < 0x100000000,
        flatten(regrouped) == flatten(writes),
    ensures
        decode_from(ChunkState::NoChunk, chunked_encoding(writes) + tail)
            matches Decoded::Done { payload: p1, consumed: c1 } && decode_from(
            ChunkState::NoChunk,
            chunked_encoding(regrouped) + tail,
        ) matches Decoded::Done { payload: p2, consumed: c2 } && p1 == p2,
{
    lemma_chunked_round_trip(writes, tail);
    lemma_chunked_round_trip(regrouped, tail);
}

/// Decoding after a size line charges the caller's running total only in the
/// `consumed` count; the outcome is otherwise the same.
proof fn lemma_size_then_offset(s: Seq<u8>, a: int, b: int)
    ensures
        match decode_size_then(s, a) {
            Decoded::Done { payload, consumed } => decode_size_then(s, b) == (Decoded::Done {
                payload,
                consumed: consumed - a + b,
            }),
            Decoded::Bad => decode_size_then(s, b) is Bad,
            Decoded::Short => decode_size_then(s, b) is Short,
        },
{
}

/// The round-trip law: a chunked encoding of any chunk list, with anything
/// after it, decodes from the initial state back to exactly the
/// concatenation of the chunks, consuming exactly the encoding.
#[verifier::rlimit(100)]
pub proof fn lemma_chunked_round_trip(cs: Seq<Seq<u8>>, tail: Seq<u8>)
    requires
        all_chunks_nonempty(cs),
        forall|i: int| 0 <= i < cs.len() ==> #[trigger] cs[i].len() < 0x100000000,
    ensures
        decode_from(ChunkState::NoChunk, chunked_encoding(cs) + tail) == (Decoded::Done {
            payload: flatten(cs),
            consumed: chunked_encoding(cs).len() as int,
        }),
    decreases cs.len(),
{
    let s = chunked_encoding(cs) + tail;
    if cs.len() == 0 {
        assert(encode_chunks(cs) =~= Seq::<u8>::empty());
        assert(s =~= hex_rep(0) + crlf() + (crlf() + tail)) by {
            assert(hex_rep(0) =~= seq![48u8]);
            assert(terminator() =~= seq![48u8] + crlf() + crlf());
        }
        lemma_size_line_of_encoding(0, crlf() + tail);
        assert(s.len() >= 5);
        assert(s[3] == CR && s[4] == LF) by {
            assert(hex_rep(0).len() == 1);
            assert(s =~= hex_rep(0) + crlf() + crlf() + tail);
        }
        assert(decode_size_then(s, 0) == (Decoded::Done {
            payload: Seq::<u8>::empty(),
            consumed: 5int,
        }));
        assert(decode_from(ChunkState::NoChunk, s) == decode_size_then(s, 0));
        assert(flatten(cs) =~= Seq::<u8>::empty());
        assert(chunked_encoding(cs).len() == 5);
    } else {
        let c0 = cs[0];
        let rest = cs.skip(1);
        let n = c0.len();
        let h = hex_rep(n).len() as int;
        let rest_wire = chunked_encoding(rest) + tail;
        assert(chunked_encoding(cs) =~= chunk_encoding(c0) + chunked_encoding(rest));
        assert(s =~= hex_rep(n) + crlf() + (c0 + crlf() + rest_wire));
        lemma_size_line_of_encoding(n, c0 + crlf() + rest_wire);
        lemma_hex_value_rep(n);
        let after_size = s.skip(h + 2);
        assert(after_size =~= c0 + crlf() + rest_wire);
        assert(n > 0);
        assert(s.len() >= h + 2 + n);
        let after_payload = s.skip(h + 2 + n as int);
        assert(after_payload =~= crlf() + rest_wire);
        assert(after_payload[0] == CR && after_payload[1] == LF);
        let after_crlf = after_payload.skip(2);
        assert(after_crlf =~= chunked_encoding(rest) + tail);
        lemma_chunked_round_trip(rest, tail);
        assert(decode_size_then(after_crlf, 0) == (Decoded::Done {
            payload: flatten(rest),
            consumed: chunked_encoding(rest).len() as int,
        }));
        lemma_size_then_offset(after_crlf, 0, 2);
        assert(decode_from(ChunkState::NotEmpty(0), after_payload) == (Decoded::Done {
            payload: flatten(rest),
            consumed: 2 + chunked_encoding(rest).len() as int,
        }));
        assert(s.subrange(h + 2, h + 2 + n as int) =~= c0);
        assert(decode_size_then(s, 0) == (Decoded::Done {
            payload: c0 + flatten(rest),
            consumed: h + 2 + n + 2 + chunked_encoding(rest).len(),
        }));
        assert(decode_from(ChunkState::NoChunk, s) == decode_size_then(s, 0));
        assert(flatten(cs) =~= c0 + flatten(rest));
        assert(chunk_encoding(c0).len() == h + 2 + n + 2);
    }
}

} // verus!

verus! {

/// The value of at most eight hex digits is below sixteen to the eighth.
proof fn lemma_hex_value_bound(digits: Seq<u8>)
    requires
        all_hex(digits),
    ensures
        hex_value(digits) < crate::encoding::pow16(digits.len()),
    decreases digits.len(),
{
    if digits.len() == 0 {
    } else {
        assert(all_hex(digits.drop_last())) by {
            assert(forall|j: int|
                0 <= j < digits.len() - 1 ==> digits.drop_last()[j] == digits[j]);
        }
        lemma_hex_value_bound(digits.drop_last());
        assert(hex_digit_value(digits.last()) <= 15) by {
            assert(is_hex_digit(digits.last()));
        }
        assert(hex_value(digits.drop_last()) * 16 + hex_digit_value(digits.last())
            < crate::encoding::pow16(digits.len())) by (nonlinear_arith)
            requires
                hex_value(digits.drop_last()) < crate::encoding::pow16(
                    (digits.len() - 1) as nat,
                ),
                hex_digit_value(digits.last()) <= 15,
                crate::encoding::pow16(digits.len()) == 16 * crate::encoding::pow16(
                    (digits.len() - 1) as nat,
                ),
        ;
    }
}

/// A found size carries at most eight digits, so its value fits thirty-two
/// bits, and the line is at least two and at most ten bytes.
proof fn lemma_scan_size_bounds(s: Seq<u8>, i: int)
    requires
        0 <= i,
    ensures
        scan_size(s, i) matches SizeParse::SizeFound { value, consumed } ==> value < 0x100000000
            && i + 1 <= consumed <= 10 && consumed <= s.len(),
    decreases 10 - i,
{
    if 0 <= i <= 9 && i < s.len() {
        if s[i] == LF {
            if !(i == 0 || s[i - 1] != CR || !all_hex(s.subrange(0, i - 1))) {
                lemma_hex_value_bound(s.subrange(0, i - 1));
                assert(s.subrange(0, i - 1).len() <= 8);
                lemma_pow16_monotone(s.subrange(0, i - 1).len(), 8);
                assert(crate::encoding::pow16(8) == 0x100000000) by {
                    reveal_with_fuel(crate::encoding::pow16, 9);
                }
            }
        } else if i < 9 {
            lemma_scan_size_bounds(s, i + 1);
        }
    }
}

proof fn lemma_pow16_monotone(a: nat, b: nat)
    requires
        a <= b,
    ensures
        crate::encoding::pow16(a) <= crate::encoding::pow16(b),
    decreases b,
{
    if a < b {
        lemma_pow16_monotone(a, (b - 1) as nat);
        assert(crate::encoding::pow16(b) == 16 * crate::encoding::pow16((b - 1) as nat));
        assert(crate::encoding::pow16((b - 1) as nat) <= 16 * crate::encoding::pow16(
            (b - 1) as nat,
        ));
    }
}

/// After a size line announcing `v` payload bytes, decoding the rest from a
/// fresh `NotEmpty(v)` state agrees with decoding the whole from the start.
proof fn lemma_size_step(w: Seq<u8>, v: nat, c: int)
    requires
        spec_size_line(w) == (SizeParse::SizeFound { value: v, consumed: c }),
        0 < v < 0x100000000,
        2 <= c <= w.len(),
    ensures
        decode_size_then(w, 0) == (match decode_from(ChunkState::NotEmpty(v as u32), w.skip(c)) {
            Decoded::Done { payload, consumed } => Decoded::Done { payload, consumed: c + consumed },
            Decoded::Bad => Decoded::Bad,
            Decoded::Short => Decoded::Short,
        }),
{
    let after = w.skip(c);
    assert(after.len() == w.len() - c);
    if w.len() < c + v {
        assert(decode_size_then(w, 0) is Short);
        assert(decode_from(ChunkState::NotEmpty(v as u32), after) is Short);
    } else {
        assert(after.skip(v as int) =~= w.skip(c + v as int));
        assert(after.take(v as int) =~= w.subrange(c, c + v as int));
        let inner = decode_from(ChunkState::NotEmpty(0), w.skip(c + v as int));
        assert(decode_from(ChunkState::NotEmpty(0), after.skip(v as int)) == inner);
        match inner {
            Decoded::Done { payload, consumed } => {
                assert(decode_size_then(w, 0) == (Decoded::Done {
                    payload: w.subrange(c, c + v as int) + payload,
                    consumed: c + v + consumed,
                }));
                assert(decode_from(ChunkState::NotEmpty(v as u32), after) == (Decoded::Done {
                    payload: after.take(v as int) + payload,
                    consumed: v + consumed,
                }));
            },
            Decoded::Bad => {},
            Decoded::Short => {},
        }
    }
}

/// Consuming `m` of the open chunk's `k` payload bytes moves the decode
/// forward by exactly those bytes; a malformed or truncated stream stays so.
proof fn lemma_decode_notempty_split(k: u32, m: int, s: Seq<u8>)
    requires
        k > 0,
        0 <= m <= k,
        m <= s.len(),
    ensures
        match decode_from(ChunkState::NotEmpty(k), s) {
            Decoded::Done { payload, consumed } => decode_from(
                ChunkState::NotEmpty((k - m) as u32),
                s.skip(m),
            ) == (Decoded::Done { payload: payload.skip(m), consumed: consumed - m }),
            Decoded::Bad => decode_from(ChunkState::NotEmpty((k - m) as u32), s.skip(m)) is Bad,
            Decoded::Short => decode_from(ChunkState::NotEmpty((k - m) as u32), s.skip(m))
                is Short,
        },
{
    if s.len() < k {
        assert(decode_from(ChunkState::NotEmpty(k), s) is Short);
        assert(s.skip(m).len() < k - m);
        if m < k {
            assert(decode_from(ChunkState::NotEmpty((k - m) as u32), s.skip(m)) is Short);
        } else {
            assert(false);
        }
    } else {
        let inner = decode_from(ChunkState::NotEmpty(0), s.skip(k as int));
        if m == k {
            assert(decode_from(ChunkState::NotEmpty(0), s.skip(m)) == inner);
            match inner {
                Decoded::Done { payload: q, consumed: c0 } => {
                    assert((s.take(k as int) + q).skip(m) =~= q);
                },
                _ => {},
            }
        } else {
            assert(s.skip(m).len() >= k - m);
            assert(s.skip(m).skip(k - m) =~= s.skip(k as int));
            assert(decode_from(ChunkState::NotEmpty(0), s.skip(m).skip(k - m)) == inner);
            match inner {
                Decoded::Done { payload: q, consumed: c0 } => {
                    assert(s.skip(m).take(k - m) + q =~= (s.take(k as int) + q).skip(m));
                },
                _ => {},
            }
        }
    }
}

} // verus!

verus! {

/// Chunked response body reader: drives the `ChunkState` machine over a
/// buffered source backed by the transport `conn`.
pub struct ChunkedBodyReader {
    pub raw_body: BufferingReader,
    pub chunk_remaining: ChunkState,
}

impl ChunkedBodyReader {
    /// The decoder's progress through the current chunk.
    pub open spec fn state(&self) -> ChunkState {
        self.chunk_remaining
    }

    pub open spec fn wf(&self) -> bool {
        self.raw_body.wf()
    }

    /// The wire bytes not yet consumed: the buffered prefix, then the
    /// transport's stream.
    pub open spec fn wire<C: Read>(&self, conn: &C) -> Seq<u8> {
        buffered_remaining(&self.raw_body, conn)
    }

    /// The buffered source's fixed capacity.
    pub open spec fn capacity(&self) -> nat {
        self.raw_body.capacity()
    }

    /// The buffered source.
    pub open spec fn inner(&self) -> BufferingReader {
        self.raw_body
    }

    /// How many bytes wait in the buffered source.
    pub open spec fn loaded_len(&self) -> nat {
        self.raw_body.loaded_bytes().len()
    }

    pub fn new(raw_body: BufferingReader) -> (r: ChunkedBodyReader)
        ensures
            r.inner() == raw_body,
            r.state() == ChunkState::NoChunk,
    {
        ChunkedBodyReader { raw_body, chunk_remaining: ChunkState::NoChunk }
    }

    /// Whether the terminating empty chunk has been read: nothing more will
    /// come.
    pub fn is_done(&self) -> (r: bool)
        ensures
            r <==> self.state() is Empty,
    {
        match self.chunk_remaining {
            ChunkState::Empty => true,
            _ => false,
        }
    }

    /// Read the next chunk-size line: bytes up to CRLF, at most eight hex
    /// digits, leading zeros permitted. A zero size is the terminating chunk.
    #[verifier::loop_isolation(false)]
    fn read_next_chunk_length<C: Read>(&mut self, conn: &mut C) -> (r: Result<(), Error>)
        requires
            old(self).wf(),
            old(conn).wf(),
        ensures
            (*final(self)).wf(),
            (*final(conn)).wf(),
            (*final(self)).capacity() == old(self).capacity(),
            match r {
                Ok(()) => spec_size_line(old(self).wire(old(conn))) matches SizeParse::SizeFound {
                    value,
                    consumed,
                } && (*final(self)).wire(final(conn)) == old(self).wire(old(conn)).skip(consumed)
                    && value < 0x100000000 && (*final(self)).state() == (if value == 0 {
                    ChunkState::Empty
                } else {
                    ChunkState::NotEmpty(value as u32)
                }),
                Err(e) => (e == Error::Codec && spec_size_line(old(self).wire(old(conn)))
                    is SizeBad) || (e == Error::ConnectionAborted && spec_size_line(
                    old(self).wire(old(conn)),
                ) is SizeShort) || (e matches Error::Network(_)),
            },
    {
        let ghost w0 = old(self).wire(old(conn));
        let mut header: Vec<u8> = Vec::new();
        loop
            invariant
                self.wf(),
                conn.wf(),
                self.raw_body.capacity() == old(self).raw_body.capacity(),
                self.chunk_remaining == old(self).chunk_remaining,
                header@.len() <= 9,
                header@.len() <= w0.len(),
                header@ == w0.take(header@.len() as int),
                forall|j: int| 0 <= j < header@.len() ==> w0[j] != LF,
                self.wire(conn) == w0.skip(header@.len() as int),
                scan_size(w0, 0) == scan_size(w0, header@.len() as int),
            decreases 10 - header@.len(),
        {
            let ghost taken = header@.len() as int;
            let b = match self.raw_body.read_one(conn) {
                Ok(Some(b)) => b,
                Ok(None) => {
                    proof {
                        assert(w0.len() == taken);
                        assert(scan_size(w0, taken) is SizeShort);
                    }
                    return Err(Error::ConnectionAborted);
                },
                Err(_) => {
                    return Err(Error::Network(ErrorKind::Other));
                },
            };
            proof {
                assert(w0.skip(taken).len() == w0.len() - taken);
                assert(taken < w0.len());
                assert(w0.skip(taken)[0] == w0[taken]);
                assert(b == w0[taken]);
            }
            if b == LF {
                if header.len() == 0 {
                    proof {
                        assert(scan_size(w0, 0) is SizeBad);
                    }
                    return Err(Error::Codec);
                }
                let last = header[header.len() - 1];
                proof {
                    assert(header@[taken - 1] == w0.take(taken)[taken - 1]);
                    assert(w0[taken - 1] == last);
                }
                if last != CR {
                    proof {
                        assert(scan_size(w0, taken) is SizeBad);
                    }
                    return Err(Error::Codec);
                }
                // Decode the hex digits before the CR.
                let digit_count = header.len() - 1;
                let ghost digits = w0.subrange(0, taken - 1);
                let mut value: u32 = 0;
                let mut j: usize = 0;
                proof {
                    reveal_with_fuel(crate::encoding::pow16, 9);
                }
                while j < digit_count
                    invariant
                        0 <= j <= digit_count,
                        digit_count == header@.len() - 1 <= 8,
                        header@.len() <= w0.len(),
                        digits == w0.subrange(0, digit_count as int),
                        digits.len() == digit_count,
                        header@ == w0.take(header@.len() as int),
                        all_hex(digits.subrange(0, j as int)),
                        value == hex_value(digits.subrange(0, j as int)),
                        value < crate::encoding::pow16(j as nat),
                        crate::encoding::pow16(8) == 0x100000000,
                    decreases digit_count - j,
                {
                    let d = header[j];
                    proof {
                        assert(header@[j as int] == w0.take(header@.len() as int)[j as int]);
                        assert(digits[j as int] == w0[j as int]);
                        assert(digits[j as int] == d);
                    }
                    let dv: u8 = if 48 <= d && d <= 57 {
                        d - 48
                    } else if 97 <= d && d <= 102 {
                        d - 87
                    } else if 65 <= d && d <= 70 {
                        d - 55
                    } else {
                        proof {
                            assert(digits[j as int] == d);
                            assert(!is_hex_digit(d));
                            assert(!all_hex(digits));
                            assert(scan_size(w0, taken) is SizeBad);
                        }
                        return Err(Error::Codec);
                    };
                    proof {
                        assert(is_hex_digit(d) && hex_digit_value(d) == dv);
                        lemma_pow16_monotone(j as nat, 7);
                        assert(crate::encoding::pow16((j + 1) as nat) == 16
                            * crate::encoding::pow16(j as nat));
                        assert(16 * crate::encoding::pow16(j as nat) <= 0x100000000) by {
                            lemma_pow16_monotone((j + 1) as nat, 8);
                        }
                        assert(value * 16 + dv < crate::encoding::pow16((j + 1) as nat))
                            by (nonlinear_arith)
                            requires
                                value < crate::encoding::pow16(j as nat),
                                dv <= 15,
                                crate::encoding::pow16((j + 1) as nat) == 16
                                    * crate::encoding::pow16(j as nat),
                        ;
                    }
                    value = value * 16 + dv as u32;
                    proof {
                        assert(digits.subrange(0, j + 1 as int).drop_last() =~= digits.subrange(
                            0,
                            j as int,
                        ));
                        assert(digits.subrange(0, j + 1 as int).last() == d);
                        assert(all_hex(digits.subrange(0, j + 1 as int)));
                    }
                    j = j + 1;
                }
                proof {
                    assert(digits.subrange(0, digit_count as int) =~= digits);
                    assert(scan_size(w0, taken) == (SizeParse::SizeFound {
                        value: hex_value(digits),
                        consumed: taken + 1,
                    })) by {
                        assert(w0[taken] == LF);
                        assert(w0[taken - 1] == CR);
                        assert(all_hex(w0.subrange(0, taken - 1)));
                    }
                }
                self.chunk_remaining = if value == 0 {
                    ChunkState::Empty
                } else {
                    ChunkState::NotEmpty(value)
                };
                return Ok(());
            } else {
                if header.len() == 9 {
                    proof {
                        assert(scan_size(w0, 9int) is SizeBad);
                    }
                    return Err(Error::Codec);
                }
                header.push(b);
                proof {
                    assert(header@ =~= w0.take(header@.len() as int));
                    assert(scan_size(w0, taken) == scan_size(w0, taken + 1));
                }
            }
        }
    }

    /// Read the CRLF that closes every chunk.
    fn read_chunk_end<C: Read>(&mut self, conn: &mut C) -> (r: Result<(), Error>)
        requires
            old(self).wf(),
            old(conn).wf(),
        ensures
            (*final(self)).wf(),
            (*final(conn)).wf(),
            (*final(self)).capacity() == old(self).capacity(),
            (*final(self)).state() == old(self).state(),
            match r {
                Ok(()) => old(self).wire(old(conn)).len() >= 2 && old(self).wire(old(conn))[0]
                    == CR && old(self).wire(old(conn))[1] == LF && (*final(self)).wire(final(conn))
                    == old(self).wire(old(conn)).skip(2),
                Err(e) => (e == Error::Codec && old(self).wire(old(conn)).len() >= 2 && !(old(
                    self,
                ).wire(old(conn))[0] == CR && old(self).wire(old(conn))[1] == LF)) || (e
                    == Error::ConnectionAborted && old(self).wire(old(conn)).len() < 2) || (
                e matches Error::Network(_)),
            },
    {
        let first = match self.raw_body.read_one(conn) {
            Ok(Some(b)) => b,
            Ok(None) => {
                return Err(Error::ConnectionAborted);
            },
            Err(_) => {
                return Err(Error::Network(ErrorKind::Other));
            },
        };
        let second = match self.raw_body.read_one(conn) {
            Ok(Some(b)) => b,
            Ok(None) => {
                return Err(Error::ConnectionAborted);
            },
            Err(_) => {
                return Err(Error::Network(ErrorKind::Other));
            },
        };
        proof {
            assert(second == old(self).wire(old(conn)).skip(1)[0]);
            assert((*final(self)).wire(final(conn)) =~= old(self).wire(old(conn)).skip(2));
        }
        if first != CR || second != LF {
            return Err(Error::Codec);
        }
        Ok(())
    }
}

} // verus!

verus! {

impl ChunkedBodyReader {
    /// Cross a chunk boundary if the decoder stands at one, and say how many
    /// payload bytes the current chunk still holds; zero means the body is
    /// done.
    fn handle_chunk_boundary<C: Read>(&mut self, conn: &mut C) -> (r: Result<usize, Error>)
        requires
            old(self).wf(),
            old(conn).wf(),
        ensures
            (*final(self)).wf(),
            (*final(conn)).wf(),
            (*final(self)).capacity() == old(self).capacity(),
            match r {
                Ok(n) => {
                    &&& n == spec_chunk_capacity(old(self).state(), old(self).wire(old(conn)))
                    &&& (*final(self)).wire(final(conn)).len() <= old(self).wire(old(conn)).len()
                    &&& (n == 0 <==> (*final(self)).state() is Empty)
                    &&& (n > 0 ==> (*final(self)).state() == ChunkState::NotEmpty(n as u32) && n
                        <= u32::MAX)
                    &&& match decode_from(old(self).state(), old(self).wire(old(conn))) {
                        Decoded::Done { payload, consumed } => {
                            &&& decode_from(
                                (*final(self)).state(),
                                (*final(self)).wire(final(conn)),
                            ) matches Decoded::Done { payload: p2, consumed: c2 } && p2 == payload
                            &&& (n == 0 ==> payload.len() == 0)
                        },
                        Decoded::Bad => decode_from(
                            (*final(self)).state(),
                            (*final(self)).wire(final(conn)),
                        ) is Bad,
                        Decoded::Short => decode_from(
                            (*final(self)).state(),
                            (*final(self)).wire(final(conn)),
                        ) is Short,
                    }
                },
                Err(e) => (e == Error::Codec && decode_from(
                    old(self).state(),
                    old(self).wire(old(conn)),
                ) is Bad) || (e == Error::ConnectionAborted && decode_from(
                    old(self).state(),
                    old(self).wire(old(conn)),
                ) is Short) || (e matches Error::Network(_)),
            },
    {
        let ghost st0 = self.chunk_remaining;
        let ghost w0 = self.wire(conn);
        let ghost d0 = decode_from(st0, w0);
        let mut crossed_crlf = false;
        let ghost mut already: int = 0;
        match self.chunk_remaining {
            ChunkState::NoChunk => {
                proof {
                    assert(decode_from(st0, w0) == decode_size_then(w0, 0));
                }
            },
            ChunkState::NotEmpty(k) => {
                if k == 0 {
                    match self.read_chunk_end(conn) {
                        Ok(()) => (),
                        Err(e) => {
                            proof {
                                if e == Error::Codec {
                                    assert(decode_from(st0, w0) is Bad);
                                } else if e == Error::ConnectionAborted {
                                    assert(decode_from(st0, w0) is Short);
                                }
                            }
                            return Err(e);
                        },
                    }
                    crossed_crlf = true;
                    proof {
                        already = 2;
                        assert(decode_from(st0, w0) == decode_size_then(w0.skip(2), 2));
                        assert(self.wire(conn) == w0.skip(2));
                    }
                } else {
                    // Mid-chunk: nothing to cross.
                    let n = self.chunk_remaining.len();
                    proof {
                        match decode_from(st0, w0) {
                            Decoded::Done { payload, consumed } => {
                                assert(payload.len() >= k);
                            },
                            _ => {},
                        }
                    }
                    return Ok(n);
                }
            },
            ChunkState::Empty => {
                proof {
                    assert(decode_from(st0, w0) == (Decoded::Done {
                        payload: Seq::<u8>::empty(),
                        consumed: 0int,
                    }));
                }
                return Ok(0);
            },
        }
        // At a boundary: read the next chunk-size line.
        let ghost w1 = self.wire(conn);
        proof {
            if crossed_crlf {
                lemma_size_then_offset(w1, 2, 0);
            }
            assert(decode_outcome_matches(d0, decode_size_then(w1, 0)));
        }
        match self.read_next_chunk_length(conn) {
            Ok(()) => (),
            Err(e) => {
                proof {
                    if e == Error::Codec {
                        assert(decode_size_then(w1, 0) is Bad);
                    } else if e == Error::ConnectionAborted {
                        assert(decode_size_then(w1, 0) is Short);
                    }
                }
                return Err(e);
            },
        }
        let ghost found = spec_size_line(w1);
        let ghost w2 = self.wire(conn);
        proof {
            lemma_scan_size_bounds(w1, 0);
            lemma_scan_size_consumed(w1, 0);
            assert(found is SizeFound);
            assert(2 <= found->SizeFound_consumed <= w1.len());
        }
        if self.is_done() {
            // The terminating empty chunk: its own CRLF must follow.
            match self.read_chunk_end(conn) {
                Ok(()) => (),
                Err(e) => {
                    proof {
                        let c = found->SizeFound_consumed;
                        if e == Error::Codec {
                            assert(w2 == w1.skip(c));
                            assert(w1[c] == w2[0] && w1[c + 1] == w2[1]);
                            assert(w1.len() >= c + 2);
                            assert(decode_size_then(w1, 0) is Bad);
                        } else if e == Error::ConnectionAborted {
                            assert(w1.len() < found->SizeFound_consumed + 2);
                            assert(decode_size_then(w1, 0) is Short);
                        }
                    }
                    return Err(e);
                },
            }
            proof {
                let c = found->SizeFound_consumed;
                assert(w1[c] == w2[0] && w1[c + 1] == w2[1]);
                assert(decode_size_then(w1, 0) == (Decoded::Done {
                    payload: Seq::<u8>::empty(),
                    consumed: c + 2,
                }));
                assert(decode_from(self.chunk_remaining, self.wire(conn)) == (Decoded::Done {
                    payload: Seq::<u8>::empty(),
                    consumed: 0int,
                }));
            }
            return Ok(0);
        }
        let n = self.chunk_remaining.len();
        proof {
            let v = found->SizeFound_value;
            let c = found->SizeFound_consumed;
            assert(v > 0 && n == v);
            lemma_size_step(w1, v, c);
        }
        Ok(n)
    }
}

/// The payload bytes the open chunk still holds once the decoder has
/// crossed whatever boundary it stands at: the counter itself mid-chunk, the
/// size line's value at a boundary, nothing at the end of the body.
pub open spec fn spec_chunk_capacity(st: ChunkState, w: Seq<u8>) -> int {
    match st {
        ChunkState::Empty => 0int,
        ChunkState::NotEmpty(k) => {
            if k > 0 {
                k as int
            } else {
                match spec_size_line(w.skip(2)) {
                    SizeParse::SizeFound { value, consumed } => value as int,
                    _ => 0int,
                }
            }
        },
        ChunkState::NoChunk => match spec_size_line(w) {
            SizeParse::SizeFound { value, consumed } => value as int,
            _ => 0int,
        },
    }
}

/// Two decode outcomes carry the same payload, differing at most in the
/// count of consumed bytes.
pub open spec fn decode_outcome_matches(a: Decoded, b: Decoded) -> bool {
    match a {
        Decoded::Done { payload, consumed } => b matches Decoded::Done {
            payload: p2,
            consumed: c2,
        } && p2 == payload,
        Decoded::Bad => b is Bad,
        Decoded::Short => b is Short,
    }
}

} // verus!

verus! {

impl ChunkedBodyReader {
    /// Read decoded payload bytes into a prefix of `buf`, never crossing a
    /// chunk boundary within one call. `Ok(0)` with a non-empty `buf` means
    /// the body is done.
    pub fn read<C: Read>(&mut self, conn: &mut C, buf: &mut Vec<u8>) -> (r: Result<usize, Error>)
        requires
            old(self).wf(),
            old(conn).wf(),
        ensures
            (*final(self)).wf(),
            (*final(conn)).wf(),
            (*final(self)).capacity() == old(self).capacity(),
            final(buf)@.len() == old(buf)@.len(),
            match r {
                Ok(n) => n <= old(buf)@.len() && n <= spec_chunk_capacity(
                    old(self).state(),
                    old(self).wire(old(conn)),
                ) && (n > 0 ==> (*final(self)).state() == ChunkState::NotEmpty(
                    (spec_chunk_capacity(old(self).state(), old(self).wire(old(conn))) - n) as u32,
                )) && (*final(self)).wire(final(conn)).len() + n <= old(
                    self,
                ).wire(old(conn)).len() && (n == 0 ==> (*final(self)).state() is Empty || old(
                    buf,
                )@.len() == 0 || ((*final(self)).state() matches ChunkState::NotEmpty(k) && k > 0
                    && (*final(self)).wire(final(conn)).len() == 0)) && (match decode_from(
                    old(self).state(),
                    old(self).wire(old(conn)),
                ) {
                    Decoded::Done { payload, consumed } => {
                        &&& n <= payload.len()
                        &&& final(buf)@ == payload.subrange(0, n as int) + old(buf)@.subrange(
                            n as int,
                            old(buf)@.len() as int,
                        )
                        &&& decode_from(
                            (*final(self)).state(),
                            (*final(self)).wire(final(conn)),
                        ) matches Decoded::Done { payload: p2, consumed: c2 } && p2 == payload.skip(
                            n as int,
                        )
                        &&& (n == 0 ==> payload.len() == 0 || old(buf)@.len() == 0)
                    },
                    Decoded::Bad => decode_from(
                        (*final(self)).state(),
                        (*final(self)).wire(final(conn)),
                    ) is Bad,
                    Decoded::Short => decode_from(
                        (*final(self)).state(),
                        (*final(self)).wire(final(conn)),
                    ) is Short,
                }),
                Err(e) => final(buf)@ == old(buf)@ && ((e == Error::Codec && decode_from(
                    old(self).state(),
                    old(self).wire(old(conn)),
                ) is Bad) || (e == Error::ConnectionAborted && decode_from(
                    old(self).state(),
                    old(self).wire(old(conn)),
                ) is Short) || (e matches Error::Network(_))),
            },
    {
        let ghost st0 = old(self).state();
        let ghost w0 = old(self).wire(old(conn));
        let remaining = match self.handle_chunk_boundary(conn) {
            Ok(n) => n,
            Err(e) => {
                return Err(e);
            },
        };
        if remaining == 0 {
            proof {
                match decode_from(st0, w0) {
                    Decoded::Done { payload, consumed } => {
                        assert(buf@ =~= payload.subrange(0, 0) + buf@.subrange(
                            0,
                            buf@.len() as int,
                        ));
                        assert(payload.skip(0) =~= payload);
                    },
                    _ => {},
                }
            }
            return Ok(0);
        }
        let ghost stm = self.state();
        let ghost wm = self.wire(conn);
        let len = match self.raw_body.read_at_most(conn, buf, remaining) {
            Ok(n) => n,
            Err(k) => {
                return Err(Error::Network(k));
            },
        };
        let _consumed = self.chunk_remaining.consume(len);
        proof {
            let k = remaining as u32;
            lemma_decode_notempty_split(k, len as int, wm);
            match decode_from(st0, w0) {
                Decoded::Done { payload, consumed } => {
                    assert(decode_from(ChunkState::NotEmpty(k), wm) matches Decoded::Done {
                        payload: pm,
                        consumed: cm,
                    } && pm == payload);
                    assert(wm.len() >= k);
                    assert(len <= wm.len());
                    match decode_from(ChunkState::NotEmpty(k), wm) {
                        Decoded::Done { payload: pm, consumed: cm } => {
                            assert(pm.subrange(0, len as int) =~= wm.subrange(0, len as int));
                            assert(final(buf)@ == payload.subrange(0, len as int)
                                + old(buf)@.subrange(len as int, old(buf)@.len() as int)) by {
                                assert(wm.subrange(0, len as int) == payload.subrange(
                                    0,
                                    len as int,
                                ));
                            }
                            assert(self.state() == ChunkState::NotEmpty((k - len) as u32));
                            assert(self.wire(conn) == wm.skip(len as int));
                        },
                        _ => {
                            assert(false);
                        },
                    }
                },
                _ => {},
            }
        }
        Ok(len)
    }

    /// Expose decoded payload bytes from the current chunk without copying;
    /// an empty result means the body is done. The result never spans two
    /// chunks.
    pub fn fill_buf<C: Read>(&mut self, conn: &mut C) -> (r: Result<&[u8], Error>)
        requires
            old(self).wf(),
            old(conn).wf(),
        ensures
            (*final(self)).wf(),
            (*final(conn)).wf(),
            (*final(self)).capacity() == old(self).capacity(),
            match r {
                Ok(s) => (match decode_from(old(self).state(), old(self).wire(old(conn))) {
                    Decoded::Done { payload, consumed } => {
                        &&& s@.len() <= payload.len()
                        &&& s@ == payload.subrange(0, s@.len() as int)
                        &&& decode_from(
                            (*final(self)).state(),
                            (*final(self)).wire(final(conn)),
                        ) matches Decoded::Done { payload: p2, consumed: c2 } && p2 == payload
                        &&& (s@.len() == 0 ==> payload.len() == 0 || old(self).capacity() == 0)
                    },
                    _ => true,
                }) && (s@.len() <= (*final(self)).loaded_len()) && ((*final(self)).state()
                    matches ChunkState::NotEmpty(k) ==> s@.len() <= k) && ((*final(self)).state()
                    is Empty ==> s@.len() == 0),
                Err(e) => (e == Error::Codec && decode_from(
                    old(self).state(),
                    old(self).wire(old(conn)),
                ) is Bad) || (e == Error::ConnectionAborted && decode_from(
                    old(self).state(),
                    old(self).wire(old(conn)),
                ) is Short) || (e matches Error::Network(_)),
            },
    {
        let ghost st0 = old(self).state();
        let ghost w0 = old(self).wire(old(conn));
        let remaining = match self.handle_chunk_boundary(conn) {
            Ok(n) => n,
            Err(e) => {
                return Err(e);
            },
        };
        if remaining == 0 {
            let whole = self.raw_body.peek();
            let empty = vstd::slice::slice_subrange(whole, 0, 0);
            proof {
                assert(empty@ =~= Seq::<u8>::empty());
                match decode_from(st0, w0) {
                    Decoded::Done { payload, consumed } => {
                        assert(empty@ =~= payload.subrange(0, 0));
                    },
                    _ => {},
                }
            }
            return Ok(empty);
        }
        let ghost stm = self.state();
        let ghost wm = self.wire(conn);
        match self.raw_body.fill_buf(conn) {
            Ok(loaded) => {
                let len = if loaded.len() < remaining {
                    loaded.len()
                } else {
                    remaining
                };
                let piece = vstd::slice::slice_subrange(loaded, 0, len);
                proof {
                    match decode_from(st0, w0) {
                        Decoded::Done { payload, consumed } => {
                            let k = remaining as u32;
                            assert(decode_from(ChunkState::NotEmpty(k), wm)
                                matches Decoded::Done { payload: pm, consumed: cm } && pm
                                == payload);
                            assert(wm.len() >= k);
                            assert(loaded@ == wm.subrange(0, loaded@.len() as int));
                            assert(piece@ =~= wm.subrange(0, len as int));
                            assert(payload.subrange(0, len as int) =~= wm.subrange(0, len as int));
                            assert(loaded@.len() == 0 ==> wm.len() == 0 || old(self).capacity()
                                == 0);
                            assert(wm.len() == 0 ==> payload.len() == 0);
                        },
                        _ => {},
                    }
                }
                Ok(piece)
            },
            Err(k) => Err(Error::Network(k)),
        }
    }

    /// Drop `amt` decoded bytes: they come off both the chunk counter and
    /// the buffered source.
    pub fn consume(&mut self, amt: usize)
        requires
            old(self).wf(),
        ensures
            (*final(self)).wf(),
            (*final(self)).capacity() == old(self).capacity(),
            ({
                let k = match old(self).state() {
                    ChunkState::NotEmpty(remaining) => if amt <= remaining as nat {
                        amt as int
                    } else {
                        remaining as int
                    },
                    _ => 0int,
                };
                &&& (*final(self)).state() == match old(self).state() {
                    ChunkState::NotEmpty(remaining) => ChunkState::NotEmpty((remaining - k) as u32),
                    st => st,
                }
                &&& (*final(self)).loaded_len() == old(self).loaded_len() - (if k
                    <= old(self).loaded_len() {
                    k as int
                } else {
                    old(self).loaded_len() as int
                })
            }),
    {
        let consumed = self.chunk_remaining.consume(amt);
        self.raw_body.consume(consumed);
    }
}

} // verus!

verus! {

impl ChunkedBodyReader {
    /// Read the whole remaining body. The body must fit within the buffered
    /// source's capacity, the size the caller set aside for this response;
    /// a longer body is reported rather than truncated.
    pub fn read_to_end<C: Read>(self, conn: &mut C) -> (r: Result<Vec<u8>, Error>)
        requires
            self.wf(),
            old(conn).wf(),
        ensures
            (*final(conn)).wf(),
            match r {
                Ok(out) => decode_from(self.state(), self.wire(old(conn))) matches Decoded::Done {
                    payload,
                    consumed,
                } && out@ == payload && payload.len() <= self.capacity(),
                Err(e) => {
                    let d = decode_from(self.state(), self.wire(old(conn)));
                    (e == Error::Codec && d is Bad) || (e == Error::ConnectionAborted && d
                        is Short) || (e == Error::BufferTooSmall && (d matches Decoded::Done {
                        payload,
                        consumed,
                    } ==> payload.len() > self.capacity())) || (e matches Error::Network(_))
                },
            },
    {
        let cap = self.raw_body.capacity_exec();
        self.collect_with_limit(conn, cap)
    }

    /// Read the whole remaining body, refusing one longer than `cap` bytes.
    #[verifier::loop_isolation(false)]
    pub fn collect_with_limit<C: Read>(self, conn: &mut C, cap: usize) -> (r: Result<
        Vec<u8>,
        Error,
    >)
        requires
            self.wf(),
            old(conn).wf(),
        ensures
            (*final(conn)).wf(),
            match r {
                Ok(out) => decode_from(self.state(), self.wire(old(conn))) matches Decoded::Done {
                    payload,
                    consumed,
                } && out@ == payload && payload.len() <= cap,
                Err(e) => {
                    let d = decode_from(self.state(), self.wire(old(conn)));
                    (e == Error::Codec && d is Bad) || (e == Error::ConnectionAborted && d
                        is Short) || (e == Error::BufferTooSmall && (d matches Decoded::Done {
                        payload,
                        consumed,
                    } ==> payload.len() > cap)) || (e matches Error::Network(_))
                },
            },
    {
        let ghost st0 = self.state();
        let ghost w0 = self.wire(old(conn));
        let ghost d0 = decode_from(st0, w0);
        let mut this = self;
        let mut out: Vec<u8> = Vec::new();
        proof {
            match d0 {
                Decoded::Done { payload, consumed } => {
                    assert(out@ =~= payload.subrange(0, 0));
                    assert(payload.skip(0) =~= payload);
                },
                _ => {},
            }
        }
        loop
            invariant
                this.wf(),
                conn.wf(),
                out@.len() <= cap,
                match d0 {
                    Decoded::Done { payload, consumed } => {
                        &&& out@.len() <= payload.len()
                        &&& out@ == payload.subrange(0, out@.len() as int)
                        &&& decode_from(this.state(), this.wire(conn)) matches Decoded::Done {
                            payload: p2,
                            consumed: c2,
                        } && p2 == payload.skip(out@.len() as int)
                    },
                    Decoded::Bad => decode_from(this.state(), this.wire(conn)) is Bad,
                    Decoded::Short => decode_from(this.state(), this.wire(conn)) is Short,
                },
            decreases this.wire(conn).len(),
        {
            let mut tmp: Vec<u8> = Vec::new();
            let mut j: usize = 0;
            while j < 128
                invariant
                    0 <= j <= 128,
                    tmp@.len() == j,
                decreases 128 - j,
            {
                tmp.push(0);
                j = j + 1;
            }
            let ghost st_i = this.state();
            let ghost w_i = this.wire(conn);
            let n = match this.read(conn, &mut tmp) {
                Ok(n) => n,
                Err(e) => {
                    proof {
                        match d0 {
                            Decoded::Done { payload, consumed } => {
                                assert(!(decode_from(st_i, w_i) is Bad));
                                assert(!(decode_from(st_i, w_i) is Short));
                            },
                            Decoded::Bad => {
                                assert(!(decode_from(st_i, w_i) is Done));
                                assert(!(decode_from(st_i, w_i) is Short));
                            },
                            Decoded::Short => {
                                assert(!(decode_from(st_i, w_i) is Done));
                                assert(!(decode_from(st_i, w_i) is Bad));
                            },
                        }
                    }
                    return Err(e);
                },
            };
            if n == 0 {
                if this.is_done() {
                    proof {
                        assert(decode_from(this.state(), this.wire(conn)) == (Decoded::Done {
                            payload: Seq::<u8>::empty(),
                            consumed: 0int,
                        }));
                        match d0 {
                            Decoded::Done { payload, consumed } => {
                                assert(payload.skip(out@.len() as int).len() == 0);
                                assert(out@ =~= payload);
                            },
                            Decoded::Bad => {
                                assert(false);
                            },
                            Decoded::Short => {
                                assert(false);
                            },
                        }
                    }
                    return Ok(out);
                } else {
                    // The transport ended inside the body.
                    proof {
                        assert(this.state() matches ChunkState::NotEmpty(k) && k > 0 && this.wire(
                            conn,
                        ).len() == 0);
                        assert(decode_from(this.state(), this.wire(conn)) is Short);
                        match d0 {
                            Decoded::Done { payload, consumed } => {
                                assert(false);
                            },
                            Decoded::Bad => {
                                assert(false);
                            },
                            Decoded::Short => {},
                        }
                    }
                    return Err(Error::ConnectionAborted);
                }
            }
            let piece = vstd::slice::slice_subrange(tmp.as_slice(), 0, n);
            out.extend_from_slice(piece);
            proof {
                match d0 {
                    Decoded::Done { payload, consumed } => {
                        let prev = (out@.len() - n) as int;
                        assert(payload.skip(prev).subrange(0, n as int) =~= payload.subrange(
                            prev,
                            prev + n,
                        ));
                        assert(tmp@.subrange(0, n as int) =~= payload.subrange(prev, prev + n));
                        assert(out@ =~= payload.subrange(0, out@.len() as int));
                        assert(payload.skip(prev).skip(n as int) =~= payload.skip(
                            out@.len() as int,
                        ));
                    },
                    _ => {},
                }
            }
            if out.len() > cap {
                proof {
                    match d0 {
                        Decoded::Done { payload, consumed } => {
                            assert(payload.len() >= out@.len() > cap);
                        },
                        _ => {},
                    }
                }
                return Err(Error::BufferTooSmall);
            }
        }
    }
}

} // verus!
