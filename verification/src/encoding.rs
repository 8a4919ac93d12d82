//! The chunked transfer-coding wire format: hex chunk sizes, chunk framing,
//! and the arithmetic behind the buffering writer's reserved header slot.

use vstd::prelude::*;

verus! {

/// Carriage return.
pub const CR: u8 = 13;

/// Line feed.
pub const LF: u8 = 10;

/// The lower-case hex digit for a value below 16.
pub open spec fn hex_digit(d: u8) -> u8 {
    if d < 10 {
        (48 + d) as u8
    } else {
        (87 + d) as u8
    }
}

/// The shortest lower-case hex representation of `n` (no leading zeros;
/// zero itself is "0").
pub open spec fn hex_rep(n: nat) -> Seq<u8>
    decreases n,
{
    if n < 16 {
        seq![hex_digit(n as u8)]
    } else {
        hex_rep(n / 16) + seq![hex_digit((n % 16) as u8)]
    }
}

/// A CR LF pair.
pub open spec fn crlf() -> Seq<u8> {
    seq![CR, LF]
}

/// One chunk on the wire: hex size, CRLF, payload, CRLF.
pub open spec fn chunk_encoding(payload: Seq<u8>) -> Seq<u8> {
    hex_rep(payload.len()) + crlf() + payload + crlf()
}

/// A sequence of chunks on the wire, without the terminator.
pub open spec fn encode_chunks(chunks: Seq<Seq<u8>>) -> Seq<u8>
    decreases chunks.len(),
{
    if chunks.len() == 0 {
        Seq::<u8>::empty()
    } else {
        chunk_encoding(chunks[0]) + encode_chunks(chunks.skip(1))
    }
}

/// The terminating empty chunk: "0 CRLF CRLF".
pub open spec fn terminator() -> Seq<u8> {
    seq![48u8, CR, LF, CR, LF]
}

/// A whole chunked body on the wire.
pub open spec fn chunked_encoding(chunks: Seq<Seq<u8>>) -> Seq<u8> {
    encode_chunks(chunks) + terminator()
}

/// Every chunk in the list is non-empty (an empty chunk would terminate the
/// body early).
pub open spec fn all_chunks_nonempty(chunks: Seq<Seq<u8>>) -> bool {
    forall|i: int| 0 <= i < chunks.len() ==> #[trigger] chunks[i].len() > 0
}

/// The concatenation of a list of byte strings.
pub open spec fn flatten(chunks: Seq<Seq<u8>>) -> Seq<u8>
    decreases chunks.len(),
{
    if chunks.len() == 0 {
        Seq::<u8>::empty()
    } else {
        chunks[0] + flatten(chunks.skip(1))
    }
}

/// The size of the header slot the buffering writer reserves in a buffer with
/// `n` free bytes: enough hex digits for the largest payload that fits beside
/// a header of that very size and a two-byte footer, plus CRLF; zero when not
/// even a one-digit header, its CRLF and a footer fit.
pub open spec fn spec_max_chunk_header_size(n: nat) -> nat {
    if n >= 4 {
        hex_rep((n - 4) as nat).len() + 2
    } else {
        0
    }
}

/// Appending a chunk to the list appends its encoding to the wire bytes.
pub proof fn lemma_encode_chunks_push(chunks: Seq<Seq<u8>>, c: Seq<u8>)
    ensures
        encode_chunks(chunks.push(c)) == encode_chunks(chunks) + chunk_encoding(c),
    decreases chunks.len(),
{
    if chunks.len() == 0 {
        assert(chunks.push(c).skip(1) =~= Seq::<Seq<u8>>::empty());
        assert(chunks.push(c)[0] == c);
        assert(encode_chunks(chunks.push(c)) == chunk_encoding(c) + encode_chunks(
            Seq::<Seq<u8>>::empty(),
        ));
        assert(encode_chunks(chunks.push(c)) =~= encode_chunks(chunks) + chunk_encoding(c));
    } else {
        assert(chunks.push(c).skip(1) =~= chunks.skip(1).push(c));
        lemma_encode_chunks_push(chunks.skip(1), c);
        assert(encode_chunks(chunks.push(c)) =~= encode_chunks(chunks) + chunk_encoding(c));
    }
}

/// Appending a byte string to the list appends it to the concatenation.
pub proof fn lemma_flatten_push(chunks: Seq<Seq<u8>>, c: Seq<u8>)
    ensures
        flatten(chunks.push(c)) == flatten(chunks) + c,
    decreases chunks.len(),
{
    if chunks.len() == 0 {
        assert(chunks.push(c).skip(1) =~= Seq::<Seq<u8>>::empty());
        assert(chunks.push(c)[0] == c);
        assert(flatten(chunks.push(c)) == c + flatten(Seq::<Seq<u8>>::empty()));
        assert(flatten(chunks.push(c)) =~= flatten(chunks) + c);
    } else {
        assert(chunks.push(c).skip(1) =~= chunks.skip(1).push(c));
        lemma_flatten_push(chunks.skip(1), c);
        assert(chunks.push(c)[0] == chunks[0]);
        assert(flatten(chunks.push(c)) == chunks[0] + flatten(chunks.skip(1).push(c)));
        assert(flatten(chunks.push(c)) =~= flatten(chunks) + c);
    }
}

/// A larger number never has a shorter hex representation.
pub proof fn lemma_hex_rep_len_monotone(a: nat, b: nat)
    requires
        a <= b,
    ensures
        hex_rep(a).len() <= hex_rep(b).len(),
    decreases b,
{
    if b >= 16 {
        if a >= 16 {
            lemma_hex_rep_len_monotone(a / 16, b / 16);
        } else {
            lemma_hex_rep_len_monotone(0, b / 16);
        }
    }
}

/// The hex representation is never empty.
pub proof fn lemma_hex_rep_len_pos(n: nat)
    ensures
        hex_rep(n).len() >= 1,
    decreases n,
{
    if n >= 16 {
        lemma_hex_rep_len_pos(n / 16);
    }
}

/// Sixteen hex digits cover every `usize` value.
pub proof fn lemma_hex_rep_len_bound(n: nat)
    requires
        n <= usize::MAX,
    ensures
        hex_rep(n).len() <= 16,
{
    reveal_with_fuel(pow16, 17);
    assert(pow16(16) == 0x10000000000000000);
    lemma_hex_rep_len_fuel(n, 16);
}

/// At most `k` hex digits cover any value below sixteen to the `k`.
pub proof fn lemma_hex_rep_len_le(n: nat, k: nat)
    requires
        k >= 1,
        n < pow16(k),
    ensures
        hex_rep(n).len() <= k,
{
    lemma_hex_rep_len_fuel(n, k);
}

proof fn lemma_hex_rep_len_fuel(n: nat, k: nat)
    requires
        k >= 1,
        n < pow16(k),
    ensures
        hex_rep(n).len() <= k,
    decreases k,
{
    if n >= 16 {
        assert(pow16(k) == 16 * pow16((k - 1) as nat));
        assert(pow16((k - 1) as nat) >= 1) by {
            lemma_pow16_pos((k - 1) as nat);
        }
        assert(n / 16 < pow16((k - 1) as nat)) by (nonlinear_arith)
            requires
                n < 16 * pow16((k - 1) as nat),
        ;
        assert(k - 1 >= 1) by {
            if k == 1 {
                assert(pow16(1) == 16);
            }
        }
        lemma_hex_rep_len_fuel(n / 16, (k - 1) as nat);
    }
}

proof fn lemma_pow16_pos(k: nat)
    ensures
        pow16(k) >= 1,
    decreases k,
{
    if k > 0 {
        lemma_pow16_pos((k - 1) as nat);
    }
}

/// Sixteen to the power `k`.
pub open spec fn pow16(k: nat) -> nat
    decreases k,
{
    if k == 0 {
        1
    } else {
        16 * pow16((k - 1) as nat)
    }
}

/// The number of hex characters needed for `number`: 1 for 0 through 15, one
/// more for each further factor of 16.
pub fn get_num_hex_chars(number: usize) -> (r: usize)
    ensures
        r == hex_rep(number as nat).len(),
        1 <= r <= 16,
    decreases number,
{
    proof {
        lemma_hex_rep_len_bound(number as nat);
    }
    if number < 16 {
        1
    } else {
        1 + get_num_hex_chars(number / 16)
    }
}

/// The header slot size reserved for a buffer with `buffer_size` free bytes.
pub fn get_max_chunk_header_size(buffer_size: usize) -> (r: usize)
    ensures
        r == spec_max_chunk_header_size(buffer_size as nat),
        r <= 18,
{
    if buffer_size >= 4 {
        proof {
            lemma_hex_rep_len_bound((buffer_size - 4) as nat);
        }
        get_num_hex_chars(buffer_size - 4) + 2
    } else {
        0
    }
}

/// Push the shortest lower-case hex representation of `n` onto `out`.
pub fn push_hex(out: &mut Vec<u8>, n: usize)
    ensures
        final(out)@ == old(out)@ + hex_rep(n as nat),
    decreases n,
{
    if n >= 16 {
        push_hex(out, n / 16);
    }
    let d = (n % 16) as u8;
    let c = if d < 10 {
        48 + d
    } else {
        87 + d
    };
    out.push(c);
    proof {
        if n < 16 {
            assert(final(out)@ =~= old(out)@ + hex_rep(n as nat));
        } else {
            assert(final(out)@ =~= old(out)@ + hex_rep(n as nat));
        }
    }
}

/// The shortest decimal representation of `n`.
pub open spec fn dec_rep(n: nat) -> Seq<u8>
    decreases n,
{
    if n < 10 {
        seq![(48 + n) as u8]
    } else {
        dec_rep(n / 10) + seq![(48 + n % 10) as u8]
    }
}

/// Push the shortest decimal representation of `n` onto `out`.
pub fn push_dec(out: &mut Vec<u8>, n: usize)
    ensures
        final(out)@ == old(out)@ + dec_rep(n as nat),
    decreases n,
{
    if n >= 10 {
        push_dec(out, n / 10);
    }
    let d = (n % 10) as u8;
    out.push(48 + d);
    proof {
        assert(final(out)@ =~= old(out)@ + dec_rep(n as nat));
    }
}

/// Build a chunk header, hex size plus CRLF, as a byte vector.
pub fn make_chunk_header(chunk_len: usize) -> (r: Vec<u8>)
    ensures
        r@ == hex_rep(chunk_len as nat) + crlf(),
        r@.len() == hex_rep(chunk_len as nat).len() + 2,
{
    let mut out: Vec<u8> = Vec::new();
    push_hex(&mut out, chunk_len);
    out.push(CR);
    out.push(LF);
    proof {
        assert(out@ =~= hex_rep(chunk_len as nat) + crlf());
    }
    out
}

} // verus!
