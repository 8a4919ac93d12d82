//! In-place operations on byte buffers of fixed length.

use vstd::prelude::*;

verus! {

/// Overwrite `buf[at .. at + src.len()]` with `src`, leaving the rest alone.
pub fn splice(buf: &mut Vec<u8>, at: usize, src: &[u8])
    requires
        at + src@.len() <= old(buf)@.len(),
    ensures
        final(buf)@.len() == old(buf)@.len(),
        final(buf)@ == old(buf)@.take(at as int) + src@ + old(buf)@.skip(at + src@.len()),
{
    let n = src.len();
    let blen = buf.len();
    let mut j: usize = 0;
    while j < n
        invariant
            0 <= j <= n,
            n == src@.len(),
            at + n <= buf@.len() == old(buf)@.len() <= usize::MAX,
            buf@ == old(buf)@.take(at as int) + src@.subrange(0, j as int) + old(buf)@.skip(
                at + j,
            ),
        decreases n - j,
    {
        let b = src[j];
        buf[at + j] = b;
        proof {
            assert(buf@ =~= old(buf)@.take(at as int) + src@.subrange(0, j + 1 as int) + old(
                buf,
            )@.skip(at + j + 1));
        }
        j = j + 1;
    }
    proof {
        assert(src@.subrange(0, n as int) =~= src@);
    }
}

/// Copy `count` bytes from `buf[src_start ..]` to `buf[dst_start ..]`,
/// moving them towards the front; bytes past the copied region stay.
pub fn shift_left(buf: &mut Vec<u8>, dst_start: usize, src_start: usize, count: usize)
    requires
        dst_start <= src_start,
        src_start + count <= old(buf)@.len(),
    ensures
        final(buf)@.len() == old(buf)@.len(),
        final(buf)@ == old(buf)@.take(dst_start as int) + old(buf)@.subrange(
            src_start as int,
            src_start + count,
        ) + old(buf)@.skip(dst_start + count),
{
    let blen = buf.len();
    if dst_start == src_start {
        proof {
            assert(buf@ =~= old(buf)@.take(dst_start as int) + old(buf)@.subrange(
                src_start as int,
                src_start + count,
            ) + old(buf)@.skip(dst_start + count));
        }
        return ;
    }
    let mut k: usize = 0;
    while k < count
        invariant
            0 <= k <= count,
            dst_start < src_start,
            src_start + count <= buf@.len() == old(buf)@.len() <= usize::MAX,
            buf@ == old(buf)@.take(dst_start as int) + old(buf)@.subrange(
                src_start as int,
                src_start + k,
            ) + old(buf)@.skip(dst_start + k),
        decreases count - k,
    {
        proof {
            assert(buf@[src_start + k] == old(buf)@.skip(dst_start + k)[src_start + k - dst_start
                - k]);
            assert(buf@[src_start + k] == old(buf)@[src_start + k]);
        }
        let b = buf[src_start + k];
        buf[dst_start + k] = b;
        proof {
            assert(buf@ =~= old(buf)@.take(dst_start as int) + old(buf)@.subrange(
                src_start as int,
                src_start + k + 1,
            ) + old(buf)@.skip(dst_start + k + 1));
        }
        k = k + 1;
    }
}

/// Whether two byte strings hold the same bytes.
pub fn slice_eq(a: &[u8], b: &[u8]) -> (r: bool)
    ensures
        r <==> a@ == b@,
{
    if a.len() != b.len() {
        proof {
            assert(a@ != b@);
        }
        return false;
    }
    let n = a.len();
    let mut i: usize = 0;
    while i < n
        invariant
            0 <= i <= n,
            n == a@.len() == b@.len(),
            forall|j: int| 0 <= j < i ==> a@[j] == b@[j],
        decreases n - i,
    {
        if a[i] != b[i] {
            return false;
        }
        i = i + 1;
    }
    proof {
        assert(a@ =~= b@);
    }
    true
}

/// Whether two byte strings are equal up to ASCII case.
pub fn slice_eq_ignore_case(a: &[u8], b: &[u8]) -> (r: bool)
    ensures
        r <==> crate::headers::eq_ignore_case(a@, b@),
{
    if a.len() != b.len() {
        return false;
    }
    let n = a.len();
    let mut i: usize = 0;
    while i < n
        invariant
            0 <= i <= n,
            n == a@.len() == b@.len(),
            forall|j: int|
                0 <= j < i ==> crate::headers::ascii_lower(#[trigger] a@[j])
                    == crate::headers::ascii_lower(b@[j]),
        decreases n - i,
    {
        let mut x = a[i];
        let mut y = b[i];
        if 65 <= x && x <= 90 {
            x = x + 32;
        }
        if 65 <= y && y <= 90 {
            y = y + 32;
        }
        if x != y {
            return false;
        }
        i = i + 1;
    }
    true
}

} // verus!
