//! What the long-range match finders have in common: the window hash, match
//! verification and extension, literal runs, and the stream of blocks that
//! their readers give out.

use vstd::prelude::*;
use crate::error::Error;
use crate::wire::{parse_le, varint_bytes, write_bytes, write_varint};

verus! {

/// Hash of a window: starting from 2166136261, every byte is combined by
/// exclusive or and the result multiplied by 16777619, modulo 2^32.
pub open spec fn window_hash(s: Seq<u8>) -> u32
    decreases s.len(),
{
    if s.len() == 0 {
        2166136261u32
    } else {
        (window_hash(s.drop_last()) ^ (s.last() as u32)).wrapping_mul(16777619u32)
    }
}

/// The hash of the `n` bytes from `start`.
pub fn hash_window(buf: &[u8], start: usize, n: usize) -> (h: u32)
    requires
        start + n <= buf@.len(),
    ensures
        h == window_hash(buf@.subrange(start as int, start + n)),
{
    let mut h: u32 = 2166136261;
    let mut j: usize = 0;
    while j < n
        invariant
            j <= n,
            start + n <= buf.len(),
            h == window_hash(buf@.subrange(start as int, start + j)),
        decreases n - j,
    {
        proof {
            let w = buf@.subrange(start as int, start + j + 1);
            assert(w.drop_last() =~= buf@.subrange(start as int, start + j));
            assert(w.last() == buf@[start + j]);
        }
        h = (h ^ (buf[start + j] as u32)).wrapping_mul(16777619);
        j = j + 1;
    }
    h
}

/// Whether the `n` bytes from `a` and the `n` bytes from `b` lie inside `buf`
/// and are the same.
pub open spec fn same_windows(buf: Seq<u8>, a: int, b: int, n: int) -> bool {
    &&& a + n <= buf.len()
    &&& b + n <= buf.len()
    &&& forall|k: int| 0 <= k < n ==> #[trigger] buf[a + k] == buf[b + k]
}

pub fn windows_equal(buf: &[u8], a: usize, b: usize, n: usize) -> (r: bool)
    ensures
        r == same_windows(buf@, a as int, b as int, n as int),
{
    if a > buf.len() || n > buf.len() - a || b > buf.len() || n > buf.len() - b {
        return false;
    }
    let mut k: usize = 0;
    while k < n
        invariant
            k <= n,
            a + n <= buf.len(),
            b + n <= buf.len(),
            forall|j: int| 0 <= j < k ==> #[trigger] buf@[a + j] == buf@[b + j],
        decreases n - k,
    {
        if buf[a + k] != buf[b + k] {
            assert(buf@[a + k] != buf@[b + k]);
            return false;
        }
        k = k + 1;
    }
    true
}

/// The length of a match between `cand` and `i` of which `m` bytes are known
/// already, once it is extended byte by byte: it ends at the first difference,
/// at the end of the buffer, or where the earlier copy would reach `i`.
pub open spec fn extended(buf: Seq<u8>, cand: int, i: int, m: int) -> int
    decreases buf.len() - i - m,
{
    if i + m < buf.len() && cand + m < i && buf[cand + m] == buf[i + m] {
        extended(buf, cand, i, m + 1)
    } else {
        m
    }
}

pub proof fn lemma_extended(buf: Seq<u8>, cand: int, i: int, m: int)
    requires
        0 <= m,
        i + m <= buf.len(),
        forall|k: int| 0 <= k < m ==> #[trigger] buf[cand + k] == buf[i + k],
    ensures
        m <= extended(buf, cand, i, m),
        i + extended(buf, cand, i, m) <= buf.len(),
        forall|k: int|
            0 <= k < extended(buf, cand, i, m) ==> #[trigger] buf[cand + k] == buf[i + k],
        cand + m <= i ==> cand + extended(buf, cand, i, m) <= i,
    decreases buf.len() - i - m,
{
    if i + m < buf.len() && cand + m < i && buf[cand + m] == buf[i + m] {
        lemma_extended(buf, cand, i, m + 1);
    }
}

pub fn extend_match(buf: &[u8], cand: usize, i: usize, m: usize) -> (r: usize)
    requires
        i + m <= buf@.len(),
        cand <= i,
    ensures
        r == extended(buf@, cand as int, i as int, m as int),
        m <= r,
        i + r <= buf@.len(),
{
    let mut r: usize = m;
    while r < buf.len() - i && r < i - cand && buf[cand + r] == buf[i + r]
        invariant
            m <= r,
            i + r <= buf@.len(),
            cand <= i,
            extended(buf@, cand as int, i as int, r as int) == extended(
                buf@,
                cand as int,
                i as int,
                m as int,
            ),
        decreases buf@.len() - i - r,
    {
        r = r + 1;
    }
    r
}

/// A literal run: its length, then the bytes from `a` up to `b`.
pub open spec fn literal_run(buf: Seq<u8>, a: int, b: int) -> Seq<u8> {
    varint_bytes(b - a) + buf.subrange(a, b)
}

pub fn write_literal_run(out: &mut Vec<u8>, buf: &[u8], a: usize, b: usize)
    requires
        a <= b <= buf@.len(),
    ensures
        final(out)@ == old(out)@ + literal_run(buf@, a as int, b as int),
{
    write_varint(out, (b - a) as u64);
    write_bytes(out, vstd::slice::slice_subrange(buf, a, b));
    assert(out@ =~= old(out)@ + literal_run(buf@, a as int, b as int));
}

/// Appends `m` bytes, each a copy of the one `back` places before it.
pub open spec fn copy_back(out: Seq<u8>, back: int, m: nat) -> Seq<u8>
    decreases m,
{
    if m == 0 {
        out
    } else {
        copy_back(out.push(out[out.len() - back]), back, (m - 1) as nat)
    }
}

pub proof fn lemma_copy_back_len(out: Seq<u8>, back: int, m: nat)
    ensures
        copy_back(out, back, m).len() == out.len() + m,
    decreases m,
{
    if m > 0 {
        lemma_copy_back_len(out.push(out[out.len() - back]), back, (m - 1) as nat);
    }
}

/// Where the bytes from `i` on repeat those `back` places earlier, copying
/// back rebuilds them.
pub proof fn lemma_copy_back_rebuilds(buf: Seq<u8>, i: int, back: int, m: nat)
    requires
        1 <= back <= i,
        i + m <= buf.len(),
        forall|k: int| 0 <= k < m ==> #[trigger] buf[i - back + k] == buf[i + k],
    ensures
        copy_back(buf.take(i), back, m) == buf.take(i + m),
    decreases m,
{
    if m > 0 {
        assert(buf[i - back + 0] == buf[i + 0]);
        assert(buf.take(i).push(buf.take(i)[i - back]) =~= buf.take(i + 1));
        assert forall|k: int| 0 <= k < m - 1 implies #[trigger] buf[i + 1 - back + k] == buf[i + 1
            + k] by {
            assert(buf[i - back + (k + 1)] == buf[i + (k + 1)]);
        }
        lemma_copy_back_rebuilds(buf, i + 1, back, (m - 1) as nat);
    }
}

pub fn copy_from_back(out: &mut Vec<u8>, back: usize, m: usize)
    requires
        1 <= back <= old(out)@.len(),
        old(out)@.len() + m <= usize::MAX,
    ensures
        final(out)@ == copy_back(old(out)@, back as int, m as nat),
{
    let mut left: usize = m;
    while left > 0
        invariant
            1 <= back <= out@.len(),
            copy_back(out@, back as int, left as nat) == copy_back(
                old(out)@,
                back as int,
                m as nat,
            ),
        decreases left,
    {
        let b: u8 = out[out.len() - back];
        out.push(b);
        left = left - 1;
    }
}

/// What a block reader gives out over its lifetime: bytes, and then the end of
/// the stream or a failure.
#[verifier::ext_equal]
pub struct Stream {
    pub bytes: Seq<u8>,
    pub fault: Option<Error>,
}

impl Stream {
    /// The stream with `front` before it.
    pub open spec fn after(self, front: Seq<u8>) -> Stream {
        Stream { bytes: front + self.bytes, fault: self.fault }
    }
}

/// Copies as much of `src` as fits into the front of `dst`.
pub fn copy_into(dst: &mut [u8], src: &[u8]) -> (n: usize)
    ensures
        n <= old(dst)@.len(),
        n <= src@.len(),
        n == old(dst)@.len() || n == src@.len(),
        final(dst)@ == src@.take(n as int) + old(dst)@.skip(n as int),
{
    let n: usize = if dst.len() < src.len() {
        dst.len()
    } else {
        src.len()
    };
    let mut k: usize = 0;
    assert(dst@ =~= src@.take(0) + old(dst)@.skip(0));
    while k < n
        invariant
            k <= n <= src@.len(),
            n <= old(dst)@.len(),
            dst@ == src@.take(k as int) + old(dst)@.skip(k as int),
        decreases n - k,
    {
        dst[k] = src[k];
        k = k + 1;
        assert(dst@ =~= src@.take(k as int) + old(dst)@.skip(k as int));
    }
    n
}

/// The length that the block at the front of a stream announces; zero for the
/// end mark.
pub open spec fn announced(s: Seq<u8>) -> nat {
    match parse_le(s, 8) {
        Ok((n, _)) => n as nat,
        Err(_) => 0,
    }
}

/// A match goes as far as it can: it ends at the end of the buffer, where the earlier copy
/// would reach it, or where the two differ.
pub proof fn lemma_match_is_longest(buf: Seq<u8>, cand: int, i: int, m: int)
    requires
        0 <= m,
        i + m <= buf.len(),
    ensures
        ({
            let n = extended(buf, cand, i, m);
            i + n >= buf.len() || cand + n >= i || buf[cand + n] != buf[i + n]
        }),
    decreases buf.len() - i - m,
{
    if i + m < buf.len() && cand + m < i && buf[cand + m] == buf[i + m] {
        lemma_match_is_longest(buf, cand, i, m + 1);
    }
}

/// What a copy makes: what was there stays, and every byte behind it is the one `back`
/// places before it.
pub proof fn lemma_copy_tells(out: Seq<u8>, back: int, m: nat, k: int)
    requires
        1 <= back <= out.len(),
        0 <= k < out.len() + m,
    ensures
        copy_back(out, back, m).len() == out.len() + m,
        k < out.len() ==> copy_back(out, back, m)[k] == out[k],
        k >= out.len() ==> copy_back(out, back, m)[k] == copy_back(out, back, m)[k - back],
    decreases m,
{
    if m > 0 {
        let next = out.push(out[out.len() - back]);
        lemma_copy_tells(next, back, (m - 1) as nat, k);
        if k == out.len() {
            lemma_copy_tells(next, back, (m - 1) as nat, k - back);
        }
    }
}

/// A literal run is its length and its bytes.
pub proof fn lemma_literal_run_tells(buf: Seq<u8>, a: int, b: int)
    requires
        0 <= a <= b <= buf.len(),
    ensures
        literal_run(buf, a, b) == varint_bytes(b - a) + buf.subrange(a, b),
{
}

/// The hash of a window with a byte more: the byte is combined with the hash, and the
/// result multiplied by 16777619.
pub proof fn lemma_window_hash_steps(s: Seq<u8>, b: u8)
    ensures
        window_hash(Seq::empty()) == 2166136261,
        window_hash(s.push(b)) == (window_hash(s) ^ (b as u32)).wrapping_mul(16777619u32),
{
    assert(s.push(b).drop_last() =~= s);
}

} // verus!
