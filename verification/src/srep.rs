//! SREP: finds very long repeats from one sample per block of 512 bytes.
//!
//! The sample of a block is the window, among the 512 that start in it, with
//! the greatest polynomial hash. A sample that equals an earlier one is extended
//! in both directions and replaced by a reference. The stream has the format of
//! [`crate::rep`] and is read by [`crate::rep::RepReader`].

use vstd::prelude::*;
use vstd::arithmetic::power::pow;
use crate::lz::{Stream, literal_run, same_windows, windows_equal, write_literal_run};
use crate::rep::{
    decode_tokens, decoded_stream, leftover, lemma_block_stream_decodes, lemma_last_run_decodes,
    lemma_reference_decodes,
};
use crate::wire::{
    le_bytes, lemma_le_round_trip, lemma_pow256_widths, varint_bytes, write_bytes, write_u64,
    write_varint,
};

verus! {

/// Length of a block, of a window, and of the shortest match.
pub const L: usize = 512;

/// Base of the polynomial hash.
pub const PRIME: u64 = 153_191;

/// Slots of the table of samples.
pub const HASH_SIZE: usize = 0x100_0000;

/// Marks a free slot.
pub const EMPTY: u64 = 0xFFFF_FFFF_FFFF_FFFF;

/// The bytes of a window as the digits of a number to the base of 153191.
pub open spec fn poly(s: Seq<u8>) -> int
    decreases s.len(),
{
    if s.len() == 0 {
        0
    } else {
        poly(s.drop_last()) * 153_191 + s.last()
    }
}

/// The hash of the window at `p`.
pub open spec fn window_sum(buf: Seq<u8>, p: int) -> int {
    poly(buf.subrange(p, p + 512)) % 0x1_0000_0000_0000_0000
}

/// Offset of the first greatest hash among the `n` windows from `start`.
pub open spec fn peak(buf: Seq<u8>, start: int, n: nat) -> int
    decreases n,
{
    if n <= 1 {
        0
    } else {
        let before = peak(buf, start, (n - 1) as nat);
        if window_sum(buf, start + n - 1) > window_sum(buf, start + before) {
            n - 1
        } else {
            before
        }
    }
}

/// Position of the sample of block `k`.
pub open spec fn sample(buf: Seq<u8>, k: int) -> int {
    512 * k + peak(buf, 512 * k, 512)
}

/// Slot of the sample of block `k`.
pub open spec fn slot(buf: Seq<u8>, k: int) -> int {
    window_sum(buf, sample(buf, k)) % 0x100_0000
}

/// Where the equal bytes from `a` and `b` on end, counted at `b`.
pub open spec fn forward(buf: Seq<u8>, a: int, b: int) -> int
    decreases buf.len() - b,
{
    if b < buf.len() && buf[a] == buf[b] {
        forward(buf, a + 1, b + 1)
    } else {
        b
    }
}

/// Where the equal bytes before `a` and `b` begin, counted at `b` and not
/// before `limit`.
pub open spec fn backward(buf: Seq<u8>, a: int, b: int, limit: int) -> int
    decreases a,
{
    if a > 0 && b > limit && buf[a - 1] == buf[b - 1] {
        backward(buf, a - 1, b - 1, limit)
    } else {
        b
    }
}

/// The table before any sample was seen.
pub open spec fn empty_table() -> Seq<u64> {
    Seq::new(HASH_SIZE as nat, |k: int| EMPTY)
}

/// Whether the earlier sample in a slot equals the one at `pos`.
pub open spec fn is_match(buf: Seq<u8>, prev: u64, pos: int) -> bool {
    prev != EMPTY && prev < pos && same_windows(buf, prev as int, pos, 512)
}

/// The tokens for the part of the buffer from `lit` on, with the samples of the
/// blocks from `k` on still to be looked up; samples inside the last match
/// are passed over.
pub open spec fn tokens(buf: Seq<u8>, table: Seq<u64>, k: int, lit: int) -> Seq<u8>
    decreases buf.len() / 512 - k,
{
    if k >= buf.len() / 512 - 1 {
        literal_run(buf, lit, buf.len() as int)
    } else {
        let pos = sample(buf, k);
        let prev = table[slot(buf, k)];
        let next = table.update(slot(buf, k), pos as u64);
        if pos < lit {
            tokens(buf, table, k + 1, lit)
        } else if is_match(buf, prev, pos) {
            let end = forward(buf, prev + 512, pos + 512);
            let start = backward(buf, prev as int, pos, lit);
            literal_run(buf, lit, start) + varint_bytes(end - start) + varint_bytes(pos - prev)
                + tokens(buf, next, k + 1, end)
        } else {
            tokens(buf, next, k + 1, lit)
        }
    }
}

/// One block.
pub open spec fn encoded_block(buf: Seq<u8>) -> Seq<u8> {
    le_bytes(buf.len() as int, 8) + if buf.len() < 1024 {
        literal_run(buf, 0, buf.len() as int)
    } else {
        tokens(buf, empty_table(), 0, 0)
    }
}

/// The whole stream for some data: one block unless there is none, and the
/// end mark.
pub open spec fn encoded_stream(data: Seq<u8>) -> Seq<u8> {
    if data.len() == 0 {
        le_bytes(0, 8)
    } else {
        encoded_block(data) + le_bytes(0, 8)
    }
}

proof fn lemma_forward(buf: Seq<u8>, a: int, b: int)
    requires
        b <= buf.len(),
    ensures
        b <= forward(buf, a, b) <= buf.len(),
        forall|x: int| b <= x < forward(buf, a, b) ==> #[trigger] buf[x] == buf[x - (b - a)],
    decreases buf.len() - b,
{
    if b < buf.len() && buf[a] == buf[b] {
        lemma_forward(buf, a + 1, b + 1);
    }
}

proof fn lemma_backward(buf: Seq<u8>, a: int, b: int, limit: int)
    requires
        0 <= a < b,
        limit <= b,
    ensures
        limit <= backward(buf, a, b, limit) <= b,
        backward(buf, a, b, limit) >= b - a,
        forall|x: int|
            backward(buf, a, b, limit) <= x < b ==> #[trigger] buf[x] == buf[x - (b - a)],
    decreases a,
{
    if a > 0 && b > limit && buf[a - 1] == buf[b - 1] {
        lemma_backward(buf, a - 1, b - 1, limit);
    }
}

proof fn lemma_peak(buf: Seq<u8>, start: int, n: nat)
    ensures
        0 <= peak(buf, start, n),
        n > 0 ==> peak(buf, start, n) < n,
    decreases n,
{
    if n > 1 {
        lemma_peak(buf, start, (n - 1) as nat);
    }
}

/// The peak is a greatest hash of its windows, and the first of that size.
pub proof fn lemma_peak_is_first_maximum(buf: Seq<u8>, start: int, n: nat)
    requires
        n > 0,
    ensures
        0 <= peak(buf, start, n) < n,
        forall|j: int|
            0 <= j < n ==> #[trigger] window_sum(buf, start + j) <= window_sum(
                buf,
                start + peak(buf, start, n),
            ),
        forall|j: int|
            0 <= j < peak(buf, start, n) ==> #[trigger] window_sum(buf, start + j) < window_sum(
                buf,
                start + peak(buf, start, n),
            ),
    decreases n,
{
    if n > 1 {
        lemma_peak_is_first_maximum(buf, start, (n - 1) as nat);
    }
}

proof fn lemma_tokens_decode(buf: Seq<u8>, table: Seq<u64>, k: int, lit: int, tail: Seq<u8>)
    requires
        0 <= lit <= buf.len(),
        0 <= k,
        buf.len() <= usize::MAX,
    ensures
        decode_tokens(
            buf.len() as int,
            buf.take(lit),
            tokens(buf, table, k, lit) + tail,
        ) matches Ok((b, t)) && b == buf && leftover(t, tail),
    decreases buf.len() / 512 - k,
{
    if k >= buf.len() / 512 - 1 {
        lemma_last_run_decodes(buf, lit, tail);
    } else {
        let pos = sample(buf, k);
        let prev = table[slot(buf, k)];
        let next = table.update(slot(buf, k), pos as u64);
        lemma_peak(buf, 512 * k, 512);
        if pos < lit {
            lemma_tokens_decode(buf, table, k + 1, lit, tail);
        } else if is_match(buf, prev, pos) {
            let end = forward(buf, prev + 512, pos + 512);
            let start = backward(buf, prev as int, pos, lit);
            lemma_forward(buf, prev + 512, pos + 512);
            lemma_backward(buf, prev as int, pos, lit);
            let cand = start - (pos - prev);
            let m = end - start;
            let rest = tokens(buf, next, k + 1, end) + tail;
            assert forall|x: int| 0 <= x < m implies #[trigger] buf[cand + x] == buf[start + x] by {
                let y = start + x;
                if pos <= y < pos + 512 {
                    assert(buf[prev + (y - pos)] == buf[pos + (y - pos)]);
                } else {
                    assert(buf[y] == buf[y - (pos - prev)]);
                }
            }
            lemma_reference_decodes(buf, lit, start, cand, m, rest);
            assert(tokens(buf, table, k, lit) + tail =~= literal_run(buf, lit, start)
                + varint_bytes(m) + varint_bytes(start - cand) + rest);
            lemma_tokens_decode(buf, next, k + 1, end, tail);
        } else {
            lemma_tokens_decode(buf, next, k + 1, lit, tail);
        }
    }
}

/// Decoding what was encoded gives the data back, whatever follows the
/// stream.
pub proof fn lemma_srep_round_trip(data: Seq<u8>, tail: Seq<u8>)
    requires
        data.len() <= usize::MAX,
    ensures
        decoded_stream(encoded_stream(data) + tail) == (Stream { bytes: data, fault: None }),
{
    if data.len() == 0 {
        lemma_pow256_widths();
        lemma_le_round_trip(0, 8, tail);
        assert(data =~= Seq::empty());
    } else {
        let toks = if data.len() < 1024 {
            literal_run(data, 0, data.len() as int)
        } else {
            tokens(data, empty_table(), 0, 0)
        };
        let rest = le_bytes(0, 8) + tail;
        assert(data.take(0) =~= Seq::empty());
        if data.len() < 1024 {
            lemma_last_run_decodes(data, 0, rest);
        } else {
            lemma_tokens_decode(data, empty_table(), 0, 0, rest);
        }
        lemma_block_stream_decodes(data, toks, tail);
        assert(encoded_stream(data) + tail =~= le_bytes(data.len() as int, 8) + toks + le_bytes(
            0,
            8,
        ) + tail);
    }
}

/// The first byte of a window is its most significant digit.
proof fn lemma_poly_first(s: Seq<u8>)
    requires
        s.len() > 0,
    ensures
        poly(s) == s[0] * pow(153_191, (s.len() - 1) as nat) + poly(s.skip(1)),
    decreases s.len(),
{
    reveal(pow);
    if s.len() == 1 {
        assert(s.drop_last() =~= Seq::empty());
        assert(s.skip(1) =~= Seq::empty());
        vstd::arithmetic::power::lemma_pow0(153_191);
        assert(poly(s) == poly(s.drop_last()) * 153_191 + s.last());
    } else {
        let d = s.drop_last();
        lemma_poly_first(d);
        assert(d[0] == s[0]);
        assert(s.skip(1).last() == s.last());
        assert(s.skip(1).drop_last() =~= d.skip(1));
        assert(poly(s.skip(1)) == poly(d.skip(1)) * 153_191 + s.last());
        let p = pow(153_191, (s.len() - 2) as nat);
        assert(pow(153_191, (s.len() - 1) as nat) == 153_191 * p);
        assert((s[0] * p + poly(d.skip(1))) * 153_191 == s[0] * (153_191 * p) + poly(d.skip(1))
            * 153_191) by (nonlinear_arith);
    }
}

/// Moving the window by one byte: the new byte comes in at the low end, the
/// old first byte goes out at the high end.
proof fn lemma_poly_rolls(buf: Seq<u8>, p: int)
    requires
        0 <= p,
        p + 512 < buf.len(),
    ensures
        poly(buf.subrange(p + 1, p + 513)) == poly(buf.subrange(p, p + 512)) * 153_191 + buf[p
            + 512] - pow(153_191, 512) * buf[p],
{
    let w = buf.subrange(p, p + 513);
    lemma_poly_first(w);
    assert(w.skip(1) =~= buf.subrange(p + 1, p + 513));
    assert(w.drop_last() =~= buf.subrange(p, p + 512));
    assert(buf[p] * pow(153_191, 512) == pow(153_191, 512) * buf[p]) by (nonlinear_arith);
}

/// `base` to the power `exp`, modulo 2^64.
pub fn pow_mod64(base: u64, exp: u64) -> (r: u64)
    ensures
        r == pow(base as int, exp as nat) % 0x1_0000_0000_0000_0000,
{
    let ghost m: int = 0x1_0000_0000_0000_0000;
    let ghost whole = pow(base as int, exp as nat) % m;
    let mut b: u64 = base;
    let mut e: u64 = exp;
    let mut r: u64 = 1;
    while e > 0
        invariant
            m == 0x1_0000_0000_0000_0000,
            (r * pow(b as int, e as nat)) % m == whole,
        decreases e,
    {
        let ghost r0 = r as int;
        let ghost b0 = b as int;
        let ghost sq = pow(b0 * b0, (e / 2) as nat);
        proof {
            lemma_square_step(b0, e as nat);
        }
        if e % 2 == 1 {
            r = r.wrapping_mul(b);
            proof {
                // r0 * (b0 * sq) and (r0 * b0 mod m) * sq agree modulo m.
                assert(r0 * (b0 * sq) == (r0 * b0) * sq) by (nonlinear_arith);
                vstd::arithmetic::div_mod::lemma_mul_mod_noop_general(r0 * b0, sq, m);
            }
        }
        let ghost r1 = r as int;
        assert((r1 * sq) % m == whole);
        b = b.wrapping_mul(b);
        e = e / 2;
        proof {
            let half = e as nat;
            vstd::arithmetic::power::lemma_pow_mod_noop(b0 * b0, half, m);
            assert(b as int == (b0 * b0) % m);
            vstd::arithmetic::div_mod::lemma_mul_mod_noop_general(r1, sq, m);
            vstd::arithmetic::div_mod::lemma_mul_mod_noop_general(r1, pow(b as int, half), m);
        }
    }
    proof {
        vstd::arithmetic::power::lemma_pow0(b as int);
    }
    r
}

proof fn lemma_square_step(b: int, e: nat)
    requires
        e > 0,
    ensures
        e % 2 == 0 ==> pow(b, e) == pow(b * b, e / 2),
        e % 2 == 1 ==> pow(b, e) == b * pow(b * b, e / 2),
{
    let half = e / 2;
    vstd::arithmetic::power::lemma_pow_multiplies(b, 2, half);
    vstd::arithmetic::power::lemma_square_is_pow2(b);
    assert(pow(pow(b, 2), half) == pow(b, 2 * half));
    if e % 2 == 1 {
        assert(e == 2 * half + 1);
        reveal(pow);
        assert(pow(b, e) == b * pow(b, (e - 1) as nat));
    }
}

/// The hash one position further.
fn roll(buf: &[u8], p: usize, hash: u64, prime_l: u64) -> (h: u64)
    requires
        p + 512 < buf@.len(),
        hash == window_sum(buf@, p as int),
        prime_l == pow(153_191, 512) % 0x1_0000_0000_0000_0000,
    ensures
        h == window_sum(buf@, p + 1),
{
    let n: usize = buf.len();
    let sub: u64 = buf[p] as u64;
    let add: u64 = buf[p + 512] as u64;
    let kept: u64 = hash.wrapping_mul(PRIME).wrapping_add(add);
    let gone: u64 = prime_l.wrapping_mul(sub);
    let h: u64 = kept.wrapping_sub(gone);
    proof {
        let m: int = 0x1_0000_0000_0000_0000;
        let v = poly(buf@.subrange(p as int, p + 512));
        let big = pow(153_191, 512);
        lemma_poly_rolls(buf@, p as int);
        assert(kept == (v * 153_191 + add) % m) by {
            vstd::arithmetic::div_mod::lemma_mul_mod_noop_general(v, 153_191, m);
            assert(hash.wrapping_mul(PRIME) == (v * 153_191) % m);
            vstd::arithmetic::div_mod::lemma_add_mod_noop(v * 153_191, add as int, m);
        }
        assert(gone == (big * sub) % m) by {
            vstd::arithmetic::div_mod::lemma_mul_mod_noop_general(big, sub as int, m);
        }
        vstd::arithmetic::div_mod::lemma_sub_mod_noop(v * 153_191 + add, big * sub, m);
        assert(h == (kept - gone) % m);
    }
    h
}

/// The hash of the first window.
fn first_sum(buf: &[u8]) -> (h: u64)
    requires
        buf@.len() >= 512,
    ensures
        h == window_sum(buf@, 0),
{
    let mut hash: u64 = 0;
    let mut j: usize = 0;
    while j < 512
        invariant
            j <= 512 <= buf@.len(),
            hash == poly(buf@.subrange(0, j as int)) % 0x1_0000_0000_0000_0000,
        decreases 512 - j,
    {
        let ghost v = poly(buf@.subrange(0, j as int));
        proof {
            let w = buf@.subrange(0, j + 1);
            assert(w.drop_last() =~= buf@.subrange(0, j as int));
            let m: int = 0x1_0000_0000_0000_0000;
            vstd::arithmetic::div_mod::lemma_mul_mod_noop_general(v, 153_191, m);
            vstd::arithmetic::div_mod::lemma_add_mod_noop(v * 153_191, buf@[j as int] as int, m);
        }
        hash = hash.wrapping_mul(PRIME).wrapping_add(buf[j] as u64);
        j = j + 1;
    }
    hash
}

/// Slot and offset of the sample of every block but the last.
pub fn signatures(buf: &[u8]) -> (sigs: Vec<(u64, u16)>)
    requires
        buf@.len() >= 1024,
    ensures
        sigs@.len() == buf@.len() / 512 - 1,
        forall|k: int|
            0 <= k < sigs@.len() ==> (#[trigger] sigs@[k]).0 == slot(buf@, k) && sigs@[k].1 == peak(
                buf@,
                512 * k,
                512,
            ),
{
    let prime_l: u64 = pow_mod64(PRIME, L as u64);
    let mut hash: u64 = first_sum(buf);
    let num_blocks: usize = buf.len() / L;
    let mut sigs: Vec<(u64, u16)> = Vec::new();
    let mut p: usize = 0;
    let mut block: usize = 0;
    while block < num_blocks - 1
        invariant
            buf@.len() >= 1024,
            num_blocks == buf.len() / 512,
            block <= num_blocks - 1,
            p == 512 * block,
            hash == window_sum(buf@, p as int),
            prime_l == pow(153_191, 512) % 0x1_0000_0000_0000_0000,
            sigs@.len() == block,
            forall|k: int|
                0 <= k < block ==> (#[trigger] sigs@[k]).0 == slot(buf@, k) && sigs@[k].1 == peak(
                    buf@,
                    512 * k,
                    512,
                ),
        decreases num_blocks - block,
    {
        let ghost start = p as int;
        let mut max_hash: u64 = hash;
        let mut max_off: u16 = 0;
        let mut i: u16 = 0;
        while i < 512
            invariant
                i <= 512,
                start == 512 * block,
                p == start + i,
                block < num_blocks - 1,
                num_blocks == buf.len() / 512,
                hash == window_sum(buf@, p as int),
                prime_l == pow(153_191, 512) % 0x1_0000_0000_0000_0000,
                max_off == peak(buf@, start, i as nat),
                max_hash == window_sum(buf@, start + max_off),
                max_off <= 512,
            decreases 512 - i,
        {
            if hash > max_hash {
                max_hash = hash;
                max_off = i;
            }
            hash = roll(buf, p, hash, prime_l);
            p = p + 1;
            i = i + 1;
        }
        assert(max_off == peak(buf@, 512 * block, 512));
        sigs.push((max_hash % 0x100_0000, max_off));
        block = block + 1;
    }
    sigs
}

/// Appends `buf` as one block.
pub fn encode_block(buf: &[u8], out: &mut Vec<u8>)
    ensures
        final(out)@ == old(out)@ + encoded_block(buf@),
{
    write_u64(out, buf.len() as u64);
    let ghost head = out@;
    if buf.len() < 1024 {
        write_literal_run(out, buf, 0, buf.len());
        assert(out@ =~= old(out)@ + encoded_block(buf@));
        return;
    }
    let sigs = signatures(buf);
    let mut table: Vec<u64> = vec![EMPTY; HASH_SIZE];
    assert(table@ =~= empty_table());
    let ghost all = head + tokens(buf@, table@, 0, 0);
    let mut lit: usize = 0;
    let mut k: usize = 0;
    while k < sigs.len()
        invariant
            buf@.len() >= 1024,
            k <= sigs@.len(),
            sigs@.len() == buf.len() / 512 - 1,
            forall|j: int|
                0 <= j < sigs@.len() ==> (#[trigger] sigs@[j]).0 == slot(buf@, j) && sigs@[j].1
                    == peak(buf@, 512 * j, 512),
            lit <= buf@.len(),
            table@.len() == HASH_SIZE,
            forall|j: int|
                0 <= j < HASH_SIZE ==> #[trigger] table@[j] == EMPTY || table@[j] < buf@.len(),
            out@ + tokens(buf@, table@, k as int, lit as int) == all,
        decreases sigs@.len() - k,
    {
        proof {
            lemma_peak(buf@, 512 * k, 512);
        }
        let (slot64, off) = sigs[k];
        let h: usize = slot64 as usize;
        let pos: usize = 512 * k + off as usize;
        assert(pos == sample(buf@, k as int));
        let ghost table0 = table@;
        let ghost before = out@;
        let ghost lit0 = lit as int;
        if pos >= lit {
            let prev64: u64 = table[h];
            table.set(h, pos as u64);
            if prev64 != EMPTY && prev64 < pos as u64 && windows_equal(
                buf,
                prev64 as usize,
                pos,
                L,
            ) {
                let prev: usize = prev64 as usize;
                let mut end: usize = pos + L;
                while end < buf.len() && buf[end - (pos - prev)] == buf[end]
                    invariant
                        prev < pos,
                        pos + 512 <= end <= buf@.len(),
                        forward(buf@, end - (pos - prev), end as int) == forward(
                            buf@,
                            prev + 512,
                            pos + 512,
                        ),
                    decreases buf@.len() - end,
                {
                    end = end + 1;
                }
                let mut start: usize = pos;
                while start > pos - prev && start > lit && buf[start - 1 - (pos - prev)]
                    == buf[start - 1]
                    invariant
                        prev < pos,
                        lit <= start <= pos <= buf@.len(),
                        pos - prev <= start,
                        backward(buf@, start - (pos - prev), start as int, lit as int) == backward(
                            buf@,
                            prev as int,
                            pos as int,
                            lit as int,
                        ),
                    decreases start,
                {
                    start = start - 1;
                }
                write_literal_run(out, buf, lit, start);
                write_varint(out, (end - start) as u64);
                write_varint(out, (pos - prev) as u64);
                lit = end;
                proof {
                    let rest = tokens(buf@, table@, k + 1, lit as int);
                    assert(tokens(buf@, table0, k as int, lit0) == literal_run(
                        buf@,
                        lit0,
                        start as int,
                    ) + varint_bytes(end - start) + varint_bytes(pos - prev) + rest);
                    assert(out@ + rest =~= before + tokens(buf@, table0, k as int, lit0));
                }
            }
        }
        k = k + 1;
    }
    write_literal_run(out, buf, lit, buf.len());
    assert(out@ =~= old(out)@ + encoded_block(buf@));
}

/// Collects everything that is written and encodes it as one block at the end.
pub struct SrepWriter {
    inner: Vec<u8>,
    buf: Vec<u8>,
}

impl SrepWriter {
    /// What is already in the sink.
    pub closed spec fn sink(&self) -> Seq<u8> {
        self.inner@
    }

    /// What was written so far.
    pub closed spec fn written(&self) -> Seq<u8> {
        self.buf@
    }

    /// A writer that appends to `inner`.
    pub fn new(inner: Vec<u8>) -> (w: Self)
        ensures
            w.sink() == inner@,
            w.written() == Seq::<u8>::empty(),
    {
        SrepWriter { inner, buf: Vec::new() }
    }

    /// Takes all of `data` and returns its length.
    pub fn write(&mut self, data: &[u8]) -> (n: usize)
        ensures
            n == data@.len(),
            final(self).sink() == old(self).sink(),
            final(self).written() == old(self).written() + data@,
    {
        write_bytes(&mut self.buf, data);
        data.len()
    }

    /// Encodes what was written, adds the end mark and returns the sink.
    pub fn finish(self) -> (out: Vec<u8>)
        ensures
            out@ == self.sink() + encoded_stream(self.written()),
    {
        let mut out = self.inner;
        if self.buf.len() > 0 {
            encode_block(&self.buf, &mut out);
        }
        write_u64(&mut out, 0);
        assert(out@ =~= self.sink() + encoded_stream(self.written()));
        out
    }
}

/// Data below 1024 bytes has no repeat to be replaced: it stands in the stream as it is, behind its
/// length in eight bytes and as one run, and eight zero bytes end the stream. So do they
/// where there is no data.
pub proof fn lemma_short_data_stands(data: Seq<u8>)
    requires
        data.len() < 1024,
    ensures
        data.len() > 0 ==> encoded_stream(data) == le_bytes(data.len() as int, 8) + varint_bytes(
            data.len() as int,
        ) + data + le_bytes(0, 8),
        data.len() == 0 ==> encoded_stream(data) == le_bytes(0, 8),
{
    if data.len() > 0 {
        let n = data.len() as int;
        assert(data.subrange(0, n) =~= data);
        assert(encoded_stream(data) =~= le_bytes(n, 8) + varint_bytes(n) + data + le_bytes(0, 8));
    }
}

/// A far repeat goes as far as it can, on both sides: it ends at the end of the buffer or
/// where the two copies differ, and begins at the limit, at the start of the earlier copy's
/// buffer, or where they differ.
pub proof fn lemma_repeat_is_longest(buf: Seq<u8>, a: int, b: int, limit: int)
    requires
        0 <= a < b <= buf.len(),
        limit <= b,
    ensures
        ({
            let end = forward(buf, a, b);
            let start = backward(buf, a, b, limit);
            &&& end >= buf.len() || buf[end - (b - a)] != buf[end]
            &&& start <= limit || start <= b - a || buf[start - 1 - (b - a)] != buf[start - 1]
        }),
{
    lemma_forward_ends(buf, a, b);
    lemma_backward_ends(buf, a, b, limit);
}

proof fn lemma_forward_ends(buf: Seq<u8>, a: int, b: int)
    ensures
        forward(buf, a, b) >= buf.len() || buf[forward(buf, a, b) - (b - a)] != buf[forward(
            buf,
            a,
            b,
        )],
    decreases buf.len() - b,
{
    if b < buf.len() && buf[a] == buf[b] {
        lemma_forward_ends(buf, a + 1, b + 1);
    }
}

proof fn lemma_backward_ends(buf: Seq<u8>, a: int, b: int, limit: int)
    requires
        0 <= a < b,
        limit <= b,
    ensures
        ({
            let start = backward(buf, a, b, limit);
            start <= limit || start <= b - a || buf[start - 1 - (b - a)] != buf[start - 1]
        }),
    decreases a,
{
    if a > 0 && b > limit && buf[a - 1] == buf[b - 1] {
        lemma_backward_ends(buf, a - 1, b - 1, limit);
    }
}

/// What becomes of a block's sample, the window of 512 bytes in it with the first greatest
/// sum: where the last sample with the same sum, as far as the table tells them apart, has
/// the same 512 bytes, the repeat around it becomes a reference of its length and its
/// distance, behind the bytes that were passed over. A sample inside what was replaced is
/// passed over.
pub proof fn lemma_sample_tells(buf: Seq<u8>, table: Seq<u64>, k: int, lit: int)
    requires
        0 <= k,
    ensures
        ({
            let pos = 512 * k + peak(buf, 512 * k, 512);
            let at = window_sum(buf, pos) % 0x100_0000;
            let prev = table[at];
            let next = table.update(at, pos as u64);
            let same = prev != u64::MAX && prev < pos && pos + 512 <= buf.len() && forall|n: int|
                0 <= n < 512 ==> #[trigger] buf[prev + n] == buf[pos + n];
            let end = forward(buf, prev + 512, pos + 512);
            let start = backward(buf, prev as int, pos, lit);
            &&& k >= buf.len() / 512 - 1 ==> tokens(buf, table, k, lit) == literal_run(
                buf,
                lit,
                buf.len() as int,
            )
            &&& k < buf.len() / 512 - 1 && pos < lit ==> tokens(buf, table, k, lit) == tokens(
                buf,
                table,
                k + 1,
                lit,
            )
            &&& k < buf.len() / 512 - 1 && pos >= lit && same ==> tokens(buf, table, k, lit)
                == literal_run(buf, lit, start) + varint_bytes(end - start) + varint_bytes(pos - prev)
                + tokens(buf, next, k + 1, end)
            &&& k < buf.len() / 512 - 1 && pos >= lit && !same ==> tokens(buf, table, k, lit) == tokens(
                buf,
                next,
                k + 1,
                lit,
            )
        }),
{
    let pos = sample(buf, k);
    let prev = table[slot(buf, k)];
    assert(is_match(buf, prev, pos) <==> prev != u64::MAX && prev < pos && pos + 512 <= buf.len()
        && forall|n: int| 0 <= n < 512 ==> #[trigger] buf[prev + n] == buf[pos + n]);
}

/// The sum of a window: its bytes are the digits of a number to the base 153191, of which
/// 64 bits are kept.
pub proof fn lemma_sum_tells(s: Seq<u8>, b: u8, buf: Seq<u8>, p: int)
    ensures
        poly(Seq::empty()) == 0,
        poly(s.push(b)) == 153_191 * poly(s) + b,
        window_sum(buf, p) == poly(buf.subrange(p, p + 512)) % 0x1_0000_0000_0000_0000,
{
    assert(s.push(b).drop_last() =~= s);
}

} // verus!
