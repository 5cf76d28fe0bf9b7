//! LZP: replaces long repeats that the preceding bytes predict.
//!
//! The eight bytes before a position are its context. Where the bytes at a
//! position repeat those at the last position with the same context for long
//! enough, only the length of the repeat is stored: the decoder keeps the same
//! table of contexts and finds the source by itself. Neither side enters the
//! positions inside a match.
//!
//! A block is its length in eight bytes, then literal runs and match lengths in
//! turn; a block that is too short for a match is a single run. A block of
//! length zero ends the stream.

use vstd::prelude::*;
use crate::error::Error;
use crate::lz::{
    Stream, announced, copy_into, extend_match, extended, hash_window, lemma_extended, literal_run,
    same_windows, window_hash, windows_equal, write_literal_run,
};
use crate::rep::{
    empty_table, leftover, lemma_end_mark_reads, lemma_literal_run_decodes, table_before,
};
use crate::wire::{
    ByteReader, Parsed, le_bytes, lemma_le_round_trip, lemma_le_value_bound,
    lemma_parse_varint_rest, lemma_pow256_widths, lemma_varint_round_trip, parse_bytes, parse_le,
    parse_varint, varint_bytes, write_bytes, write_u64, write_varint,
};

verus! {

/// Length of the context that predicts.
pub const CTX: usize = 8;

/// The shortest repeat that is replaced.
pub const MIN_MATCH: usize = 32;

/// Slots of the table of contexts.
pub const HASH_SIZE: usize = 0x10_0000;

/// Blocks below this length hold no match.
pub const SHORT_BLOCK: usize = 40;

/// The slot of the context of position `i`.
pub open spec fn slot(buf: Seq<u8>, i: int) -> int {
    window_hash(buf.subrange(i - CTX, i)) as int % HASH_SIZE as int
}

/// The table once position `i` was entered.
pub open spec fn entered(buf: Seq<u8>, table: Seq<u32>, i: int) -> Seq<u32> {
    table.update(slot(buf, i), (i % 0x1_0000_0000) as u32)
}

/// The table once the positions from `a` up to `b` were entered in order.
pub open spec fn learned(buf: Seq<u8>, table: Seq<u32>, a: int, b: int) -> Seq<u32>
    decreases b - a,
{
    if a >= b {
        table
    } else {
        entered(buf, learned(buf, table, a, b - 1), b - 1)
    }
}

/// Whether the predicted position starts a repeat that ends before `i`.
pub open spec fn is_match(buf: Seq<u8>, cand: u32, i: int) -> bool {
    cand != u32::MAX && cand + MIN_MATCH <= i && same_windows(buf, cand as int, i, MIN_MATCH as int)
}

/// The tokens for the part of the block from `lit` on, where the search has
/// come to `i` with the contexts of `table`.
pub open spec fn tokens(buf: Seq<u8>, table: Seq<u32>, i: int, lit: int) -> Seq<u8>
    decreases buf.len() - i,
{
    if i + MIN_MATCH > buf.len() {
        literal_run(buf, lit, buf.len() as int)
    } else {
        let cand = table[slot(buf, i)];
        let next = entered(buf, table, i);
        if is_match(buf, cand, i) {
            let m = extended(buf, cand as int, i, MIN_MATCH as int);
            proof {
                lemma_extended(buf, cand as int, i, MIN_MATCH as int);
            }
            literal_run(buf, lit, i) + varint_bytes(m) + tokens(buf, next, i + m, i + m)
        } else {
            tokens(buf, next, i + 1, lit)
        }
    }
}

/// One block.
pub open spec fn encoded_block(buf: Seq<u8>) -> Seq<u8> {
    le_bytes(buf.len() as int, 8) + if buf.len() < SHORT_BLOCK {
        literal_run(buf, 0, buf.len() as int)
    } else {
        tokens(buf, empty_table(HASH_SIZE as nat), CTX as int, 0)
    }
}

/// The whole stream for some data: one block unless there is none, and the
/// end mark.
pub open spec fn encoded_stream(data: Seq<u8>) -> Seq<u8> {
    if data.len() == 0 {
        le_bytes(0, 8)
    } else {
        encoded_block(data) + le_bytes(0, 8)
    }
}

/// Reads tokens until `n` bytes are rebuilt, of which `out` are there already;
/// `table` knows the contexts of the positions before `upd`.
#[verifier::opaque]
pub open spec fn decode_tokens(
    n: int,
    out: Seq<u8>,
    table: Seq<u32>,
    upd: int,
    s: Seq<u8>,
) -> Parsed<Seq<u8>>
    decreases s.len(),
{
    if out.len() >= n {
        Ok((out, s))
    } else {
        match parse_varint(s) {
            Err(e) => Err(e),
            Ok((lit, s1)) => if out.len() + lit > n {
                Err(Error::LiteralOverflow)
            } else {
                match parse_bytes(s1, lit as nat) {
                    Err(e) => Err(e),
                    Ok((run, s2)) => {
                        let out1 = out + run;
                        let start = out1.len() as int;
                        let known = learned(out1, table, upd, start);
                        let cand = known[slot(out1, start)];
                        if start >= n {
                            Ok((out1, s2))
                        } else if start < CTX || cand == u32::MAX {
                            Err(Error::NoPredictedSource)
                        } else {
                            match parse_varint(s2) {
                                Err(e) => Err(e),
                                Ok((m, s3)) => if m < MIN_MATCH || cand + m > start || start + m
                                    > n {
                                    Err(Error::BadMatch { len: m as u64 })
                                } else {
                                    proof {
                                        lemma_parse_varint_rest(s);
                                        lemma_parse_varint_rest(s2);
                                    }
                                    decode_tokens(
                                        n,
                                        out1 + out1.subrange(cand as int, cand + m),
                                        entered(out1, known, start),
                                        start + m,
                                        s3,
                                    )
                                },
                            }
                        }
                    },
                }
            },
        }
    }
}

/// The block of `n` bytes at the front of `s`.
pub open spec fn decoded_block(n: int, s: Seq<u8>) -> Parsed<Seq<u8>> {
    if n < SHORT_BLOCK {
        match parse_varint(s) {
            Err(e) => Err(e),
            Ok((lit, s1)) => if lit != n {
                Err(Error::ShortBlockMismatch)
            } else {
                parse_bytes(s1, n as nat)
            },
        }
    } else {
        decode_tokens(n, Seq::empty(), empty_table(HASH_SIZE as nat), CTX as int, s)
    }
}

proof fn lemma_decode_tokens_rest(n: int, out: Seq<u8>, table: Seq<u32>, upd: int, s: Seq<u8>)
    requires
        out.len() <= n,
    ensures
        decode_tokens(n, out, table, upd, s) matches Ok((b, t)) ==> b.len() == n && t.len()
            <= s.len(),
    decreases s.len(),
{
    reveal(decode_tokens);
    lemma_parse_varint_rest(s);
    if out.len() < n {
        if let Ok((lit, s1)) = parse_varint(s) {
            if let Ok((run, s2)) = parse_bytes(s1, lit as nat) {
                let out1 = out + run;
                let start = out1.len() as int;
                let known = learned(out1, table, upd, start);
                let cand = known[slot(out1, start)];
                lemma_parse_varint_rest(s2);
                if let Ok((m, s3)) = parse_varint(s2) {
                    if out.len() + lit <= n && m >= MIN_MATCH && cand + m <= start && start + m
                        <= n {
                        lemma_decode_tokens_rest(
                            n,
                            out1 + out1.subrange(cand as int, cand + m),
                            entered(out1, known, start),
                            start + m,
                            s3,
                        );
                    }
                }
            }
        }
    }
}

/// A block that was rebuilt has its announced length and leaves no more input
/// than there was.
pub proof fn lemma_decoded_block_rest(n: int, s: Seq<u8>)
    requires
        0 <= n,
    ensures
        decoded_block(n, s) matches Ok((b, t)) ==> b.len() == n && t.len() <= s.len(),
{
    lemma_parse_varint_rest(s);
    lemma_decode_tokens_rest(n, Seq::empty(), empty_table(HASH_SIZE as nat), CTX as int, s);
}

/// Everything that a reader gives out from `s`.
pub open spec fn decoded_stream(s: Seq<u8>) -> Stream
    decreases s.len(),
{
    match parse_le(s, 8) {
        Err(e) => Stream { bytes: Seq::empty(), fault: Some(e) },
        Ok((n, s1)) => if n == 0 {
            Stream { bytes: Seq::empty(), fault: None }
        } else if n > usize::MAX {
            Stream { bytes: Seq::empty(), fault: Some(Error::BlockTooLarge) }
        } else {
            match decoded_block(n, s1) {
                Err(e) => Stream { bytes: Seq::empty(), fault: Some(e) },
                Ok((block, s2)) => {
                    proof {
                        if 0 <= n {
                            lemma_decoded_block_rest(n, s1);
                        } else {
                            lemma_le_value_bound(s.take(8));
                        }
                    }
                    decoded_stream(s2).after(block)
                },
            }
        },
    }
}

proof fn lemma_learned_prefix(buf: Seq<u8>, table: Seq<u32>, a: int, b: int, n: int)
    requires
        CTX <= a,
        b <= n <= buf.len(),
    ensures
        learned(buf.take(n), table, a, b) == learned(buf, table, a, b),
    decreases b - a,
{
    if a < b {
        lemma_learned_prefix(buf, table, a, b - 1, n);
        assert(buf.take(n).subrange(b - 1 - CTX, b - 1) =~= buf.subrange(b - 1 - CTX, b - 1));
    }
}

/// A match token brings the decoder from the bytes before the match to those
/// up to its end, after the literal run before it.
proof fn lemma_match_decodes(
    buf: Seq<u8>,
    table: Seq<u32>,
    i: int,
    lit: int,
    known: Seq<u32>,
    upd: int,
    m: int,
    rest: Seq<u8>,
)
    requires
        0 <= lit <= i < buf.len(),
        CTX <= upd <= i,
        buf.len() < 0x1_0000_0000_0000_0000,
        table == learned(buf, known, upd, i),
        table[slot(buf, i)] != u32::MAX,
        MIN_MATCH <= m,
        table[slot(buf, i)] + m <= i,
        i + m <= buf.len(),
        forall|k: int|
            0 <= k < m ==> #[trigger] buf[table[slot(buf, i)] + k] == buf[i + k],
    ensures
        decode_tokens(
            buf.len() as int,
            buf.take(lit),
            known,
            upd,
            literal_run(buf, lit, i) + (varint_bytes(m) + rest),
        ) == decode_tokens(
            buf.len() as int,
            buf.take(i + m),
            entered(buf, table, i),
            i + m,
            rest,
        ),
{
    reveal(decode_tokens);
    let cand = table[slot(buf, i)] as int;
    let s2 = varint_bytes(m) + rest;
    let out1 = buf.take(i);
    lemma_literal_run_decodes(buf, lit, i, s2);
    lemma_varint_round_trip(m, rest);
    assert(buf.take(lit) + buf.subrange(lit, i) =~= out1);
    lemma_learned_prefix(buf, known, upd, i, i);
    assert(out1.subrange(i - CTX, i) =~= buf.subrange(i - CTX, i));
    let all = out1 + out1.subrange(cand, cand + m);
    assert(all =~= buf.take(i + m)) by {
        assert forall|k: int| 0 <= k < i + m implies all[k] == buf[k] by {
            if k >= i {
                assert(buf[cand + (k - i)] == buf[i + (k - i)]);
            }
        }
    }
}

/// The last literal run completes the block.
proof fn lemma_last_run_decodes(
    buf: Seq<u8>,
    lit: int,
    known: Seq<u32>,
    upd: int,
    tail: Seq<u8>,
)
    requires
        0 <= lit <= buf.len(),
        buf.len() < 0x1_0000_0000_0000_0000,
    ensures
        decode_tokens(
            buf.len() as int,
            buf.take(lit),
            known,
            upd,
            literal_run(buf, lit, buf.len() as int) + tail,
        ) matches Ok((b, t)) && b == buf && leftover(t, tail),
{
    reveal(decode_tokens);
    let n = buf.len() as int;
    let s = literal_run(buf, lit, n) + tail;
    if lit == n {
        assert(buf.take(lit) =~= buf);
        assert(s =~= seq![0u8] + tail);
    } else {
        lemma_literal_run_decodes(buf, lit, n, tail);
        assert(buf.take(lit) + buf.subrange(lit, n) =~= buf);
    }
}

#[verifier::spinoff_prover]
#[verifier::rlimit(30)]
proof fn lemma_tokens_decode(
    buf: Seq<u8>,
    table: Seq<u32>,
    i: int,
    lit: int,
    known: Seq<u32>,
    upd: int,
    tail: Seq<u8>,
)
    requires
        0 <= lit <= i <= buf.len(),
        CTX <= upd <= i,
        buf.len() < 0x1_0000_0000_0000_0000,
        table == learned(buf, known, upd, i),
        table_before(table, HASH_SIZE as nat, i),
    ensures
        decode_tokens(
            buf.len() as int,
            buf.take(lit),
            known,
            upd,
            tokens(buf, table, i, lit) + tail,
        ) matches Ok((b, t)) && b == buf && leftover(t, tail),
    decreases buf.len() - i,
{
    let n = buf.len() as int;
    if i + MIN_MATCH > n {
        lemma_last_run_decodes(buf, lit, known, upd, tail);
    } else {
        let cand = table[slot(buf, i)];
        let next = entered(buf, table, i);
        if is_match(buf, cand, i) {
            lemma_extended(buf, cand as int, i, MIN_MATCH as int);
            let m = extended(buf, cand as int, i, MIN_MATCH as int);
            let rest = tokens(buf, next, i + m, i + m) + tail;
            lemma_match_decodes(buf, table, i, lit, known, upd, m, rest);
            assert(tokens(buf, table, i, lit) + tail =~= literal_run(buf, lit, i) + (varint_bytes(m)
                + rest));
            lemma_tokens_decode(buf, next, i + m, i + m, next, i + m, tail);
        } else {
            assert(next == learned(buf, known, upd, i + 1));
            lemma_tokens_decode(buf, next, i + 1, lit, known, upd, tail);
        }
    }
}

/// Decoding what was encoded gives the data back, whatever follows the
/// stream.
pub proof fn lemma_lzp_round_trip(data: Seq<u8>, tail: Seq<u8>)
    requires
        data.len() <= usize::MAX,
    ensures
        decoded_stream(encoded_stream(data) + tail) == (Stream { bytes: data, fault: None }),
{
    lemma_pow256_widths();
    if data.len() == 0 {
        lemma_le_round_trip(0, 8, tail);
        assert(data =~= Seq::empty());
    } else {
        let n = data.len() as int;
        let none = empty_table(HASH_SIZE as nat);
        let toks = if n < SHORT_BLOCK {
            literal_run(data, 0, n)
        } else {
            tokens(data, none, CTX as int, 0)
        };
        let rest = le_bytes(0, 8) + tail;
        let s = encoded_stream(data) + tail;
        assert(s =~= le_bytes(n, 8) + (toks + rest));
        lemma_le_round_trip(n, 8, toks + rest);
        if n < SHORT_BLOCK {
            lemma_literal_run_decodes(data, 0, n, rest);
            assert(data.subrange(0, n) =~= data);
        } else {
            assert(data.take(0) =~= Seq::empty());
            lemma_tokens_decode(data, none, CTX as int, 0, none, CTX as int, rest);
        }
        let t = decoded_block(n, toks + rest)->Ok_0.1;
        lemma_end_mark_reads(t, tail);
        let end = Stream { bytes: Seq::<u8>::empty(), fault: None };
        assert(decoded_stream(t) == end);
        assert(decoded_stream(s) == end.after(data));
        assert(data + Seq::<u8>::empty() =~= data);
    }
}

/// Appends `buf` as one block.
pub fn encode_block(buf: &[u8], out: &mut Vec<u8>)
    ensures
        final(out)@ == old(out)@ + encoded_block(buf@),
{
    write_u64(out, buf.len() as u64);
    let ghost start = out@;
    if buf.len() < SHORT_BLOCK {
        write_literal_run(out, buf, 0, buf.len());
        assert(out@ =~= old(out)@ + encoded_block(buf@));
        return;
    }
    let mut table: Vec<u32> = vec![u32::MAX; HASH_SIZE];
    assert(table@ =~= empty_table(HASH_SIZE as nat));
    let ghost all = start + tokens(buf@, table@, CTX as int, 0);
    let mut i: usize = CTX;
    let mut lit_start: usize = 0;
    while i <= buf.len() - MIN_MATCH
        invariant
            buf@.len() >= SHORT_BLOCK,
            CTX <= i,
            lit_start <= i <= buf@.len(),
            table_before(table@, HASH_SIZE as nat, i as int),
            out@ + tokens(buf@, table@, i as int, lit_start as int) == all,
        decreases buf@.len() - i,
    {
        let h: usize = (hash_window(buf, i - CTX, CTX) % 0x10_0000) as usize;
        let candidate: u32 = table[h];
        let ghost table0 = table@;
        let ghost before = out@;
        assert(h == slot(buf@, i as int));
        assert((i as u64 % 0x1_0000_0000) as u32 == (i as int % 0x1_0000_0000) as u32);
        table.set(h, (i as u64 % 0x1_0000_0000) as u32);
        if candidate != u32::MAX && (candidate as usize) < i && i - candidate as usize >= MIN_MATCH
            && windows_equal(buf, candidate as usize, i, MIN_MATCH) {
            let p: usize = candidate as usize;
            let m: usize = extend_match(buf, p, i, MIN_MATCH);
            write_literal_run(out, buf, lit_start, i);
            write_varint(out, m as u64);
            proof {
                let rest = tokens(buf@, table@, i + m, i + m);
                assert(tokens(buf@, table0, i as int, lit_start as int) == literal_run(
                    buf@,
                    lit_start as int,
                    i as int,
                ) + varint_bytes(m as int) + rest);
                assert(out@ + rest =~= before + tokens(buf@, table0, i as int, lit_start as int));
            }
            i = i + m;
            lit_start = i;
        } else {
            i = i + 1;
        }
    }
    write_literal_run(out, buf, lit_start, buf.len());
    assert(out@ =~= old(out)@ + encoded_block(buf@));
}

/// Enters the positions from `a` up to `b`.
fn learn(out: &[u8], table: &mut Vec<u32>, a: usize, b: usize)
    requires
        old(table)@.len() == HASH_SIZE,
        CTX <= a,
        b <= out@.len(),
    ensures
        final(table)@ == learned(out@, old(table)@, a as int, b as int),
        final(table)@.len() == HASH_SIZE,
{
    let mut i: usize = a;
    while i < b
        invariant
            CTX <= a <= i,
            a < b ==> i <= b,
            a >= b ==> i == a,
            b <= out@.len(),
            table@.len() == HASH_SIZE,
            table@ == learned(out@, old(table)@, a as int, i as int),
        decreases b - i,
    {
        let h: usize = (hash_window(out, i - CTX, CTX) % 0x10_0000) as usize;
        assert(h == slot(out@, i as int));
        assert((i as u64 % 0x1_0000_0000) as u32 == (i as int % 0x1_0000_0000) as u32);
        table.set(h, (i as u64 % 0x1_0000_0000) as u32);
        i = i + 1;
    }
}

/// Rebuilds one block of `n` bytes.
pub fn decode_block(r: &mut ByteReader<'_>, n: u64) -> (res: Result<Vec<u8>, Error>)
    requires
        n <= usize::MAX,
    ensures
        match decoded_block(n as int, old(r).rest()) {
            Ok((b, t)) => res matches Ok(v) && v@ == b && final(r).rest() == t,
            Err(e) => res == Err::<Vec<u8>, Error>(e),
        },
{
    if n < SHORT_BLOCK as u64 {
        let lit: u64 = match r.read_varint() {
            Ok(v) => v,
            Err(e) => {
                return Err(e);
            },
        };
        if lit != n {
            return Err(Error::ShortBlockMismatch);
        }
        return match r.read_bytes(n as usize) {
            Ok(v) => Ok(vstd::slice::slice_to_vec(v)),
            Err(e) => Err(e),
        };
    }
    let ghost whole = decoded_block(n as int, r.rest());
    let mut table: Vec<u32> = vec![u32::MAX; HASH_SIZE];
    assert(table@ =~= empty_table(HASH_SIZE as nat));
    let mut upd: usize = CTX;
    let mut out: Vec<u8> = Vec::new();
    while (out.len() as u64) < n
        invariant
            n <= usize::MAX,
            whole == decoded_block(n as int, old(r).rest()),
            decode_tokens(n as int, out@, table@, upd as int, r.rest()) == whole,
            out@.len() <= n,
            CTX <= upd,
            table@.len() == HASH_SIZE,
        decreases r.rest().len(),
    {
        proof {
            reveal(decode_tokens);
            lemma_parse_varint_rest(r.rest());
        }
        let lit: u64 = match r.read_varint() {
            Ok(v) => v,
            Err(e) => {
                return Err(e);
            },
        };
        if lit > n - out.len() as u64 {
            return Err(Error::LiteralOverflow);
        }
        let run = match r.read_bytes(lit as usize) {
            Ok(v) => v,
            Err(e) => {
                return Err(e);
            },
        };
        write_bytes(&mut out, run);
        if out.len() as u64 >= n {
            return Ok(out);
        }
        let start: usize = out.len();
        if start < CTX {
            return Err(Error::NoPredictedSource);
        }
        let ghost out1 = out@;
        learn(&out, &mut table, upd, start);
        let h: usize = (hash_window(&out, start - CTX, CTX) % 0x10_0000) as usize;
        assert(h == slot(out1, start as int));
        let candidate: u32 = table[h];
        if candidate == u32::MAX {
            return Err(Error::NoPredictedSource);
        }
        let p: usize = candidate as usize;
        assert((start as u64 % 0x1_0000_0000) as u32 == (start as int % 0x1_0000_0000) as u32);
        table.set(h, (start as u64 % 0x1_0000_0000) as u32);
        proof {
            lemma_parse_varint_rest(r.rest());
        }
        let m: u64 = match r.read_varint() {
            Ok(v) => v,
            Err(e) => {
                return Err(e);
            },
        };
        if m < MIN_MATCH as u64 || p > start || m > (start - p) as u64 || m > n - start as u64 {
            return Err(Error::BadMatch { len: m });
        }
        let copy = vstd::slice::slice_to_vec(
            vstd::slice::slice_subrange(out.as_slice(), p, p + m as usize),
        );
        write_bytes(&mut out, &copy);
        upd = start + m as usize;
    }
    proof {
        reveal(decode_tokens);
    }
    Ok(out)
}

/// Collects everything that is written and encodes it as one block at the end.
pub struct LzpWriter {
    inner: Vec<u8>,
    buf: Vec<u8>,
}

impl LzpWriter {
    /// What is already in the sink.
    pub closed spec fn sink(&self) -> Seq<u8> {
        self.inner@
    }

    /// What was written so far.
    pub closed spec fn written(&self) -> Seq<u8> {
        self.buf@
    }

    /// A writer that appends to `inner`.
    pub fn new(inner: Vec<u8>) -> (w: Self)
        ensures
            w.sink() == inner@,
            w.written() == Seq::<u8>::empty(),
    {
        LzpWriter { inner, buf: Vec::new() }
    }

    /// Takes all of `data` and returns its length.
    pub fn write(&mut self, data: &[u8]) -> (n: usize)
        ensures
            n == data@.len(),
            final(self).sink() == old(self).sink(),
            final(self).written() == old(self).written() + data@,
    {
        write_bytes(&mut self.buf, data);
        data.len()
    }

    /// Encodes what was written, adds the end mark and returns the sink.
    pub fn finish(self) -> (out: Vec<u8>)
        ensures
            out@ == self.sink() + encoded_stream(self.written()),
    {
        let mut out = self.inner;
        if self.buf.len() > 0 {
            encode_block(&self.buf, &mut out);
        }
        write_u64(&mut out, 0);
        assert(out@ =~= self.sink() + encoded_stream(self.written()));
        out
    }
}

/// Gives out the bytes behind an encoded stream, one block in memory at a
/// time.
pub struct LzpReader<'a> {
    inner: ByteReader<'a>,
    block: Vec<u8>,
    pos: usize,
    done: bool,
}

impl<'a> LzpReader<'a> {
    #[verifier::type_invariant]
    spec fn inv(self) -> bool {
        self.pos <= self.block@.len()
    }

    /// What is still to be given out.
    pub closed spec fn pending(&self) -> Stream {
        if self.done {
            Stream { bytes: self.block@.skip(self.pos as int), fault: None }
        } else {
            decoded_stream(self.inner.rest()).after(self.block@.skip(self.pos as int))
        }
    }

    /// How many bytes are left of the block that is decoded, or how many the
    /// next one announces where none are left.
    pub closed spec fn at_hand(&self) -> nat {
        if self.pos < self.block@.len() {
            (self.block@.len() - self.pos) as nat
        } else if self.done {
            0
        } else {
            announced(self.inner.rest())
        }
    }

    pub fn new(inner: &'a [u8]) -> (r: Self)
        ensures
            r.pending() == decoded_stream(inner@),
            r.at_hand() == announced(inner@),
    {
        let r = LzpReader { inner: ByteReader::new(inner), block: Vec::new(), pos: 0, done: false };
        assert(r.pending() =~= decoded_stream(inner@));
        r
    }

    /// Decodes the next block, or notes the end of the stream.
    fn fill_next_block(&mut self) -> (res: Result<(), Error>)
        requires
            !old(self).done,
            old(self).pos == old(self).block@.len(),
        ensures
            match res {
                Ok(()) => {
                    &&& final(self).pending() == old(self).pending()
                    &&& final(self).done ==> final(self).pos == final(self).block@.len()
                    &&& !final(self).done ==> final(self).pos < final(self).block@.len()
                        && final(self).inner.rest().len() < old(self).inner.rest().len()
                    &&& final(self).block@.len() - final(self).pos == announced(
                        old(self).inner.rest(),
                    )
                },
                Err(e) => old(self).pending() == (Stream {
                    bytes: Seq::<u8>::empty(),
                    fault: Some(e),
                }),
            },
    {
        let ghost s = self.inner.rest();
        assert(self.block@.skip(self.pos as int) =~= Seq::<u8>::empty());
        assert(self.pending() =~= decoded_stream(s));
        let mut inner = self.inner;
        let block_len: u64 = match inner.read_u64() {
            Ok(n) => n,
            Err(e) => {
                return Err(e);
            },
        };
        if block_len == 0 {
            self.done = true;
            return Ok(());
        }
        if block_len > usize::MAX as u64 {
            return Err(Error::BlockTooLarge);
        }
        let ghost s1 = inner.rest();
        let out = match decode_block(&mut inner, block_len) {
            Ok(b) => b,
            Err(e) => {
                return Err(e);
            },
        };
        proof {
            lemma_decoded_block_rest(block_len as int, s1);
        }
        self.inner = inner;
        self.pos = 0;
        self.block = out;
        assert(self.block@.skip(0) =~= self.block@);
        Ok(())
    }

    /// Fills the front of `dst` with the next bytes of one block and returns how
    /// many; zero for a non-empty `dst` means the end of the stream.
    pub fn read(&mut self, dst: &mut [u8]) -> (res: Result<usize, Error>)
        ensures
            match res {
                Ok(n) => {
                    &&& n == (if old(dst)@.len() < old(self).at_hand() {
                        old(dst)@.len()
                    } else {
                        old(self).at_hand()
                    })
                    &&& n < old(self).at_hand() ==> final(self).at_hand() == old(self).at_hand() - n
                    &&& n <= old(self).pending().bytes.len()
                    &&& final(dst)@ == old(self).pending().bytes.take(n as int) + old(dst)@.skip(
                        n as int,
                    )
                    &&& final(self).pending() == (Stream {
                        bytes: old(self).pending().bytes.skip(n as int),
                        fault: old(self).pending().fault,
                    })
                    &&& n == 0 && old(dst)@.len() > 0 ==> old(self).pending() == (Stream {
                        bytes: Seq::<u8>::empty(),
                        fault: None,
                    })
                },
                Err(e) => old(self).pending() == (Stream {
                    bytes: Seq::<u8>::empty(),
                    fault: Some(e),
                }) && final(dst)@ == old(dst)@,
            },
    {
        proof {
            use_type_invariant(&*self);
        }
        if self.pos >= self.block.len() {
            assert(self.block@.skip(self.pos as int) =~= Seq::<u8>::empty());
            if !self.done {
                match self.fill_next_block() {
                    Ok(()) => {},
                    Err(e) => {
                        return Err(e);
                    },
                }
            }
            if self.done {
                assert(self.block@.skip(self.pos as int) =~= Seq::<u8>::empty());
                assert(old(dst)@ =~= Seq::<u8>::empty().take(0) + old(dst)@.skip(0));
                assert(self.pending() =~= old(self).pending());
                return Ok(0);
            }
        }
        let ghost mid = self.pending();
        let ghost left = self.block@.skip(self.pos as int);
        let src = vstd::slice::slice_subrange(self.block.as_slice(), self.pos, self.block.len());
        assert(src@ =~= left);
        let n: usize = copy_into(dst, src);
        self.pos = self.pos + n;
        proof {
            assert(self.block@.skip(self.pos as int) =~= left.skip(n as int));
            assert(mid.bytes.take(n as int) =~= left.take(n as int));
            assert(mid.bytes.skip(n as int) =~= self.pending().bytes);
        }
        Ok(n)
    }

    /// Everything up to the end of the stream.
    pub fn read_to_end(self) -> (res: Result<Vec<u8>, Error>)
        ensures
            match self.pending().fault {
                None => res matches Ok(v) && v@ == self.pending().bytes,
                Some(e) => res == Err::<Vec<u8>, Error>(e),
            },
    {
        let mut r = self;
        proof {
            use_type_invariant(&r);
        }
        let mut out: Vec<u8> = Vec::new();
        let front = vstd::slice::slice_subrange(r.block.as_slice(), r.pos, r.block.len());
        write_bytes(&mut out, front);
        r.pos = r.block.len();
        proof {
            assert(out@ =~= self.block@.skip(self.pos as int));
            assert(r.block@.skip(r.pos as int) =~= Seq::<u8>::empty());
            assert(r.pending().after(out@) =~= self.pending());
        }
        while !r.done
            invariant
                r.pos == r.block@.len(),
                r.pending().after(out@) == self.pending(),
            decreases (if r.done { 0nat } else { 1 + r.inner.rest().len() }),
        {
            let ghost front = out@;
            let ghost mid = r.pending();
            let ghost s = r.inner.rest();
            match r.fill_next_block() {
                Ok(()) => {},
                Err(e) => {
                    return Err(e);
                },
            }
            let ghost filled = r.block@.skip(r.pos as int);
            proof {
                use_type_invariant(&r);
            }
            let part = vstd::slice::slice_subrange(r.block.as_slice(), r.pos, r.block.len());
            write_bytes(&mut out, part);
            r.pos = r.block.len();
            proof {
                assert(part@ =~= filled);
                assert(r.block@.skip(r.pos as int) =~= Seq::<u8>::empty());
                assert(r.pending().after(filled) =~= mid);
                assert(r.pending().after(out@) =~= mid.after(front));
            }
        }
        assert(r.block@.skip(r.pos as int) =~= Seq::<u8>::empty());
        assert(out@ =~= self.pending().bytes);
        Ok(out)
    }
}

/// Data below 40 bytes has no repeat to be replaced: it stands in the stream as it is, behind its
/// length in eight bytes and as one run, and eight zero bytes end the stream. So do they
/// where there is no data.
pub proof fn lemma_short_data_stands(data: Seq<u8>)
    requires
        data.len() < 40,
    ensures
        data.len() > 0 ==> encoded_stream(data) == le_bytes(data.len() as int, 8) + varint_bytes(
            data.len() as int,
        ) + data + le_bytes(0, 8),
        data.len() == 0 ==> encoded_stream(data) == le_bytes(0, 8),
{
    if data.len() > 0 {
        let n = data.len() as int;
        assert(data.subrange(0, n) =~= data);
        assert(encoded_stream(data) =~= le_bytes(n, 8) + varint_bytes(n) + data + le_bytes(0, 8));
    }
}

/// What becomes of a place in the data: where the last place behind the same eight bytes,
/// by their hash, starts the same 32 bytes and lies as many before it, the data from there
/// on becomes the length of the repeat, behind the bytes that were passed over; any other
/// place is passed over.
pub proof fn lemma_place_tells(buf: Seq<u8>, table: Seq<u32>, i: int, lit: int)
    requires
        8 <= i,
    ensures
        ({
            let at = window_hash(buf.subrange(i - 8, i)) as int % 0x10_0000;
            let cand = table[at];
            let next = table.update(at, (i % 0x1_0000_0000) as u32);
            let m = extended(buf, cand as int, i, 32);
            let same = cand != u32::MAX && cand + 32 <= i && forall|k: int|
                0 <= k < 32 ==> #[trigger] buf[cand + k] == buf[i + k];
            &&& i + 32 > buf.len() ==> tokens(buf, table, i, lit) == literal_run(
                buf,
                lit,
                buf.len() as int,
            )
            &&& i + 32 <= buf.len() && same ==> tokens(buf, table, i, lit) == literal_run(
                buf,
                lit,
                i,
            ) + varint_bytes(m) + tokens(buf, next, i + m, i + m)
            &&& i + 32 <= buf.len() && !same ==> tokens(buf, table, i, lit) == tokens(
                buf,
                next,
                i + 1,
                lit,
            )
        }),
{
    if i + 32 <= buf.len() {
        let cand = table[slot(buf, i)];
        assert(is_match(buf, cand, i) <==> cand != u32::MAX && cand + 32 <= i && forall|k: int|
            0 <= k < 32 ==> #[trigger] buf[cand + k] == buf[i + k]);
        if is_match(buf, cand, i) {
            lemma_extended(buf, cand as int, i, 32);
        }
    }
}

} // verus!
