//! REP: replaces long repeats at any distance inside one block by references.
//!
//! A block is its length in eight bytes, then literal runs and references in
//! turn: the run's length and bytes, and while bytes are missing the length of
//! the match and its distance back. Lengths and distances are variable-length
//! integers. A block of length zero ends the stream.

use vstd::prelude::*;
use crate::error::Error;
use crate::lz::{
    Stream, announced, copy_back, copy_from_back, copy_into, extend_match, extended, hash_window,
    lemma_copy_back_len, lemma_copy_back_rebuilds, lemma_extended, literal_run, same_windows,
    window_hash, windows_equal, write_literal_run,
};
use crate::wire::{
    ByteReader, Parsed, le_bytes, lemma_le_round_trip, lemma_parse_varint_rest,
    lemma_pow256_widths, lemma_varint_round_trip, parse_bytes, parse_le, parse_varint,
    varint_bytes, write_bytes, write_u64, write_varint,
};

verus! {

/// The shortest repeat that is replaced.
pub const MIN_MATCH: usize = 64;

/// Slots of the table of recent window positions.
pub const HASH_SIZE: usize = 0x100_0000;

/// The slot of the window at `i`.
pub open spec fn slot(buf: Seq<u8>, i: int) -> int {
    window_hash(buf.subrange(i, i + MIN_MATCH)) as int % HASH_SIZE as int
}

/// The table before any window was seen: `u32::MAX` marks a free slot.
pub open spec fn empty_table(size: nat) -> Seq<u32> {
    Seq::new(size, |k: int| u32::MAX)
}

/// Every position in the table lies before `i`.
pub open spec fn table_before(table: Seq<u32>, size: nat, i: int) -> bool {
    &&& table.len() == size
    &&& forall|k: int| 0 <= k < size ==> #[trigger] table[k] == u32::MAX || table[k] < i
}

/// Whether the position in a table slot is an earlier copy of the window at
/// `i`.
pub open spec fn is_match(buf: Seq<u8>, cand: u32, i: int) -> bool {
    cand != u32::MAX && same_windows(buf, cand as int, i, MIN_MATCH as int)
}

/// The tokens for the part of the block from `lit` on, where the search has
/// come to `i`: the table holds, for each slot, the last position that was
/// looked at (modulo 2^32); the first position whose slot holds an equal window
/// is encoded as a reference of the longest extension.
pub open spec fn tokens(buf: Seq<u8>, table: Seq<u32>, i: int, lit: int) -> Seq<u8>
    decreases buf.len() - i,
{
    if i + MIN_MATCH > buf.len() {
        literal_run(buf, lit, buf.len() as int)
    } else {
        let cand = table[slot(buf, i)];
        let next = table.update(slot(buf, i), (i % 0x1_0000_0000) as u32);
        if is_match(buf, cand, i) {
            let m = extended(buf, cand as int, i, MIN_MATCH as int);
            proof {
                lemma_extended(buf, cand as int, i, MIN_MATCH as int);
            }
            literal_run(buf, lit, i) + varint_bytes(m) + varint_bytes(i - cand) + tokens(
                buf,
                next,
                i + m,
                i + m,
            )
        } else {
            tokens(buf, next, i + 1, lit)
        }
    }
}

/// One block.
pub open spec fn encoded_block(buf: Seq<u8>) -> Seq<u8> {
    le_bytes(buf.len() as int, 8) + if buf.len() < MIN_MATCH {
        literal_run(buf, 0, buf.len() as int)
    } else {
        tokens(buf, empty_table(HASH_SIZE as nat), 0, 0)
    }
}

/// The whole stream for some data: one block unless there is none, and the
/// end mark.
pub open spec fn encoded_stream(data: Seq<u8>) -> Seq<u8> {
    if data.len() == 0 {
        le_bytes(0, 8)
    } else {
        encoded_block(data) + le_bytes(0, 8)
    }
}

/// Reads tokens until `n` bytes are rebuilt, of which `out` are there already.
#[verifier::opaque]
pub open spec fn decode_tokens(n: int, out: Seq<u8>, s: Seq<u8>) -> Parsed<Seq<u8>>
    decreases s.len(),
{
    if out.len() >= n {
        if out.len() == n {
            Ok((out, s))
        } else {
            Err(Error::BlockSizeMismatch)
        }
    } else {
        match parse_varint(s) {
            Err(e) => Err(e),
            Ok((lit, s1)) => match parse_bytes(s1, lit as nat) {
                Err(e) => Err(e),
                Ok((run, s2)) => {
                    let out1 = out + run;
                    if out1.len() >= n {
                        if out1.len() == n {
                            Ok((out1, s2))
                        } else {
                            Err(Error::BlockSizeMismatch)
                        }
                    } else {
                        match parse_varint(s2) {
                            Err(e) => Err(e),
                            Ok((m, s3)) => match parse_varint(s3) {
                                Err(e) => Err(e),
                                Ok((back, s4)) => if m == 0 || back == 0 || back > out1.len() {
                                    Err(Error::BadReference { len: m as u64, back: back as u64 })
                                } else {
                                    proof {
                                        lemma_parse_varint_rest(s);
                                        lemma_parse_varint_rest(s2);
                                        lemma_parse_varint_rest(s3);
                                    }
                                    decode_tokens(n, copy_back(out1, back, m as nat), s4)
                                },
                            },
                        }
                    }
                },
            },
        }
    }
}

/// A block that was rebuilt has its announced length and leaves no more input
/// than there was.
pub proof fn lemma_decode_tokens_rest(n: int, out: Seq<u8>, s: Seq<u8>)
    ensures
        decode_tokens(n, out, s) matches Ok((b, t)) ==> b.len() == n && t.len() <= s.len(),
    decreases s.len(),
{
    reveal(decode_tokens);
    lemma_parse_varint_rest(s);
    if out.len() < n {
        if let Ok((lit, s1)) = parse_varint(s) {
            if let Ok((run, s2)) = parse_bytes(s1, lit as nat) {
                lemma_parse_varint_rest(s2);
                if let Ok((m, s3)) = parse_varint(s2) {
                    lemma_parse_varint_rest(s3);
                    if let Ok((back, s4)) = parse_varint(s3) {
                        lemma_decode_tokens_rest(n, copy_back(out + run, back, m as nat), s4);
                    }
                }
            }
        }
    }
}

/// Everything that a reader gives out from `s`.
pub open spec fn decoded_stream(s: Seq<u8>) -> Stream
    decreases s.len(),
{
    match parse_le(s, 8) {
        Err(e) => Stream { bytes: Seq::empty(), fault: Some(e) },
        Ok((n, s1)) => if n == 0 {
            Stream { bytes: Seq::empty(), fault: None }
        } else if n > usize::MAX {
            Stream { bytes: Seq::empty(), fault: Some(Error::BlockTooLarge) }
        } else {
            match decode_tokens(n, Seq::empty(), s1) {
                Err(e) => Stream { bytes: Seq::empty(), fault: Some(e) },
                Ok((block, s2)) => {
                    proof {
                        lemma_decode_tokens_rest(n, Seq::empty(), s1);
                    }
                    decoded_stream(s2).after(block)
                },
            }
        },
    }
}

/// A literal run reads back as its length and its bytes.
pub proof fn lemma_literal_run_decodes(buf: Seq<u8>, a: int, b: int, tail: Seq<u8>)
    requires
        0 <= a <= b <= buf.len(),
        buf.len() < 0x1_0000_0000_0000_0000,
    ensures
        ({
            let s = literal_run(buf, a, b) + tail;
            let s1 = buf.subrange(a, b) + tail;
            &&& parse_varint(s) == Ok::<(int, Seq<u8>), Error>((b - a, s1))
            &&& parse_bytes(s1, (b - a) as nat) == Ok::<(Seq<u8>, Seq<u8>), Error>(
                (buf.subrange(a, b), tail),
            )
        }),
{
    let s = literal_run(buf, a, b) + tail;
    let s1 = buf.subrange(a, b) + tail;
    assert(s =~= varint_bytes(b - a) + s1);
    lemma_varint_round_trip(b - a, s1);
    assert(s1.take(b - a) =~= buf.subrange(a, b));
    assert(s1.skip(b - a) =~= tail);
}

/// The rest of a block after its last needed byte: nothing, or the empty run
/// that follows a match at the very end.
pub open spec fn leftover(t: Seq<u8>, tail: Seq<u8>) -> bool {
    t == tail || t == seq![0u8] + tail
}

/// A reference token brings the decoder from the bytes before the match to
/// those up to its end, after the literal run before it.
pub proof fn lemma_reference_decodes(
    buf: Seq<u8>,
    lit: int,
    i: int,
    cand: int,
    m: int,
    rest: Seq<u8>,
)
    requires
        0 <= lit <= i < buf.len(),
        0 <= cand < i,
        0 < m,
        i + m <= buf.len(),
        buf.len() < 0x1_0000_0000_0000_0000,
        forall|k: int| 0 <= k < m ==> #[trigger] buf[cand + k] == buf[i + k],
    ensures
        decode_tokens(
            buf.len() as int,
            buf.take(lit),
            literal_run(buf, lit, i) + varint_bytes(m) + varint_bytes(i - cand) + rest,
        ) == decode_tokens(buf.len() as int, buf.take(i + m), rest),
{
    reveal(decode_tokens);
    let n = buf.len() as int;
    let s = literal_run(buf, lit, i) + varint_bytes(m) + varint_bytes(i - cand) + rest;
    let s2 = varint_bytes(m) + (varint_bytes(i - cand) + rest);
    let s3 = varint_bytes(i - cand) + rest;
    assert(s =~= literal_run(buf, lit, i) + s2);
    lemma_literal_run_decodes(buf, lit, i, s2);
    lemma_varint_round_trip(m, s3);
    lemma_varint_round_trip(i - cand, rest);
    assert(buf.take(lit) + buf.subrange(lit, i) =~= buf.take(i));
    assert forall|k: int| 0 <= k < m implies #[trigger] buf[i - (i - cand) + k] == buf[i + k] by {
        assert(buf[cand + k] == buf[i + k]);
    }
    lemma_copy_back_rebuilds(buf, i, i - cand, m as nat);
}

/// The last literal run completes the block.
pub proof fn lemma_last_run_decodes(buf: Seq<u8>, lit: int, tail: Seq<u8>)
    requires
        0 <= lit <= buf.len(),
        buf.len() < 0x1_0000_0000_0000_0000,
    ensures
        decode_tokens(
            buf.len() as int,
            buf.take(lit),
            literal_run(buf, lit, buf.len() as int) + tail,
        ) matches Ok((b, t)) && b == buf && leftover(t, tail),
{
    reveal(decode_tokens);
    let n = buf.len() as int;
    let s = literal_run(buf, lit, n) + tail;
    if lit == n {
        assert(buf.take(lit) =~= buf);
        assert(s =~= seq![0u8] + tail);
    } else {
        lemma_literal_run_decodes(buf, lit, n, tail);
        assert(buf.take(lit) + buf.subrange(lit, n) =~= buf);
    }
}

proof fn lemma_tokens_decode(buf: Seq<u8>, table: Seq<u32>, i: int, lit: int, tail: Seq<u8>)
    requires
        0 <= lit <= i <= buf.len(),
        buf.len() < 0x1_0000_0000_0000_0000,
        table_before(table, HASH_SIZE as nat, i),
    ensures
        decode_tokens(
            buf.len() as int,
            buf.take(lit),
            tokens(buf, table, i, lit) + tail,
        ) matches Ok((b, t)) && b == buf && leftover(t, tail),
    decreases buf.len() - i,
{
    if i + MIN_MATCH > buf.len() {
        lemma_last_run_decodes(buf, lit, tail);
    } else {
        let cand = table[slot(buf, i)];
        let next = table.update(slot(buf, i), (i % 0x1_0000_0000) as u32);
        if is_match(buf, cand, i) {
            lemma_extended(buf, cand as int, i, MIN_MATCH as int);
            let m = extended(buf, cand as int, i, MIN_MATCH as int);
            let rest = tokens(buf, next, i + m, i + m) + tail;
            lemma_reference_decodes(buf, lit, i, cand as int, m, rest);
            assert(tokens(buf, table, i, lit) + tail =~= literal_run(buf, lit, i) + varint_bytes(m)
                + varint_bytes(i - cand) + rest);
            lemma_tokens_decode(buf, next, i + m, i + m, tail);
        } else {
            lemma_tokens_decode(buf, next, i + 1, lit, tail);
        }
    }
}

/// A stream that starts with a block whose tokens decode to `data`, and then
/// has the end mark, gives out exactly `data`.
pub proof fn lemma_block_stream_decodes(data: Seq<u8>, toks: Seq<u8>, tail: Seq<u8>)
    requires
        0 < data.len() <= usize::MAX,
        decode_tokens(
            data.len() as int,
            Seq::empty(),
            toks + (le_bytes(0, 8) + tail),
        ) matches Ok((b, t)) && b == data && leftover(t, le_bytes(0, 8) + tail),
    ensures
        decoded_stream(le_bytes(data.len() as int, 8) + toks + le_bytes(0, 8) + tail) == (Stream {
            bytes: data,
            fault: None,
        }),
{
    let s = le_bytes(data.len() as int, 8) + toks + le_bytes(0, 8) + tail;
    let after = toks + (le_bytes(0, 8) + tail);
    assert(s =~= le_bytes(data.len() as int, 8) + after);
    lemma_pow256_widths();
    lemma_le_round_trip(data.len() as int, 8, after);
    let t = decode_tokens(data.len() as int, Seq::empty(), after)->Ok_0.1;
    lemma_le_round_trip(0, 8, tail);
    lemma_end_mark_reads(t, tail);
    let end = Stream { bytes: Seq::<u8>::empty(), fault: None };
    assert(decoded_stream(t) == end);
    assert(decoded_stream(s) == end.after(data));
    assert(data + Seq::<u8>::empty() =~= data);
}

/// After a block the end mark is read as such, even behind the empty run.
pub proof fn lemma_end_mark_reads(t: Seq<u8>, tail: Seq<u8>)
    requires
        leftover(t, le_bytes(0, 8) + tail),
    ensures
        parse_le(t, 8) matches Ok((n, r)) && n == 0,
{
    lemma_pow256_widths();
    lemma_le_round_trip(0, 8, tail);
    if t != le_bytes(0, 8) + tail {
        let mark = le_bytes(0, 8);
        assert(mark =~= seq![0u8, 0, 0, 0, 0, 0, 0, 0]) by {
            reveal_with_fuel(le_bytes, 9);
        }
        assert(t.take(8) =~= mark);
        lemma_le_round_trip(0, 8, Seq::empty());
        assert((mark + Seq::<u8>::empty()).take(8) =~= mark);
    }
}

/// Decoding what was encoded gives the data back, whatever follows the
/// stream.
pub proof fn lemma_rep_round_trip(data: Seq<u8>, tail: Seq<u8>)
    requires
        data.len() <= usize::MAX,
    ensures
        decoded_stream(encoded_stream(data) + tail) == (Stream { bytes: data, fault: None }),
{
    if data.len() == 0 {
        lemma_pow256_widths();
        lemma_le_round_trip(0, 8, tail);
        assert(data =~= Seq::empty());
    } else {
        let toks = if data.len() < MIN_MATCH {
            literal_run(data, 0, data.len() as int)
        } else {
            tokens(data, empty_table(HASH_SIZE as nat), 0, 0)
        };
        let rest = le_bytes(0, 8) + tail;
        assert(data.take(0) =~= Seq::empty());
        if data.len() < MIN_MATCH {
            lemma_last_run_decodes(data, 0, rest);
        } else {
            lemma_tokens_decode(data, empty_table(HASH_SIZE as nat), 0, 0, rest);
        }
        lemma_block_stream_decodes(data, toks, tail);
        assert(encoded_stream(data) + tail =~= le_bytes(data.len() as int, 8) + toks + le_bytes(
            0,
            8,
        ) + tail);
    }
}

/// Appends `buf` as one block.
pub fn encode_block(buf: &[u8], out: &mut Vec<u8>)
    ensures
        final(out)@ == old(out)@ + encoded_block(buf@),
{
    write_u64(out, buf.len() as u64);
    let ghost start = out@;
    if buf.len() < MIN_MATCH {
        write_literal_run(out, buf, 0, buf.len());
        assert(out@ =~= old(out)@ + encoded_block(buf@));
        return;
    }
    let mut table: Vec<u32> = vec![u32::MAX; HASH_SIZE];
    assert(table@ =~= empty_table(HASH_SIZE as nat));
    let ghost all = start + tokens(buf@, table@, 0, 0);
    let mut i: usize = 0;
    let mut lit_start: usize = 0;
    while i <= buf.len() - MIN_MATCH
        invariant
            buf@.len() >= MIN_MATCH,
            lit_start <= i <= buf@.len(),
            table_before(table@, HASH_SIZE as nat, i as int),
            out@ + tokens(buf@, table@, i as int, lit_start as int) == all,
        decreases buf@.len() - i,
    {
        let h: usize = (hash_window(buf, i, MIN_MATCH) % 0x100_0000) as usize;
        let candidate: u32 = table[h];
        let ghost table0 = table@;
        let ghost before = out@;
        assert(h == slot(buf@, i as int));
        assert((i as u64 % 0x1_0000_0000) as u32 == (i as int % 0x1_0000_0000) as u32);
        table.set(h, (i as u64 % 0x1_0000_0000) as u32);
        if candidate != u32::MAX && windows_equal(buf, candidate as usize, i, MIN_MATCH) {
            let cand: usize = candidate as usize;
            let m: usize = extend_match(buf, cand, i, MIN_MATCH);
            write_literal_run(out, buf, lit_start, i);
            write_varint(out, m as u64);
            write_varint(out, (i - cand) as u64);
            proof {
                let rest = tokens(buf@, table@, i + m, i + m);
                assert(tokens(buf@, table0, i as int, lit_start as int) == literal_run(
                    buf@,
                    lit_start as int,
                    i as int,
                ) + varint_bytes(m as int) + varint_bytes(i - cand) + rest);
                assert(out@ + rest =~= before + tokens(buf@, table0, i as int, lit_start as int));
            }
            i = i + m;
            lit_start = i;
        } else {
            i = i + 1;
        }
    }
    write_literal_run(out, buf, lit_start, buf.len());
    assert(out@ =~= old(out)@ + encoded_block(buf@));
}

/// Collects everything that is written and encodes it as one block at the end.
pub struct RepWriter {
    inner: Vec<u8>,
    buf: Vec<u8>,
}

impl RepWriter {
    /// What is already in the sink.
    pub closed spec fn sink(&self) -> Seq<u8> {
        self.inner@
    }

    /// What was written so far.
    pub closed spec fn written(&self) -> Seq<u8> {
        self.buf@
    }

    /// A writer that appends to `inner`.
    pub fn new(inner: Vec<u8>) -> (w: Self)
        ensures
            w.sink() == inner@,
            w.written() == Seq::<u8>::empty(),
    {
        RepWriter { inner, buf: Vec::new() }
    }

    /// Takes all of `data` and returns its length.
    pub fn write(&mut self, data: &[u8]) -> (n: usize)
        ensures
            n == data@.len(),
            final(self).sink() == old(self).sink(),
            final(self).written() == old(self).written() + data@,
    {
        write_bytes(&mut self.buf, data);
        data.len()
    }

    /// Encodes what was written, adds the end mark and returns the sink.
    pub fn finish(self) -> (out: Vec<u8>)
        ensures
            out@ == self.sink() + encoded_stream(self.written()),
    {
        let mut out = self.inner;
        if self.buf.len() > 0 {
            encode_block(&self.buf, &mut out);
        }
        write_u64(&mut out, 0);
        assert(out@ =~= self.sink() + encoded_stream(self.written()));
        out
    }
}

/// Gives out the bytes behind an encoded stream, one block in memory at a
/// time.
pub struct RepReader<'a> {
    inner: ByteReader<'a>,
    block: Vec<u8>,
    pos: usize,
    done: bool,
}

impl<'a> RepReader<'a> {
    #[verifier::type_invariant]
    spec fn inv(self) -> bool {
        self.pos <= self.block@.len()
    }

    /// What is still to be given out.
    pub closed spec fn pending(&self) -> Stream {
        if self.done {
            Stream { bytes: self.block@.skip(self.pos as int), fault: None }
        } else {
            decoded_stream(self.inner.rest()).after(self.block@.skip(self.pos as int))
        }
    }

    /// How many bytes are left of the block that is decoded, or how many the
    /// next one announces where none are left.
    pub closed spec fn at_hand(&self) -> nat {
        if self.pos < self.block@.len() {
            (self.block@.len() - self.pos) as nat
        } else if self.done {
            0
        } else {
            announced(self.inner.rest())
        }
    }

    pub fn new(inner: &'a [u8]) -> (r: Self)
        ensures
            r.pending() == decoded_stream(inner@),
            r.at_hand() == announced(inner@),
    {
        let r = RepReader { inner: ByteReader::new(inner), block: Vec::new(), pos: 0, done: false };
        assert(r.pending() =~= decoded_stream(inner@));
        r
    }

    /// Decodes the next block, or notes the end of the stream.
    fn fill_next_block(&mut self) -> (res: Result<(), Error>)
        requires
            !old(self).done,
            old(self).pos == old(self).block@.len(),
        ensures
            match res {
                Ok(()) => {
                    &&& final(self).pending() == old(self).pending()
                    &&& final(self).done ==> final(self).pos == final(self).block@.len()
                    &&& !final(self).done ==> final(self).pos < final(self).block@.len()
                        && final(self).inner.rest().len() < old(self).inner.rest().len()
                    &&& final(self).block@.len() - final(self).pos == announced(
                        old(self).inner.rest(),
                    )
                },
                Err(e) => old(self).pending() == (Stream {
                    bytes: Seq::<u8>::empty(),
                    fault: Some(e),
                }),
            },
    {
        let ghost s = self.inner.rest();
        assert(self.block@.skip(self.pos as int) =~= Seq::<u8>::empty());
        assert(self.pending() =~= decoded_stream(s));
        let mut inner = self.inner;
        let block_len: u64 = match inner.read_u64() {
            Ok(n) => n,
            Err(e) => {
                return Err(e);
            },
        };
        if block_len == 0 {
            self.done = true;
            return Ok(());
        }
        if block_len > usize::MAX as u64 {
            return Err(Error::BlockTooLarge);
        }
        let ghost s1 = inner.rest();
        let out = match decode_block(&mut inner, block_len) {
            Ok(b) => b,
            Err(e) => {
                return Err(e);
            },
        };
        proof {
            lemma_decode_tokens_rest(block_len as int, Seq::empty(), s1);
        }
        self.inner = inner;
        self.pos = 0;
        self.block = out;
        assert(self.block@.skip(0) =~= self.block@);
        Ok(())
    }

    /// Fills the front of `dst` with the next bytes of one block and returns how
    /// many; zero for a non-empty `dst` means the end of the stream.
    pub fn read(&mut self, dst: &mut [u8]) -> (res: Result<usize, Error>)
        ensures
            match res {
                Ok(n) => {
                    &&& n == (if old(dst)@.len() < old(self).at_hand() {
                        old(dst)@.len()
                    } else {
                        old(self).at_hand()
                    })
                    &&& n < old(self).at_hand() ==> final(self).at_hand() == old(self).at_hand() - n
                    &&& n <= old(self).pending().bytes.len()
                    &&& final(dst)@ == old(self).pending().bytes.take(n as int) + old(dst)@.skip(
                        n as int,
                    )
                    &&& final(self).pending() == (Stream {
                        bytes: old(self).pending().bytes.skip(n as int),
                        fault: old(self).pending().fault,
                    })
                    &&& n == 0 && old(dst)@.len() > 0 ==> old(self).pending() == (Stream {
                        bytes: Seq::<u8>::empty(),
                        fault: None,
                    })
                },
                Err(e) => old(self).pending() == (Stream {
                    bytes: Seq::<u8>::empty(),
                    fault: Some(e),
                }) && final(dst)@ == old(dst)@,
            },
    {
        proof {
            use_type_invariant(&*self);
        }
        if self.pos >= self.block.len() {
            assert(self.block@.skip(self.pos as int) =~= Seq::<u8>::empty());
            if !self.done {
                match self.fill_next_block() {
                    Ok(()) => {},
                    Err(e) => {
                        return Err(e);
                    },
                }
            }
            if self.done {
                assert(self.block@.skip(self.pos as int) =~= Seq::<u8>::empty());
                assert(old(dst)@ =~= Seq::<u8>::empty().take(0) + old(dst)@.skip(0));
                assert(self.pending() =~= old(self).pending());
                return Ok(0);
            }
        }
        let ghost mid = self.pending();
        let ghost left = self.block@.skip(self.pos as int);
        let src = vstd::slice::slice_subrange(self.block.as_slice(), self.pos, self.block.len());
        assert(src@ =~= left);
        let n: usize = copy_into(dst, src);
        self.pos = self.pos + n;
        proof {
            assert(self.block@.skip(self.pos as int) =~= left.skip(n as int));
            assert(mid.bytes.take(n as int) =~= left.take(n as int));
            assert(mid.bytes.skip(n as int) =~= self.pending().bytes);
        }
        Ok(n)
    }

    /// Everything up to the end of the stream.
    pub fn read_to_end(self) -> (res: Result<Vec<u8>, Error>)
        ensures
            match self.pending().fault {
                None => res matches Ok(v) && v@ == self.pending().bytes,
                Some(e) => res == Err::<Vec<u8>, Error>(e),
            },
    {
        let mut r = self;
        proof {
            use_type_invariant(&r);
        }
        let mut out: Vec<u8> = Vec::new();
        let front = vstd::slice::slice_subrange(r.block.as_slice(), r.pos, r.block.len());
        write_bytes(&mut out, front);
        r.pos = r.block.len();
        proof {
            assert(out@ =~= self.block@.skip(self.pos as int));
            assert(r.block@.skip(r.pos as int) =~= Seq::<u8>::empty());
            assert(r.pending().after(out@) =~= self.pending());
        }
        while !r.done
            invariant
                r.pos == r.block@.len(),
                r.pending().after(out@) == self.pending(),
            decreases (if r.done { 0nat } else { 1 + r.inner.rest().len() }),
        {
            let ghost front = out@;
            let ghost mid = r.pending();
            let ghost s = r.inner.rest();
            match r.fill_next_block() {
                Ok(()) => {},
                Err(e) => {
                    return Err(e);
                },
            }
            let ghost filled = r.block@.skip(r.pos as int);
            proof {
                use_type_invariant(&r);
            }
            let part = vstd::slice::slice_subrange(r.block.as_slice(), r.pos, r.block.len());
            write_bytes(&mut out, part);
            r.pos = r.block.len();
            proof {
                assert(part@ =~= filled);
                assert(r.block@.skip(r.pos as int) =~= Seq::<u8>::empty());
                assert(r.pending().after(filled) =~= mid);
                assert(r.pending().after(out@) =~= mid.after(front));
            }
        }
        assert(r.block@.skip(r.pos as int) =~= Seq::<u8>::empty());
        assert(out@ =~= self.pending().bytes);
        Ok(out)
    }
}

/// Rebuilds one block of `n` bytes from its tokens.
pub fn decode_block(r: &mut ByteReader<'_>, n: u64) -> (res: Result<Vec<u8>, Error>)
    requires
        n <= usize::MAX,
    ensures
        match decode_tokens(n as int, Seq::empty(), old(r).rest()) {
            Ok((b, t)) => res matches Ok(v) && v@ == b && final(r).rest() == t,
            Err(e) => res == Err::<Vec<u8>, Error>(e),
        },
{
    let ghost whole = decode_tokens(n as int, Seq::empty(), r.rest());
    reveal(decode_tokens);
    let mut out: Vec<u8> = Vec::new();
    while (out.len() as u64) < n
        invariant
            whole == decode_tokens(n as int, Seq::empty(), old(r).rest()),
            decode_tokens(n as int, out@, r.rest()) == whole,
            out@.len() <= n <= usize::MAX,
        decreases r.rest().len(),
    {
        proof {
            reveal(decode_tokens);
            lemma_parse_varint_rest(r.rest());
        }
        let lit: u64 = match r.read_varint() {
            Ok(v) => v,
            Err(e) => {
                return Err(e);
            },
        };
        if lit > r.remaining() as u64 {
            return Err(Error::UnexpectedEof);
        }
        let run = match r.read_bytes(lit as usize) {
            Ok(v) => v,
            Err(e) => {
                return Err(e);
            },
        };
        write_bytes(&mut out, run);
        if out.len() as u64 >= n {
            if out.len() as u64 == n {
                return Ok(out);
            }
            return Err(Error::BlockSizeMismatch);
        }
        proof {
            lemma_parse_varint_rest(r.rest());
        }
        let m: u64 = match r.read_varint() {
            Ok(v) => v,
            Err(e) => {
                return Err(e);
            },
        };
        proof {
            lemma_parse_varint_rest(r.rest());
        }
        let back: u64 = match r.read_varint() {
            Ok(v) => v,
            Err(e) => {
                return Err(e);
            },
        };
        if m == 0 || back == 0 || back > out.len() as u64 {
            return Err(Error::BadReference { len: m, back });
        }
        let ghost out1 = out@;
        proof {
            lemma_copy_back_len(out1, back as int, m as nat);
        }
        if m > n - out.len() as u64 {
            assert(decode_tokens(n as int, copy_back(out1, back as int, m as nat), r.rest())
                == Err::<(Seq<u8>, Seq<u8>), Error>(Error::BlockSizeMismatch));
            return Err(Error::BlockSizeMismatch);
        }
        copy_from_back(&mut out, back as usize, m as usize);
    }
    Ok(out)
}

/// Data below 64 bytes has no repeat to be replaced: it stands in the stream as it is, behind its
/// length in eight bytes and as one run, and eight zero bytes end the stream. So do they
/// where there is no data.
pub proof fn lemma_short_data_stands(data: Seq<u8>)
    requires
        data.len() < 64,
    ensures
        data.len() > 0 ==> encoded_stream(data) == le_bytes(data.len() as int, 8) + varint_bytes(
            data.len() as int,
        ) + data + le_bytes(0, 8),
        data.len() == 0 ==> encoded_stream(data) == le_bytes(0, 8),
{
    if data.len() > 0 {
        let n = data.len() as int;
        assert(data.subrange(0, n) =~= data);
        assert(encoded_stream(data) =~= le_bytes(n, 8) + varint_bytes(n) + data + le_bytes(0, 8));
    }
}

/// What becomes of a place in the data: where the last place with the same hash of 64 bytes
/// has the same 64 bytes, the data from there on becomes a reference of its length and its
/// distance, behind the bytes that were passed over; any other place is passed over.
pub proof fn lemma_place_tells(buf: Seq<u8>, table: Seq<u32>, i: int, lit: int)
    requires
        0 <= i,
    ensures
        ({
            let at = window_hash(buf.subrange(i, i + 64)) as int % 0x100_0000;
            let cand = table[at];
            let next = table.update(at, (i % 0x1_0000_0000) as u32);
            let m = extended(buf, cand as int, i, 64);
            let same = cand != u32::MAX && cand + 64 <= buf.len() && forall|k: int|
                0 <= k < 64 ==> #[trigger] buf[cand + k] == buf[i + k];
            &&& i + 64 > buf.len() ==> tokens(buf, table, i, lit) == literal_run(
                buf,
                lit,
                buf.len() as int,
            )
            &&& i + 64 <= buf.len() && same ==> tokens(buf, table, i, lit) == literal_run(
                buf,
                lit,
                i,
            ) + varint_bytes(m) + varint_bytes(i - cand) + tokens(buf, next, i + m, i + m)
            &&& i + 64 <= buf.len() && !same ==> tokens(buf, table, i, lit) == tokens(
                buf,
                next,
                i + 1,
                lit,
            )
        }),
{
    if i + 64 <= buf.len() {
        let cand = table[slot(buf, i)];
        assert(is_match(buf, cand, i) <==> cand != u32::MAX && cand + 64 <= buf.len() && forall|
            k: int,
        |
            0 <= k < 64 ==> #[trigger] buf[cand + k] == buf[i + k]);
        if is_match(buf, cand, i) {
            lemma_extended(buf, cand as int, i, 64);
        }
    }
}

} // verus!
