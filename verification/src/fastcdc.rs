//! Content-defined chunking and the chunk records of deduplicated bodies.
//!
//! A chunk ends where a rolling hash of the content has certain zero bits, so
//! equal content is cut alike wherever it stands. A body is a sequence of
//! records: a new chunk stands inline, a chunk that was seen before is a
//! reference to its number.

use vstd::prelude::*;
use std::collections::HashMap;
use crate::error::Error;
use crate::hashes::{xxh3, xxh3_of};
use crate::wire::{
    ByteReader, Parsed, lemma_bytes_round_trip, lemma_parse_varint_rest, lemma_varint_round_trip,
    parse_bytes, parse_varint, varint_bytes, write_bytes, write_varint,
};

verus! {

broadcast use vstd::std_specs::hash::group_hash_axioms;

/// No boundary lies within the first so many bytes of a chunk.
pub const MIN_SIZE: usize = 2048;

/// Up to here the strict mask decides, beyond it the relaxed one.
pub const AVG_SIZE: usize = 8192;

/// No chunk is longer.
pub const MAX_SIZE: usize = 65536;

pub const MASK_S: u64 = 0x0003_59E3_520A_0000;

pub const MASK_L: u64 = 0x0000_D900_0353_0000;

/// The numbers that the gear table is filled with, in order.
pub open spec fn gear_seed(i: nat) -> u64
    decreases i,
{
    if i == 0 {
        0x9E37_79B9_7F4A_7C15u64
    } else {
        gear_seed((i - 1) as nat).wrapping_mul(0xBF58_476D_1CE4_E5B9u64).wrapping_add(
            0x94D0_49BB_1331_11EBu64,
        )
    }
}

/// The contribution of byte `b` to the rolling hash.
pub open spec fn gear(b: u8) -> u64 {
    gear_seed((b + 1) as nat)
}

/// The rolling hash: doubled at every byte, and the byte's gear added.
pub open spec fn gear_hash(s: Seq<u8>) -> u64
    decreases s.len(),
{
    if s.len() == 0 {
        0
    } else {
        (gear_hash(s.drop_last()) << 1u64).wrapping_add(gear(s.last()))
    }
}

/// Whether a chunk may end right after position `i`.
#[verifier::opaque]
pub open spec fn is_cut(buf: Seq<u8>, i: int) -> bool {
    let h = gear_hash(buf.subrange(2048, i + 1));
    if i < 8192 {
        h & MASK_S == 0
    } else {
        h & MASK_L == 0
    }
}

/// The length up to the first cut at or after `i`, or `end` if there is none
/// before it.
pub open spec fn first_cut(buf: Seq<u8>, i: int, end: int) -> int
    decreases end - i,
{
    if i >= end {
        end
    } else if is_cut(buf, i) {
        i + 1
    } else {
        first_cut(buf, i + 1, end)
    }
}

/// The length of the chunk at the front of `buf`.
pub open spec fn boundary(buf: Seq<u8>) -> int {
    if buf.len() <= 2048 {
        buf.len() as int
    } else if buf.len() < 65536 {
        first_cut(buf, 2048, buf.len() as int)
    } else {
        first_cut(buf, 2048, 65536)
    }
}

proof fn lemma_first_cut(buf: Seq<u8>, i: int, end: int)
    requires
        i <= end,
    ensures
        i <= first_cut(buf, i, end) <= end,
        i < end ==> i < first_cut(buf, i, end),
    decreases end - i,
{
    if i < end && !is_cut(buf, i) {
        lemma_first_cut(buf, i + 1, end);
    }
}

/// A chunk is never empty unless there is nothing left, never longer than the
/// maximum, and longer than the minimum unless it takes all that is left.
pub proof fn lemma_boundary(buf: Seq<u8>)
    ensures
        0 <= boundary(buf) <= buf.len(),
        boundary(buf) <= MAX_SIZE,
        buf.len() > 0 ==> boundary(buf) > 0,
        boundary(buf) < buf.len() ==> boundary(buf) > MIN_SIZE,
{
    if buf.len() > 2048 {
        lemma_first_cut(
            buf,
            2048,
            if buf.len() < 65536 {
                buf.len() as int
            } else {
                65536
            },
        );
    }
}

proof fn lemma_first_cut_prefix(a: Seq<u8>, b: Seq<u8>, i: int, end: int)
    requires
        2048 <= i,
        end <= a.len(),
        end <= b.len(),
        a.take(end) == b.take(end),
    ensures
        first_cut(a, i, end) == first_cut(b, i, end),
    decreases end - i,
{
    if i < end {
        reveal(is_cut);
        assert(a.subrange(2048, i + 1) =~= a.take(end).subrange(2048, i + 1));
        assert(b.subrange(2048, i + 1) =~= b.take(end).subrange(2048, i + 1));
        lemma_first_cut_prefix(a, b, i + 1, end);
    }
}

/// A chunk depends only on the bytes up to the maximum size.
pub proof fn lemma_boundary_local(buf: Seq<u8>)
    requires
        buf.len() >= MAX_SIZE,
    ensures
        boundary(buf.take(MAX_SIZE as int)) == boundary(buf),
{
    let front = buf.take(65536);
    assert(front.take(65536) =~= buf.take(65536));
    lemma_first_cut_prefix(front, buf, 2048, 65536);
}

/// The chunks of some data, in order.
pub open spec fn chunks_of(data: Seq<u8>) -> Seq<Seq<u8>>
    decreases data.len(),
{
    if data.len() == 0 {
        Seq::empty()
    } else {
        let b = boundary(data);
        proof {
            lemma_boundary(data);
        }
        seq![data.take(b)] + chunks_of(data.skip(b))
    }
}

/// Sequences put one behind the other.
pub open spec fn joined(parts: Seq<Seq<u8>>) -> Seq<u8>
    decreases parts.len(),
{
    if parts.len() == 0 {
        Seq::empty()
    } else {
        parts[0] + joined(parts.skip(1))
    }
}

/// The chunks make up the data, and every one but the last has a length between
/// the minimum and the maximum.
pub proof fn lemma_chunks_make_up_data(data: Seq<u8>)
    ensures
        joined(chunks_of(data)) == data,
        forall|k: int|
            0 <= k < chunks_of(data).len() ==> 0 < (#[trigger] chunks_of(data)[k]).len()
                <= MAX_SIZE,
        forall|k: int|
            0 <= k < chunks_of(data).len() - 1 ==> (#[trigger] chunks_of(data)[k]).len()
                > MIN_SIZE,
    decreases data.len(),
{
    if data.len() == 0 {
        assert(joined(chunks_of(data)) =~= data);
    } else {
        lemma_boundary(data);
        let b = boundary(data);
        let rest = chunks_of(data.skip(b));
        let all = chunks_of(data);
        lemma_chunks_make_up_data(data.skip(b));
        assert(all.skip(1) =~= rest);
        assert(data.take(b) + data.skip(b) =~= data);
        assert forall|k: int| 0 <= k < all.len() implies 0 < (#[trigger] all[k]).len()
            <= MAX_SIZE by {
            if k > 0 {
                assert(all[k] == rest[k - 1]);
            }
        }
        assert forall|k: int| 0 <= k < all.len() - 1 implies (#[trigger] all[k]).len()
            > MIN_SIZE by {
            if k > 0 {
                assert(all[k] == rest[k - 1]);
            } else {
                assert(rest.len() > 0);
                assert(data.skip(b).len() > 0);
            }
        }
    }
}

/// What follows a cut is cut by itself alone, whatever stands before it. So two
/// streams that go on alike behind a cut in each have the same chunks from there.
pub proof fn lemma_resynchronizes(a: Seq<u8>, b: Seq<u8>, i: int, j: int)
    requires
        0 <= i <= chunks_of(a).len(),
        0 <= j <= chunks_of(b).len(),
        a.skip(joined(chunks_of(a).take(i)).len() as int) == b.skip(
            joined(chunks_of(b).take(j)).len() as int,
        ),
    ensures
        chunks_of(a).skip(i) == chunks_of(b).skip(j),
{
    lemma_chunks_behind_cut(a, i);
    lemma_chunks_behind_cut(b, j);
}

proof fn lemma_chunks_behind_cut(data: Seq<u8>, k: int)
    requires
        0 <= k <= chunks_of(data).len(),
    ensures
        joined(chunks_of(data).take(k)).len() <= data.len(),
        chunks_of(data).skip(k) == chunks_of(
            data.skip(joined(chunks_of(data).take(k)).len() as int),
        ),
    decreases k,
{
    let all = chunks_of(data);
    if k == 0 {
        assert(all.skip(0) =~= all);
        assert(data.skip(0) =~= data);
    } else {
        lemma_boundary(data);
        let b = boundary(data);
        let rest = data.skip(b);
        lemma_chunks_behind_cut(rest, k - 1);
        assert(all.take(k).skip(1) =~= chunks_of(rest).take(k - 1));
        assert(all.skip(k) =~= chunks_of(rest).skip(k - 1));
        let n = joined(chunks_of(rest).take(k - 1)).len() as int;
        assert(rest.skip(n) =~= data.skip(b + n));
    }
}

/// The gear table.
pub fn build_gear() -> (t: Vec<u64>)
    ensures
        t@.len() == 256,
        forall|b: u8| #[trigger] gear(b) == t@[b as int],
{
    let mut t: Vec<u64> = Vec::new();
    let mut x: u64 = 0x9E37_79B9_7F4A_7C15;
    let mut i: usize = 0;
    while i < 256
        invariant
            i <= 256,
            t@.len() == i,
            x == gear_seed(i as nat),
            forall|k: int| 0 <= k < i ==> #[trigger] t@[k] == gear_seed((k + 1) as nat),
        decreases 256 - i,
    {
        x = x.wrapping_mul(0xBF58_476D_1CE4_E5B9).wrapping_add(0x94D0_49BB_1331_11EB);
        t.push(x);
        i = i + 1;
    }
    t
}

/// The length of the chunk at the front of `buf`.
pub fn next_boundary(buf: &[u8]) -> (n: usize)
    ensures
        n == boundary(buf@),
{
    let n: usize = buf.len();
    if n <= MIN_SIZE {
        return n;
    }
    let table = build_gear();
    let end: usize = if n < MAX_SIZE {
        n
    } else {
        MAX_SIZE
    };
    let mut hash: u64 = 0;
    let mut i: usize = MIN_SIZE;
    assert(buf@.subrange(2048, 2048) =~= Seq::empty());
    while i < end
        invariant
            2048 <= i <= end <= buf@.len(),
            table@.len() == 256,
            forall|b: u8| #[trigger] gear(b) == table@[b as int],
            hash == gear_hash(buf@.subrange(2048, i as int)),
            first_cut(buf@, i as int, end as int) == boundary(buf@),
        decreases end - i,
    {
        let b: u8 = buf[i];
        proof {
            reveal(is_cut);
            let w = buf@.subrange(2048, i + 1);
            assert(w.drop_last() =~= buf@.subrange(2048, i as int));
            assert(w.last() == b);
            assert(gear(b) == table@[b as int]);
        }
        hash = (hash << 1u64).wrapping_add(table[b as usize]);
        let cut: bool = if i < AVG_SIZE {
            hash & MASK_S == 0
        } else {
            hash & MASK_L == 0
        };
        if cut {
            return i + 1;
        }
        i = i + 1;
    }
    end
}

/// Cuts data into chunks, one at a time.
pub struct Chunker<'a> {
    data: &'a [u8],
    pos: usize,
}

impl<'a> Chunker<'a> {
    #[verifier::type_invariant]
    spec fn inv(self) -> bool {
        self.pos <= self.data@.len()
    }

    /// What was not cut yet.
    pub closed spec fn rest(&self) -> Seq<u8> {
        self.data@.skip(self.pos as int)
    }

    pub fn new(data: &'a [u8]) -> (c: Self)
        ensures
            c.rest() == data@,
    {
        assert(data@.skip(0) =~= data@);
        Chunker { data, pos: 0 }
    }

    /// The next chunk, or nothing at the end.
    pub fn next_chunk(&mut self) -> (c: Option<Vec<u8>>)
        ensures
            old(self).rest().len() == 0 ==> c is None && final(self).rest() == old(self).rest(),
            old(self).rest().len() > 0 ==> (c matches Some(v) && v@ == old(self).rest().take(
                boundary(old(self).rest()),
            ) && final(self).rest() == old(self).rest().skip(boundary(old(self).rest()))),
    {
        proof {
            use_type_invariant(&*self);
        }
        if self.pos >= self.data.len() {
            return None;
        }
        let ghost rest = self.rest();
        let ahead: usize = if self.data.len() - self.pos < MAX_SIZE {
            self.data.len() - self.pos
        } else {
            MAX_SIZE
        };
        let view = vstd::slice::slice_subrange(self.data, self.pos, self.pos + ahead);
        proof {
            assert(view@ =~= rest.take(ahead as int));
            if rest.len() >= MAX_SIZE {
                lemma_boundary_local(rest);
            } else {
                assert(rest.take(ahead as int) =~= rest);
            }
            lemma_boundary(rest);
        }
        let n: usize = next_boundary(view);
        let chunk = vstd::slice::slice_to_vec(vstd::slice::slice_subrange(view, 0, n));
        assert(chunk@ =~= rest.take(n as int));
        let next: usize = self.pos + n;
        assert(self.data@.skip(next as int) =~= rest.skip(n as int));
        self.pos = next;
        Some(chunk)
    }
}

/// The fingerprint of a chunk.
pub fn chunk_hash(chunk: &[u8]) -> (h: u64)
    ensures
        h == xxh3_of(chunk@),
{
    xxh3(chunk)
}

/// The numbers given to chunk fingerprints, and the next number.
#[verifier::ext_equal]
pub struct Numbering {
    pub ids: Map<u64, u32>,
    pub next: int,
}

impl Numbering {
    /// Whether there is a number for `hash`: its own, or one that is left.
    pub open spec fn has_room(self, hash: u64) -> bool {
        self.ids.dom().contains(hash) || self.next < u32::MAX
    }

    /// The numbering once `hash` was looked up.
    pub open spec fn with(self, hash: u64) -> Numbering {
        if self.ids.dom().contains(hash) {
            self
        } else {
            Numbering { ids: self.ids.insert(hash, self.next as u32), next: self.next + 1 }
        }
    }
}

/// Gives every fingerprint a number at its first sight.
pub struct ChunkRegistry {
    pub map: HashMap<u64, u32>,
    pub next_id: u32,
}

impl View for ChunkRegistry {
    type V = Numbering;

    open spec fn view(&self) -> Numbering {
        Numbering { ids: self.map@, next: self.next_id as int }
    }
}

impl ChunkRegistry {
    pub fn new() -> (r: Self)
        ensures
            r@ == (Numbering { ids: Map::<u64, u32>::empty(), next: 0 }),
            r.next_id == r@.next,
    {
        let r = ChunkRegistry { map: HashMap::new(), next_id: 0 };
        assert(r@ =~= Numbering { ids: Map::<u64, u32>::empty(), next: 0 });
        r
    }

    /// Whether there is a number for `hash`.
    pub fn has_room(&self, hash: u64) -> (r: bool)
        ensures
            r == self@.has_room(hash),
    {
        self.next_id < u32::MAX || self.map.contains_key(&hash)
    }

    /// The number of `hash`, and whether it was given just now.
    pub fn get_or_insert(&mut self, hash: u64) -> (r: (u32, bool))
        requires
            old(self)@.has_room(hash),
        ensures
            final(self)@ == old(self)@.with(hash),
            final(self).next_id == final(self)@.next,
            r.1 == !old(self)@.ids.dom().contains(hash),
            r.0 == final(self)@.ids[hash],
            old(self).map@.contains_key(hash) ==> r == (old(self).map@[hash], false) && final(self).map@ == old(self).map@ && final(self).next_id == old(self).next_id,
            !old(self).map@.contains_key(hash) ==> r == (old(self).next_id, true) && final(self).map@ == old(self).map@.insert(hash, old(self).next_id) && final(self).next_id == old(self).next_id + 1,
    {
        match self.map.get(&hash) {
            Some(id) => {
                return (*id, false);
            },
            None => {},
        }
        let id: u32 = self.next_id;
        self.map.insert(hash, id);
        self.next_id = self.next_id + 1;
        assert(self@ =~= old(self)@.with(hash));
        (id, true)
    }

    /// How many fingerprints have a number.
    pub fn len(&self) -> (n: usize)
        ensures
            n == self@.ids.len(),
    {
        self.map.len()
    }
}

/// An inline record: twice the length, then the bytes.
pub open spec fn inline_record(chunk: Seq<u8>) -> Seq<u8> {
    varint_bytes(2 * chunk.len() as int) + chunk
}

/// A reference: twice the number, plus one.
pub open spec fn ref_record(id: int) -> Seq<u8> {
    varint_bytes(2 * id + 1)
}

pub fn write_chunk_inline(out: &mut Vec<u8>, chunk: &[u8])
    requires
        chunk@.len() <= 0x7FFF_FFFF_FFFF_FFFF,
    ensures
        final(out)@ == old(out)@ + inline_record(chunk@),
{
    write_varint(out, 2 * (chunk.len() as u64));
    write_bytes(out, chunk);
    assert(out@ =~= old(out)@ + inline_record(chunk@));
}

pub fn write_chunk_ref(out: &mut Vec<u8>, id: u32)
    ensures
        final(out)@ == old(out)@ + ref_record(id as int),
{
    write_varint(out, 2 * (id as u64) + 1)
}

/// One record of a body.
#[derive(Debug)]
pub enum ChunkRec {
    Inline(Vec<u8>),
    Ref(u32),
}

/// One record of a body, as its bytes or its number.
pub enum RecView {
    Inline(Seq<u8>),
    Ref(int),
}

impl View for ChunkRec {
    type V = RecView;

    open spec fn view(&self) -> RecView {
        match self {
            ChunkRec::Inline(v) => RecView::Inline(v@),
            ChunkRec::Ref(id) => RecView::Ref(*id as int),
        }
    }
}

/// The record at the front of `s`: an even header is twice the length of an
/// inline chunk, which is at most the maximum; an odd one holds a number, of
/// which 32 bits count.
pub open spec fn parse_record(s: Seq<u8>) -> Parsed<RecView> {
    match parse_varint(s) {
        Err(e) => Err(e),
        Ok((header, s1)) => if header % 2 == 0 {
            if header / 2 > MAX_SIZE {
                Err(Error::ChunkTooLarge { len: (header / 2) as u64 })
            } else {
                match parse_bytes(s1, (header / 2) as nat) {
                    Err(e) => Err(e),
                    Ok((b, s2)) => Ok((RecView::Inline(b), s2)),
                }
            }
        } else {
            Ok((RecView::Ref((header / 2) % 0x1_0000_0000), s1))
        },
    }
}

/// A record that was read leaves a strictly shorter rest behind.
pub proof fn lemma_parse_record_rest(s: Seq<u8>)
    ensures
        parse_record(s) matches Ok((rec, t)) ==> t.len() < s.len() && t == s.skip(
            s.len() - t.len(),
        ),
{
    lemma_parse_varint_rest(s);
    if let Ok((rec, t)) = parse_record(s) {
        assert(t =~= s.skip(s.len() - t.len()));
    }
}

/// An inline record of a chunk above the maximum size is refused.
pub proof fn lemma_long_record_refused(chunk: Seq<u8>, tail: Seq<u8>)
    requires
        MAX_SIZE < chunk.len() <= 0x7FFF_FFFF_FFFF_FFFF,
    ensures
        parse_record(inline_record(chunk) + tail) == Err::<(RecView, Seq<u8>), Error>(
            Error::ChunkTooLarge { len: chunk.len() as u64 },
        ),
{
    assert(inline_record(chunk) + tail =~= varint_bytes(2 * chunk.len() as int) + (chunk + tail));
    lemma_varint_round_trip(2 * chunk.len() as int, chunk + tail);
}

/// An inline record reads back as its chunk.
pub proof fn lemma_inline_record_round_trip(chunk: Seq<u8>, tail: Seq<u8>)
    requires
        chunk.len() <= MAX_SIZE,
    ensures
        parse_record(inline_record(chunk) + tail) == Ok::<(RecView, Seq<u8>), Error>(
            (RecView::Inline(chunk), tail),
        ),
{
    assert(inline_record(chunk) + tail =~= varint_bytes(2 * chunk.len() as int) + (chunk + tail));
    lemma_varint_round_trip(2 * chunk.len() as int, chunk + tail);
    lemma_bytes_round_trip(chunk, tail);
}

/// A reference reads back as its number.
pub proof fn lemma_ref_record_round_trip(id: int, tail: Seq<u8>)
    requires
        0 <= id <= u32::MAX,
    ensures
        parse_record(ref_record(id) + tail) == Ok::<(RecView, Seq<u8>), Error>(
            (RecView::Ref(id), tail),
        ),
{
    lemma_varint_round_trip(2 * id + 1, tail);
}

/// Takes one record.
pub fn read_chunk_rec(r: &mut ByteReader<'_>) -> (res: Result<ChunkRec, Error>)
    ensures
        match parse_record(old(r).rest()) {
            Ok((rec, t)) => res matches Ok(c) && c@ == rec && final(r).rest() == t,
            Err(e) => res matches Err(f) && f == e,
        },
{
    let header: u64 = match r.read_varint() {
        Ok(v) => v,
        Err(e) => {
            return Err(e);
        },
    };
    if header % 2 == 0 {
        let len: u64 = header / 2;
        if len > MAX_SIZE as u64 {
            return Err(Error::ChunkTooLarge { len });
        }
        match r.read_bytes(len as usize) {
            Ok(b) => Ok(ChunkRec::Inline(vstd::slice::slice_to_vec(b))),
            Err(e) => Err(e),
        }
    } else {
        let id: u64 = (header / 2) % 0x1_0000_0000;
        Ok(ChunkRec::Ref(id as u32))
    }
}

/// The numbering once the chunks of `data` were looked up, as far as there are
/// numbers.
pub open spec fn numbered(data: Seq<u8>, reg: Numbering) -> Numbering
    decreases data.len(),
{
    if data.len() == 0 {
        reg
    } else {
        let b = boundary(data);
        let hash = xxh3_of(data.take(b));
        proof {
            lemma_boundary(data);
        }
        if reg.has_room(hash) {
            numbered(data.skip(b), reg.with(hash))
        } else {
            reg
        }
    }
}

/// Whether there are numbers for all chunks of `data`.
pub open spec fn numbers_suffice(data: Seq<u8>, reg: Numbering) -> bool
    decreases data.len(),
{
    if data.len() == 0 {
        true
    } else {
        let b = boundary(data);
        let hash = xxh3_of(data.take(b));
        proof {
            lemma_boundary(data);
        }
        reg.has_room(hash) && numbers_suffice(data.skip(b), reg.with(hash))
    }
}

/// The records of `data`: a chunk with a new fingerprint stands inline, any
/// other is a reference.
pub open spec fn packed_body(data: Seq<u8>, reg: Numbering) -> Seq<u8>
    decreases data.len(),
{
    if data.len() == 0 {
        Seq::empty()
    } else {
        let b = boundary(data);
        let chunk = data.take(b);
        let hash = xxh3_of(chunk);
        proof {
            lemma_boundary(data);
        }
        let record = if reg.ids.dom().contains(hash) {
            ref_record(reg.ids[hash] as int)
        } else {
            inline_record(chunk)
        };
        record + packed_body(data.skip(b), reg.with(hash))
    }
}

/// Appends the records of `src` and returns its length; appends nothing where
/// the numbers run out.
pub fn pack_chunked_body(src: &[u8], out: &mut Vec<u8>, reg: &mut ChunkRegistry) -> (res: Result<
    u64,
    Error,
>)
    ensures
        final(reg)@ == numbered(src@, old(reg)@),
        if numbers_suffice(src@, old(reg)@) {
            res == Ok::<u64, Error>(src@.len() as u64) && final(out)@ == old(out)@ + packed_body(
                src@,
                old(reg)@,
            )
        } else {
            res == Err::<u64, Error>(Error::TooManyChunks) && final(out)@ == old(out)@
        },
{
    let start: usize = out.len();
    let mut chunker = Chunker::new(src);
    let mut more: bool = src.len() > 0;
    assert(out@.take(start as int) =~= old(out)@);
    while more
        invariant
            more ==> chunker.rest().len() > 0,
            !more ==> chunker.rest().len() == 0,
            start == old(out)@.len() <= out@.len(),
            out@.take(start as int) == old(out)@,
            numbers_suffice(chunker.rest(), reg@) == numbers_suffice(src@, old(reg)@),
            out@ + packed_body(chunker.rest(), reg@) == old(out)@ + packed_body(src@, old(reg)@),
            numbered(chunker.rest(), reg@) == numbered(src@, old(reg)@),
        decreases chunker.rest().len() + (if more { 1nat } else { 0nat }),
    {
        let ghost data = chunker.rest();
        let ghost reg0 = reg@;
        let ghost before = out@;
        proof {
            lemma_boundary(data);
        }
        let found = chunker.next_chunk();
        match found {
            None => {
                more = false;
            },
            Some(chunk) => {
                let h: u64 = chunk_hash(&chunk);
                if !reg.has_room(h) {
                    out.truncate(start);
                    return Err(Error::TooManyChunks);
                }
                let (id, is_new) = reg.get_or_insert(h);
                if is_new {
                    write_chunk_inline(out, &chunk);
                } else {
                    write_chunk_ref(out, id);
                }
                assert(out@ + packed_body(chunker.rest(), reg@) =~= before + packed_body(
                    data,
                    reg0,
                ));
                assert(out@.take(start as int) =~= before.take(start as int));
                more = chunker.left() > 0;
            },
        }
    }
    assert(out@ + packed_body(chunker.rest(), reg@) =~= out@);
    Ok(src.len() as u64)
}

impl<'a> Chunker<'a> {
    /// How many bytes were not cut yet.
    pub fn left(&self) -> (n: usize)
        ensures
            n == self.rest().len(),
    {
        proof {
            use_type_invariant(&*self);
        }
        self.data.len() - self.pos
    }
}

/// A body that was rebuilt, with the chunks that are known after it.
#[verifier::ext_equal]
pub struct BodyView {
    pub bytes: Seq<u8>,
    pub known: Seq<Seq<u8>>,
}

/// Reads records until `total` bytes are rebuilt, of which `got` are there
/// already.
#[verifier::opaque]
pub open spec fn decode_body(
    known: Seq<Seq<u8>>,
    total: int,
    got: Seq<u8>,
    s: Seq<u8>,
) -> Parsed<BodyView>
    decreases s.len(),
{
    if got.len() >= total {
        Ok((BodyView { bytes: got, known }, s))
    } else {
        match parse_record(s) {
            Err(e) => Err(e),
            Ok((rec, t)) => {
                proof {
                    lemma_parse_record_rest(s);
                }
                match rec {
                    RecView::Inline(chunk) => if got.len() + chunk.len() > total {
                        Err(Error::ChunkOvershoot)
                    } else {
                        decode_body(known.push(chunk), total, got + chunk, t)
                    },
                    RecView::Ref(id) => if id >= known.len() {
                        Err(Error::UnknownChunk { number: id as u64 })
                    } else if got.len() + known[id].len() > total {
                        Err(Error::ChunkOvershoot)
                    } else {
                        decode_body(known, total, got + known[id], t)
                    },
                }
            },
        }
    }
}

/// The chunks that are known once reading the records of a body has stopped,
/// whether the body was rebuilt or refused: those before, and behind them every
/// inline chunk that found its place.
pub open spec fn decode_known(known: Seq<Seq<u8>>, total: int, got: int, s: Seq<u8>) -> Seq<
    Seq<u8>,
>
    decreases s.len(),
{
    if got >= total {
        known
    } else {
        match parse_record(s) {
            Err(e) => known,
            Ok((rec, t)) => {
                proof {
                    lemma_parse_record_rest(s);
                }
                match rec {
                    RecView::Inline(chunk) => if got + chunk.len() > total {
                        known
                    } else {
                        decode_known(known.push(chunk), total, got + chunk.len(), t)
                    },
                    RecView::Ref(id) => if id >= known.len() || got + known[id].len() > total {
                        known
                    } else {
                        decode_known(known, total, got + known[id].len(), t)
                    },
                }
            },
        }
    }
}

/// Chunks that are known stay as they are, whatever is read.
pub proof fn lemma_known_kept(known: Seq<Seq<u8>>, total: int, got: int, s: Seq<u8>)
    ensures
        known.is_prefix_of(decode_known(known, total, got, s)),
    decreases s.len(),
{
    if got < total {
        lemma_parse_record_rest(s);
        if let Ok((rec, t)) = parse_record(s) {
            match rec {
                RecView::Inline(chunk) => {
                    let after = decode_known(known.push(chunk), total, got + chunk.len(), t);
                    lemma_known_kept(known.push(chunk), total, got + chunk.len(), t);
                    if got + chunk.len() <= total {
                        assert(known =~= after.take(known.len() as int)) by {
                            assert(known.push(chunk).is_prefix_of(after));
                            assert forall|k: int| 0 <= k < known.len() implies known[k] == after[k] by {
                                assert(known.push(chunk)[k] == after.take(
                                    known.push(chunk).len() as int,
                                )[k]);
                            }
                        }
                    }
                },
                RecView::Ref(id) => {
                    if id < known.len() {
                        lemma_known_kept(known, total, got + known[id].len(), t);
                    }
                },
            }
        }
    }
}

/// Where a body is rebuilt, the chunks known after it are those of the result.
pub proof fn lemma_rebuilt_known(known: Seq<Seq<u8>>, total: int, got: Seq<u8>, s: Seq<u8>)
    ensures
        decode_body(known, total, got, s) matches Ok((body, t)) ==> body.known == decode_known(
            known,
            total,
            got.len() as int,
            s,
        ),
    decreases s.len(),
{
    reveal(decode_body);
    if got.len() < total {
        lemma_parse_record_rest(s);
        if let Ok((rec, t)) = parse_record(s) {
            match rec {
                RecView::Inline(chunk) => {
                    lemma_rebuilt_known(known.push(chunk), total, got + chunk, t);
                },
                RecView::Ref(id) => {
                    lemma_rebuilt_known(known, total, got + known[id], t);
                },
            }
        }
    }
}

/// A body that was rebuilt leaves no more input than there was.
pub proof fn lemma_decode_body_rest(
    known: Seq<Seq<u8>>,
    total: int,
    got: Seq<u8>,
    s: Seq<u8>,
)
    ensures
        decode_body(known, total, got, s) matches Ok((body, t)) ==> t.len() <= s.len() && t
            == s.skip(s.len() - t.len()) && (got.len() <= total ==> body.bytes.len() == total),
    decreases s.len(),
{
    reveal(decode_body);
    if got.len() >= total {
        assert(s.skip(0) =~= s);
    } else {
        lemma_parse_record_rest(s);
        if let Ok((body, t)) = decode_body(known, total, got, s) {
            let (rec, u) = parse_record(s)->Ok_0;
            if t.len() <= u.len() {
                assert(u.skip(u.len() - t.len()) =~= s.skip(s.len() - t.len()));
            }
        }
        if let Ok((rec, t)) = parse_record(s) {
            match rec {
                RecView::Inline(chunk) => {
                    lemma_decode_body_rest(known.push(chunk), total, got + chunk, t);
                },
                RecView::Ref(id) => {
                    lemma_decode_body_rest(known, total, got + known[id], t);
                },
            }
        }
    }
}

/// The bytes of several vectors.
pub open spec fn all_views(v: Seq<Vec<u8>>) -> Seq<Seq<u8>> {
    Seq::new(v.len(), |k: int| v[k]@)
}

/// The inline chunks that a reader has seen, by number.
pub struct DecodeRegistry {
    chunks: Vec<Vec<u8>>,
}

impl View for DecodeRegistry {
    type V = Seq<Seq<u8>>;

    closed spec fn view(&self) -> Seq<Seq<u8>> {
        all_views(self.chunks@)
    }
}

impl DecodeRegistry {
    pub fn new() -> (r: Self)
        ensures
            r@ == Seq::<Seq<u8>>::empty(),
    {
        let r = DecodeRegistry { chunks: Vec::new() };
        assert(r@ =~= Seq::<Seq<u8>>::empty());
        r
    }

    /// Rebuilds a body of `total_size` bytes. Where it is refused, the inline
    /// chunks that came before the fault are known all the same.
    pub fn read_body(&mut self, r: &mut ByteReader<'_>, total_size: u64) -> (res: Result<
        Vec<u8>,
        Error,
    >)
        ensures
            match decode_body(old(self)@, total_size as int, Seq::empty(), old(r).rest()) {
                Ok((body, t)) => res matches Ok(v) && v@ == body.bytes && final(self)@
                    == body.known && final(r).rest() == t,
                Err(e) => res matches Err(f) && f == e,
            },
            final(self)@ == decode_known(old(self)@, total_size as int, 0, old(r).rest()),
            old(self)@.is_prefix_of(final(self)@),
    {
        proof {
            lemma_known_kept(self@, total_size as int, 0, r.rest());
        }
        let ghost whole = decode_body(self@, total_size as int, Seq::empty(), r.rest());
        let mut got: Vec<u8> = Vec::new();
        while (got.len() as u64) < total_size
            invariant
                whole == decode_body(old(self)@, total_size as int, Seq::empty(), old(r).rest()),
                decode_body(self@, total_size as int, got@, r.rest()) == whole,
                decode_known(self@, total_size as int, got@.len() as int, r.rest())
                    == decode_known(old(self)@, total_size as int, 0, old(r).rest()),
                old(self)@.is_prefix_of(
                    decode_known(old(self)@, total_size as int, 0, old(r).rest()),
                ),
                got@.len() <= total_size,
            decreases r.rest().len(),
        {
            proof {
                reveal(decode_body);
                lemma_parse_record_rest(r.rest());
            }
            let left: u64 = total_size - got.len() as u64;
            let ghost known = self@;
            match read_chunk_rec(r) {
                Err(e) => {
                    return Err(e);
                },
                Ok(ChunkRec::Inline(bytes)) => {
                    if bytes.len() as u64 > left {
                        return Err(Error::ChunkOvershoot);
                    }
                    write_bytes(&mut got, &bytes);
                    self.chunks.push(bytes);
                    assert(self@ =~= known.push(bytes@));
                },
                Ok(ChunkRec::Ref(id)) => {
                    if id as u64 >= self.chunks.len() as u64 {
                        return Err(Error::UnknownChunk { number: id as u64 });
                    }
                    let bytes = &self.chunks[id as usize];
                    assert(bytes@ == known[id as int]);
                    if bytes.len() as u64 > left {
                        return Err(Error::ChunkOvershoot);
                    }
                    write_bytes(&mut got, bytes);
                },
            }
        }
        proof {
            reveal(decode_body);
        }
        Ok(got)
    }

    /// How many inline chunks were seen.
    pub fn unique_chunks(&self) -> (n: usize)
        ensures
            n == self@.len(),
    {
        self.chunks.len()
    }
}

/// No two different sequences of the set have the same fingerprint.
pub open spec fn no_collision(set: Set<Seq<u8>>) -> bool {
    forall|a: Seq<u8>, b: Seq<u8>|
        #![trigger xxh3_of(a), xxh3_of(b)]
        set.contains(a) && set.contains(b) && xxh3_of(a) == xxh3_of(b) ==> a == b
}

/// All chunks of the list are in the set.
pub open spec fn all_in(chunks: Seq<Seq<u8>>, set: Set<Seq<u8>>) -> bool {
    forall|k: int| 0 <= k < chunks.len() ==> set.contains(#[trigger] chunks[k])
}

/// Both sides have given the same numbers to the same chunks.
pub open spec fn in_step(reg: Numbering, known: Seq<Seq<u8>>) -> bool {
    &&& reg.next == known.len()
    &&& reg.ids.dom().finite()
    &&& reg.ids.len() == known.len()
    &&& forall|h: u64| #[trigger]
        reg.ids.dom().contains(h) ==> reg.ids[h] < known.len() && xxh3_of(known[reg.ids[h] as int])
            == h
}

/// How many of the records of `data` are inline.
pub open spec fn inline_count(data: Seq<u8>, reg: Numbering) -> nat
    decreases data.len(),
{
    if data.len() == 0 {
        0
    } else {
        let b = boundary(data);
        let hash = xxh3_of(data.take(b));
        proof {
            lemma_boundary(data);
        }
        let here: nat = if reg.ids.dom().contains(hash) {
            0
        } else {
            1
        };
        here + inline_count(data.skip(b), reg.with(hash))
    }
}

/// The chunks that a reader knows once it has rebuilt `data` from its records.
pub open spec fn known_after(data: Seq<u8>, reg: Numbering, known: Seq<Seq<u8>>) -> Seq<Seq<u8>>
    decreases data.len(),
{
    if data.len() == 0 {
        known
    } else {
        let b = boundary(data);
        let chunk = data.take(b);
        let hash = xxh3_of(chunk);
        proof {
            lemma_boundary(data);
        }
        known_after(
            data.skip(b),
            reg.with(hash),
            if reg.ids.dom().contains(hash) {
                known
            } else {
                known.push(chunk)
            },
        )
    }
}

/// A reader with the chunks `known` finds behind every reference in the records
/// of `data` the chunk that it stands for.
pub open spec fn refs_resolve(data: Seq<u8>, reg: Numbering, known: Seq<Seq<u8>>) -> bool
    decreases data.len(),
{
    if data.len() == 0 {
        true
    } else {
        let b = boundary(data);
        let chunk = data.take(b);
        let hash = xxh3_of(chunk);
        proof {
            lemma_boundary(data);
        }
        if reg.ids.dom().contains(hash) {
            &&& reg.ids[hash] < known.len()
            &&& known[reg.ids[hash] as int] == chunk
            &&& refs_resolve(data.skip(b), reg.with(hash), known)
        } else {
            refs_resolve(data.skip(b), reg.with(hash), known.push(chunk))
        }
    }
}

proof fn lemma_packed_body_decodes(
    data: Seq<u8>,
    reg: Numbering,
    known: Seq<Seq<u8>>,
    got: Seq<u8>,
    tail: Seq<u8>,
)
    requires
        refs_resolve(data, reg, known),
    ensures
        decode_body(
            known,
            (got.len() + data.len()) as int,
            got,
            packed_body(data, reg) + tail,
        ) == Ok::<(BodyView, Seq<u8>), Error>(
            (BodyView { bytes: got + data, known: known_after(data, reg, known) }, tail),
        ),
    decreases data.len(),
{
    let total = (got.len() + data.len()) as int;
    let s = packed_body(data, reg) + tail;
    if data.len() == 0 {
        reveal(decode_body);
        assert(s =~= tail);
        assert(got + data =~= got);
    } else {
        lemma_boundary(data);
        let b = boundary(data);
        let chunk = data.take(b);
        let rest = data.skip(b);
        let hash = xxh3_of(chunk);
        let s1 = packed_body(rest, reg.with(hash)) + tail;
        assert(got + data =~= (got + chunk) + rest);
        if reg.ids.dom().contains(hash) {
            let id = reg.ids[hash] as int;
            assert(s =~= ref_record(id) + s1);
            lemma_ref_record_round_trip(id, s1);
            lemma_packed_body_decodes(rest, reg.with(hash), known, got + chunk, tail);
            assert(decode_body(known, total, got, s) == decode_body(
                known,
                total,
                got + chunk,
                s1,
            )) by {
                reveal(decode_body);
            }
        } else {
            assert(s =~= inline_record(chunk) + s1);
            lemma_inline_record_round_trip(chunk, s1);
            let more = known.push(chunk);
            lemma_packed_body_decodes(rest, reg.with(hash), more, got + chunk, tail);
            assert(decode_body(known, total, got, s) == decode_body(
                more,
                total,
                got + chunk,
                s1,
            )) by {
                reveal(decode_body);
            }
        }
    }
}

/// A chunked body reads back as the data it was made from where every reference
/// leads to its chunk.
pub proof fn lemma_chunked_body_round_trip(
    data: Seq<u8>,
    reg: Numbering,
    known: Seq<Seq<u8>>,
    tail: Seq<u8>,
)
    requires
        refs_resolve(data, reg, known),
    ensures
        decode_body(
            known,
            data.len() as int,
            Seq::empty(),
            packed_body(data, reg) + tail,
        ) == Ok::<(BodyView, Seq<u8>), Error>(
            (BodyView { bytes: data, known: known_after(data, reg, known) }, tail),
        ),
{
    lemma_packed_body_decodes(data, reg, known, Seq::empty(), tail);
    assert(Seq::<u8>::empty() + data =~= data);
}

/// Where reader and writer have given the same numbers to the same chunks, every
/// reference leads to its chunk, and they go on with the same numbers. No two
/// different chunks may share a fingerprint: those of the data and those that
/// are known already lie in a set without collisions.
pub proof fn lemma_refs_resolve(
    data: Seq<u8>,
    reg: Numbering,
    known: Seq<Seq<u8>>,
    set: Set<Seq<u8>>,
)
    requires
        in_step(reg, known),
        no_collision(set),
        all_in(known, set),
        all_in(chunks_of(data), set),
        numbers_suffice(data, reg),
    ensures
        refs_resolve(data, reg, known),
        in_step(numbered(data, reg), known_after(data, reg, known)),
        all_in(known_after(data, reg, known), set),
        known_after(data, reg, known).len() == known.len() + inline_count(data, reg),
    decreases data.len(),
{
    if data.len() > 0 {
        lemma_boundary(data);
        let b = boundary(data);
        let chunk = data.take(b);
        let rest = data.skip(b);
        let hash = xxh3_of(chunk);
        assert(chunks_of(data)[0] == chunk);
        assert forall|k: int| 0 <= k < chunks_of(rest).len() implies set.contains(
            #[trigger] chunks_of(rest)[k],
        ) by {
            assert(chunks_of(data)[k + 1] == chunks_of(rest)[k]);
        }
        if reg.ids.dom().contains(hash) {
            let id = reg.ids[hash] as int;
            assert(set.contains(known[id]));
            assert(known[id] == chunk);
            lemma_refs_resolve(rest, reg.with(hash), known, set);
        } else {
            let more = known.push(chunk);
            assert(in_step(reg.with(hash), more)) by {
                assert forall|h: u64| #[trigger]
                    reg.with(hash).ids.dom().contains(h) implies reg.with(hash).ids[h] < more.len()
                    && xxh3_of(more[reg.with(hash).ids[h] as int]) == h by {
                    if h != hash {
                        assert(reg.ids.dom().contains(h));
                    }
                }
            }
            lemma_refs_resolve(rest, reg.with(hash), more, set);
        }
    }
}

/// What [`pack_chunked_body`] writes, [`DecodeRegistry::read_body`] reads back,
/// where writer and reader went through the same bodies before and no two
/// different chunks share a fingerprint. They go on with the same numbers; both
/// count as many chunks, and by as many more as there were inline records.
pub proof fn lemma_registries_agree(
    data: Seq<u8>,
    reg: Numbering,
    known: Seq<Seq<u8>>,
    set: Set<Seq<u8>>,
    tail: Seq<u8>,
)
    requires
        in_step(reg, known),
        no_collision(set),
        all_in(known, set),
        all_in(chunks_of(data), set),
        numbers_suffice(data, reg),
    ensures
        decode_body(
            known,
            data.len() as int,
            Seq::empty(),
            packed_body(data, reg) + tail,
        ) == Ok::<(BodyView, Seq<u8>), Error>(
            (BodyView { bytes: data, known: known_after(data, reg, known) }, tail),
        ),
        in_step(numbered(data, reg), known_after(data, reg, known)),
        all_in(known_after(data, reg, known), set),
        numbered(data, reg).ids.len() == known_after(data, reg, known).len(),
        numbered(data, reg).ids.len() == reg.ids.len() + inline_count(data, reg),
{
    lemma_refs_resolve(data, reg, known, set);
    lemma_chunked_body_round_trip(data, reg, known, tail);
}

/// Two new registries are in step.
pub proof fn lemma_new_in_step()
    ensures
        in_step(Numbering { ids: Map::empty(), next: 0 }, Seq::empty()),
{
}

/// Where a chunk ends: at the first place from 2048 bytes on where the hash of the bytes
/// from there on has zeros where its mask has ones, a wider mask below 8192 bytes than
/// above, else at 65536 bytes or at the end of the data.
pub proof fn lemma_boundary_tells(buf: Seq<u8>)
    ensures
        ({
            let b = boundary(buf);
            let end: int = if buf.len() < 65536 {
                buf.len() as int
            } else {
                65536
            };
            &&& buf.len() <= 2048 ==> b == buf.len()
            &&& buf.len() > 2048 ==> 2048 < b <= end
            &&& forall|i: int|
                #![trigger buf.subrange(2048, i)]
                2048 < i < b && i <= 8192 ==> gear_hash(buf.subrange(2048, i))
                    & 0x0003_59E3_520A_0000 != 0
            &&& forall|i: int|
                #![trigger buf.subrange(2048, i)]
                8192 < i < b ==> gear_hash(buf.subrange(2048, i)) & 0x0000_D900_0353_0000 != 0
            &&& 2048 < b < end && b <= 8192 ==> gear_hash(buf.subrange(2048, b))
                & 0x0003_59E3_520A_0000 == 0
            &&& 8192 < b < end ==> gear_hash(buf.subrange(2048, b)) & 0x0000_D900_0353_0000 == 0
        }),
{
    if buf.len() > 2048 {
        let end: int = if buf.len() < 65536 {
            buf.len() as int
        } else {
            65536
        };
        lemma_boundary(buf);
        lemma_first_cut(buf, 2048, end);
        lemma_first_cut_is_first(buf, 2048, end);
        let b = boundary(buf);
        assert forall|i: int|
            #![trigger buf.subrange(2048, i)]
            2048 < i < b && i <= 8192 implies gear_hash(buf.subrange(2048, i))
            & 0x0003_59E3_520A_0000 != 0 by {
            reveal(is_cut);
            assert(!is_cut(buf, i - 1));
        }
        assert forall|i: int|
            #![trigger buf.subrange(2048, i)]
            8192 < i < b implies gear_hash(buf.subrange(2048, i)) & 0x0000_D900_0353_0000 != 0 by {
            reveal(is_cut);
            assert(!is_cut(buf, i - 1));
        }
        if b < end {
            reveal(is_cut);
            assert(is_cut(buf, b - 1));
        }
    }
}

proof fn lemma_first_cut_is_first(buf: Seq<u8>, i: int, end: int)
    requires
        i <= end,
    ensures
        forall|k: int| i <= k < first_cut(buf, i, end) - 1 ==> !#[trigger] is_cut(buf, k),
        first_cut(buf, i, end) < end ==> is_cut(buf, first_cut(buf, i, end) - 1),
    decreases end - i,
{
    if i < end && !is_cut(buf, i) {
        lemma_first_cut(buf, i + 1, end);
        lemma_first_cut_is_first(buf, i + 1, end);
    }
}

/// The hash of a byte more: twice the hash, and the number of the byte. The numbers of the
/// bytes follow one from the other.
pub proof fn lemma_gear_steps(s: Seq<u8>, b: u8)
    ensures
        gear_hash(s.push(b)) == (gear_hash(s) << 1u64).wrapping_add(gear(b)),
        gear_hash(Seq::empty()) == 0,
        b < 255 ==> gear((b + 1) as u8) == gear(b).wrapping_mul(0xBF58_476D_1CE4_E5B9u64).wrapping_add(
            0x94D0_49BB_1331_11EBu64,
        ),
        gear(0) == 0x9E37_79B9_7F4A_7C15u64.wrapping_mul(0xBF58_476D_1CE4_E5B9u64).wrapping_add(
            0x94D0_49BB_1331_11EBu64,
        ),
{
    reveal_with_fuel(gear_seed, 2);
    assert(s.push(b).drop_last() =~= s);
}

/// What becomes of a body's first chunk. One whose XXH3 value has a number already is
/// written as that number, and any other in full, behind its length; then it has the next
/// number. Lengths are doubled, and numbers doubled and one more.
pub proof fn lemma_chunk_is_packed(chunk: Seq<u8>, rest: Seq<u8>, reg: Numbering)
    requires
        chunk.len() > 0,
        boundary(chunk + rest) == chunk.len(),
    ensures
        ({
            let h = xxh3_of(chunk);
            let next = Numbering { ids: reg.ids.insert(h, reg.next as u32), next: reg.next + 1 };
            &&& reg.ids.dom().contains(h) ==> packed_body(chunk + rest, reg) == varint_bytes(
                2 * reg.ids[h] + 1,
            ) + packed_body(rest, reg)
            &&& !reg.ids.dom().contains(h) ==> packed_body(chunk + rest, reg) == varint_bytes(
                2 * chunk.len() as int,
            ) + chunk + packed_body(rest, next)
        }),
        packed_body(Seq::empty(), reg) == Seq::<u8>::empty(),
{
    let data = chunk + rest;
    assert(data.take(chunk.len() as int) =~= chunk);
    assert(data.skip(chunk.len() as int) =~= rest);
}

/// Numbers suffice for a body where every chunk either has one or finds one below the
/// greatest of 32 bits.
pub proof fn lemma_numbers_needed(chunk: Seq<u8>, rest: Seq<u8>, reg: Numbering)
    requires
        chunk.len() > 0,
        boundary(chunk + rest) == chunk.len(),
    ensures
        ({
            let h = xxh3_of(chunk);
            let next = Numbering { ids: reg.ids.insert(h, reg.next as u32), next: reg.next + 1 };
            &&& reg.ids.dom().contains(h) ==> numbers_suffice(chunk + rest, reg) == numbers_suffice(
                rest,
                reg,
            ) && numbered(chunk + rest, reg) == numbered(rest, reg)
            &&& !reg.ids.dom().contains(h) && reg.next < 0xFFFF_FFFF ==> numbers_suffice(
                chunk + rest,
                reg,
            ) == numbers_suffice(rest, next) && numbered(chunk + rest, reg) == numbered(rest, next)
            &&& !reg.ids.dom().contains(h) && reg.next >= 0xFFFF_FFFF ==> !numbers_suffice(
                chunk + rest,
                reg,
            ) && numbered(chunk + rest, reg) == reg
        }),
        numbers_suffice(Seq::empty(), reg),
        numbered(Seq::empty(), reg) == reg,
{
    let data = chunk + rest;
    assert(data.take(chunk.len() as int) =~= chunk);
    assert(data.skip(chunk.len() as int) =~= rest);
}

} // verus!
