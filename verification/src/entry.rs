//! Entries of the archive stream: how files, directories and links become
//! records.

use vstd::prelude::*;
use crate::archive::{
    ArchiveVersion, EntryHeader, EntryKind, HashAlgo, HeaderView, XattrPair, chars_of,
    header_bytes, lemma_header_layout, pair_views, write_xattrs_block, xattrs_bytes,
};
use crate::error::Error;
use crate::fastcdc::{
    ChunkRegistry, Numbering, numbered, numbers_suffice, pack_chunked_body, packed_body,
};
use crate::hashes::{blake3, blake3_of, crc32, crc32_of, xxh3, xxh3_of};
use crate::lz::copy_into;
use crate::wire::{
    le_bytes, lemma_grouping, lemma_le_round_trip, lemma_pow256_widths, write_bytes, write_u32,
    write_u64,
};

verus! {

/// The hash of a body as it stands in a trailer.
pub open spec fn hash_bytes(algo: HashAlgo, data: Seq<u8>) -> Seq<u8> {
    match algo {
        HashAlgo::Crc32 => le_bytes(crc32_of(data) as int, 4),
        HashAlgo::Xxh3 => le_bytes(xxh3_of(data) as int, 8),
        HashAlgo::Blake3 => blake3_of(data)@,
    }
}

/// A hash fills its trailer.
pub proof fn lemma_hash_width(algo: HashAlgo, data: Seq<u8>)
    ensures
        hash_bytes(algo, data).len() == algo.width(),
{
    lemma_pow256_widths();
    lemma_le_round_trip(crc32_of(data) as int, 4, Seq::empty());
    lemma_le_round_trip(xxh3_of(data) as int, 8, Seq::empty());
}

/// The trailer of a body is the hash of the whole body, of whatever length: its
/// CRC-32 in four bytes, its XXH3 value in eight, or its BLAKE3 value in thirty-two.
pub proof fn lemma_hash_covers_body(data: Seq<u8>)
    ensures
        hash_bytes(HashAlgo::Crc32, data) == le_bytes(crc32_of(data) as int, 4),
        hash_bytes(HashAlgo::Xxh3, data) == le_bytes(xxh3_of(data) as int, 8),
        hash_bytes(HashAlgo::Blake3, data) == blake3_of(data)@,
        trailer(Some(HashAlgo::Crc32), data) == le_bytes(crc32_of(data) as int, 4),
        trailer(Some(HashAlgo::Xxh3), data) == le_bytes(xxh3_of(data) as int, 8),
        trailer(Some(HashAlgo::Blake3), data) == blake3_of(data)@,
        trailer(None, data) == Seq::<u8>::empty(),
        hash_bytes(HashAlgo::Crc32, data).len() == 4,
        hash_bytes(HashAlgo::Xxh3, data).len() == 8,
        hash_bytes(HashAlgo::Blake3, data).len() == 32,
{
    lemma_hash_width(HashAlgo::Crc32, data);
    lemma_hash_width(HashAlgo::Xxh3, data);
    lemma_hash_width(HashAlgo::Blake3, data);
}

/// Two bodies have one trailer exactly where they have one hash.
pub proof fn lemma_trailer_separates(algo: HashAlgo, a: Seq<u8>, b: Seq<u8>)
    ensures
        hash_bytes(algo, a) == hash_bytes(algo, b) <==> match algo {
            HashAlgo::Crc32 => crc32_of(a) == crc32_of(b),
            HashAlgo::Xxh3 => xxh3_of(a) == xxh3_of(b),
            HashAlgo::Blake3 => blake3_of(a)@ == blake3_of(b)@,
        },
{
    lemma_pow256_widths();
    lemma_le_round_trip(crc32_of(a) as int, 4, Seq::empty());
    lemma_le_round_trip(crc32_of(b) as int, 4, Seq::empty());
    lemma_le_round_trip(xxh3_of(a) as int, 8, Seq::empty());
    lemma_le_round_trip(xxh3_of(b) as int, 8, Seq::empty());
}

/// The hash of all of `data` at once.
pub fn hash_of(algo: HashAlgo, data: &[u8]) -> (h: Vec<u8>)
    ensures
        h@ == hash_bytes(algo, data@),
        h@.len() == algo.width(),
        algo == HashAlgo::Crc32 ==> h@ == le_bytes(crc32_of(data@) as int, 4),
        algo == HashAlgo::Xxh3 ==> h@ == le_bytes(xxh3_of(data@) as int, 8),
        algo == HashAlgo::Blake3 ==> h@ == blake3_of(data@)@,
{
    let mut h: Vec<u8> = Vec::new();
    match algo {
        HashAlgo::Crc32 => {
            write_u32(&mut h, crc32(data));
        },
        HashAlgo::Xxh3 => {
            write_u64(&mut h, xxh3(data));
        },
        HashAlgo::Blake3 => {
            let d = blake3(data);
            write_bytes(&mut h, &d);
        },
    }
    proof {
        lemma_hash_width(algo, data@);
        assert(h@ =~= hash_bytes(algo, data@));
    }
    h
}

/// Collects a body and hashes it at the end.
pub struct EntryHasher {
    algo: HashAlgo,
    data: Vec<u8>,
}

impl EntryHasher {
    pub closed spec fn algo(&self) -> HashAlgo {
        self.algo
    }

    /// What was taken in so far.
    pub closed spec fn taken(&self) -> Seq<u8> {
        self.data@
    }

    pub fn new(algo: HashAlgo) -> (h: Self)
        ensures
            h.algo() == algo,
            h.taken() == Seq::<u8>::empty(),
    {
        EntryHasher { algo, data: Vec::new() }
    }

    pub fn update(&mut self, data: &[u8])
        ensures
            final(self).algo() == old(self).algo(),
            final(self).taken() == old(self).taken() + data@,
    {
        write_bytes(&mut self.data, data);
    }

    /// Puts the hash at the front of `out`.
    pub fn finalize_into(self, out: &mut [u8])
        requires
            self.algo().width() <= old(out)@.len(),
        ensures
            final(out)@ == hash_bytes(self.algo(), self.taken()) + old(out)@.skip(
                self.algo().width() as int,
            ),
            self.algo() == HashAlgo::Crc32 ==> final(out)@ == le_bytes(
                crc32_of(self.taken()) as int,
                4,
            ) + old(out)@.skip(4),
            self.algo() == HashAlgo::Xxh3 ==> final(out)@ == le_bytes(
                xxh3_of(self.taken()) as int,
                8,
            ) + old(out)@.skip(8),
            self.algo() == HashAlgo::Blake3 ==> final(out)@ == blake3_of(self.taken())@ + old(
                out,
            )@.skip(32),
    {
        let h = hash_of(self.algo, &self.data);
        let n: usize = copy_into(out, &h);
        assert(h@.take(n as int) =~= h@);
    }
}

/// The trailer behind a body; nothing where the archive has no hashes.
pub open spec fn trailer(algo: Option<HashAlgo>, data: Seq<u8>) -> Seq<u8> {
    match algo {
        Some(a) => hash_bytes(a, data),
        None => Seq::empty(),
    }
}

/// What all entries of a stream share.
#[derive(Clone, Copy, Debug, PartialEq, Eq, Structural)]
pub struct Framing {
    pub version: ArchiveVersion,
    pub hash_algo: Option<HashAlgo>,
    pub xattrs: bool,
}

/// What the file system has at a path.
#[derive(Clone, Copy, Debug, PartialEq, Eq, Structural)]
pub enum SourceKind {
    File,
    Dir,
    Symlink,
}

/// One thing to be packed, as the file system describes it. The size is the
/// one that was announced, the data is what could be read.
#[derive(Debug)]
pub struct SourceEntry {
    pub kind: SourceKind,
    pub mode: u32,
    pub size: u64,
    pub mtime: i64,
    pub path: String,
    pub link_target: String,
    pub xattrs: Vec<XattrPair>,
    pub data: Vec<u8>,
    /// The archive path of an earlier entry with the same contents.
    pub duplicate_of: Option<String>,
}

#[verifier::ext_equal]
pub struct SourceView {
    pub kind: SourceKind,
    pub mode: u32,
    pub size: u64,
    pub mtime: i64,
    pub path: Seq<char>,
    pub link_target: Seq<char>,
    pub xattrs: Seq<(Seq<u8>, Seq<u8>)>,
    pub data: Seq<u8>,
    pub duplicate_of: Option<Seq<char>>,
}

impl View for SourceEntry {
    type V = SourceView;

    open spec fn view(&self) -> SourceView {
        SourceView {
            kind: self.kind,
            mode: self.mode,
            size: self.size,
            mtime: self.mtime,
            path: self.path@,
            link_target: self.link_target@,
            xattrs: pair_views(self.xattrs@),
            data: self.data@,
            duplicate_of: chars_of(self.duplicate_of),
        }
    }
}

/// The view of a source has every field of it as it is.
pub proof fn lemma_source_view(e: SourceEntry)
    ensures
        e@.kind == e.kind,
        e@.mode == e.mode,
        e@.size == e.size,
        e@.mtime == e.mtime,
        e@.path == e.path@,
        e@.link_target == e.link_target@,
        e@.xattrs.len() == e.xattrs@.len(),
        forall|k: int|
            0 <= k < e.xattrs@.len() ==> (#[trigger] e@.xattrs[k]) == (e.xattrs@[k].0@, e.xattrs@[k].1@),
        e@.data == e.data@,
        e@.duplicate_of is Some <==> e.duplicate_of is Some,
        e.duplicate_of matches Some(t) ==> e@.duplicate_of == Some(t@),
{
}

/// The views of several sources.
pub open spec fn source_views(v: Seq<SourceEntry>) -> Seq<SourceView> {
    Seq::new(v.len(), |k: int| v[k]@)
}

/// A path with slashes for backslashes.
pub open spec fn slashed(s: Seq<char>) -> Seq<char> {
    Seq::new(s.len(), |k: int| if s[k] == '\\' { '/' } else { s[k] })
}

/// A path with slashes for backslashes.
pub fn archive_path(s: &str) -> (r: String)
    ensures
        r@ == slashed(s@),
        r@.len() == s@.len(),
        forall|k: int|
            0 <= k < s@.len() ==> #[trigger] r@[k] == (if s@[k] == '\\' {
                '/'
            } else {
                s@[k]
            }),
{
    let mut out = String::new();
    for c in it: s.chars()
        invariant
            it.seq() == s@,
            out@.len() == it.index(),
            forall|k: int| 0 <= k < it.index() ==> #[trigger] out@[k] == slashed(s@)[k],
    {
        if c == '\\' {
            out.push('/');
        } else {
            out.push(c);
        }
    }
    assert(out@ =~= slashed(s@));
    out
}

/// A path in an archive has the characters of the path, each backslash a slash.
pub proof fn lemma_slashed(s: Seq<char>)
    ensures
        slashed(s).len() == s.len(),
        forall|k: int|
            0 <= k < s.len() && s[k] != '\\' ==> #[trigger] slashed(s)[k] == s[k],
        forall|k: int|
            0 <= k < s.len() && s[k] == '\\' ==> #[trigger] slashed(s)[k] == '/',
        slashed(slashed(s)) == slashed(s),
{
    assert(slashed(slashed(s)) =~= slashed(s));
}

/// The header of a source that is packed as it stands.
pub open spec fn plain_header(e: SourceView) -> HeaderView {
    HeaderView {
        kind: match e.kind {
            SourceKind::File => EntryKind::File,
            SourceKind::Dir => EntryKind::Dir,
            SourceKind::Symlink => EntryKind::Symlink,
        },
        mode: e.mode,
        size: if e.kind == SourceKind::File {
            e.size
        } else {
            0
        },
        mtime: e.mtime,
        path: slashed(e.path),
        link_target: if e.kind == SourceKind::Symlink {
            e.link_target
        } else {
            Seq::empty()
        },
    }
}

/// The header of a file that is packed as chunk records.
pub open spec fn chunked_header(e: SourceView) -> HeaderView {
    HeaderView { kind: EntryKind::ChunkedFile, ..plain_header(e) }
}

/// The header of a file that repeats the entry at `canonical`.
pub open spec fn link_header(e: SourceView, canonical: Seq<char>) -> HeaderView {
    HeaderView {
        kind: EntryKind::HardLink,
        mode: e.mode,
        size: 0,
        mtime: e.mtime,
        path: slashed(e.path),
        link_target: canonical,
    }
}

/// The attributes that go with an entry; links have none.
pub open spec fn packed_xattrs(e: SourceView) -> Seq<(Seq<u8>, Seq<u8>)> {
    if e.kind == SourceKind::Symlink && e.duplicate_of is None {
        Seq::empty()
    } else {
        e.xattrs
    }
}

/// The block of attributes, where the archive has them.
pub open spec fn xattrs_field(pairs: Seq<(Seq<u8>, Seq<u8>)>, f: Framing) -> Seq<u8> {
    if f.xattrs {
        xattrs_bytes(pairs)
    } else {
        Seq::empty()
    }
}

/// A header and the attributes behind it.
pub open spec fn head_bytes(h: HeaderView, pairs: Seq<(Seq<u8>, Seq<u8>)>, f: Framing) -> Seq<u8> {
    header_bytes(h, f.version) + xattrs_field(pairs, f)
}

/// Where kind, mode, size and time of a record stand once it is appended.
proof fn lemma_head_stands(
    before: Seq<u8>,
    h: HeaderView,
    pairs: Seq<(Seq<u8>, Seq<u8>)>,
    f: Framing,
    rest: Seq<u8>,
)
    ensures
        ({
            let at = before.len() as int;
            let all = before + (head_bytes(h, pairs, f) + rest);
            &&& all.len() >= at + 13
            &&& all.take(at) == before
            &&& all[at] == (match h.kind {
                EntryKind::File => 0u8,
                EntryKind::Dir => 1u8,
                EntryKind::Symlink => 2u8,
                EntryKind::HardLink => 3u8,
                EntryKind::ChunkedFile => 4u8,
            })
            &&& all.subrange(at + 1, at + 5) == le_bytes(h.mode as int, 4)
            &&& all.subrange(at + 5, at + 13) == le_bytes(h.size as int, 8)
            &&& f.version == ArchiveVersion::V5 ==> all.len() >= at + 21 && all.subrange(
                at + 13,
                at + 21,
            ) == le_bytes(
                if h.mtime >= 0 {
                    h.mtime as int
                } else {
                    h.mtime + 0x1_0000_0000_0000_0000
                },
                8,
            )
        }),
{
    let at = before.len() as int;
    let b = header_bytes(h, f.version);
    let all = before + (head_bytes(h, pairs, f) + rest);
    lemma_header_layout(h, f.version);
    assert(all.take(at) =~= before);
    assert forall|k: int| 0 <= k < b.len() implies all[at + k] == #[trigger] b[k] by {}
    assert(all.subrange(at + 1, at + 5) =~= b.subrange(1, 5));
    assert(all.subrange(at + 5, at + 13) =~= b.subrange(5, 13));
    if f.version == ArchiveVersion::V5 {
        assert(all.subrange(at + 13, at + 21) =~= b.subrange(13, 21));
    }
}

/// The record of a source that is packed as it stands: of a file, the
/// announced number of bytes and their hash follow.
pub open spec fn plain_record(e: SourceView, f: Framing) -> Result<Seq<u8>, Error> {
    let head = head_bytes(plain_header(e), packed_xattrs(e), f);
    if e.kind != SourceKind::File {
        Ok(head)
    } else if e.data.len() < e.size {
        Err(Error::FileTooShort)
    } else {
        let body = e.data.take(e.size as int);
        Ok(head + (body + trailer(f.hash_algo, body)))
    }
}

/// The record of a file that is packed as chunk records. There is none where the
/// file does not have the announced number of bytes or the chunk numbers run out.
pub open spec fn chunked_record(e: SourceView, f: Framing, reg: Numbering) -> Result<
    Seq<u8>,
    Error,
> {
    let head = head_bytes(chunked_header(e), packed_xattrs(e), f);
    if e.data.len() != e.size {
        Err(Error::FileChanged)
    } else if !numbers_suffice(e.data, reg) {
        Err(Error::TooManyChunks)
    } else {
        Ok(head + (packed_body(e.data, reg) + trailer(f.hash_algo, e.data)))
    }
}

/// The record of one source, and the chunk numbers after it.
#[verifier::opaque]
pub open spec fn record(e: SourceView, f: Framing, fastcdc: bool, reg: Numbering) -> Result<
    (Seq<u8>, Numbering),
    Error,
> {
    match e.duplicate_of {
        Some(c) => Ok((head_bytes(link_header(e, c), e.xattrs, f), reg)),
        None => if fastcdc && e.kind == SourceKind::File {
            match chunked_record(e, f, reg) {
                Ok(b) => Ok((b, numbered(e.data, reg))),
                Err(x) => Err(x),
            }
        } else {
            match plain_record(e, f) {
                Ok(b) => Ok((b, reg)),
                Err(x) => Err(x),
            }
        },
    }
}

/// The records of several sources, in order.
pub open spec fn records(es: Seq<SourceView>, f: Framing, fastcdc: bool, reg: Numbering) -> Result<
    Seq<u8>,
    Error,
>
    decreases es.len(),
{
    if es.len() == 0 {
        Ok(Seq::empty())
    } else {
        match record(es[0], f, fastcdc, reg) {
            Err(x) => Err(x),
            Ok((b, next)) => match records(es.skip(1), f, fastcdc, next) {
                Err(x) => Err(x),
                Ok(rest) => Ok(b + rest),
            },
        }
    }
}

/// The chunk numbers after a source.
pub open spec fn numbers_after_source(e: SourceView, fastcdc: bool, reg: Numbering) -> Numbering {
    if fastcdc && e.kind == SourceKind::File && e.duplicate_of is None && e.data.len() == e.size {
        numbered(e.data, reg)
    } else {
        reg
    }
}

/// The chunk numbers after several sources.
pub open spec fn numbers_after(es: Seq<SourceView>, fastcdc: bool, reg: Numbering) -> Numbering
    decreases es.len(),
{
    if es.len() == 0 {
        reg
    } else {
        numbers_after(es.skip(1), fastcdc, numbers_after_source(es[0], fastcdc, reg))
    }
}

/// A record that could be made leaves the chunk numbers after its source.
pub proof fn lemma_record_numbers(e: SourceView, f: Framing, fastcdc: bool, reg: Numbering)
    ensures
        record(e, f, fastcdc, reg) matches Ok((b, next)) ==> next == numbers_after_source(
            e,
            fastcdc,
            reg,
        ),
{
    reveal(record);
}

/// The records of two lists one behind the other are those of the first and,
/// with the numbers after it, those of the second.
pub proof fn lemma_records_joined(
    a: Seq<SourceView>,
    b: Seq<SourceView>,
    f: Framing,
    fastcdc: bool,
    reg: Numbering,
)
    requires
        records(a, f, fastcdc, reg) is Ok,
        records(b, f, fastcdc, numbers_after(a, fastcdc, reg)) is Ok,
    ensures
        records(a + b, f, fastcdc, reg) == Ok::<Seq<u8>, Error>(
            records(a, f, fastcdc, reg)->Ok_0 + records(
                b,
                f,
                fastcdc,
                numbers_after(a, fastcdc, reg),
            )->Ok_0,
        ),
    decreases a.len(),
{
    let second = records(b, f, fastcdc, numbers_after(a, fastcdc, reg))->Ok_0;
    if a.len() == 0 {
        assert(a + b =~= b);
        assert(Seq::<u8>::empty() + second =~= second);
    } else {
        let (first, next) = record(a[0], f, fastcdc, reg)->Ok_0;
        lemma_record_numbers(a[0], f, fastcdc, reg);
        assert((a + b)[0] == a[0]);
        assert((a + b).skip(1) =~= a.skip(1) + b);
        lemma_records_joined(a.skip(1), b, f, fastcdc, next);
        lemma_grouping(first, records(a.skip(1), f, fastcdc, next)->Ok_0, second);
    }
}

/// Bytes of a source that go through the compressor.
pub open spec fn packable(e: SourceView) -> int {
    if e.kind == SourceKind::File && e.duplicate_of is None {
        e.size as int
    } else {
        0
    }
}

/// Sum of the packable bytes.
pub open spec fn packable_sum(es: Seq<SourceView>) -> int
    decreases es.len(),
{
    if es.len() == 0 {
        0
    } else {
        packable_sum(es.drop_last()) + packable(es.last())
    }
}

/// The bytes that go through the compressor: of every file that repeats no other its size,
/// and of nothing else any.
pub proof fn lemma_packable_grows(es: Seq<SourceView>, e: SourceView)
    ensures
        e.kind == SourceKind::File && e.duplicate_of is None ==> packable_sum(es.push(e))
            == packable_sum(es) + e.size,
        e.kind != SourceKind::File || e.duplicate_of is Some ==> packable_sum(es.push(e))
            == packable_sum(es),
        packable_sum(Seq::empty()) == 0,
        forall|n: int| n <= u64::MAX ==> #[trigger] capped(n) == n,
        forall|n: int| n > u64::MAX ==> #[trigger] capped(n) == u64::MAX,
{
    assert(es.push(e).drop_last() =~= es);
}

/// `n`, or the greatest 64-bit number if that is less.
pub open spec fn capped(n: int) -> int {
    if n > u64::MAX {
        u64::MAX as int
    } else {
        n
    }
}

proof fn lemma_packable_sum(es: Seq<SourceView>)
    ensures
        packable_sum(es) >= 0,
    decreases es.len(),
{
    if es.len() > 0 {
        lemma_packable_sum(es.drop_last());
    }
}

/// Bytes that packing will put through the compressor: those of all files that
/// repeat no other.
pub fn packable_bytes(entries: &[SourceEntry]) -> (n: u64)
    ensures
        n == capped(packable_sum(source_views(entries@))),
{
    let ghost views = source_views(entries@);
    let mut total: u64 = 0;
    let mut i: usize = 0;
    assert(views.take(0) =~= Seq::empty());
    while i < entries.len()
        invariant
            i <= entries@.len(),
            views == source_views(entries@),
            total == capped(packable_sum(views.take(i as int))),
        decreases entries@.len() - i,
    {
        let e = &entries[i];
        proof {
            assert(views.take(i + 1).drop_last() =~= views.take(i as int));
            assert(views.take(i + 1).last() == e@);
            lemma_packable_sum(views.take(i as int));
        }
        match e.kind {
            SourceKind::File => {
                if e.duplicate_of.is_none() {
                    total = total.saturating_add(e.size);
                }
            },
            _ => {},
        }
        i = i + 1;
    }
    assert(views.take(i as int) =~= views);
    total
}

/// Appends a header and, where the archive has them, attributes.
fn write_head(out: &mut Vec<u8>, header: &EntryHeader, pairs: &[XattrPair], f: Framing)
    ensures
        final(out)@ == old(out)@ + head_bytes(header@, pair_views(pairs@), f),
{
    header.write_to(out, f.version);
    if f.xattrs {
        write_xattrs_block(out, pairs);
    }
    assert(out@ =~= old(out)@ + head_bytes(header@, pair_views(pairs@), f));
}

/// Appends a body and, where the archive has hashes, its trailer.
fn write_trailer(out: &mut Vec<u8>, algo: Option<HashAlgo>, body: &[u8])
    ensures
        final(out)@ == old(out)@ + trailer(algo, body@),
{
    match algo {
        Some(a) => {
            let h = hash_of(a, body);
            write_bytes(out, &h);
        },
        None => {},
    }
    assert(out@ =~= old(out)@ + trailer(algo, body@));
}

/// Appends the record of a source as it stands; appends nothing where a file
/// has fewer bytes than announced.
pub fn pack_entry(e: &SourceEntry, out: &mut Vec<u8>, f: Framing) -> (res: Result<(), Error>)
    requires
        e.duplicate_of is None,
    ensures
        match plain_record(e@, f) {
            Ok(b) => res is Ok && final(out)@ == old(out)@ + b,
            Err(x) => res == Err::<(), Error>(x) && final(out)@ == old(out)@,
        },
        res is Ok <==> e.kind != SourceKind::File || e.data@.len() >= e.size,
        res is Ok ==> {
            let at = old(out)@.len() as int;
            &&& final(out)@.len() >= at + 13
            &&& final(out)@.take(at) == old(out)@
            &&& final(out)@[at] == (match e.kind {
                SourceKind::File => 0u8,
                SourceKind::Dir => 1u8,
                SourceKind::Symlink => 2u8,
            })
            &&& final(out)@.subrange(at + 1, at + 5) == le_bytes(e.mode as int, 4)
            &&& final(out)@.subrange(at + 5, at + 13) == le_bytes(if e.kind == SourceKind::File {
                    e.size as int
                } else {
                    0
                }, 8)
            &&& f.version == ArchiveVersion::V5 ==> final(out)@.len() >= at + 21 && final(out)@.subrange(at + 13, at + 21) == le_bytes(
                if e.mtime >= 0 {
                    e.mtime as int
                } else {
                    e.mtime + 0x1_0000_0000_0000_0000
                },
                8,
            )
        },
{
    proof {
        if let Ok(b) = plain_record(e@, f) {
            if e.kind == SourceKind::File {
                let body = e.data@.take(e.size as int);
                lemma_head_stands(
                    out@,
                    plain_header(e@),
                    packed_xattrs(e@),
                    f,
                    body + trailer(f.hash_algo, body),
                );
            } else {
                lemma_head_stands(out@, plain_header(e@), packed_xattrs(e@), f, Seq::empty());
                assert(b + Seq::<u8>::empty() =~= b);
            }
        }
    }
    let path = archive_path(e.path.as_str());
    match e.kind {
        SourceKind::Symlink => {
            let header = EntryHeader {
                kind: EntryKind::Symlink,
                mode: e.mode,
                size: 0,
                mtime: e.mtime,
                path,
                link_target: e.link_target.clone(),
            };
            let none: Vec<XattrPair> = Vec::new();
            assert(pair_views(none@) =~= Seq::empty());
            assert(header@ =~= plain_header(e@));
            write_head(out, &header, &none, f);
        },
        SourceKind::Dir => {
            let header = EntryHeader {
                kind: EntryKind::Dir,
                mode: e.mode,
                size: 0,
                mtime: e.mtime,
                path,
                link_target: String::new(),
            };
            assert(header@ =~= plain_header(e@));
            write_head(out, &header, &e.xattrs, f);
        },
        SourceKind::File => {
            if (e.data.len() as u64) < e.size {
                return Err(Error::FileTooShort);
            }
            let header = EntryHeader {
                kind: EntryKind::File,
                mode: e.mode,
                size: e.size,
                mtime: e.mtime,
                path,
                link_target: String::new(),
            };
            assert(header@ =~= plain_header(e@));
            write_head(out, &header, &e.xattrs, f);
            let ghost head = out@;
            let body = vstd::slice::slice_subrange(e.data.as_slice(), 0, e.size as usize);
            assert(body@ =~= e.data@.take(e.size as int));
            write_bytes(out, body);
            write_trailer(out, f.hash_algo, body);
            proof {
                let t = trailer(f.hash_algo, body@);
                lemma_grouping(head, body@, t);
                lemma_grouping(
                    old(out)@,
                    head_bytes(plain_header(e@), packed_xattrs(e@), f),
                    body@ + t,
                );
            }
        },
    }
    Ok(())
}

/// Appends the record of a file as chunk records, and that of anything else
/// as it stands; appends nothing where a file does not have the announced
/// number of bytes or the chunk numbers run out.
pub fn pack_entry_chunked(
    e: &SourceEntry,
    out: &mut Vec<u8>,
    f: Framing,
    reg: &mut ChunkRegistry,
) -> (res: Result<(), Error>)
    requires
        e.duplicate_of is None,
    ensures
        match record(e@, f, true, old(reg)@) {
            Ok((b, next)) => res is Ok && final(out)@ == old(out)@ + b && final(reg)@ == next,
            Err(x) => res == Err::<(), Error>(x) && final(out)@ == old(out)@,
        },
        final(reg)@ == numbers_after_source(e@, true, old(reg)@),
        e.kind == SourceKind::File ==> (res == Err::<(), Error>(Error::FileChanged)
            <==> e.data@.len() != e.size),
        e.kind != SourceKind::File ==> res is Ok,
        res is Ok ==> {
            let at = old(out)@.len() as int;
            &&& final(out)@.len() >= at + 13
            &&& final(out)@.take(at) == old(out)@
            &&& final(out)@[at] == (match e.kind {
                SourceKind::File => 4u8,
                SourceKind::Dir => 1u8,
                SourceKind::Symlink => 2u8,
            })
            &&& final(out)@.subrange(at + 1, at + 5) == le_bytes(e.mode as int, 4)
            &&& final(out)@.subrange(at + 5, at + 13) == le_bytes(if e.kind == SourceKind::File {
                    e.size as int
                } else {
                    0
                }, 8)
            &&& f.version == ArchiveVersion::V5 ==> final(out)@.len() >= at + 21 && final(out)@.subrange(at + 13, at + 21) == le_bytes(
                if e.mtime >= 0 {
                    e.mtime as int
                } else {
                    e.mtime + 0x1_0000_0000_0000_0000
                },
                8,
            )
        },
{
    reveal(record);
    proof {
        if e.kind == SourceKind::File {
            lemma_head_stands(
                out@,
                chunked_header(e@),
                packed_xattrs(e@),
                f,
                packed_body(e.data@, reg@) + trailer(f.hash_algo, e.data@),
            );
        }
    }
    match e.kind {
        SourceKind::File => {},
        _ => {
            return pack_entry(e, out, f);
        },
    }
    if e.data.len() as u64 != e.size {
        return Err(Error::FileChanged);
    }
    let header = EntryHeader {
        kind: EntryKind::ChunkedFile,
        mode: e.mode,
        size: e.size,
        mtime: e.mtime,
        path: archive_path(e.path.as_str()),
        link_target: String::new(),
    };
    assert(header@ =~= chunked_header(e@));
    let start: usize = out.len();
    write_head(out, &header, &e.xattrs, f);
    let ghost head = out@;
    if let Err(x) = pack_chunked_body(&e.data, out, reg) {
        out.truncate(start);
        assert(out@ =~= old(out)@);
        return Err(x);
    }
    write_trailer(out, f.hash_algo, &e.data);
    proof {
        let b = packed_body(e.data@, old(reg)@);
        let t = trailer(f.hash_algo, e.data@);
        lemma_grouping(head, b, t);
        lemma_grouping(old(out)@, head_bytes(chunked_header(e@), packed_xattrs(e@), f), b + t);
    }
    Ok(())
}

/// Appends the record of a file that repeats the entry at `canonical`.
pub fn pack_hard_link(e: &SourceEntry, canonical: &str, out: &mut Vec<u8>, f: Framing)
    ensures
        final(out)@ == old(out)@ + head_bytes(link_header(e@, canonical@), e@.xattrs, f),
        ({
            let at = old(out)@.len() as int;
            &&& final(out)@.len() >= at + 13
            &&& final(out)@.take(at) == old(out)@
            &&& final(out)@[at] == 3u8
            &&& final(out)@.subrange(at + 1, at + 5) == le_bytes(e.mode as int, 4)
            &&& final(out)@.subrange(at + 5, at + 13) == le_bytes(0, 8)
            &&& f.version == ArchiveVersion::V5 ==> final(out)@.len() >= at + 21 && final(out)@.subrange(at + 13, at + 21) == le_bytes(
                if e.mtime >= 0 {
                    e.mtime as int
                } else {
                    e.mtime + 0x1_0000_0000_0000_0000
                },
                8,
            )
        }),
{
    proof {
        let h = head_bytes(link_header(e@, canonical@), e@.xattrs, f);
        lemma_head_stands(out@, link_header(e@, canonical@), e@.xattrs, f, Seq::empty());
        assert(h + Seq::<u8>::empty() =~= h);
    }
    let header = EntryHeader {
        kind: EntryKind::HardLink,
        mode: e.mode,
        size: 0,
        mtime: e.mtime,
        path: archive_path(e.path.as_str()),
        link_target: canonical.to_owned(),
    };
    assert(header@ =~= link_header(e@, canonical@));
    write_head(out, &header, &e.xattrs, f);
}

/// Appends the records of all sources in order: a repeated file as a link, a
/// file as chunk records where `fastcdc` asks for it, and anything else as it
/// stands. The chunk numbers go on from those of `reg`.
pub fn pack_all(
    entries: &[SourceEntry],
    out: &mut Vec<u8>,
    f: Framing,
    fastcdc: bool,
    reg: &mut ChunkRegistry,
) -> (res: Result<(), Error>)
    ensures
        match records(source_views(entries@), f, fastcdc, old(reg)@) {
            Ok(b) => res is Ok && final(out)@ == old(out)@ + b && final(reg)@ == numbers_after(
                source_views(entries@),
                fastcdc,
                old(reg)@,
            ),
            Err(x) => res == Err::<(), Error>(x),
        },
{
    let ghost views = source_views(entries@);
    let ghost whole = records(views, f, fastcdc, reg@);
    let mut i: usize = 0;
    assert(views.skip(0) =~= views);
    while i < entries.len()
        invariant
            i <= entries@.len(),
            views == source_views(entries@),
            whole == records(views, f, fastcdc, old(reg)@),
            numbers_after(views.skip(i as int), fastcdc, reg@) == numbers_after(
                views,
                fastcdc,
                old(reg)@,
            ),
            match records(views.skip(i as int), f, fastcdc, reg@) {
                Ok(b) => whole matches Ok(w) && out@ + b == old(out)@ + w,
                Err(x) => whole == Err::<Seq<u8>, Error>(x),
            },
        decreases entries@.len() - i,
    {
        let e = &entries[i];
        let ghost left = views.skip(i as int);
        let ghost before = out@;
        let ghost reg0 = reg@;
        proof {
            reveal(record);
            assert(left[0] == e@);
            assert(left.skip(1) =~= views.skip(i + 1));
        }
        match &e.duplicate_of {
            Some(c) => {
                pack_hard_link(e, c.as_str(), out, f);
            },
            None => {
                let res = if fastcdc {
                    pack_entry_chunked(e, out, f, reg)
                } else {
                    pack_entry(e, out, f)
                };
                match res {
                    Ok(()) => {},
                    Err(x) => {
                        return Err(x);
                    },
                }
            },
        }
        proof {
            let (b, next) = record(e@, f, fastcdc, reg0)->Ok_0;
            assert(out@ == before + b);
            assert(reg@ == next);
            if let Ok(rest) = records(left.skip(1), f, fastcdc, next) {
                lemma_grouping(before, b, rest);
            }
        }
        i = i + 1;
    }
    proof {
        assert(views.skip(i as int) =~= Seq::empty());
        assert(out@ + Seq::<u8>::empty() =~= out@);
    }
    Ok(())
}

/// The numbering before any chunk was seen.
pub open spec fn no_numbers() -> Numbering {
    Numbering { ids: Map::empty(), next: 0 }
}

} // verus!
