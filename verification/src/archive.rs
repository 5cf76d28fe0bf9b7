//! The archive format: the uncompressed preamble, and the headers, attribute
//! blocks and hash trailers of the entries in the compressed stream.

use vstd::prelude::*;
use vstd::utf8::{decode_utf8, encode_utf8, valid_utf8};
use crate::delta::{is_valid_stride, valid_stride};
use crate::error::Error;
use crate::text::{lemma_utf8_round_trip, string_from_utf8};
use crate::wire::{
    ByteReader, Parsed, le_bytes, lemma_bytes_round_trip, lemma_grouping, lemma_le_digits,
    lemma_le_round_trip, lemma_pow256_widths, parse_bytes, parse_le, write_bytes, write_le,
    write_u16, write_u32, write_u64,
};

verus! {

/// Revision of the format. The fourth has no modification times.
#[derive(Clone, Copy, Debug, PartialEq, Eq, Structural)]
pub enum ArchiveVersion {
    V4,
    V5,
}

/// The revision that new archives get.
pub const CURRENT_VERSION: ArchiveVersion = ArchiveVersion::V5;

/// The first four bytes of an archive: `SYC4` or `SYC5`.
pub open spec fn magic(version: ArchiveVersion) -> Seq<u8> {
    match version {
        ArchiveVersion::V4 => seq![0x53u8, 0x59, 0x43, 0x34],
        ArchiveVersion::V5 => seq![0x53u8, 0x59, 0x43, 0x35],
    }
}

/// The compressor behind the stream.
#[derive(Clone, Copy, Debug, PartialEq, Eq, Structural)]
pub enum Backend {
    Zstd,
    Lzma,
    Ppmd,
}

impl Backend {
    /// The number that stands for it in a preamble.
    pub open spec fn id(self) -> int {
        match self {
            Backend::Zstd => 0,
            Backend::Lzma => 1,
            Backend::Ppmd => 2,
        }
    }

    pub fn to_u8(self) -> (v: u8)
        ensures
            v == self.id(),
            v == (match self {
                Backend::Zstd => 0u8,
                Backend::Lzma => 1u8,
                Backend::Ppmd => 2u8,
            }),
    {
        match self {
            Backend::Zstd => 0,
            Backend::Lzma => 1,
            Backend::Ppmd => 2,
        }
    }

    pub fn from_u8(v: u8) -> (res: Result<Self, Error>)
        ensures
            match res {
                Ok(b) => b.id() == v,
                Err(e) => v > 2 && e == (Error::UnknownBackend { id: v }),
            },
            res == (match v {
                0u8 => Ok::<Backend, Error>(Backend::Zstd),
                1u8 => Ok::<Backend, Error>(Backend::Lzma),
                2u8 => Ok::<Backend, Error>(Backend::Ppmd),
                _ => Err::<Backend, Error>(Error::UnknownBackend { id: v }),
            }),
    {
        match v {
            0 => Ok(Backend::Zstd),
            1 => Ok(Backend::Lzma),
            2 => Ok(Backend::Ppmd),
            _ => Err(Error::UnknownBackend { id: v }),
        }
    }

    pub fn name(self) -> (s: &'static str)
        ensures
            s@ == (match self {
                Backend::Zstd => "zstd"@,
                Backend::Lzma => "lzma"@,
                Backend::Ppmd => "ppmd"@,
            }),
    {
        match self {
            Backend::Zstd => "zstd",
            Backend::Lzma => "lzma",
            Backend::Ppmd => "ppmd",
        }
    }
}

/// Settings of the PPMd model; part of the preamble with that compressor.
#[derive(Clone, Copy, Debug, PartialEq, Eq, Structural)]
pub struct PpmdParams {
    pub order: u8,
    pub mem_mb: u32,
}

/// What an entry is.
#[derive(Clone, Copy, Debug, PartialEq, Eq, Structural)]
pub enum EntryKind {
    File,
    Dir,
    Symlink,
    /// A file with the contents of an earlier entry, named by its link target.
    HardLink,
    /// A file whose body is a sequence of chunk records.
    ChunkedFile,
}

impl EntryKind {
    /// The number that stands for it in a header.
    pub open spec fn id(self) -> int {
        match self {
            EntryKind::File => 0,
            EntryKind::Dir => 1,
            EntryKind::Symlink => 2,
            EntryKind::HardLink => 3,
            EntryKind::ChunkedFile => 4,
        }
    }

    pub fn to_u8(self) -> (v: u8)
        ensures
            v == self.id(),
            v == (match self {
                EntryKind::File => 0u8,
                EntryKind::Dir => 1u8,
                EntryKind::Symlink => 2u8,
                EntryKind::HardLink => 3u8,
                EntryKind::ChunkedFile => 4u8,
            }),
    {
        match self {
            EntryKind::File => 0,
            EntryKind::Dir => 1,
            EntryKind::Symlink => 2,
            EntryKind::HardLink => 3,
            EntryKind::ChunkedFile => 4,
        }
    }

    pub fn from_u8(v: u8) -> (res: Result<Self, Error>)
        ensures
            match res {
                Ok(k) => k.id() == v,
                Err(e) => v > 4 && e == (Error::UnknownEntryKind { id: v }),
            },
            res == (match v {
                0u8 => Ok::<EntryKind, Error>(EntryKind::File),
                1u8 => Ok::<EntryKind, Error>(EntryKind::Dir),
                2u8 => Ok::<EntryKind, Error>(EntryKind::Symlink),
                3u8 => Ok::<EntryKind, Error>(EntryKind::HardLink),
                4u8 => Ok::<EntryKind, Error>(EntryKind::ChunkedFile),
                _ => Err::<EntryKind, Error>(Error::UnknownEntryKind { id: v }),
            }),
    {
        match v {
            0 => Ok(EntryKind::File),
            1 => Ok(EntryKind::Dir),
            2 => Ok(EntryKind::Symlink),
            3 => Ok(EntryKind::HardLink),
            4 => Ok(EntryKind::ChunkedFile),
            _ => Err(Error::UnknownEntryKind { id: v }),
        }
    }

    /// Whether entries of this kind have a body.
    pub open spec fn file_like(self) -> bool {
        self == EntryKind::File || self == EntryKind::ChunkedFile
    }

    pub fn is_file_like(self) -> (r: bool)
        ensures
            r == self.file_like(),
            r <==> self == EntryKind::File || self == EntryKind::ChunkedFile,
    {
        match self {
            EntryKind::File => true,
            EntryKind::ChunkedFile => true,
            _ => false,
        }
    }
}

/// The kind with number `v`.
pub open spec fn kind_of(v: int) -> Option<EntryKind> {
    if v == 0 {
        Some(EntryKind::File)
    } else if v == 1 {
        Some(EntryKind::Dir)
    } else if v == 2 {
        Some(EntryKind::Symlink)
    } else if v == 3 {
        Some(EntryKind::HardLink)
    } else if v == 4 {
        Some(EntryKind::ChunkedFile)
    } else {
        None
    }
}

/// The compressor with number `v`.
pub open spec fn backend_of(v: int) -> Option<Backend> {
    if v == 0 {
        Some(Backend::Zstd)
    } else if v == 1 {
        Some(Backend::Lzma)
    } else if v == 2 {
        Some(Backend::Ppmd)
    } else {
        None
    }
}

/// The hash that protects file bodies.
#[derive(Clone, Copy, Debug, PartialEq, Eq, Structural)]
pub enum HashAlgo {
    Crc32,
    Xxh3,
    Blake3,
}

/// The hash function with number `v`.
pub open spec fn algo_of(v: int) -> Option<HashAlgo> {
    if v == 1 {
        Some(HashAlgo::Crc32)
    } else if v == 2 {
        Some(HashAlgo::Xxh3)
    } else if v == 3 {
        Some(HashAlgo::Blake3)
    } else {
        None
    }
}

impl HashAlgo {
    /// The number that stands for it in a preamble.
    pub open spec fn id(self) -> int {
        match self {
            HashAlgo::Crc32 => 1,
            HashAlgo::Xxh3 => 2,
            HashAlgo::Blake3 => 3,
        }
    }

    pub fn to_u8(self) -> (v: u8)
        ensures
            v == self.id(),
            v == (match self {
                HashAlgo::Crc32 => 1u8,
                HashAlgo::Xxh3 => 2u8,
                HashAlgo::Blake3 => 3u8,
            }),
    {
        match self {
            HashAlgo::Crc32 => 1,
            HashAlgo::Xxh3 => 2,
            HashAlgo::Blake3 => 3,
        }
    }

    pub fn from_u8(v: u8) -> (res: Result<Self, Error>)
        ensures
            match res {
                Ok(a) => a.id() == v,
                Err(e) => (v == 0 || v > 3) && e == (Error::UnknownHashAlgo { id: v }),
            },
            res == (match v {
                1u8 => Ok::<HashAlgo, Error>(HashAlgo::Crc32),
                2u8 => Ok::<HashAlgo, Error>(HashAlgo::Xxh3),
                3u8 => Ok::<HashAlgo, Error>(HashAlgo::Blake3),
                _ => Err::<HashAlgo, Error>(Error::UnknownHashAlgo { id: v }),
            }),
    {
        match v {
            1 => Ok(HashAlgo::Crc32),
            2 => Ok(HashAlgo::Xxh3),
            3 => Ok(HashAlgo::Blake3),
            _ => Err(Error::UnknownHashAlgo { id: v }),
        }
    }

    /// Bytes of the trailer behind a body.
    pub open spec fn width(self) -> nat {
        match self {
            HashAlgo::Crc32 => 4,
            HashAlgo::Xxh3 => 8,
            HashAlgo::Blake3 => 32,
        }
    }

    pub fn trailer_bytes(self) -> (n: usize)
        ensures
            n == self.width(),
            n == (match self {
                HashAlgo::Crc32 => 4usize,
                HashAlgo::Xxh3 => 8usize,
                HashAlgo::Blake3 => 32usize,
            }),
    {
        match self {
            HashAlgo::Crc32 => 4,
            HashAlgo::Xxh3 => 8,
            HashAlgo::Blake3 => 32,
        }
    }

    pub fn name(self) -> (s: &'static str)
        ensures
            s@ == (match self {
                HashAlgo::Crc32 => "crc32"@,
                HashAlgo::Xxh3 => "xxh3"@,
                HashAlgo::Blake3 => "blake3"@,
            }),
    {
        match self {
            HashAlgo::Crc32 => "crc32",
            HashAlgo::Xxh3 => "xxh3",
            HashAlgo::Blake3 => "blake3",
        }
    }
}

/// The stream went through the REP filter.
pub const PREPROC_REP: u8 = 0x01;

/// The stream went through the SREP filter.
pub const PREPROC_SREP: u8 = 0x02;

/// Every file body has a hash trailer.
pub const FEATURE_CRC32: u8 = 0x04;

/// The preamble holds a comment.
pub const FEATURE_COMMENT: u8 = 0x08;

/// The preamble names the hash; without it the hash is CRC-32.
pub const FEATURE_HASH_ALGO: u8 = 0x10;

/// Every header is followed by a block of extended attributes.
pub const FEATURE_XATTRS: u8 = 0x20;

/// The stream went through the delta filter, whose stride the preamble holds.
pub const FEATURE_DELTA: u8 = 0x40;

/// The stream went through the LZP filter.
pub const PREPROC_LZP: u8 = 0x80;

/// Whether a flag is set.
pub open spec fn flag_set(flags: u8, flag: u8) -> bool {
    flags & flag != 0
}

/// The header of an entry.
#[derive(Debug)]
pub struct EntryHeader {
    pub kind: EntryKind,
    pub mode: u32,
    pub size: u64,
    pub mtime: i64,
    pub path: String,
    pub link_target: String,
}

#[verifier::ext_equal]
pub struct HeaderView {
    pub kind: EntryKind,
    pub mode: u32,
    pub size: u64,
    pub mtime: i64,
    pub path: Seq<char>,
    pub link_target: Seq<char>,
}

impl View for EntryHeader {
    type V = HeaderView;

    open spec fn view(&self) -> HeaderView {
        HeaderView {
            kind: self.kind,
            mode: self.mode,
            size: self.size,
            mtime: self.mtime,
            path: self.path@,
            link_target: self.link_target@,
        }
    }
}

/// How many bytes a string takes.
#[verifier::opaque]
pub open spec fn utf8_len(s: Seq<char>) -> nat {
    encode_utf8(s).len()
}

/// A string behind its length in two bytes. Of the length only the low 16 bits
/// are kept.
#[verifier::opaque]
pub open spec fn string_field(s: Seq<char>) -> Seq<u8> {
    le_bytes(encode_utf8(s).len() as int, 2) + encode_utf8(s)
}

/// A time as an unsigned number of 64 bits, in two's complement.
pub open spec fn time_bits(t: int) -> int {
    t % 0x1_0000_0000_0000_0000
}

/// The time behind 64 bits in two's complement.
pub open spec fn time_of_bits(v: int) -> int {
    if v < 0x8000_0000_0000_0000 {
        v
    } else {
        v - 0x1_0000_0000_0000_0000
    }
}

/// The times of a header, which only the current revision stores.
pub open spec fn time_field(mtime: int, version: ArchiveVersion) -> Seq<u8> {
    match version {
        ArchiveVersion::V4 => Seq::empty(),
        ArchiveVersion::V5 => le_bytes(time_bits(mtime), 8),
    }
}

/// A header on the wire.
#[verifier::opaque]
pub open spec fn header_bytes(h: HeaderView, version: ArchiveVersion) -> Seq<u8> {
    seq![h.kind.id() as u8] + le_bytes(h.mode as int, 4) + le_bytes(h.size as int, 8) + time_field(
        h.mtime as int,
        version,
    ) + string_field(h.path) + string_field(h.link_target)
}

/// Where the fields of a header stand: the kind as its number, the mode in four bytes,
/// the size in eight, in the current revision the time in eight, and then path and
/// target, each behind its length in two bytes.
pub proof fn lemma_header_layout(h: HeaderView, version: ArchiveVersion)
    ensures
        ({
            let b = header_bytes(h, version);
            let at: int = if version == ArchiveVersion::V5 {
                21
            } else {
                13
            };
            let path = encode_utf8(h.path);
            let target = encode_utf8(h.link_target);
            &&& b.len() == at + 2 + path.len() + 2 + target.len()
            &&& b[0] == (match h.kind {
                EntryKind::File => 0u8,
                EntryKind::Dir => 1u8,
                EntryKind::Symlink => 2u8,
                EntryKind::HardLink => 3u8,
                EntryKind::ChunkedFile => 4u8,
            })
            &&& b.subrange(1, 5) == le_bytes(h.mode as int, 4)
            &&& b.subrange(5, 13) == le_bytes(h.size as int, 8)
            &&& version == ArchiveVersion::V5 ==> b.subrange(13, 21) == le_bytes(
                if h.mtime >= 0 {
                    h.mtime as int
                } else {
                    h.mtime + 0x1_0000_0000_0000_0000
                },
                8,
            )
            &&& b.subrange(at, at + 2) == le_bytes(path.len() as int, 2)
            &&& b.subrange(at + 2, at + 2 + path.len()) == path
            &&& b.subrange(at + 2 + path.len(), at + 4 + path.len()) == le_bytes(
                target.len() as int,
                2,
            )
            &&& b.skip(at + 4 + path.len()) == target
        }),
{
    let path = encode_utf8(h.path);
    let target = encode_utf8(h.link_target);
    let time = time_field(h.mtime as int, version);
    let bits = time_bits(h.mtime as int);
    assert(le_bytes(h.mode as int, 4).len() == 4) by {
        lemma_le_digits(h.mode as int, 4);
    }
    assert(le_bytes(h.size as int, 8).len() == 8) by {
        lemma_le_digits(h.size as int, 8);
    }
    assert(le_bytes(bits, 8).len() == 8) by {
        lemma_le_digits(bits, 8);
    }
    assert(le_bytes(path.len() as int, 2).len() == 2) by {
        lemma_le_digits(path.len() as int, 2);
    }
    assert(le_bytes(target.len() as int, 2).len() == 2) by {
        lemma_le_digits(target.len() as int, 2);
    }
    assert(header_bytes(h, version) == seq![h.kind.id() as u8] + le_bytes(h.mode as int, 4)
        + le_bytes(h.size as int, 8) + time + (le_bytes(path.len() as int, 2) + path) + (le_bytes(
        target.len() as int,
        2,
    ) + target)) by {
        reveal(header_bytes);
        reveal(string_field);
    }
    lemma_fields_stand(
        seq![h.kind.id() as u8],
        le_bytes(h.mode as int, 4),
        le_bytes(h.size as int, 8),
        time,
        le_bytes(path.len() as int, 2),
        path,
        le_bytes(target.len() as int, 2),
        target,
    );
}

proof fn lemma_fields_stand(
    kind: Seq<u8>,
    mode: Seq<u8>,
    size: Seq<u8>,
    time: Seq<u8>,
    path_len: Seq<u8>,
    path: Seq<u8>,
    target_len: Seq<u8>,
    target: Seq<u8>,
)
    requires
        kind.len() == 1,
        mode.len() == 4,
        size.len() == 8,
        path_len.len() == 2,
        target_len.len() == 2,
    ensures
        ({
            let b = kind + mode + size + time + (path_len + path) + (target_len + target);
            let at: int = 13 + time.len() as int;
            &&& b.len() == at + 2 + path.len() + 2 + target.len()
            &&& b[0] == kind[0]
            &&& b.subrange(1, 5) == mode
            &&& b.subrange(5, 13) == size
            &&& b.subrange(13, at) == time
            &&& b.subrange(at, at + 2) == path_len
            &&& b.subrange(at + 2, at + 2 + path.len()) == path
            &&& b.subrange(at + 2 + path.len(), at + 4 + path.len()) == target_len
            &&& b.skip(at + 4 + path.len()) == target
        }),
{
    let b = kind + mode + size + time + (path_len + path) + (target_len + target);
    let at: int = 13 + time.len() as int;
    assert(b.subrange(1, 5) =~= mode);
    assert(b.subrange(5, 13) =~= size);
    assert(b.subrange(13, at) =~= time);
    assert(b.subrange(at, at + 2) =~= path_len);
    assert(b.subrange(at + 2, at + 2 + path.len()) =~= path);
    assert(b.subrange(at + 2 + path.len(), at + 4 + path.len()) =~= target_len);
    assert(b.skip(at + 4 + path.len()) =~= target);
}

/// The views of headers and preambles have every field as it is.
pub proof fn lemma_field_views(h: EntryHeader, p: Preamble)
    ensures
        h@.kind == h.kind,
        h@.mode == h.mode,
        h@.size == h.size,
        h@.mtime == h.mtime,
        h@.path == h.path@,
        h@.link_target == h.link_target@,
        p@.version == p.version,
        p@.backend == p.backend,
        p@.preproc == p.preproc,
        p@.dict == p.dict@,
        p@.ppmd == p.ppmd,
        p.comment matches Some(c) ==> p@.comment == Some(c@),
        p.comment is None ==> p@.comment is None,
        p@.hash_algo == p.hash_algo,
        p@.delta_stride == p.delta_stride,
{
}

/// A string behind its length; `bad` where the bytes are no UTF-8.
#[verifier::opaque]
pub open spec fn parse_string(s: Seq<u8>, bad: Error) -> Parsed<Seq<char>> {
    match parse_le(s, 2) {
        Err(e) => Err(e),
        Ok((n, s1)) => match parse_bytes(s1, n as nat) {
            Err(e) => Err(e),
            Ok((b, s2)) => if valid_utf8(b) {
                Ok((decode_utf8(b), s2))
            } else {
                Err(bad)
            },
        },
    }
}

/// The time of a header; zero where the revision stores none.
pub open spec fn parse_time(s: Seq<u8>, version: ArchiveVersion) -> Parsed<int> {
    match version {
        ArchiveVersion::V4 => Ok((0, s)),
        ArchiveVersion::V5 => match parse_le(s, 8) {
            Err(e) => Err(e),
            Ok((v, t)) => Ok((time_of_bits(v), t)),
        },
    }
}

/// A header after its first byte.
pub open spec fn parse_header_rest(
    kind: EntryKind,
    s: Seq<u8>,
    version: ArchiveVersion,
) -> Parsed<HeaderView> {
    match parse_le(s, 4) {
        Err(e) => Err(e),
        Ok((mode, s1)) => match parse_le(s1, 8) {
            Err(e) => Err(e),
            Ok((size, s2)) => match parse_time(s2, version) {
                Err(e) => Err(e),
                Ok((mtime, s3)) => match parse_string(s3, Error::PathNotUtf8) {
                    Err(e) => Err(e),
                    Ok((path, s4)) => match parse_string(s4, Error::LinkNotUtf8) {
                        Err(e) => Err(e),
                        Ok((link, s5)) => Ok(
                            (
                                HeaderView {
                                    kind,
                                    mode: mode as u32,
                                    size: size as u64,
                                    mtime: mtime as i64,
                                    path,
                                    link_target: link,
                                },
                                s5,
                            ),
                        ),
                    },
                },
            },
        },
    }
}

/// The next header; nothing at the end of the stream.
#[verifier::opaque]
pub open spec fn parse_header(s: Seq<u8>, version: ArchiveVersion) -> Parsed<Option<HeaderView>> {
    if s.len() == 0 {
        Ok((None, s))
    } else {
        match kind_of(s[0] as int) {
            None => Err(Error::UnknownEntryKind { id: s[0] }),
            Some(kind) => match parse_header_rest(kind, s.skip(1), version) {
                Err(e) => Err(e),
                Ok((h, t)) => Ok((Some(h), t)),
            },
        }
    }
}

/// Appends a string behind its length.
pub fn write_string(out: &mut Vec<u8>, s: &str)
    ensures
        final(out)@ == old(out)@ + string_field(s@),
{
    reveal(string_field);
    let b = s.as_bytes();
    write_le(out, b.len() as u64, 2);
    write_bytes(out, b);
    assert(out@ =~= old(out)@ + string_field(s@));
}

/// Takes a string behind its length.
pub fn read_string(r: &mut ByteReader<'_>, bad: Error) -> (res: Result<String, Error>)
    ensures
        match parse_string(old(r).rest(), bad) {
            Ok((s, t)) => res matches Ok(v) && v@ == s && final(r).rest() == t,
            Err(e) => res matches Err(f) && f == e,
        },
{
    reveal(parse_string);
    let n: u16 = match r.read_u16() {
        Ok(n) => n,
        Err(e) => {
            return Err(e);
        },
    };
    let b = match r.read_bytes(n as usize) {
        Ok(b) => b,
        Err(e) => {
            return Err(e);
        },
    };
    match string_from_utf8(vstd::slice::slice_to_vec(b)) {
        Some(s) => Ok(s),
        None => Err(bad),
    }
}

/// A time as its 64 bits.
pub fn time_to_bits(t: i64) -> (v: u64)
    ensures
        v == time_bits(t as int),
{
    if t >= 0 {
        t as u64
    } else {
        u64::MAX - ((-(t + 1)) as u64)
    }
}

/// The time behind 64 bits.
pub fn time_from_bits(v: u64) -> (t: i64)
    ensures
        t == time_of_bits(v as int),
{
    if v < 0x8000_0000_0000_0000 {
        v as i64
    } else {
        -((u64::MAX - v) as i64) - 1
    }
}

impl EntryHeader {
    /// Appends the header.
    pub fn write_to(&self, out: &mut Vec<u8>, version: ArchiveVersion)
        ensures
            final(out)@ == old(out)@ + header_bytes(self@, version),
    {
        reveal(header_bytes);
        out.push(self.kind.to_u8());
        write_u32(out, self.mode);
        write_u64(out, self.size);
        match version {
            ArchiveVersion::V4 => {},
            ArchiveVersion::V5 => {
                write_u64(out, time_to_bits(self.mtime));
            },
        }
        write_string(out, self.path.as_str());
        write_string(out, self.link_target.as_str());
        assert(out@ =~= old(out)@ + header_bytes(self@, version));
    }

    /// Takes the next header; nothing at the end of the stream.
    pub fn read_from(r: &mut ByteReader<'_>, version: ArchiveVersion) -> (res: Result<
        Option<Self>,
        Error,
    >)
        ensures
            match parse_header(old(r).rest(), version) {
                Ok((None, t)) => res matches Ok(None) && final(r).rest() == t,
                Ok((Some(h), t)) => res matches Ok(Some(v)) && v@ == h && final(r).rest() == t,
                Err(e) => res matches Err(f) && f == e,
            },
    {
        reveal(parse_header);
        if r.remaining() == 0 {
            return Ok(None);
        }
        let kind_byte: u8 = match r.read_u8() {
            Ok(b) => b,
            Err(e) => {
                return Err(e);
            },
        };
        let kind = match EntryKind::from_u8(kind_byte) {
            Ok(k) => k,
            Err(e) => {
                return Err(e);
            },
        };
        let mode: u32 = match r.read_u32() {
            Ok(v) => v,
            Err(e) => {
                return Err(e);
            },
        };
        let size: u64 = match r.read_u64() {
            Ok(v) => v,
            Err(e) => {
                return Err(e);
            },
        };
        let mtime: i64 = match version {
            ArchiveVersion::V4 => 0,
            ArchiveVersion::V5 => match r.read_u64() {
                Ok(v) => time_from_bits(v),
                Err(e) => {
                    return Err(e);
                },
            },
        };
        let path = match read_string(r, Error::PathNotUtf8) {
            Ok(s) => s,
            Err(e) => {
                return Err(e);
            },
        };
        let link_target = match read_string(r, Error::LinkNotUtf8) {
            Ok(s) => s,
            Err(e) => {
                return Err(e);
            },
        };
        Ok(Some(EntryHeader { kind, mode, size, mtime, path, link_target }))
    }
}

/// A string of at most 65535 bytes reads back as it was.
pub proof fn lemma_string_round_trip(s: Seq<char>, tail: Seq<u8>, bad: Error)
    requires
        utf8_len(s) <= 0xFFFF,
    ensures
        parse_string(string_field(s) + tail, bad) == Ok::<(Seq<char>, Seq<u8>), Error>((s, tail)),
{
    reveal(string_field);
    reveal(parse_string);
    reveal(utf8_len);
    let b = encode_utf8(s);
    lemma_pow256_widths();
    lemma_utf8_round_trip(s);
    assert(string_field(s) + tail =~= le_bytes(b.len() as int, 2) + (b + tail));
    lemma_le_round_trip(b.len() as int, 2, b + tail);
    lemma_bytes_round_trip(b, tail);
}

/// The strings of a header are short enough for their length fields.
pub open spec fn header_fits(h: HeaderView) -> bool {
    utf8_len(h.path) <= 0xFFFF && utf8_len(h.link_target) <= 0xFFFF
}

/// What is kept of a header: the fourth revision forgets the time.
pub open spec fn kept_header(h: HeaderView, version: ArchiveVersion) -> HeaderView {
    match version {
        ArchiveVersion::V4 => HeaderView { mtime: 0, ..h },
        ArchiveVersion::V5 => h,
    }
}

/// A header reads back as it was written, but for the time in the fourth
/// revision.
pub proof fn lemma_header_round_trip(h: HeaderView, version: ArchiveVersion, tail: Seq<u8>)
    requires
        header_fits(h),
    ensures
        parse_header(header_bytes(h, version) + tail, version) == Ok::<
            (Option<HeaderView>, Seq<u8>),
            Error,
        >((Some(kept_header(h, version)), tail)),
{
    reveal(header_bytes);
    reveal(parse_header);
    let s4 = string_field(h.link_target) + tail;
    let s3 = string_field(h.path) + s4;
    let s2 = time_field(h.mtime as int, version) + s3;
    let s1 = le_bytes(h.size as int, 8) + s2;
    let s0 = le_bytes(h.mode as int, 4) + s1;
    let s = header_bytes(h, version) + tail;
    let first = seq![h.kind.id() as u8];
    let a = first + le_bytes(h.mode as int, 4);
    let b = a + le_bytes(h.size as int, 8);
    let c = b + time_field(h.mtime as int, version);
    let d = c + string_field(h.path);
    lemma_grouping(d, string_field(h.link_target), tail);
    lemma_grouping(c, string_field(h.path), s4);
    lemma_grouping(b, time_field(h.mtime as int, version), s3);
    lemma_grouping(a, le_bytes(h.size as int, 8), s2);
    lemma_grouping(first, le_bytes(h.mode as int, 4), s1);
    assert(s == first + s0);
    assert(s.skip(1) =~= s0);
    assert(kind_of(s[0] as int) == Some(h.kind));
    assert(parse_le(s0, 4) == Ok::<(int, Seq<u8>), Error>((h.mode as int, s1))) by {
        lemma_pow256_widths();
        lemma_le_round_trip(h.mode as int, 4, s1);
    }
    assert(parse_le(s1, 8) == Ok::<(int, Seq<u8>), Error>((h.size as int, s2))) by {
        lemma_pow256_widths();
        lemma_le_round_trip(h.size as int, 8, s2);
    }
    assert(parse_time(s2, version) == Ok::<(int, Seq<u8>), Error>(
        (kept_header(h, version).mtime as int, s3),
    )) by {
        match version {
            ArchiveVersion::V4 => {
                assert(s2 =~= s3);
            },
            ArchiveVersion::V5 => {
                lemma_pow256_widths();
                lemma_le_round_trip(time_bits(h.mtime as int), 8, s3);
            },
        }
    }
    lemma_string_round_trip(h.path, s4, Error::PathNotUtf8);
    lemma_string_round_trip(h.link_target, tail, Error::LinkNotUtf8);
    let k = kept_header(h, version);
    assert(parse_header_rest(h.kind, s0, version) == Ok::<(HeaderView, Seq<u8>), Error>((k, tail)));
}

/// The settings in front of an archive.
#[derive(Debug)]
pub struct Preamble {
    pub version: ArchiveVersion,
    pub backend: Backend,
    pub preproc: u8,
    pub dict: Vec<u8>,
    pub ppmd: Option<PpmdParams>,
    pub comment: Option<String>,
    pub hash_algo: Option<HashAlgo>,
    pub delta_stride: Option<u8>,
}

#[verifier::ext_equal]
pub struct PreambleView {
    pub version: ArchiveVersion,
    pub backend: Backend,
    pub preproc: u8,
    pub dict: Seq<u8>,
    pub ppmd: Option<PpmdParams>,
    pub comment: Option<Seq<char>>,
    pub hash_algo: Option<HashAlgo>,
    pub delta_stride: Option<u8>,
}

/// The characters of a string that may be missing.
pub open spec fn chars_of(s: Option<String>) -> Option<Seq<char>> {
    match s {
        Some(t) => Some(t@),
        None => None,
    }
}

impl View for Preamble {
    type V = PreambleView;

    open spec fn view(&self) -> PreambleView {
        PreambleView {
            version: self.version,
            backend: self.backend,
            preproc: self.preproc,
            dict: self.dict@,
            ppmd: self.ppmd,
            comment: chars_of(self.comment),
            hash_algo: self.hash_algo,
            delta_stride: self.delta_stride,
        }
    }
}

/// The comment, where the flag announces one.
pub open spec fn comment_field(p: PreambleView) -> Seq<u8> {
    match p.comment {
        Some(c) if flag_set(p.preproc, FEATURE_COMMENT) => string_field(c),
        _ => Seq::empty(),
    }
}

/// The number of the hash, where the flag announces it.
pub open spec fn algo_field(p: PreambleView) -> Seq<u8> {
    match p.hash_algo {
        Some(a) if flag_set(p.preproc, FEATURE_HASH_ALGO) => seq![a.id() as u8],
        _ => Seq::empty(),
    }
}

/// The stride of the delta filter, where the flag announces it.
pub open spec fn stride_field(p: PreambleView) -> Seq<u8> {
    match p.delta_stride {
        Some(s) if flag_set(p.preproc, FEATURE_DELTA) => seq![s],
        _ => Seq::empty(),
    }
}

/// The settings of the PPMd model, with that compressor.
pub open spec fn ppmd_field(p: PreambleView) -> Seq<u8> {
    match p.ppmd {
        Some(q) if p.backend == Backend::Ppmd => seq![q.order] + le_bytes(q.mem_mb as int, 4),
        _ => Seq::empty(),
    }
}

/// The dictionary behind its length.
pub open spec fn dict_field(dict: Seq<u8>) -> Seq<u8> {
    le_bytes(dict.len() as int, 4) + dict
}

/// A preamble on the wire.
pub open spec fn preamble_bytes(p: PreambleView) -> Seq<u8> {
    magic(p.version) + (seq![p.backend.id() as u8, p.preproc] + (comment_field(p) + (algo_field(p)
        + (stride_field(p) + (dict_field(p.dict) + ppmd_field(p))))))
}

/// Where the fields of a preamble stand: four bytes that name the revision, the
/// compressor as its number, the flags, then what the flags announce, comment, hash and
/// stride, then the dictionary behind its length in four bytes, and with PPMd the
/// order in one byte and the memory in four.
pub proof fn lemma_preamble_layout(p: PreambleView)
    requires
        preamble_consistent(p),
    ensures
        ({
            let b = preamble_bytes(p);
            let text = match p.comment {
                Some(c) => le_bytes(encode_utf8(c).len() as int, 2) + encode_utf8(c),
                None => Seq::empty(),
            };
            let hash: Seq<u8> = if p.preproc & 0x10 != 0 {
                match p.hash_algo {
                    Some(HashAlgo::Crc32) => seq![1u8],
                    Some(HashAlgo::Xxh3) => seq![2u8],
                    Some(HashAlgo::Blake3) => seq![3u8],
                    None => Seq::empty(),
                }
            } else {
                Seq::empty()
            };
            let stride: Seq<u8> = match p.delta_stride {
                Some(n) => seq![n],
                None => Seq::empty(),
            };
            let model: Seq<u8> = match p.ppmd {
                Some(q) => seq![q.order] + le_bytes(q.mem_mb as int, 4),
                None => Seq::empty(),
            };
            &&& b.take(4) == (match p.version {
                ArchiveVersion::V4 => seq!['S' as u8, 'Y' as u8, 'C' as u8, '4' as u8],
                ArchiveVersion::V5 => seq!['S' as u8, 'Y' as u8, 'C' as u8, '5' as u8],
            })
            &&& b[4] == (match p.backend {
                Backend::Zstd => 0u8,
                Backend::Lzma => 1u8,
                Backend::Ppmd => 2u8,
            })
            &&& b[5] == p.preproc
            &&& b.skip(6) == text + hash + stride + le_bytes(p.dict.len() as int, 4) + p.dict + model
        }),
{
    let text = comment_field(p);
    let hash = algo_field(p);
    let stride = stride_field(p);
    let model = ppmd_field(p);
    let len = le_bytes(p.dict.len() as int, 4);
    let d = dict_field(p.dict) + model;
    let c = stride + d;
    let e = hash + c;
    lemma_front_of(magic(p.version), seq![p.backend.id() as u8, p.preproc], text + e);
    lemma_grouping(text, hash, c);
    lemma_grouping(text + hash, stride, d);
    lemma_grouping(text + hash + stride, dict_field(p.dict), model);
    lemma_grouping(text + hash + stride, len, p.dict);
    assert(text == match p.comment {
        Some(c) => le_bytes(encode_utf8(c).len() as int, 2) + encode_utf8(c),
        None => Seq::empty(),
    }) by {
        reveal(string_field);
    }
}

proof fn lemma_front_of(m: Seq<u8>, x: Seq<u8>, rest: Seq<u8>)
    requires
        m.len() == 4,
        x.len() == 2,
    ensures
        (m + (x + rest)).take(4) == m,
        (m + (x + rest))[4] == x[0],
        (m + (x + rest))[5] == x[1],
        (m + (x + rest)).skip(6) == rest,
{
    let b = m + (x + rest);
    assert(b.take(4) =~= m);
    assert(b.skip(6) =~= rest);
}

/// What keeps a preamble from being written: a comment above 65535 bytes, or
/// a setting that a flag or the compressor asks for and that is missing.
pub open spec fn preamble_fault(p: PreambleView) -> Option<Error> {
    if flag_set(p.preproc, FEATURE_COMMENT) && (match p.comment {
        Some(c) => utf8_len(c) > 0xFFFF,
        None => false,
    }) {
        Some(Error::CommentTooLong)
    } else if flag_set(p.preproc, FEATURE_HASH_ALGO) && p.hash_algo is None {
        Some(Error::MissingHashAlgo)
    } else if flag_set(p.preproc, FEATURE_DELTA) && p.delta_stride is None {
        Some(Error::MissingStride)
    } else if p.backend == Backend::Ppmd && p.ppmd is None {
        Some(Error::MissingPpmdParams)
    } else {
        None
    }
}

/// Appends a preamble; appends nothing where a setting is missing.
pub fn write_preamble(
    out: &mut Vec<u8>,
    version: ArchiveVersion,
    backend: Backend,
    preproc: u8,
    dict: &[u8],
    ppmd: Option<PpmdParams>,
    comment: Option<&str>,
    hash_algo: Option<HashAlgo>,
    delta_stride: Option<u8>,
) -> (res: Result<(), Error>)
    ensures
        ({
            let p = PreambleView {
                version,
                backend,
                preproc,
                dict: dict@,
                ppmd,
                comment: match comment {
                    Some(c) => Some(c@),
                    None => None,
                },
                hash_algo,
                delta_stride,
            };
            match preamble_fault(p) {
                None => res is Ok && final(out)@ == old(out)@ + preamble_bytes(p),
                Some(e) => res == Err::<(), Error>(e) && final(out)@ == old(out)@,
            }
        }),
{
    let mut w: Vec<u8> = Vec::new();
    w.push(0x53);
    w.push(0x59);
    w.push(0x43);
    match version {
        ArchiveVersion::V4 => {
            w.push(0x34);
        },
        ArchiveVersion::V5 => {
            w.push(0x35);
        },
    }
    w.push(backend.to_u8());
    w.push(preproc);
    let ghost p = PreambleView {
        version,
        backend,
        preproc,
        dict: dict@,
        ppmd,
        comment: match comment {
            Some(c) => Some(c@),
            None => None,
        },
        hash_algo,
        delta_stride,
    };
    let ghost head = w@;
    assert(head =~= magic(version) + seq![backend.id() as u8, preproc]);
    match comment {
        Some(c) => {
            if preproc & FEATURE_COMMENT != 0 {
                reveal(utf8_len);
                if c.as_bytes().len() > 0xFFFF {
                    return Err(Error::CommentTooLong);
                }
                write_string(&mut w, c);
            }
        },
        None => {},
    }
    let ghost g1 = head + comment_field(p);
    assert(w@ =~= g1);
    if preproc & FEATURE_HASH_ALGO != 0 {
        match hash_algo {
            Some(a) => {
                w.push(a.to_u8());
            },
            None => {
                return Err(Error::MissingHashAlgo);
            },
        }
    }
    let ghost g2 = g1 + algo_field(p);
    assert(w@ =~= g2);
    if preproc & FEATURE_DELTA != 0 {
        match delta_stride {
            Some(s) => {
                w.push(s);
            },
            None => {
                return Err(Error::MissingStride);
            },
        }
    }
    let ghost g3 = g2 + stride_field(p);
    assert(w@ =~= g3);
    write_le(&mut w, dict.len() as u64, 4);
    write_bytes(&mut w, dict);
    let ghost g4 = g3 + dict_field(dict@);
    proof {
        lemma_grouping(g3, le_bytes(dict@.len() as int, 4), dict@);
    }
    assert(w@ == g4);
    match backend {
        Backend::Ppmd => match ppmd {
            Some(q) => {
                w.push(q.order);
                write_u32(&mut w, q.mem_mb);
            },
            None => {
                return Err(Error::MissingPpmdParams);
            },
        },
        _ => {},
    }
    assert(w@ =~= g4 + ppmd_field(p));
    proof {
        lemma_preamble_in_order(p);
    }
    write_bytes(out, &w);
    Ok(())
}

/// The comment at the front of `s`, where the flag announces one.
pub open spec fn parse_comment(preproc: u8, s: Seq<u8>) -> Parsed<Option<Seq<char>>> {
    if flag_set(preproc, FEATURE_COMMENT) {
        match parse_string(s, Error::CommentNotUtf8) {
            Err(e) => Err(e),
            Ok((c, t)) => Ok((Some(c), t)),
        }
    } else {
        Ok((None, s))
    }
}

/// The hash: named at the front of `s`, or CRC-32, or none.
pub open spec fn parse_algo(preproc: u8, s: Seq<u8>) -> Parsed<Option<HashAlgo>> {
    if flag_set(preproc, FEATURE_HASH_ALGO) {
        if s.len() == 0 {
            Err(Error::UnexpectedEof)
        } else {
            match algo_of(s[0] as int) {
                Some(a) => Ok((Some(a), s.skip(1))),
                None => Err(Error::UnknownHashAlgo { id: s[0] }),
            }
        }
    } else if flag_set(preproc, FEATURE_CRC32) {
        Ok((Some(HashAlgo::Crc32), s))
    } else {
        Ok((None, s))
    }
}

/// The stride of the delta filter, where the flag announces one.
pub open spec fn parse_stride(preproc: u8, s: Seq<u8>) -> Parsed<Option<u8>> {
    if flag_set(preproc, FEATURE_DELTA) {
        if s.len() == 0 {
            Err(Error::UnexpectedEof)
        } else if valid_stride(s[0] as int) {
            Ok((Some(s[0]), s.skip(1)))
        } else {
            Err(Error::InvalidStride { stride: s[0] })
        }
    } else {
        Ok((None, s))
    }
}

/// The dictionary behind its length.
pub open spec fn parse_dict(s: Seq<u8>) -> Parsed<Seq<u8>> {
    match parse_le(s, 4) {
        Err(e) => Err(e),
        Ok((n, t)) => parse_bytes(t, n as nat),
    }
}

/// The settings of the PPMd model, with that compressor.
pub open spec fn parse_ppmd(backend: Backend, s: Seq<u8>) -> Parsed<Option<PpmdParams>> {
    if backend == Backend::Ppmd {
        if s.len() == 0 {
            Err(Error::UnexpectedEof)
        } else {
            match parse_le(s.skip(1), 4) {
                Err(e) => Err(e),
                Ok((mem, t)) => Ok((Some(PpmdParams { order: s[0], mem_mb: mem as u32 }), t)),
            }
        }
    } else {
        Ok((None, s))
    }
}

/// The revision whose mark stands at the front of `s`.
pub open spec fn parse_magic(s: Seq<u8>) -> Parsed<ArchiveVersion> {
    match parse_bytes(s, 4) {
        Err(e) => Err(e),
        Ok((m, t)) => if m == magic(ArchiveVersion::V4) {
            Ok((ArchiveVersion::V4, t))
        } else if m == magic(ArchiveVersion::V5) {
            Ok((ArchiveVersion::V5, t))
        } else {
            Err(Error::BadMagic)
        },
    }
}

/// A preamble after its flags.
pub open spec fn parse_settings(
    version: ArchiveVersion,
    backend: Backend,
    preproc: u8,
    s: Seq<u8>,
) -> Parsed<PreambleView> {
    match parse_comment(preproc, s) {
        Err(e) => Err(e),
        Ok((comment, s1)) => match parse_algo(preproc, s1) {
            Err(e) => Err(e),
            Ok((hash_algo, s2)) => match parse_stride(preproc, s2) {
                Err(e) => Err(e),
                Ok((delta_stride, s3)) => match parse_dict(s3) {
                    Err(e) => Err(e),
                    Ok((dict, s4)) => match parse_ppmd(backend, s4) {
                        Err(e) => Err(e),
                        Ok((ppmd, s5)) => Ok(
                            (
                                PreambleView {
                                    version,
                                    backend,
                                    preproc,
                                    dict,
                                    ppmd,
                                    comment,
                                    hash_algo,
                                    delta_stride,
                                },
                                s5,
                            ),
                        ),
                    },
                },
            },
        },
    }
}

/// The preamble at the front of `s`.
pub open spec fn parse_preamble(s: Seq<u8>) -> Parsed<PreambleView> {
    match parse_magic(s) {
        Err(e) => Err(e),
        Ok((version, s1)) => if s1.len() == 0 {
            Err(Error::UnexpectedEof)
        } else {
            match backend_of(s1[0] as int) {
                None => Err(Error::UnknownBackend { id: s1[0] }),
                Some(backend) => if s1.len() == 1 {
                    Err(Error::UnexpectedEof)
                } else {
                    parse_settings(version, backend, s1[1], s1.skip(2))
                },
            }
        },
    }
}

/// Takes a preamble.
pub fn read_preamble(r: &mut ByteReader<'_>) -> (res: Result<Preamble, Error>)
    ensures
        match parse_preamble(old(r).rest()) {
            Ok((p, t)) => res matches Ok(v) && v@ == p && final(r).rest() == t,
            Err(e) => res matches Err(f) && f == e,
        },
{
    let m = match r.read_bytes(4) {
        Ok(m) => m,
        Err(e) => {
            return Err(e);
        },
    };
    let ghost s1 = r.rest();
    assert(m@ =~= seq![m@[0], m@[1], m@[2], m@[3]]);
    if !(m[0] == 0x53 && m[1] == 0x59 && m[2] == 0x43 && (m[3] == 0x34 || m[3] == 0x35)) {
        proof {
            assert(magic(ArchiveVersion::V4)[0] == 0x53 && magic(ArchiveVersion::V4)[1] == 0x59
                && magic(ArchiveVersion::V4)[2] == 0x43 && magic(ArchiveVersion::V4)[3] == 0x34);
            assert(magic(ArchiveVersion::V5)[0] == 0x53 && magic(ArchiveVersion::V5)[1] == 0x59
                && magic(ArchiveVersion::V5)[2] == 0x43 && magic(ArchiveVersion::V5)[3] == 0x35);
        }
        return Err(Error::BadMagic);
    }
    let version = if m[3] == 0x34 {
        ArchiveVersion::V4
    } else {
        ArchiveVersion::V5
    };
    proof {
        assert(m@ =~= magic(version));
        assert(magic(ArchiveVersion::V4)[3] == 0x34);
    }
    let b: u8 = match r.read_u8() {
        Ok(b) => b,
        Err(e) => {
            return Err(e);
        },
    };
    let backend = match Backend::from_u8(b) {
        Ok(b) => b,
        Err(e) => {
            return Err(e);
        },
    };
    let preproc: u8 = match r.read_u8() {
        Ok(b) => b,
        Err(e) => {
            return Err(e);
        },
    };
    assert(s1.skip(1).skip(1) =~= s1.skip(2));
    let comment: Option<String> = if preproc & FEATURE_COMMENT != 0 {
        match read_string(r, Error::CommentNotUtf8) {
            Ok(c) => Some(c),
            Err(e) => {
                return Err(e);
            },
        }
    } else {
        None
    };
    let hash_algo: Option<HashAlgo> = if preproc & FEATURE_HASH_ALGO != 0 {
        let v: u8 = match r.read_u8() {
            Ok(v) => v,
            Err(e) => {
                return Err(e);
            },
        };
        match HashAlgo::from_u8(v) {
            Ok(a) => Some(a),
            Err(e) => {
                return Err(e);
            },
        }
    } else if preproc & FEATURE_CRC32 != 0 {
        Some(HashAlgo::Crc32)
    } else {
        None
    };
    let delta_stride: Option<u8> = if preproc & FEATURE_DELTA != 0 {
        let v: u8 = match r.read_u8() {
            Ok(v) => v,
            Err(e) => {
                return Err(e);
            },
        };
        if !is_valid_stride(v) {
            return Err(Error::InvalidStride { stride: v });
        }
        Some(v)
    } else {
        None
    };
    let n: u32 = match r.read_u32() {
        Ok(n) => n,
        Err(e) => {
            return Err(e);
        },
    };
    let dict = match r.read_bytes(n as usize) {
        Ok(d) => vstd::slice::slice_to_vec(d),
        Err(e) => {
            return Err(e);
        },
    };
    let ppmd: Option<PpmdParams> = match backend {
        Backend::Ppmd => {
            let order: u8 = match r.read_u8() {
                Ok(v) => v,
                Err(e) => {
                    return Err(e);
                },
            };
            let mem_mb: u32 = match r.read_u32() {
                Ok(v) => v,
                Err(e) => {
                    return Err(e);
                },
            };
            Some(PpmdParams { order, mem_mb })
        },
        _ => None,
    };
    Ok(Preamble { version, backend, preproc, dict, ppmd, comment, hash_algo, delta_stride })
}

/// Flags and settings agree: what a flag announces is there, what none does is
/// not, and every length fits its field.
pub open spec fn preamble_consistent(p: PreambleView) -> bool {
    &&& flag_set(p.preproc, FEATURE_COMMENT) <==> p.comment is Some
    &&& p.comment matches Some(c) ==> utf8_len(c) <= 0xFFFF
    &&& flag_set(p.preproc, FEATURE_HASH_ALGO) ==> p.hash_algo is Some
    &&& !flag_set(p.preproc, FEATURE_HASH_ALGO) ==> p.hash_algo == (if flag_set(p.preproc, FEATURE_CRC32) {
        Some(HashAlgo::Crc32)
    } else {
        None
    })
    &&& flag_set(p.preproc, FEATURE_DELTA) <==> p.delta_stride is Some
    &&& p.delta_stride matches Some(s) ==> valid_stride(s as int)
    &&& p.backend == Backend::Ppmd <==> p.ppmd is Some
    &&& p.dict.len() <= 0xFFFF_FFFF
}

proof fn lemma_comment_reads(p: PreambleView, t: Seq<u8>)
    requires
        preamble_consistent(p),
    ensures
        parse_comment(p.preproc, comment_field(p) + t) == Ok::<
            (Option<Seq<char>>, Seq<u8>),
            Error,
        >((p.comment, t)),
{
    match p.comment {
        Some(c) => {
            lemma_string_round_trip(c, t, Error::CommentNotUtf8);
        },
        None => {
            assert(comment_field(p) + t =~= t);
        },
    }
}

proof fn lemma_algo_reads(p: PreambleView, t: Seq<u8>)
    requires
        preamble_consistent(p),
    ensures
        parse_algo(p.preproc, algo_field(p) + t) == Ok::<(Option<HashAlgo>, Seq<u8>), Error>(
            (p.hash_algo, t),
        ),
{
    let s = algo_field(p) + t;
    if flag_set(p.preproc, FEATURE_HASH_ALGO) {
        assert(s.skip(1) =~= t);
    } else {
        assert(s =~= t);
    }
}

proof fn lemma_stride_reads(p: PreambleView, t: Seq<u8>)
    requires
        preamble_consistent(p),
    ensures
        parse_stride(p.preproc, stride_field(p) + t) == Ok::<(Option<u8>, Seq<u8>), Error>(
            (p.delta_stride, t),
        ),
{
    let s = stride_field(p) + t;
    if flag_set(p.preproc, FEATURE_DELTA) {
        assert(s.skip(1) =~= t);
    } else {
        assert(s =~= t);
    }
}

proof fn lemma_dict_reads(dict: Seq<u8>, t: Seq<u8>)
    requires
        dict.len() <= 0xFFFF_FFFF,
    ensures
        parse_dict(dict_field(dict) + t) == Ok::<(Seq<u8>, Seq<u8>), Error>((dict, t)),
{
    lemma_pow256_widths();
    lemma_grouping(le_bytes(dict.len() as int, 4), dict, t);
    lemma_le_round_trip(dict.len() as int, 4, dict + t);
    lemma_bytes_round_trip(dict, t);
}

proof fn lemma_ppmd_reads(p: PreambleView, t: Seq<u8>)
    requires
        preamble_consistent(p),
    ensures
        parse_ppmd(p.backend, ppmd_field(p) + t) == Ok::<(Option<PpmdParams>, Seq<u8>), Error>(
            (p.ppmd, t),
        ),
{
    let s = ppmd_field(p) + t;
    match p.ppmd {
        Some(q) => {
            lemma_pow256_widths();
            assert(s.skip(1) =~= le_bytes(q.mem_mb as int, 4) + t);
            lemma_le_round_trip(q.mem_mb as int, 4, t);
        },
        None => {
            assert(s =~= t);
        },
    }
}

proof fn lemma_magic_reads(version: ArchiveVersion, t: Seq<u8>)
    ensures
        parse_magic(magic(version) + t) == Ok::<(ArchiveVersion, Seq<u8>), Error>((version, t)),
{
    let m = magic(version);
    lemma_bytes_round_trip(m, t);
    assert(magic(ArchiveVersion::V4)[3] != magic(ArchiveVersion::V5)[3]);
}

/// A preamble whose flags and settings agree can be written and reads back as
/// it was.
pub proof fn lemma_preamble_round_trip(p: PreambleView, tail: Seq<u8>)
    requires
        preamble_consistent(p),
    ensures
        preamble_fault(p) is None,
        parse_preamble(preamble_bytes(p) + tail) == Ok::<(PreambleView, Seq<u8>), Error>((p, tail)),
{
    let s5 = ppmd_field(p) + tail;
    let s4 = dict_field(p.dict) + s5;
    let s3 = stride_field(p) + s4;
    let s2 = algo_field(p) + s3;
    let s1 = comment_field(p) + s2;
    let s0 = seq![p.backend.id() as u8, p.preproc] + s1;
    lemma_preamble_grouping(p, tail);
    lemma_magic_reads(p.version, s0);
    assert(s0.skip(2) =~= s1);
    lemma_comment_reads(p, s2);
    lemma_algo_reads(p, s3);
    lemma_stride_reads(p, s4);
    lemma_dict_reads(p.dict, s5);
    lemma_ppmd_reads(p, tail);
    assert(parse_settings(p.version, p.backend, p.preproc, s1) == Ok::<
        (PreambleView, Seq<u8>),
        Error,
    >((p, tail)));
}

/// The fields of a preamble written one after the other.
proof fn lemma_preamble_in_order(p: PreambleView)
    ensures
        magic(p.version) + seq![p.backend.id() as u8, p.preproc] + comment_field(p) + algo_field(p)
            + stride_field(p) + dict_field(p.dict) + ppmd_field(p) == preamble_bytes(p),
{
    let f = ppmd_field(p);
    let e = dict_field(p.dict) + f;
    let d = stride_field(p) + e;
    let c = algo_field(p) + d;
    let b = comment_field(p) + c;
    let g0 = magic(p.version) + seq![p.backend.id() as u8, p.preproc];
    let g1 = g0 + comment_field(p);
    let g2 = g1 + algo_field(p);
    let g3 = g2 + stride_field(p);
    lemma_grouping(g3, dict_field(p.dict), f);
    lemma_grouping(g2, stride_field(p), e);
    lemma_grouping(g1, algo_field(p), d);
    lemma_grouping(g0, comment_field(p), c);
    lemma_grouping(magic(p.version), seq![p.backend.id() as u8, p.preproc], b);
}

proof fn lemma_preamble_grouping(p: PreambleView, tail: Seq<u8>)
    ensures
        preamble_bytes(p) + tail == magic(p.version) + (seq![p.backend.id() as u8, p.preproc] + (
        comment_field(p) + (algo_field(p) + (stride_field(p) + (dict_field(p.dict) + (ppmd_field(p)
            + tail)))))),
{
    let f = ppmd_field(p);
    let e = dict_field(p.dict) + f;
    let d = stride_field(p) + e;
    let c = algo_field(p) + d;
    let b = comment_field(p) + c;
    let a = seq![p.backend.id() as u8, p.preproc] + b;
    lemma_grouping(magic(p.version), a, tail);
    lemma_grouping(seq![p.backend.id() as u8, p.preproc], b, tail);
    lemma_grouping(comment_field(p), c, tail);
    lemma_grouping(algo_field(p), d, tail);
    lemma_grouping(stride_field(p), e, tail);
    lemma_grouping(dict_field(p.dict), f, tail);
}

/// An extended attribute: its name and its value.
pub type XattrPair = (Vec<u8>, Vec<u8>);

/// The bytes of names and values.
pub open spec fn pair_views(pairs: Seq<XattrPair>) -> Seq<(Seq<u8>, Seq<u8>)> {
    Seq::new(pairs.len(), |k: int| (pairs[k].0@, pairs[k].1@))
}

/// The front of `s`, at most `n` bytes of it.
pub open spec fn cut(s: Seq<u8>, n: int) -> Seq<u8> {
    if s.len() <= n {
        s
    } else {
        s.take(n)
    }
}

/// One attribute: name and value, each cut to what its length field can hold.
pub open spec fn pair_bytes(p: (Seq<u8>, Seq<u8>)) -> Seq<u8> {
    let name = cut(p.0, 0xFFFF);
    let value = cut(p.1, 0xFFFF_FFFF);
    le_bytes(name.len() as int, 2) + (name + (le_bytes(value.len() as int, 4) + value))
}

/// Attributes one behind the other.
pub open spec fn pairs_bytes(pairs: Seq<(Seq<u8>, Seq<u8>)>) -> Seq<u8>
    decreases pairs.len(),
{
    if pairs.len() == 0 {
        Seq::empty()
    } else {
        pairs_bytes(pairs.drop_last()) + pair_bytes(pairs.last())
    }
}

/// A block of attributes: their number, then the attributes; none beyond the
/// 65535th.
pub open spec fn xattrs_bytes(pairs: Seq<(Seq<u8>, Seq<u8>)>) -> Seq<u8> {
    let kept = if pairs.len() <= 0xFFFF {
        pairs
    } else {
        pairs.take(0xFFFF)
    };
    le_bytes(kept.len() as int, 2) + pairs_bytes(kept)
}

/// Appends a block of attributes.
pub fn write_xattrs_block(out: &mut Vec<u8>, pairs: &[XattrPair])
    ensures
        final(out)@ == old(out)@ + xattrs_bytes(pair_views(pairs@)),
{
    let n: usize = if pairs.len() > 0xFFFF {
        0xFFFF
    } else {
        pairs.len()
    };
    let ghost all = pair_views(pairs@);
    write_u16(out, n as u16);
    let ghost head = out@;
    let mut i: usize = 0;
    assert(all.take(0) =~= Seq::empty());
    assert(out@ =~= head + pairs_bytes(all.take(0)));
    while i < n
        invariant
            i <= n <= pairs@.len(),
            all == pair_views(pairs@),
            out@ == head + pairs_bytes(all.take(i as int)),
        decreases n - i,
    {
        let ghost before = out@;
        let name = &pairs[i].0;
        let value = &pairs[i].1;
        let nlen: usize = if name.len() > 0xFFFF {
            0xFFFF
        } else {
            name.len()
        };
        let vlen: usize = if exceeds_u32(value.len()) {
            0xFFFF_FFFF
        } else {
            value.len()
        };
        write_u16(out, nlen as u16);
        write_bytes(out, vstd::slice::slice_subrange(name.as_slice(), 0, nlen));
        write_u32(out, vlen as u32);
        write_bytes(out, vstd::slice::slice_subrange(value.as_slice(), 0, vlen));
        proof {
            let p = all[i as int];
            assert(name@.subrange(0, nlen as int) =~= cut(p.0, 0xFFFF));
            assert(value@.subrange(0, vlen as int) =~= cut(p.1, 0xFFFF_FFFF));
            assert(out@ =~= before + pair_bytes(p));
            assert(all.take(i + 1).drop_last() =~= all.take(i as int));
            lemma_grouping(head, pairs_bytes(all.take(i as int)), pair_bytes(p));
        }
        i = i + 1;
    }
    proof {
        if pairs@.len() <= 0xFFFF {
            assert(all.take(n as int) =~= all);
        }
        assert(out@ =~= old(out)@ + xattrs_bytes(all));
    }
}

/// Whether a length is too great for four bytes.
fn exceeds_u32(n: usize) -> (r: bool)
    ensures
        r == (n > 0xFFFF_FFFF),
{
    n as u64 > 0xFFFF_FFFF
}

/// One attribute at the front of `s`.
pub open spec fn parse_pair(s: Seq<u8>) -> Parsed<(Seq<u8>, Seq<u8>)> {
    match parse_le(s, 2) {
        Err(e) => Err(e),
        Ok((n, s1)) => match parse_bytes(s1, n as nat) {
            Err(e) => Err(e),
            Ok((name, s2)) => match parse_le(s2, 4) {
                Err(e) => Err(e),
                Ok((m, s3)) => match parse_bytes(s3, m as nat) {
                    Err(e) => Err(e),
                    Ok((value, s4)) => Ok(((name, value), s4)),
                },
            },
        },
    }
}

/// `n` attributes, with those in `got` before them.
pub open spec fn parse_pairs(got: Seq<(Seq<u8>, Seq<u8>)>, n: int, s: Seq<u8>) -> Parsed<
    Seq<(Seq<u8>, Seq<u8>)>,
>
    decreases n,
{
    if n <= 0 {
        Ok((got, s))
    } else {
        match parse_pair(s) {
            Err(e) => Err(e),
            Ok((p, t)) => parse_pairs(got.push(p), n - 1, t),
        }
    }
}

/// A block of attributes at the front of `s`.
pub open spec fn parse_xattrs(s: Seq<u8>) -> Parsed<Seq<(Seq<u8>, Seq<u8>)>> {
    match parse_le(s, 2) {
        Err(e) => Err(e),
        Ok((n, t)) => parse_pairs(Seq::empty(), n, t),
    }
}

/// Takes one attribute.
fn read_pair(r: &mut ByteReader<'_>) -> (res: Result<XattrPair, Error>)
    ensures
        match parse_pair(old(r).rest()) {
            Ok((p, t)) => res matches Ok(v) && (v.0@, v.1@) == p && final(r).rest() == t,
            Err(e) => res matches Err(f) && f == e,
        },
{
    let n: u16 = match r.read_u16() {
        Ok(n) => n,
        Err(e) => {
            return Err(e);
        },
    };
    let name = match r.read_bytes(n as usize) {
        Ok(b) => vstd::slice::slice_to_vec(b),
        Err(e) => {
            return Err(e);
        },
    };
    let m: u32 = match r.read_u32() {
        Ok(m) => m,
        Err(e) => {
            return Err(e);
        },
    };
    let value = match r.read_bytes(m as usize) {
        Ok(b) => vstd::slice::slice_to_vec(b),
        Err(e) => {
            return Err(e);
        },
    };
    Ok((name, value))
}

/// Takes a block of attributes.
pub fn read_xattrs_block(r: &mut ByteReader<'_>) -> (res: Result<Vec<XattrPair>, Error>)
    ensures
        match parse_xattrs(old(r).rest()) {
            Ok((p, t)) => res matches Ok(v) && pair_views(v@) == p && final(r).rest() == t,
            Err(e) => res matches Err(f) && f == e,
        },
{
    let n: u16 = match r.read_u16() {
        Ok(n) => n,
        Err(e) => {
            return Err(e);
        },
    };
    let ghost whole = parse_xattrs(old(r).rest());
    let mut out: Vec<XattrPair> = Vec::new();
    let mut i: u16 = 0;
    assert(pair_views(out@) =~= Seq::empty());
    while i < n
        invariant
            i <= n,
            whole == parse_xattrs(old(r).rest()),
            parse_pairs(pair_views(out@), n - i, r.rest()) == whole,
        decreases n - i,
    {
        let ghost got = pair_views(out@);
        let p = match read_pair(r) {
            Ok(p) => p,
            Err(e) => {
                return Err(e);
            },
        };
        out.push(p);
        assert(pair_views(out@) =~= got.push((p.0@, p.1@)));
        i = i + 1;
    }
    Ok(out)
}

/// Every name and value fits its length field, and so does their number.
pub open spec fn xattrs_fit(pairs: Seq<(Seq<u8>, Seq<u8>)>) -> bool {
    &&& pairs.len() <= 0xFFFF
    &&& forall|k: int|
        0 <= k < pairs.len() ==> (#[trigger] pairs[k]).0.len() <= 0xFFFF && pairs[k].1.len()
            <= 0xFFFF_FFFF
}

proof fn lemma_pair_round_trip(p: (Seq<u8>, Seq<u8>), tail: Seq<u8>)
    requires
        p.0.len() <= 0xFFFF,
        p.1.len() <= 0xFFFF_FFFF,
    ensures
        parse_pair(pair_bytes(p) + tail) == Ok::<((Seq<u8>, Seq<u8>), Seq<u8>), Error>((p, tail)),
{
    lemma_pow256_widths();
    let s3 = p.1 + tail;
    let s2 = le_bytes(p.1.len() as int, 4) + s3;
    let s1 = p.0 + s2;
    let v = le_bytes(p.1.len() as int, 4) + p.1;
    lemma_grouping(le_bytes(p.0.len() as int, 2), p.0 + v, tail);
    lemma_grouping(p.0, v, tail);
    lemma_grouping(le_bytes(p.1.len() as int, 4), p.1, tail);
    lemma_le_round_trip(p.0.len() as int, 2, s1);
    lemma_bytes_round_trip(p.0, s2);
    lemma_le_round_trip(p.1.len() as int, 4, s3);
    lemma_bytes_round_trip(p.1, tail);
}

proof fn lemma_pairs_round_trip(
    got: Seq<(Seq<u8>, Seq<u8>)>,
    pairs: Seq<(Seq<u8>, Seq<u8>)>,
    tail: Seq<u8>,
)
    requires
        xattrs_fit(pairs),
    ensures
        parse_pairs(got, pairs.len() as int, pairs_bytes(pairs) + tail) == Ok::<
            (Seq<(Seq<u8>, Seq<u8>)>, Seq<u8>),
            Error,
        >((got + pairs, tail)),
    decreases pairs.len(),
{
    if pairs.len() == 0 {
        assert(pairs_bytes(pairs) + tail =~= tail);
        assert(got + pairs =~= got);
    } else {
        let first = pairs[0];
        let rest = pairs.skip(1);
        lemma_pairs_first(pairs);
        lemma_grouping(pair_bytes(first), pairs_bytes(rest), tail);
        lemma_pair_round_trip(first, pairs_bytes(rest) + tail);
        lemma_pairs_round_trip(got.push(first), rest, tail);
        assert(got.push(first) + rest =~= got + pairs);
    }
}

proof fn lemma_pairs_first(pairs: Seq<(Seq<u8>, Seq<u8>)>)
    requires
        pairs.len() > 0,
    ensures
        pairs_bytes(pairs) == pair_bytes(pairs[0]) + pairs_bytes(pairs.skip(1)),
    decreases pairs.len(),
{
    if pairs.len() == 1 {
        assert(pairs.drop_last() =~= Seq::empty());
        assert(pairs.skip(1) =~= Seq::empty());
        assert(pairs_bytes(pairs.drop_last()) =~= Seq::empty());
        assert(pairs_bytes(pairs) =~= pair_bytes(pairs[0]) + pairs_bytes(pairs.skip(1)));
    } else {
        let d = pairs.drop_last();
        lemma_pairs_first(d);
        assert(pairs.skip(1).drop_last() =~= d.skip(1));
        lemma_grouping(pair_bytes(pairs[0]), pairs_bytes(d.skip(1)), pair_bytes(pairs.last()));
    }
}

/// A block of attributes that fit reads back as it was.
pub proof fn lemma_xattrs_round_trip(pairs: Seq<(Seq<u8>, Seq<u8>)>, tail: Seq<u8>)
    requires
        xattrs_fit(pairs),
    ensures
        parse_xattrs(xattrs_bytes(pairs) + tail) == Ok::<
            (Seq<(Seq<u8>, Seq<u8>)>, Seq<u8>),
            Error,
        >((pairs, tail)),
{
    lemma_pow256_widths();
    lemma_grouping(le_bytes(pairs.len() as int, 2), pairs_bytes(pairs), tail);
    lemma_le_round_trip(pairs.len() as int, 2, pairs_bytes(pairs) + tail);
    lemma_pairs_round_trip(Seq::empty(), pairs, tail);
    assert(Seq::<(Seq<u8>, Seq<u8>)>::empty() + pairs =~= pairs);
}

/// Where the attributes of an entry stand: their number in two bytes, and of each the name
/// behind its length in two bytes and the value behind its length in four.
pub proof fn lemma_xattrs_layout(pairs: Seq<(Seq<u8>, Seq<u8>)>, name: Seq<u8>, value: Seq<u8>)
    requires
        name.len() <= 65535,
        value.len() <= 0xFFFF_FFFF,
        pairs.len() < 65535,
    ensures
        pair_bytes((name, value)) == le_bytes(name.len() as int, 2) + name + le_bytes(
            value.len() as int,
            4,
        ) + value,
        xattrs_bytes(pairs) == le_bytes(pairs.len() as int, 2) + pairs_bytes(pairs),
        pairs_bytes(pairs.push((name, value))) == pairs_bytes(pairs) + pair_bytes((name, value)),
        pairs_bytes(Seq::empty()) == Seq::<u8>::empty(),
{
    let a = le_bytes(name.len() as int, 2);
    let b = le_bytes(value.len() as int, 4);
    assert(a + (name + (b + value)) =~= a + name + b + value);
    assert(pairs.push((name, value)).drop_last() =~= pairs);
}

/// What does not start with the mark of a revision is no archive.
pub proof fn lemma_other_marks_refused(s: Seq<u8>)
    requires
        s.len() >= 4,
        s.take(3) != seq!['S' as u8, 'Y' as u8, 'C' as u8] || (s[3] != '4' as u8 && s[3] != '5' as u8),
    ensures
        parse_preamble(s) == Err::<(PreambleView, Seq<u8>), Error>(Error::BadMagic),
{
    let m = s.take(4);
    assert(s.take(3) =~= m.take(3));
    assert(magic(ArchiveVersion::V4).take(3) =~= seq!['S' as u8, 'Y' as u8, 'C' as u8]);
    assert(magic(ArchiveVersion::V5).take(3) =~= seq!['S' as u8, 'Y' as u8, 'C' as u8]);
    assert(magic(ArchiveVersion::V4)[3] == '4' as u8);
    assert(magic(ArchiveVersion::V5)[3] == '5' as u8);
    assert(m[3] == s[3]);
}

} // verus!
