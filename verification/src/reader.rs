//! Reading the archive stream back: paths, bodies and whole entries, and what
//! becomes of everything that was packed.

use vstd::prelude::*;
use vstd::utf8::encode_utf8;
use crate::archive::{
    ArchiveVersion, EntryHeader, EntryKind, HashAlgo, HeaderView, XattrPair, header_bytes,
    header_fits, kept_header, lemma_header_round_trip, lemma_xattrs_round_trip, pair_views,
    parse_header, parse_pair, parse_pairs, parse_string, parse_xattrs, read_xattrs_block,
    xattrs_fit,
};
use crate::entry::{
    Framing, SourceKind, SourceView, chunked_header, chunked_record, hash_bytes, hash_of,
    head_bytes, lemma_hash_covers_body, lemma_hash_width, link_header, packed_xattrs, plain_header,
    plain_record, record, records, trailer, xattrs_field,
};
use crate::error::Error;
use crate::fastcdc::{
    BodyView, DecodeRegistry, Numbering, all_in, chunks_of, decode_body, decode_known, in_step,
    known_after, lemma_chunked_body_round_trip, lemma_decode_body_rest, lemma_refs_resolve,
    no_collision, packed_body, refs_resolve,
};
use crate::hashes::{blake3_of, crc32_of, xxh3_of};
use crate::text::lemma_utf8_joined;
use crate::wire::{
    ByteReader, Parsed, le_bytes, lemma_bytes_round_trip, lemma_grouping, parse_bytes, parse_le,
};

verus! {

/// Whether two dots stand at `i` as a whole path component.
pub open spec fn dots_at(b: Seq<u8>, i: int) -> bool {
    &&& 0 <= i
    &&& i + 2 <= b.len()
    &&& b[i] == 0x2E
    &&& b[i + 1] == 0x2E
    &&& i == 0 || b[i - 1] == 0x2F
    &&& i + 2 == b.len() || b[i + 2] == 0x2F
}

/// What keeps a path from being extracted: it starts at the root, or a
/// component leads to the parent.
pub open spec fn path_fault(path: Seq<char>) -> Option<Error> {
    let b = encode_utf8(path);
    if b.len() > 0 && b[0] == 0x2F {
        Some(Error::AbsolutePath)
    } else if exists|i: int| dots_at(b, i) {
        Some(Error::ParentTraversal)
    } else {
        None
    }
}

/// A path that starts at the root is refused, whatever follows.
pub proof fn lemma_root_is_refused(rest: Seq<char>)
    ensures
        path_fault(seq!['/'] + rest) == Some(Error::AbsolutePath),
{
    let slash = seq!['/'];
    lemma_utf8_joined(slash, rest);
    vstd::utf8::is_ascii_chars_encode_utf8(slash);
    assert(encode_utf8(slash)[0] == 0x2F);
    assert(encode_utf8(slash + rest)[0] == 0x2F);
}

/// A path of ASCII characters is let through exactly where it does not start at the
/// root and no component of it leads to the parent.
pub proof fn lemma_other_paths_pass(path: Seq<char>)
    requires
        vstd::utf8::is_ascii_chars(path),
    ensures
        path_fault(path) is None <==> {
            &&& path.len() > 0 ==> path[0] != '/'
            &&& forall|i: int|
                0 <= i < path.len() - 1 && #[trigger] path[i] == '.' && path[i + 1] == '.' ==> (i > 0
                    && path[i - 1] != '/') || (i + 2 < path.len() && path[i + 2] != '/')
        },
{
    let b = encode_utf8(path);
    vstd::utf8::is_ascii_chars_encode_utf8(path);
    assert forall|i: int| 0 <= i < path.len() implies (#[trigger] b[i] == 0x2E <==> path[i] == '.')
        && (b[i] == 0x2F <==> path[i] == '/') by {
        let c = path[i];
        assert('\0' <= c <= '\u{7f}');
        assert(c as u8 == b[i]);
    }
    if exists|i: int| dots_at(b, i) {
        let i = choose|i: int| dots_at(b, i);
        assert(b[i] == 0x2E && b[i + 1] == 0x2E);
        assert(path[i] == '.' && path[i + 1] == '.');
        if i > 0 {
            assert(b[i - 1] == 0x2F);
        }
        if i + 2 < path.len() {
            assert(b[i + 2] == 0x2F);
        }
    }
    if path.len() > 0 {
        assert(b[0] == 0x2F <==> path[0] == '/');
    }
    assert forall|i: int|
        0 <= i < path.len() - 1 && #[trigger] path[i] == '.' && path[i + 1] == '.' && !((i > 0
            && path[i - 1] != '/') || (i + 2 < path.len() && path[i + 2] != '/')) implies dots_at(
        b,
        i,
    ) by {
        assert(b[i] == 0x2E && b[i + 1] == 0x2E);
        if i > 0 {
            assert(b[i - 1] == 0x2F);
        }
        if i + 2 < path.len() {
            assert(b[i + 2] == 0x2F);
        }
    }
}

/// A path in which a component leads to the parent is refused, wherever in the path
/// the component stands.
pub proof fn lemma_parent_is_refused(before: Seq<char>, after: Seq<char>)
    requires
        before.len() == 0 || before.last() == '/',
        after.len() == 0 || after[0] == '/',
    ensures
        path_fault(before + seq!['.', '.'] + after) is Some,
{
    let dots = seq!['.', '.'];
    let path = before + dots + after;
    let b = encode_utf8(path);
    lemma_utf8_joined(before + dots, after);
    lemma_utf8_joined(before, dots);
    vstd::utf8::is_ascii_chars_encode_utf8(dots);
    let i = encode_utf8(before).len() as int;
    assert(encode_utf8(dots)[0] == 0x2E && encode_utf8(dots)[1] == 0x2E);
    assert(b[i] == encode_utf8(dots)[0]);
    assert(b[i + 1] == encode_utf8(dots)[1]);
    if before.len() > 0 {
        let slash = seq!['/'];
        assert(before =~= before.drop_last() + slash);
        lemma_utf8_joined(before.drop_last(), slash);
        vstd::utf8::is_ascii_chars_encode_utf8(slash);
        assert(encode_utf8(slash)[0] == 0x2F);
        assert(b[i - 1] == 0x2F);
    }
    if after.len() > 0 {
        let slash = seq!['/'];
        assert(after =~= slash + after.skip(1));
        lemma_utf8_joined(slash, after.skip(1));
        vstd::utf8::is_ascii_chars_encode_utf8(slash);
        assert(encode_utf8(slash)[0] == 0x2F);
        assert(b[i + 2] == 0x2F);
    }
    assert(dots_at(b, i));
}

/// Lets a path through that stays below the directory it is extracted to.
pub fn sanitize_rel(p: &str) -> (res: Result<&str, Error>)
    ensures
        match path_fault(p@) {
            None => res matches Ok(q) && q@ == p@,
            Some(e) => res == Err::<&str, Error>(e),
        },
{
    let b = p.as_bytes();
    if b.len() > 0 && b[0] == 0x2F {
        return Err(Error::AbsolutePath);
    }
    let mut i: usize = 0;
    while i < b.len()
        invariant
            i <= b@.len(),
            b@ == encode_utf8(p@),
            !(b@.len() > 0 && b@[0] == 0x2F),
            forall|k: int| 0 <= k < i ==> !dots_at(b@, k),
        decreases b@.len() - i,
    {
        if b.len() - i >= 2 && b[i] == 0x2E && b[i + 1] == 0x2E && (i == 0 || b[i - 1] == 0x2F) && (
        b.len() - i == 2 || b[i + 2] == 0x2F) {
            assert(dots_at(b@, i as int));
            return Err(Error::ParentTraversal);
        }
        i = i + 1;
    }
    Ok(p)
}

/// An entry that was read.
#[derive(Debug)]
pub struct UnpackedEntry {
    pub header: EntryHeader,
    pub xattrs: Vec<XattrPair>,
    pub body: Vec<u8>,
}

#[verifier::ext_equal]
pub struct ItemView {
    pub header: HeaderView,
    pub xattrs: Seq<(Seq<u8>, Seq<u8>)>,
    pub body: Seq<u8>,
}

impl View for UnpackedEntry {
    type V = ItemView;

    open spec fn view(&self) -> ItemView {
        ItemView { header: self.header@, xattrs: pair_views(self.xattrs@), body: self.body@ }
    }
}

/// The body itself, in whichever form the kind of the entry gives it; links
/// and directories have none.
pub open spec fn parse_contents(h: HeaderView, known: Seq<Seq<u8>>, s: Seq<u8>) -> Parsed<
    BodyView,
> {
    match h.kind {
        EntryKind::File => match parse_bytes(s, h.size as nat) {
            Err(e) => Err(e),
            Ok((b, t)) => Ok((BodyView { bytes: b, known }, t)),
        },
        EntryKind::ChunkedFile => decode_body(known, h.size as int, Seq::empty(), s),
        _ => Ok((BodyView { bytes: Seq::empty(), known }, s)),
    }
}

/// The trailer behind a body, which must hold the hash of the body.
pub open spec fn parse_trailer(algo: Option<HashAlgo>, body: Seq<u8>, s: Seq<u8>) -> Parsed<()> {
    match algo {
        None => Ok(((), s)),
        Some(a) => match parse_bytes(s, a.width()) {
            Err(e) => Err(e),
            Ok((h, t)) => if h == hash_bytes(a, body) {
                Ok(((), t))
            } else {
                Err(Error::HashMismatch)
            },
        },
    }
}

/// A body with its trailer.
pub open spec fn parse_body(
    h: HeaderView,
    known: Seq<Seq<u8>>,
    algo: Option<HashAlgo>,
    s: Seq<u8>,
) -> Parsed<BodyView> {
    match parse_contents(h, known, s) {
        Err(e) => Err(e),
        Ok((body, t)) => if h.kind.file_like() {
            match parse_trailer(algo, body.bytes, t) {
                Err(e) => Err(e),
                Ok((_, u)) => Ok((body, u)),
            }
        } else {
            Ok((body, t))
        },
    }
}

/// A file is read only where its hash holds: the bytes behind its body are the hash
/// of the whole body that is given back, and where the file is no chunk records the
/// body is what stood there, as many bytes as its header announces.
pub proof fn lemma_body_tells(
    h: HeaderView,
    known: Seq<Seq<u8>>,
    algo: Option<HashAlgo>,
    s: Seq<u8>,
)
    requires
        parse_body(h, known, algo, s) is Ok,
    ensures
        ({
            let (body, t) = parse_body(h, known, algo, s)->Ok_0;
            let stored = match algo {
                None => Seq::empty(),
                Some(HashAlgo::Crc32) => le_bytes(crc32_of(body.bytes) as int, 4),
                Some(HashAlgo::Xxh3) => le_bytes(xxh3_of(body.bytes) as int, 8),
                Some(HashAlgo::Blake3) => blake3_of(body.bytes)@,
            };
            let n = s.len() - t.len();
            &&& h.kind == EntryKind::File ==> s == body.bytes + stored + t && body.bytes.len()
                == h.size
            &&& h.kind == EntryKind::ChunkedFile ==> stored.len() <= n && s.subrange(
                n - stored.len(),
                n,
            ) == stored && s.skip(n) == t && body.bytes.len() == h.size
            &&& h.kind != EntryKind::File && h.kind != EntryKind::ChunkedFile ==> body.bytes.len()
                == 0 && t == s
        }),
{
    let (body, t) = parse_body(h, known, algo, s)->Ok_0;
    lemma_hash_covers_body(body.bytes);
    if h.kind == EntryKind::File {
        let (b, u) = parse_bytes(s, h.size as nat)->Ok_0;
        if let Some(a) = algo {
            lemma_hash_width(a, body.bytes);
            assert(s =~= body.bytes + trailer(algo, body.bytes) + t);
        } else {
            assert(s =~= body.bytes + Seq::<u8>::empty() + t);
        }
    } else if h.kind == EntryKind::ChunkedFile {
        let (b, u) = decode_body(known, h.size as int, Seq::empty(), s)->Ok_0;
        lemma_decode_body_rest(known, h.size as int, Seq::empty(), s);
        if let Some(a) = algo {
            lemma_hash_width(a, body.bytes);
            let n = s.len() - t.len();
            let w = a.width() as int;
            assert(s.subrange(n - w, n) =~= u.take(w));
            assert(s.skip(n) =~= u.skip(w));
        } else {
            let n = s.len() - t.len();
            assert(s.subrange(n, n) =~= Seq::empty());
        }
    }
}

/// The chunks that are known once reading a body has stopped.
pub open spec fn body_known(h: HeaderView, known: Seq<Seq<u8>>, s: Seq<u8>) -> Seq<Seq<u8>> {
    match h.kind {
        EntryKind::ChunkedFile => decode_known(known, h.size as int, 0, s),
        _ => known,
    }
}

/// Takes the body of an entry and compares its hash; takes nothing for entries
/// without a body. Whether it is refused or not, chunks that were known stay so.
pub fn read_file_body(
    r: &mut ByteReader<'_>,
    header: &EntryHeader,
    reg: &mut DecodeRegistry,
    hash_algo: Option<HashAlgo>,
) -> (res: Result<Vec<u8>, Error>)
    ensures
        match parse_body(header@, old(reg)@, hash_algo, old(r).rest()) {
            Ok((body, t)) => res matches Ok(v) && v@ == body.bytes && final(reg)@ == body.known
                && final(r).rest() == t,
            Err(e) => res matches Err(f) && f == e,
        },
        final(reg)@ == body_known(header@, old(reg)@, old(r).rest()),
        old(reg)@.is_prefix_of(final(reg)@),
        header.kind == EntryKind::File ==> (res matches Ok(v) ==> old(r).rest() == v@ + (match hash_algo {
            None => Seq::empty(),
            Some(HashAlgo::Crc32) => le_bytes(crc32_of(v@) as int, 4),
            Some(HashAlgo::Xxh3) => le_bytes(xxh3_of(v@) as int, 8),
            Some(HashAlgo::Blake3) => blake3_of(v@)@,
        }) + final(r).rest() && v@.len() == header.size),
        header.kind == EntryKind::ChunkedFile ==> (res matches Ok(v) ==> {
            let stored = match hash_algo {
                None => Seq::empty(),
                Some(HashAlgo::Crc32) => le_bytes(crc32_of(v@) as int, 4),
                Some(HashAlgo::Xxh3) => le_bytes(xxh3_of(v@) as int, 8),
                Some(HashAlgo::Blake3) => blake3_of(v@)@,
            };
            let n = old(r).rest().len() - final(r).rest().len();
            &&& stored.len() <= n
            &&& old(r).rest().subrange(n - stored.len(), n) == stored
            &&& old(r).rest().skip(n) == final(r).rest()
            &&& v@.len() == header.size
        }),
        header.kind != EntryKind::File && header.kind != EntryKind::ChunkedFile ==> (
        res matches Ok(v) && v@.len() == 0 && final(r).rest() == old(r).rest()),
{
    proof {
        if parse_body(header@, reg@, hash_algo, r.rest()) is Ok {
            lemma_body_tells(header@, reg@, hash_algo, r.rest());
        }
    }
    let body: Vec<u8> = match header.kind {
        EntryKind::File => {
            if header.size > r.remaining() as u64 {
                return Err(Error::UnexpectedEof);
            }
            match r.read_bytes(header.size as usize) {
                Ok(b) => vstd::slice::slice_to_vec(b),
                Err(e) => {
                    return Err(e);
                },
            }
        },
        EntryKind::ChunkedFile => match reg.read_body(r, header.size) {
            Ok(b) => b,
            Err(e) => {
                return Err(e);
            },
        },
        _ => {
            return Ok(Vec::new());
        },
    };
    match hash_algo {
        None => Ok(body),
        Some(a) => {
            let stored = match r.read_bytes(a.trailer_bytes()) {
                Ok(h) => h,
                Err(e) => {
                    return Err(e);
                },
            };
            let computed = hash_of(a, &body);
            if same_bytes(stored, &computed) {
                Ok(body)
            } else {
                Err(Error::HashMismatch)
            }
        },
    }
}

/// Whether two slices hold the same bytes.
pub fn same_bytes(a: &[u8], b: &[u8]) -> (r: bool)
    ensures
        r == (a@ == b@),
{
    if a.len() != b.len() {
        return false;
    }
    let mut i: usize = 0;
    while i < a.len()
        invariant
            i <= a@.len() == b@.len(),
            forall|k: int| 0 <= k < i ==> a@[k] == b@[k],
        decreases a@.len() - i,
    {
        if a[i] != b[i] {
            return false;
        }
        i = i + 1;
    }
    assert(a@ =~= b@);
    true
}

/// The attributes behind a header, where the archive has them.
pub open spec fn parse_attributes(f: Framing, s: Seq<u8>) -> Parsed<Seq<(Seq<u8>, Seq<u8>)>> {
    if f.xattrs {
        parse_xattrs(s)
    } else {
        Ok((Seq::empty(), s))
    }
}

fn read_attributes(r: &mut ByteReader<'_>, f: Framing) -> (res: Result<Vec<XattrPair>, Error>)
    ensures
        match parse_attributes(f, old(r).rest()) {
            Ok((p, t)) => res matches Ok(v) && pair_views(v@) == p && final(r).rest() == t,
            Err(e) => res matches Err(x) && x == e,
        },
{
    if f.xattrs {
        read_xattrs_block(r)
    } else {
        let none: Vec<XattrPair> = Vec::new();
        assert(pair_views(none@) =~= Seq::empty());
        Ok(none)
    }
}

/// What follows the header `h` of an entry; the second part is what a reader
/// knows of chunks afterwards.
pub open spec fn parse_after_header(
    h: HeaderView,
    f: Framing,
    known: Seq<Seq<u8>>,
    s: Seq<u8>,
) -> Parsed<(ItemView, Seq<Seq<u8>>)> {
    match parse_attributes(f, s) {
        Err(e) => Err(e),
        Ok((pairs, t)) => match parse_body(h, known, f.hash_algo, t) {
            Err(e) => Err(e),
            Ok((body, u)) => Ok(
                ((ItemView { header: h, xattrs: pairs, body: body.bytes }, body.known), u),
            ),
        },
    }
}

/// The next entry of a stream; nothing at its end.
#[verifier::opaque]
pub open spec fn parse_item(f: Framing, known: Seq<Seq<u8>>, s: Seq<u8>) -> Parsed<
    Option<(ItemView, Seq<Seq<u8>>)>,
> {
    match parse_header(s, f.version) {
        Err(e) => Err(e),
        Ok((None, t)) => Ok((None, t)),
        Ok((Some(h), t)) => match parse_after_header(h, f, known, t) {
            Err(e) => Err(e),
            Ok((item, u)) => Ok((Some(item), u)),
        },
    }
}

/// The chunks that are known once reading what follows a header has stopped.
pub open spec fn known_after_header(
    h: HeaderView,
    f: Framing,
    known: Seq<Seq<u8>>,
    s: Seq<u8>,
) -> Seq<Seq<u8>> {
    match parse_attributes(f, s) {
        Err(e) => known,
        Ok((pairs, t)) => body_known(h, known, t),
    }
}

/// Takes what follows a header.
pub fn read_after_header(
    r: &mut ByteReader<'_>,
    header: EntryHeader,
    f: Framing,
    reg: &mut DecodeRegistry,
) -> (res: Result<UnpackedEntry, Error>)
    ensures
        match parse_after_header(header@, f, old(reg)@, old(r).rest()) {
            Ok(((item, known), t)) => res matches Ok(v) && v@ == item && final(reg)@ == known
                && final(r).rest() == t,
            Err(e) => res matches Err(x) && x == e,
        },
        final(reg)@ == known_after_header(header@, f, old(reg)@, old(r).rest()),
        old(reg)@.is_prefix_of(final(reg)@),
{
    let xattrs = match read_attributes(r, f) {
        Ok(x) => x,
        Err(e) => {
            return Err(e);
        },
    };
    let body = match read_file_body(r, &header, reg, f.hash_algo) {
        Ok(b) => b,
        Err(e) => {
            return Err(e);
        },
    };
    Ok(UnpackedEntry { header, xattrs, body })
}

/// Takes what follows a header on the way to being extracted: paths that leave
/// the destination are refused before anything is read.
pub fn unpack_entry(
    r: &mut ByteReader<'_>,
    header: EntryHeader,
    f: Framing,
    reg: &mut DecodeRegistry,
) -> (res: Result<UnpackedEntry, Error>)
    ensures
        match path_fault(header.path@) {
            Some(e) => {
                &&& res matches Err(x) && x == e
                &&& final(r).rest() == old(r).rest()
                &&& final(reg)@ == old(reg)@
            },
            None => {
                &&& match parse_after_header(header@, f, old(reg)@, old(r).rest()) {
                    Ok(((item, known), t)) => res matches Ok(v) && v@ == item && final(reg)@
                        == known && final(r).rest() == t,
                    Err(e) => res matches Err(x) && x == e,
                }
                &&& final(reg)@ == known_after_header(header@, f, old(reg)@, old(r).rest())
                &&& old(reg)@.is_prefix_of(final(reg)@)
            },
        },
{
    match sanitize_rel(header.path.as_str()) {
        Ok(_) => {},
        Err(e) => {
            return Err(e);
        },
    }
    read_after_header(r, header, f, reg)
}

/// The chunks that are known once reading an entry has stopped.
pub open spec fn item_known(f: Framing, known: Seq<Seq<u8>>, s: Seq<u8>) -> Seq<Seq<u8>> {
    match parse_header(s, f.version) {
        Ok((Some(h), t)) => known_after_header(h, f, known, t),
        _ => known,
    }
}

/// Takes the next entry; nothing at the end of the stream.
pub fn read_item(r: &mut ByteReader<'_>, f: Framing, reg: &mut DecodeRegistry) -> (res: Result<
    Option<UnpackedEntry>,
    Error,
>)
    ensures
        match parse_item(f, old(reg)@, old(r).rest()) {
            Ok((None, t)) => res matches Ok(None) && final(r).rest() == t && final(reg)@ == old(reg)@,
            Ok((Some((item, known)), t)) => res matches Ok(Some(v)) && v@ == item && final(reg)@
                == known && final(r).rest() == t,
            Err(e) => res matches Err(x) && x == e,
        },
        final(reg)@ == item_known(f, old(reg)@, old(r).rest()),
        old(reg)@.is_prefix_of(final(reg)@),
{
    reveal(parse_item);
    let header = match EntryHeader::read_from(r, f.version) {
        Ok(Some(h)) => h,
        Ok(None) => {
            return Ok(None);
        },
        Err(e) => {
            return Err(e);
        },
    };
    match read_after_header(r, header, f, reg) {
        Ok(v) => Ok(Some(v)),
        Err(e) => Err(e),
    }
}

proof fn lemma_parse_header_rest(s: Seq<u8>, version: crate::archive::ArchiveVersion)
    ensures
        parse_header(s, version) matches Ok((Some(h), t)) ==> t.len() < s.len(),
{
    reveal(parse_header);
    reveal(parse_string);
}

proof fn lemma_parse_pairs_rest(got: Seq<(Seq<u8>, Seq<u8>)>, n: int, s: Seq<u8>)
    ensures
        parse_pairs(got, n, s) matches Ok((p, t)) ==> t.len() <= s.len(),
    decreases n,
{
    if n > 0 {
        if let Ok((p, t)) = parse_pair(s) {
            lemma_parse_pairs_rest(got.push(p), n - 1, t);
        }
    }
}

/// An entry that was read leaves a strictly shorter rest behind.
pub proof fn lemma_parse_item_rest(f: Framing, known: Seq<Seq<u8>>, s: Seq<u8>)
    ensures
        parse_item(f, known, s) matches Ok((Some(item), t)) ==> t.len() < s.len(),
        parse_item(f, known, s) matches Ok((None, t)) ==> t == s && s.len() == 0,
{
    reveal(parse_item);
    reveal(parse_header);
    lemma_parse_header_rest(s, f.version);
    if let Ok((Some(h), t)) = parse_header(s, f.version) {
        if f.xattrs {
            if let Ok((n, u)) = parse_le(t, 2) {
                lemma_parse_pairs_rest(Seq::empty(), n, u);
            }
        }
        if let Ok((pairs, u)) = parse_attributes(f, t) {
            lemma_decode_body_rest(known, h.size as int, Seq::empty(), u);
        }
    }
}

/// All entries of a stream, in order.
pub open spec fn items(f: Framing, known: Seq<Seq<u8>>, s: Seq<u8>) -> Result<Seq<ItemView>, Error>
    decreases s.len(),
{
    match parse_item(f, known, s) {
        Err(e) => Err(e),
        Ok((None, _)) => Ok(Seq::empty()),
        Ok((Some((item, next)), t)) => {
            proof {
                lemma_parse_item_rest(f, known, s);
            }
            match items(f, next, t) {
                Err(e) => Err(e),
                Ok(rest) => Ok(seq![item] + rest),
            }
        },
    }
}

/// The views of several entries.
pub open spec fn item_views(v: Seq<UnpackedEntry>) -> Seq<ItemView> {
    Seq::new(v.len(), |k: int| v[k]@)
}

/// Reads all entries of a stream.
pub fn read_all(data: &[u8], f: Framing) -> (res: Result<Vec<UnpackedEntry>, Error>)
    ensures
        match items(f, Seq::empty(), data@) {
            Ok(w) => res matches Ok(v) && item_views(v@) == w,
            Err(e) => res matches Err(x) && x == e,
        },
{
    let ghost whole = items(f, Seq::empty(), data@);
    let mut r = ByteReader::new(data);
    let mut reg = DecodeRegistry::new();
    let mut out: Vec<UnpackedEntry> = Vec::new();
    let mut more: bool = true;
    assert(item_views(out@) =~= Seq::empty());
    while more
        invariant
            whole == items(f, Seq::empty(), data@),
            more ==> match items(f, reg@, r.rest()) {
                Ok(rest) => whole matches Ok(w) && w == item_views(out@) + rest,
                Err(e) => whole == Err::<Seq<ItemView>, Error>(e),
            },
            !more ==> whole == Ok::<Seq<ItemView>, Error>(item_views(out@)),
        decreases r.rest().len() + (if more { 1nat } else { 0nat }),
    {
        let ghost s = r.rest();
        let ghost known = reg@;
        let ghost got = item_views(out@);
        proof {
            lemma_parse_item_rest(f, known, s);
        }
        match read_item(&mut r, f, &mut reg) {
            Err(e) => {
                return Err(e);
            },
            Ok(None) => {
                assert(got + Seq::<ItemView>::empty() =~= got);
                more = false;
            },
            Ok(Some(item)) => {
                out.push(item);
                proof {
                    assert(item_views(out@) =~= got.push(item@));
                    if let Ok(rest) = items(f, reg@, r.rest()) {
                        assert(got + (seq![item@] + rest) =~= got.push(item@) + rest);
                    }
                }
            },
        }
    }
    Ok(out)
}

/// The entry that a reader makes of a packed source: a link for a repeated
/// file, else what the source was.
pub open spec fn item_of(e: SourceView, f: Framing, fastcdc: bool) -> ItemView {
    ItemView {
        header: kept_header(
            match e.duplicate_of {
                Some(c) => link_header(e, c),
                None => if fastcdc && e.kind == SourceKind::File {
                    chunked_header(e)
                } else {
                    plain_header(e)
                },
            },
            f.version,
        ),
        xattrs: if f.xattrs {
            packed_xattrs(e)
        } else {
            Seq::empty()
        },
        body: if e.kind == SourceKind::File && e.duplicate_of is None {
            e.data.take(e.size as int)
        } else {
            Seq::empty()
        },
    }
}

/// What a reader gets of a packed source, in terms of the source itself. The mode,
/// the path and, but for the fourth revision, the time are those of the source. A
/// repeated file comes as a link to what it repeats. Any other file comes with its
/// size and its bytes, a directory as a directory, and a symbolic link with its
/// target.
pub proof fn lemma_item_tells(e: SourceView, f: Framing, fastcdc: bool)
    ensures
        ({
            let x = item_of(e, f, fastcdc);
            &&& x.header.mode == e.mode
            &&& f.version == ArchiveVersion::V5 ==> x.header.mtime == e.mtime
            &&& f.version == ArchiveVersion::V4 ==> x.header.mtime == 0
            &&& x.header.path.len() == e.path.len()
            &&& forall|k: int|
                0 <= k < e.path.len() ==> #[trigger] x.header.path[k] == (if e.path[k] == '\\' {
                    '/'
                } else {
                    e.path[k]
                })
            &&& e.duplicate_of matches Some(target) ==> {
                &&& x.header.kind == EntryKind::HardLink
                &&& x.header.link_target == target
                &&& x.header.size == 0
                &&& x.body.len() == 0
            }
            &&& e.duplicate_of is None && e.kind == SourceKind::File ==> {
                &&& x.header.kind == (if fastcdc {
                    EntryKind::ChunkedFile
                } else {
                    EntryKind::File
                })
                &&& x.header.size == e.size
                &&& x.header.link_target.len() == 0
                &&& x.body == e.data.take(e.size as int)
            }
            &&& e.duplicate_of is None && e.kind == SourceKind::Dir ==> {
                &&& x.header.kind == EntryKind::Dir
                &&& x.header.size == 0
                &&& x.header.link_target.len() == 0
                &&& x.body.len() == 0
            }
            &&& e.duplicate_of is None && e.kind == SourceKind::Symlink ==> {
                &&& x.header.kind == EntryKind::Symlink
                &&& x.header.size == 0
                &&& x.header.link_target == e.link_target
                &&& x.body.len() == 0
            }
            &&& f.xattrs && (e.kind != SourceKind::Symlink || e.duplicate_of is Some) ==> x.xattrs
                == e.xattrs
            &&& !f.xattrs || (e.kind == SourceKind::Symlink && e.duplicate_of is None)
                ==> x.xattrs.len() == 0
        }),
{
}

/// A file whose body is followed by the hash of the whole body is read, and gives
/// that body.
pub proof fn lemma_good_body_reads(
    h: HeaderView,
    known: Seq<Seq<u8>>,
    body: Seq<u8>,
    t: Seq<u8>,
)
    requires
        h.kind == EntryKind::File,
        body.len() == h.size,
    ensures
        parse_body(h, known, None, body + t) == Ok::<(BodyView, Seq<u8>), Error>(
            (BodyView { bytes: body, known }, t),
        ),
        parse_body(h, known, Some(HashAlgo::Crc32), body + (le_bytes(crc32_of(body) as int, 4) + t))
            == Ok::<(BodyView, Seq<u8>), Error>((BodyView { bytes: body, known }, t)),
        parse_body(h, known, Some(HashAlgo::Xxh3), body + (le_bytes(xxh3_of(body) as int, 8) + t))
            == Ok::<(BodyView, Seq<u8>), Error>((BodyView { bytes: body, known }, t)),
        parse_body(h, known, Some(HashAlgo::Blake3), body + (blake3_of(body)@ + t)) == Ok::<
            (BodyView, Seq<u8>),
            Error,
        >((BodyView { bytes: body, known }, t)),
{
    lemma_hash_covers_body(body);
    lemma_trailer_reads(Some(HashAlgo::Crc32), body, t);
    lemma_trailer_reads(Some(HashAlgo::Xxh3), body, t);
    lemma_trailer_reads(Some(HashAlgo::Blake3), body, t);
    lemma_bytes_round_trip(body, t);
    lemma_bytes_round_trip(body, le_bytes(crc32_of(body) as int, 4) + t);
    lemma_bytes_round_trip(body, le_bytes(xxh3_of(body) as int, 8) + t);
    lemma_bytes_round_trip(body, blake3_of(body)@ + t);
}

/// The view of an entry that was read has every field of it as it is.
pub proof fn lemma_item_view(x: UnpackedEntry)
    ensures
        x@.header.kind == x.header.kind,
        x@.header.mode == x.header.mode,
        x@.header.size == x.header.size,
        x@.header.mtime == x.header.mtime,
        x@.header.path == x.header.path@,
        x@.header.link_target == x.header.link_target@,
        x@.xattrs.len() == x.xattrs@.len(),
        forall|k: int|
            0 <= k < x.xattrs@.len() ==> (#[trigger] x@.xattrs[k]) == (x.xattrs@[k].0@, x.xattrs@[k].1@),
        x@.body == x.body@,
{
}

/// The entries that a reader makes of packed sources.
pub open spec fn items_of(es: Seq<SourceView>, f: Framing, fastcdc: bool) -> Seq<ItemView> {
    Seq::new(es.len(), |k: int| item_of(es[k], f, fastcdc))
}

/// What a reader gets of packed sources, each in terms of the source itself, in
/// their order.
pub proof fn lemma_items_tell(es: Seq<SourceView>, f: Framing, fastcdc: bool)
    ensures
        items_of(es, f, fastcdc).len() == es.len(),
        forall|k: int|
            0 <= k < es.len() ==> {
                let e = #[trigger] es[k];
                let x = items_of(es, f, fastcdc)[k];
                &&& x.header.mode == e.mode
                &&& f.version == ArchiveVersion::V5 ==> x.header.mtime == e.mtime
                &&& x.header.path.len() == e.path.len()
                &&& forall|n: int|
                    0 <= n < e.path.len() ==> #[trigger] x.header.path[n] == (if e.path[n] == '\\' {
                        '/'
                    } else {
                        e.path[n]
                    })
                &&& e.duplicate_of matches Some(target) ==> x.header.kind == EntryKind::HardLink
                    && x.header.link_target == target && x.body.len() == 0
                &&& e.duplicate_of is None && e.kind == SourceKind::File ==> x.header.kind == (if fastcdc {
                        EntryKind::ChunkedFile
                    } else {
                        EntryKind::File
                    })
                    && x.header.size == e.size && x.body == e.data.take(e.size as int)
                &&& e.duplicate_of is None && e.kind == SourceKind::Dir ==> x.header.kind
                    == EntryKind::Dir && x.body.len() == 0
                &&& e.duplicate_of is None && e.kind == SourceKind::Symlink ==> x.header.kind
                    == EntryKind::Symlink && x.header.link_target == e.link_target && x.body.len()
                    == 0
                &&& f.xattrs && e.kind != SourceKind::Symlink ==> x.xattrs == e.xattrs
                &&& !(f.xattrs) ==> x.xattrs.len() == 0
            },
{
    assert forall|k: int| 0 <= k < es.len() implies {
        let e = #[trigger] es[k];
        let x = items_of(es, f, fastcdc)[k];
        &&& x.header.mode == e.mode
        &&& f.version == ArchiveVersion::V5 ==> x.header.mtime == e.mtime
        &&& x.header.path.len() == e.path.len()
        &&& forall|n: int|
            0 <= n < e.path.len() ==> #[trigger] x.header.path[n] == (if e.path[n] == '\\' {
                '/'
            } else {
                e.path[n]
            })
        &&& e.duplicate_of matches Some(target) ==> x.header.kind == EntryKind::HardLink
            && x.header.link_target == target && x.body.len() == 0
        &&& e.duplicate_of is None && e.kind == SourceKind::File ==> x.header.kind == (if fastcdc {
                EntryKind::ChunkedFile
            } else {
                EntryKind::File
            })
            && x.header.size == e.size && x.body == e.data.take(e.size as int)
        &&& e.duplicate_of is None && e.kind == SourceKind::Dir ==> x.header.kind
            == EntryKind::Dir && x.body.len() == 0
        &&& e.duplicate_of is None && e.kind == SourceKind::Symlink ==> x.header.kind
            == EntryKind::Symlink && x.header.link_target == e.link_target && x.body.len()
            == 0
        &&& f.xattrs && e.kind != SourceKind::Symlink ==> x.xattrs == e.xattrs
        &&& !(f.xattrs) ==> x.xattrs.len() == 0
    } by {
        lemma_item_tells(es[k], f, fastcdc);
    }
}

/// Names, targets and attributes of a source fit their length fields.
pub open spec fn source_fits(e: SourceView, f: Framing, fastcdc: bool) -> bool {
    &&& header_fits(item_of(e, f, fastcdc).header)
    &&& f.xattrs ==> xattrs_fit(packed_xattrs(e))
}

/// Where chunk records are used, the chunks of a source have fingerprints of
/// their own.
pub open spec fn chunks_distinct(e: SourceView, fastcdc: bool, set: Set<Seq<u8>>) -> bool {
    fastcdc && e.kind == SourceKind::File && e.duplicate_of is None ==> all_in(
        chunks_of(e.data),
        set,
    )
}

/// What a reader knows of chunks after a source.
pub open spec fn known_after_source(
    e: SourceView,
    fastcdc: bool,
    reg: Numbering,
    known: Seq<Seq<u8>>,
) -> Seq<Seq<u8>> {
    if fastcdc && e.kind == SourceKind::File && e.duplicate_of is None {
        known_after(e.data, reg, known)
    } else {
        known
    }
}

proof fn lemma_head_reads(
    h: HeaderView,
    pairs: Seq<(Seq<u8>, Seq<u8>)>,
    f: Framing,
    t: Seq<u8>,
)
    requires
        header_fits(h),
        f.xattrs ==> xattrs_fit(pairs),
    ensures
        parse_header(head_bytes(h, pairs, f) + t, f.version) == Ok::<
            (Option<HeaderView>, Seq<u8>),
            Error,
        >((Some(kept_header(h, f.version)), xattrs_field(pairs, f) + t)),
        parse_attributes(f, xattrs_field(pairs, f) + t) == Ok::<
            (Seq<(Seq<u8>, Seq<u8>)>, Seq<u8>),
            Error,
        >((if f.xattrs { pairs } else { Seq::empty() }, t)),
{
    lemma_grouping(header_bytes(h, f.version), xattrs_field(pairs, f), t);
    lemma_header_round_trip(h, f.version, xattrs_field(pairs, f) + t);
    if f.xattrs {
        lemma_xattrs_round_trip(pairs, t);
    } else {
        assert(xattrs_field(pairs, f) + t =~= t);
    }
}

proof fn lemma_trailer_reads(algo: Option<HashAlgo>, body: Seq<u8>, t: Seq<u8>)
    ensures
        parse_trailer(algo, body, trailer(algo, body) + t) == Ok::<((), Seq<u8>), Error>(((), t)),
{
    match algo {
        None => {
            assert(trailer(algo, body) + t =~= t);
        },
        Some(a) => {
            lemma_hash_width(a, body);
            lemma_bytes_round_trip(hash_bytes(a, body), t);
        },
    }
}

proof fn lemma_link_record(e: SourceView, f: Framing, known: Seq<Seq<u8>>, tail: Seq<u8>)
    requires
        e.duplicate_of is Some,
        source_fits(e, f, false),
    ensures
        parse_item(
            f,
            known,
            head_bytes(link_header(e, e.duplicate_of->Some_0), e.xattrs, f) + tail,
        ) == Ok::<(Option<(ItemView, Seq<Seq<u8>>)>, Seq<u8>), Error>(
            (Some((item_of(e, f, false), known)), tail),
        ),
{
    reveal(parse_item);
    let h = link_header(e, e.duplicate_of->Some_0);
    lemma_fits_unkept(h, f);
    lemma_head_reads(h, e.xattrs, f, tail);
}

proof fn lemma_fits_unkept(h: HeaderView, f: Framing)
    requires
        header_fits(kept_header(h, f.version)),
    ensures
        header_fits(h),
{
}

proof fn lemma_plain_record(e: SourceView, f: Framing, known: Seq<Seq<u8>>, tail: Seq<u8>)
    requires
        e.duplicate_of is None,
        plain_record(e, f) is Ok,
        source_fits(e, f, false),
    ensures
        parse_item(f, known, plain_record(e, f)->Ok_0 + tail) == Ok::<
            (Option<(ItemView, Seq<Seq<u8>>)>, Seq<u8>),
            Error,
        >((Some((item_of(e, f, false), known)), tail)),
{
    reveal(parse_item);
    lemma_fits_unkept(plain_header(e), f);
    if e.kind != SourceKind::File {
        lemma_head_reads(plain_header(e), packed_xattrs(e), f, tail);
    } else {
        let b = e.data.take(e.size as int);
        let t = trailer(f.hash_algo, b);
        let head = head_bytes(plain_header(e), packed_xattrs(e), f);
        lemma_grouping(head, b + t, tail);
        lemma_grouping(b, t, tail);
        lemma_head_reads(plain_header(e), packed_xattrs(e), f, b + (t + tail));
        lemma_bytes_round_trip(b, t + tail);
        lemma_trailer_reads(f.hash_algo, b, tail);
    }
}

proof fn lemma_chunked_record(
    e: SourceView,
    f: Framing,
    reg: Numbering,
    known: Seq<Seq<u8>>,
    tail: Seq<u8>,
)
    requires
        e.duplicate_of is None,
        e.kind == SourceKind::File,
        chunked_record(e, f, reg) is Ok,
        source_fits(e, f, true),
        refs_resolve(e.data, reg, known),
    ensures
        parse_item(f, known, chunked_record(e, f, reg)->Ok_0 + tail) == Ok::<
            (Option<(ItemView, Seq<Seq<u8>>)>, Seq<u8>),
            Error,
        >((Some((item_of(e, f, true), known_after(e.data, reg, known))), tail)),
{
    reveal(parse_item);
    lemma_fits_unkept(chunked_header(e), f);
    let b = packed_body(e.data, reg);
    let t = trailer(f.hash_algo, e.data);
    let head = head_bytes(chunked_header(e), packed_xattrs(e), f);
    lemma_grouping(head, b + t, tail);
    lemma_grouping(b, t, tail);
    lemma_head_reads(chunked_header(e), packed_xattrs(e), f, b + (t + tail));
    lemma_chunked_body_round_trip(e.data, reg, known, t + tail);
    lemma_trailer_reads(f.hash_algo, e.data, tail);
    assert(e.data.take(e.size as int) =~= e.data);
}

/// Where chunk records are used, every reference of a source leads to its chunk.
pub open spec fn source_resolves(
    e: SourceView,
    fastcdc: bool,
    reg: Numbering,
    known: Seq<Seq<u8>>,
) -> bool {
    fastcdc && e.kind == SourceKind::File && e.duplicate_of is None ==> refs_resolve(
        e.data,
        reg,
        known,
    )
}

/// The record of a source reads back as the entry it stands for.
pub proof fn lemma_record_round_trip(
    e: SourceView,
    f: Framing,
    fastcdc: bool,
    reg: Numbering,
    known: Seq<Seq<u8>>,
    tail: Seq<u8>,
)
    requires
        record(e, f, fastcdc, reg) is Ok,
        source_fits(e, f, fastcdc),
        source_resolves(e, fastcdc, reg, known),
    ensures
        parse_item(f, known, record(e, f, fastcdc, reg)->Ok_0.0 + tail) == Ok::<
            (Option<(ItemView, Seq<Seq<u8>>)>, Seq<u8>),
            Error,
        >(
            (
                Some((item_of(e, f, fastcdc), known_after_source(e, fastcdc, reg, known))),
                tail,
            ),
        ),
{
    reveal(record);
    match e.duplicate_of {
        Some(c) => {
            lemma_link_record(e, f, known, tail);
            assert(item_of(e, f, fastcdc) == item_of(e, f, false));
        },
        None => {
            if fastcdc && e.kind == SourceKind::File {
                lemma_chunked_record(e, f, reg, known, tail);
            } else {
                assert(item_of(e, f, fastcdc) == item_of(e, f, false));
                lemma_plain_record(e, f, known, tail);
            }
        },
    }
}

/// What a reader knows of chunks after several sources.
pub open spec fn known_after_sources(
    es: Seq<SourceView>,
    f: Framing,
    fastcdc: bool,
    reg: Numbering,
    known: Seq<Seq<u8>>,
) -> Seq<Seq<u8>>
    decreases es.len(),
{
    if es.len() == 0 {
        known
    } else {
        match record(es[0], f, fastcdc, reg) {
            Ok((b, next)) => known_after_sources(
                es.skip(1),
                f,
                fastcdc,
                next,
                known_after_source(es[0], fastcdc, reg, known),
            ),
            Err(_) => known,
        }
    }
}

/// Every reference of several sources leads to its chunk.
pub open spec fn sources_resolve(
    es: Seq<SourceView>,
    f: Framing,
    fastcdc: bool,
    reg: Numbering,
    known: Seq<Seq<u8>>,
) -> bool
    decreases es.len(),
{
    if es.len() == 0 {
        true
    } else {
        &&& source_resolves(es[0], fastcdc, reg, known)
        &&& record(es[0], f, fastcdc, reg) matches Ok((b, next)) ==> sources_resolve(
            es.skip(1),
            f,
            fastcdc,
            next,
            known_after_source(es[0], fastcdc, reg, known),
        )
    }
}

/// The records of several sources read back, one after the other, as the
/// entries they stand for; reading goes on with whatever follows them.
pub proof fn lemma_records_round_trip(
    es: Seq<SourceView>,
    f: Framing,
    fastcdc: bool,
    reg: Numbering,
    known: Seq<Seq<u8>>,
    tail: Seq<u8>,
)
    requires
        records(es, f, fastcdc, reg) is Ok,
        forall|k: int| 0 <= k < es.len() ==> source_fits(#[trigger] es[k], f, fastcdc),
        sources_resolve(es, f, fastcdc, reg, known),
    ensures
        items(f, known, records(es, f, fastcdc, reg)->Ok_0 + tail) == (match items(
            f,
            known_after_sources(es, f, fastcdc, reg, known),
            tail,
        ) {
            Ok(rest) => Ok::<Seq<ItemView>, Error>(items_of(es, f, fastcdc) + rest),
            Err(e) => Err(e),
        }),
    decreases es.len(),
{
    let bytes = records(es, f, fastcdc, reg)->Ok_0;
    if es.len() == 0 {
        assert(bytes + tail =~= tail);
        assert(items_of(es, f, fastcdc) =~= Seq::empty());
        if let Ok(rest) = items(f, known, tail) {
            assert(items_of(es, f, fastcdc) + rest =~= rest);
        }
    } else {
        let e = es[0];
        let more = es.skip(1);
        let (b, next) = record(e, f, fastcdc, reg)->Ok_0;
        let b2 = records(more, f, fastcdc, next)->Ok_0;
        let known2 = known_after_source(e, fastcdc, reg, known);
        lemma_grouping(b, b2, tail);
        lemma_record_round_trip(e, f, fastcdc, reg, known, b2 + tail);
        assert forall|k: int| 0 <= k < more.len() implies source_fits(
            #[trigger] more[k],
            f,
            fastcdc,
        ) by {
            assert(more[k] == es[k + 1]);
        }
        lemma_records_round_trip(more, f, fastcdc, next, known2, tail);
        let here = item_of(e, f, fastcdc);
        assert(seq![here] + items_of(more, f, fastcdc) =~= items_of(es, f, fastcdc));
        if let Ok(rest) = items(f, known_after_sources(es, f, fastcdc, reg, known), tail) {
            assert(seq![here] + (items_of(more, f, fastcdc) + rest) =~= items_of(es, f, fastcdc)
                + rest);
        }
    }
}

/// Where reader and writer start with the same numbers, every reference of
/// sources that could be packed leads to its chunk, if no two different chunks
/// share a fingerprint.
pub proof fn lemma_sources_resolve(
    es: Seq<SourceView>,
    f: Framing,
    fastcdc: bool,
    reg: Numbering,
    known: Seq<Seq<u8>>,
    set: Set<Seq<u8>>,
)
    requires
        records(es, f, fastcdc, reg) is Ok,
        in_step(reg, known),
        no_collision(set),
        all_in(known, set),
        forall|k: int| 0 <= k < es.len() ==> chunks_distinct(#[trigger] es[k], fastcdc, set),
    ensures
        sources_resolve(es, f, fastcdc, reg, known),
    decreases es.len(),
{
    if es.len() > 0 {
        let e = es[0];
        let more = es.skip(1);
        let known2 = known_after_source(e, fastcdc, reg, known);
        reveal(record);
        if fastcdc && e.kind == SourceKind::File && e.duplicate_of is None {
            assert(chunks_distinct(es[0], fastcdc, set));
            lemma_refs_resolve(e.data, reg, known, set);
        }
        if let Ok((b, next)) = record(e, f, fastcdc, reg) {
            assert forall|k: int| 0 <= k < more.len() implies chunks_distinct(
                #[trigger] more[k],
                fastcdc,
                set,
            ) by {
                assert(more[k] == es[k + 1]);
            }
            lemma_sources_resolve(more, f, fastcdc, next, known2, set);
        }
    }
}

/// Sources without chunk records have no references, and they leave what a
/// reader knows of chunks unchanged.
pub proof fn lemma_plain_sources(
    es: Seq<SourceView>,
    f: Framing,
    reg: Numbering,
    known: Seq<Seq<u8>>,
)
    ensures
        sources_resolve(es, f, false, reg, known),
        known_after_sources(es, f, false, reg, known) == known,
    decreases es.len(),
{
    if es.len() > 0 {
        if let Ok((b, next)) = record(es[0], f, false, reg) {
            lemma_plain_sources(es.skip(1), f, next, known);
        }
    }
}

/// A file is refused where the bytes behind its body are not the hash of the whole body.
pub proof fn lemma_bad_hash_refused(
    h: HeaderView,
    known: Seq<Seq<u8>>,
    algo: HashAlgo,
    body: Seq<u8>,
    stored: Seq<u8>,
    t: Seq<u8>,
)
    requires
        h.kind == EntryKind::File,
        body.len() == h.size,
        match algo {
            HashAlgo::Crc32 => stored.len() == 4 && stored != le_bytes(crc32_of(body) as int, 4),
            HashAlgo::Xxh3 => stored.len() == 8 && stored != le_bytes(xxh3_of(body) as int, 8),
            HashAlgo::Blake3 => stored.len() == 32 && stored != blake3_of(body)@,
        },
    ensures
        parse_body(h, known, Some(algo), body + (stored + t)) == Err::<(BodyView, Seq<u8>), Error>(
            Error::HashMismatch,
        ),
{
    lemma_hash_covers_body(body);
    lemma_bytes_round_trip(body, stored + t);
    lemma_bytes_round_trip(stored, t);
}

/// The number that is stored behind a file that was read is the hash of the whole body.
pub proof fn lemma_stored_number(
    h: HeaderView,
    known: Seq<Seq<u8>>,
    algo: HashAlgo,
    s: Seq<u8>,
)
    requires
        h.kind == EntryKind::File,
        parse_body(h, known, Some(algo), s) is Ok,
    ensures
        ({
            let (body, t) = parse_body(h, known, Some(algo), s)->Ok_0;
            &&& body.bytes == s.take(h.size as int)
            &&& algo == HashAlgo::Crc32 ==> parse_le(s.skip(h.size as int), 4) == Ok::<
                (int, Seq<u8>),
                Error,
            >((crc32_of(body.bytes) as int, t))
            &&& algo == HashAlgo::Xxh3 ==> parse_le(s.skip(h.size as int), 8) == Ok::<
                (int, Seq<u8>),
                Error,
            >((xxh3_of(body.bytes) as int, t))
        }),
{
    let (body, t) = parse_body(h, known, Some(algo), s)->Ok_0;
    lemma_body_tells(h, known, Some(algo), s);
    crate::wire::lemma_pow256_widths();
    let stored = match algo {
        HashAlgo::Crc32 => le_bytes(crc32_of(body.bytes) as int, 4),
        HashAlgo::Xxh3 => le_bytes(xxh3_of(body.bytes) as int, 8),
        HashAlgo::Blake3 => blake3_of(body.bytes)@,
    };
    assert(s.take(h.size as int) =~= body.bytes);
    assert(s.skip(h.size as int) =~= stored + t);
    crate::wire::lemma_le_round_trip(crc32_of(body.bytes) as int, 4, t);
    crate::wire::lemma_le_round_trip(xxh3_of(body.bytes) as int, 8, t);
}

/// The views of several entries and of several sources are their views, in their order.
pub proof fn lemma_views_in_order(
    items: Seq<UnpackedEntry>,
    sources: Seq<crate::entry::SourceEntry>,
    names: Seq<String>,
)
    ensures
        item_views(items).len() == items.len(),
        forall|k: int| 0 <= k < items.len() ==> #[trigger] item_views(items)[k] == items[k]@,
        crate::entry::source_views(sources).len() == sources.len(),
        forall|k: int|
            0 <= k < sources.len() ==> #[trigger] crate::entry::source_views(sources)[k]
                == sources[k]@,
        crate::cli::texts(names).len() == names.len(),
        forall|k: int| 0 <= k < names.len() ==> #[trigger] crate::cli::texts(names)[k] == names[k]@,
{
}

} // verus!
