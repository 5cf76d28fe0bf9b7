//! The bytes of headers, preambles, attributes and chunk records.

use syc::archive::{
    read_preamble, read_xattrs_block, write_preamble, write_xattrs_block, ArchiveVersion, Backend,
    EntryHeader, EntryKind, HashAlgo, PpmdParams, FEATURE_COMMENT, FEATURE_CRC32, FEATURE_DELTA,
    FEATURE_HASH_ALGO,
};
use syc::entry::{hash_of, EntryHasher, Framing};
use syc::error::Error;
use syc::fastcdc::{
    pack_chunked_body, read_chunk_rec, write_chunk_inline, write_chunk_ref, ChunkRec, ChunkRegistry,
    DecodeRegistry,
};
use syc::reader::{read_file_body, sanitize_rel, unpack_entry};
use syc::wire::{write_u16, write_u32, write_u64, write_varint, ByteReader};

fn header(path: &str, link: &str) -> EntryHeader {
    EntryHeader {
        kind: EntryKind::Symlink,
        mode: 0o120777,
        size: 0x0102030405060708,
        mtime: -2,
        path: path.to_string(),
        link_target: link.to_string(),
    }
}

#[test]
fn headers_have_their_layout() {
    let mut out = Vec::new();
    header("ab", "c").write_to(&mut out, ArchiveVersion::V5);
    let mut want = vec![2u8];
    want.extend_from_slice(&0o120777u32.to_le_bytes());
    want.extend_from_slice(&0x0102030405060708u64.to_le_bytes());
    want.extend_from_slice(&(-2i64).to_le_bytes());
    want.extend_from_slice(&[2, 0, b'a', b'b', 1, 0, b'c']);
    assert_eq!(out, want);
    let mut r = ByteReader::new(&out);
    let h = EntryHeader::read_from(&mut r, ArchiveVersion::V5).unwrap().unwrap();
    assert_eq!(h.path, "ab");
    assert_eq!(h.link_target, "c");
    assert_eq!(h.mtime, -2);
    assert_eq!(h.size, 0x0102030405060708);
    assert!(EntryHeader::read_from(&mut r, ArchiveVersion::V5).unwrap().is_none());
}

#[test]
fn the_older_version_has_no_times() {
    let mut out = Vec::new();
    header("ab", "c").write_to(&mut out, ArchiveVersion::V4);
    assert_eq!(out.len(), 1 + 4 + 8 + 4 + 3);
    let mut r = ByteReader::new(&out);
    let h = EntryHeader::read_from(&mut r, ArchiveVersion::V4).unwrap().unwrap();
    assert_eq!(h.mtime, 0);
    assert_eq!(h.kind, EntryKind::Symlink);
}

#[test]
fn bad_headers_are_refused() {
    let read = |bytes: &[u8]| {
        let mut r = ByteReader::new(bytes);
        EntryHeader::read_from(&mut r, ArchiveVersion::V4).map(|h| h.is_some())
    };
    assert_eq!(read(&[]), Ok(false));
    assert_eq!(read(&[9]), Err(Error::UnknownEntryKind { id: 9 }));
    assert_eq!(read(&[0, 1]), Err(Error::UnexpectedEof));
    let mut bad_path = vec![0u8; 13];
    bad_path.extend_from_slice(&[1, 0, 0xFF, 0, 0]);
    assert_eq!(read(&bad_path), Err(Error::PathNotUtf8));
    let mut bad_link = vec![0u8; 13];
    bad_link.extend_from_slice(&[0, 0, 1, 0, 0xFF]);
    assert_eq!(read(&bad_link), Err(Error::LinkNotUtf8));
}

#[test]
fn kinds_have_their_numbers() {
    let kinds = [
        EntryKind::File,
        EntryKind::Dir,
        EntryKind::Symlink,
        EntryKind::HardLink,
        EntryKind::ChunkedFile,
    ];
    for (i, k) in kinds.iter().enumerate() {
        assert_eq!(k.to_u8(), i as u8);
        assert_eq!(EntryKind::from_u8(i as u8), Ok(*k));
        assert_eq!(k.is_file_like(), i == 0 || i == 4);
    }
    assert_eq!(Backend::from_u8(2), Ok(Backend::Ppmd));
    assert_eq!(Backend::from_u8(3), Err(Error::UnknownBackend { id: 3 }));
    assert_eq!(HashAlgo::from_u8(0), Err(Error::UnknownHashAlgo { id: 0 }));
    assert_eq!(HashAlgo::from_u8(3), Ok(HashAlgo::Blake3));
    assert_eq!(HashAlgo::Blake3.trailer_bytes(), 32);
    assert_eq!(HashAlgo::Xxh3.name(), "xxh3");
}

#[test]
fn preambles_have_their_layout() {
    let mut out = Vec::new();
    write_preamble(
        &mut out,
        ArchiveVersion::V5,
        Backend::Ppmd,
        FEATURE_CRC32 | FEATURE_COMMENT | FEATURE_HASH_ALGO | FEATURE_DELTA,
        &[9, 8],
        Some(PpmdParams { order: 6, mem_mb: 300 }),
        Some("hi"),
        Some(HashAlgo::Xxh3),
        Some(2),
    )
    .unwrap();
    let flags = 0x04 | 0x08 | 0x10 | 0x40;
    let want = vec![
        b'S', b'Y', b'C', b'5', 2, flags, 2, 0, b'h', b'i', 2, 2, 2, 0, 0, 0, 9, 8, 6, 44, 1, 0, 0,
    ];
    assert_eq!(out, want);
    let mut r = ByteReader::new(&out);
    let p = read_preamble(&mut r).unwrap();
    assert_eq!(p.version, ArchiveVersion::V5);
    assert_eq!(p.backend, Backend::Ppmd);
    assert_eq!(p.comment.as_deref(), Some("hi"));
    assert_eq!(p.hash_algo, Some(HashAlgo::Xxh3));
    assert_eq!(p.delta_stride, Some(2));
    assert_eq!(p.dict, vec![9, 8]);
    assert_eq!(p.ppmd, Some(PpmdParams { order: 6, mem_mb: 300 }));
}

fn preamble(flags: u8, backend: Backend, comment: Option<&str>) -> Result<Vec<u8>, Error> {
    let mut out = Vec::new();
    write_preamble(&mut out, ArchiveVersion::V5, backend, flags, &[], None, comment, None, None)
        .map(|_| out)
}

#[test]
fn preambles_miss_nothing() {
    let long = "x".repeat(65536);
    assert_eq!(preamble(FEATURE_COMMENT, Backend::Zstd, Some(&long)), Err(Error::CommentTooLong));
    assert!(preamble(FEATURE_COMMENT, Backend::Zstd, Some(&long[1..])).is_ok());
    assert_eq!(preamble(FEATURE_HASH_ALGO, Backend::Zstd, None), Err(Error::MissingHashAlgo));
    assert_eq!(preamble(FEATURE_DELTA, Backend::Zstd, None), Err(Error::MissingStride));
    assert_eq!(preamble(0, Backend::Ppmd, None), Err(Error::MissingPpmdParams));
}

#[test]
fn bad_preambles_are_refused() {
    let read = |bytes: &[u8]| {
        let mut r = ByteReader::new(bytes);
        read_preamble(&mut r).map(|p| p.version)
    };
    assert_eq!(read(b"SYC4\x00\x00\x00\x00\x00\x00"), Ok(ArchiveVersion::V4));
    assert_eq!(read(b"SYC6\x00\x00\x00\x00\x00\x00"), Err(Error::BadMagic));
    assert_eq!(read(b"SYC5\x00"), Err(Error::UnexpectedEof));
    assert_eq!(read(b"SYC5\x00\x08\x01\x00\xFF"), Err(Error::CommentNotUtf8));
    assert_eq!(read(b"SYC5\x00\x10\x07"), Err(Error::UnknownHashAlgo { id: 7 }));
    assert_eq!(read(b"SYC5\x00\x40\x03"), Err(Error::InvalidStride { stride: 3 }));
}

#[test]
fn attributes_round_trip() {
    let pairs = vec![(b"user.a".to_vec(), b"1".to_vec()), (b"user.b".to_vec(), Vec::new())];
    let mut out = Vec::new();
    write_xattrs_block(&mut out, &pairs);
    assert_eq!(&out[..11], &[2, 0, 6, 0, b'u', b's', b'e', b'r', b'.', b'a', 1]);
    let mut r = ByteReader::new(&out);
    assert_eq!(read_xattrs_block(&mut r).unwrap(), pairs);
    assert_eq!(r.remaining(), 0);
    let mut r = ByteReader::new(&out[..out.len() - 1]);
    assert_eq!(read_xattrs_block(&mut r), Err(Error::UnexpectedEof));
}

#[test]
fn numbers_have_their_layout() {
    let mut out = Vec::new();
    write_u16(&mut out, 0x0102);
    write_u32(&mut out, 0x01020304);
    write_u64(&mut out, 0x0102030405060708);
    write_varint(&mut out, 300);
    write_varint(&mut out, u64::MAX);
    assert_eq!(&out[..14], &[2, 1, 4, 3, 2, 1, 8, 7, 6, 5, 4, 3, 2, 1]);
    assert_eq!(&out[14..16], &[0xAC, 0x02]);
    assert_eq!(out.len(), 16 + 10);
    let mut r = ByteReader::new(&out);
    assert_eq!(r.read_u16(), Ok(0x0102));
    assert_eq!(r.read_u32(), Ok(0x01020304));
    assert_eq!(r.read_u64(), Ok(0x0102030405060708));
    assert_eq!(r.read_varint(), Ok(300));
    assert_eq!(r.read_varint(), Ok(u64::MAX));
    assert_eq!(r.read_u8(), Err(Error::UnexpectedEof));
}

#[test]
fn chunk_records_round_trip() {
    let mut out = Vec::new();
    write_chunk_inline(&mut out, b"abc");
    write_chunk_ref(&mut out, 5);
    assert_eq!(out, vec![6, b'a', b'b', b'c', 11]);
    let mut r = ByteReader::new(&out);
    assert!(matches!(read_chunk_rec(&mut r), Ok(ChunkRec::Inline(v)) if v == b"abc"));
    assert!(matches!(read_chunk_rec(&mut r), Ok(ChunkRec::Ref(5))));
    let mut big = Vec::new();
    write_varint(&mut big, 200_000 << 1);
    let mut r = ByteReader::new(&big);
    assert!(matches!(read_chunk_rec(&mut r), Err(Error::ChunkTooLarge { .. })));
}

#[test]
fn chunk_bodies_share_what_repeats() {
    let data: Vec<u8> = (0..300_000u32).map(|i| (i.wrapping_mul(2654435761) >> 13) as u8).collect();
    let mut reg = ChunkRegistry::new();
    let mut first = Vec::new();
    assert_eq!(pack_chunked_body(&data, &mut first, &mut reg), Ok(data.len() as u64));
    assert_eq!(reg.next_id as usize, reg.len());
    let mut second = Vec::new();
    assert_eq!(pack_chunked_body(&data, &mut second, &mut reg), Ok(data.len() as u64));
    assert!(second.len() < 300);
    let mut stream = first.clone();
    stream.extend_from_slice(&second);
    let mut r = ByteReader::new(&stream);
    let mut known = DecodeRegistry::new();
    assert_eq!(known.read_body(&mut r, data.len() as u64).unwrap(), data);
    assert_eq!(known.read_body(&mut r, data.len() as u64).unwrap(), data);
    assert_eq!(known.unique_chunks(), reg.len());
}

#[test]
fn chunk_numbers_run_out() {
    let mut reg = ChunkRegistry::new();
    let mut out = vec![7u8];
    assert_eq!(pack_chunked_body(b"abc", &mut out, &mut reg), Ok(3));
    assert_eq!(out, vec![7, 6, b'a', b'b', b'c']);
    reg.next_id = u32::MAX;
    assert_eq!(pack_chunked_body(b"abc", &mut out, &mut reg), Ok(3));
    assert_eq!(out, vec![7, 6, b'a', b'b', b'c', 1]);
    assert_eq!(pack_chunked_body(b"abd", &mut out, &mut reg), Err(Error::TooManyChunks));
    assert_eq!(out, vec![7, 6, b'a', b'b', b'c', 1]);
    assert_eq!(reg.len(), 1);
}

#[test]
fn refused_bodies_leave_their_chunks_known() {
    let bytes = [0x06, 0x61, 0x62, 0x63, 0x01];
    let mut known = DecodeRegistry::new();
    assert_eq!(known.read_body(&mut ByteReader::new(&bytes), 6), Ok(b"abcabc".to_vec()));
    assert_eq!(known.unique_chunks(), 1);
    let mut known = DecodeRegistry::new();
    assert_eq!(known.read_body(&mut ByteReader::new(&bytes), 5), Err(Error::ChunkOvershoot));
    assert_eq!(known.unique_chunks(), 1);
    assert_eq!(
        known.read_body(&mut ByteReader::new(&[0x05]), 3),
        Err(Error::UnknownChunk { number: 2 })
    );
    assert_eq!(known.read_body(&mut ByteReader::new(&[0x01]), 3), Ok(b"abc".to_vec()));
}

#[test]
fn refused_paths_are_not_read() {
    let bytes = b"body";
    let mut r = ByteReader::new(bytes);
    let mut known = DecodeRegistry::new();
    let mut h = header("../out", "");
    h.kind = EntryKind::File;
    h.size = 4;
    let f = Framing { version: ArchiveVersion::V5, hash_algo: None, xattrs: false };
    assert_eq!(unpack_entry(&mut r, h, f, &mut known).unwrap_err(), Error::ParentTraversal);
    assert_eq!(r.remaining(), 4);
    let mut h = header("in", "");
    h.kind = EntryKind::File;
    h.size = 4;
    assert_eq!(unpack_entry(&mut r, h, f, &mut known).unwrap().body, bytes);
    assert_eq!(r.remaining(), 0);
}

#[test]
fn long_chunks_are_refused() {
    let mut out = Vec::new();
    write_chunk_inline(&mut out, &vec![1u8; 65_537]);
    let mut r = ByteReader::new(&out);
    assert!(matches!(read_chunk_rec(&mut r), Err(Error::ChunkTooLarge { len: 65_537 })));
    let mut out = Vec::new();
    write_chunk_inline(&mut out, &vec![1u8; 65_536]);
    let mut r = ByteReader::new(&out);
    assert!(matches!(read_chunk_rec(&mut r), Ok(ChunkRec::Inline(v)) if v.len() == 65_536));
    assert_eq!(r.remaining(), 0);
}

#[test]
fn bad_chunk_bodies_are_refused() {
    let read = |bytes: &[u8], n: u64| {
        let mut r = ByteReader::new(bytes);
        DecodeRegistry::new().read_body(&mut r, n)
    };
    assert_eq!(read(&[1], 4), Err(Error::UnknownChunk { number: 0 }));
    assert_eq!(read(&[6, 1, 2, 3], 2), Err(Error::ChunkOvershoot));
    assert_eq!(read(&[6, 1, 2, 3], 3), Ok(vec![1, 2, 3]));
    assert_eq!(read(&[], 0), Ok(vec![]));
}

#[test]
fn hashes_are_those_of_their_crates() {
    let data = b"The quick brown fox";
    assert_eq!(hash_of(HashAlgo::Crc32, data), crc32fast::hash(data).to_le_bytes());
    assert_eq!(hash_of(HashAlgo::Xxh3, data), twox_hash::XxHash3_64::oneshot(data).to_le_bytes());
    assert_eq!(hash_of(HashAlgo::Blake3, data), blake3::hash(data).as_bytes());
    // The check value of CRC-32.
    assert_eq!(hash_of(HashAlgo::Crc32, b"123456789"), 0xCBF43926u32.to_le_bytes());
}

#[test]
fn hashers_take_data_in_pieces() {
    for algo in [HashAlgo::Crc32, HashAlgo::Xxh3, HashAlgo::Blake3] {
        let mut h = EntryHasher::new(algo);
        h.update(b"The quick ");
        h.update(b"");
        h.update(b"brown fox");
        let mut out = vec![0u8; algo.trailer_bytes()];
        h.finalize_into(&mut out);
        assert_eq!(out, hash_of(algo, b"The quick brown fox"));
    }
}

#[test]
fn bodies_are_checked_against_their_hash() {
    let h = EntryHeader { kind: EntryKind::File, size: 3, ..header("f", "") };
    let mut bytes = b"abc".to_vec();
    bytes.extend_from_slice(&crc32fast::hash(b"abc").to_le_bytes());
    let read = |bytes: &[u8]| {
        let mut r = ByteReader::new(bytes);
        read_file_body(&mut r, &h, &mut DecodeRegistry::new(), Some(HashAlgo::Crc32))
    };
    assert_eq!(read(&bytes), Ok(b"abc".to_vec()));
    assert_eq!(read(&bytes[..6]), Err(Error::UnexpectedEof));
    bytes[0] = b'x';
    assert_eq!(read(&bytes), Err(Error::HashMismatch));
}

#[test]
fn paths_stay_below_their_directory() {
    assert_eq!(sanitize_rel("a/b..c/...").unwrap(), "a/b..c/...");
    assert_eq!(sanitize_rel("").unwrap(), "");
    assert_eq!(sanitize_rel("/etc/passwd"), Err(Error::AbsolutePath));
    assert_eq!(sanitize_rel(".."), Err(Error::ParentTraversal));
    assert_eq!(sanitize_rel("a/../b"), Err(Error::ParentTraversal));
    assert_eq!(sanitize_rel("a/.."), Err(Error::ParentTraversal));
}
