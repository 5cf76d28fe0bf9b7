//! Packing and reading whole archives, from a command line to the entries.

use syc::add::{add, append, prepare, AddError, AppendWarning};
use syc::archive::{Backend, EntryKind, HashAlgo, PpmdParams};
use syc::cli::{parse, Cmd, Opts};
use syc::color::Console;
use syc::entry::{SourceEntry, SourceKind};
use syc::error::Error;
use syc::frame::{compress, decompress, open_archive, read_archive, Compressor, ReadArchive};
use syc::parts::{join_parts, split_parts};
use syc::plan::{Env, PlanError};
use syc::reader::UnpackedEntry;
use syc::report::{list_items, list_line, test_items};

fn file(path: &str, data: &[u8]) -> SourceEntry {
    SourceEntry {
        kind: SourceKind::File,
        mode: 0o644,
        size: data.len() as u64,
        mtime: 1_700_000_000,
        path: path.to_string(),
        link_target: String::new(),
        xattrs: Vec::new(),
        data: data.to_vec(),
        duplicate_of: None,
    }
}

fn dir(path: &str) -> SourceEntry {
    SourceEntry { kind: SourceKind::Dir, mode: 0o755, size: 0, data: Vec::new(), ..file(path, b"") }
}

fn symlink(path: &str, target: &str) -> SourceEntry {
    SourceEntry {
        kind: SourceKind::Symlink,
        mode: 0o777,
        link_target: target.to_string(),
        ..file(path, b"")
    }
}

fn fixture() -> Vec<SourceEntry> {
    let filler: Vec<u8> = (0..2048).map(|i| (i % 251) as u8).collect();
    let repeated: Vec<u8> = b"abcdefgh".repeat(4096);
    vec![
        file("hello.txt", b"Hello, world!\n"),
        dir("nested"),
        file("nested/a.bin", &filler),
        dir("nested/deep"),
        file("nested/deep/b.bin", &repeated),
        file("empty", b""),
        file("zeros.bin", &vec![0u8; 65537]),
    ]
}

fn options(flags: &[&str]) -> Opts {
    let mut args = vec!["syc".to_string(), "a".to_string(), "out.syc".to_string(), "src".to_string()];
    args.extend(flags.iter().map(|s| s.to_string()));
    match parse(args) {
        Ok(Cmd::Add { opts, .. }) => opts,
        other => panic!("{:?}", other),
    }
}

fn no_env() -> Env {
    Env {
        backend: None,
        bcj: None,
        ppmd_order: None,
        ppmd_mem_mb: None,
        lc: None,
        lp: None,
        pb: None,
        nice: None,
        dict: None,
        lzma_block_mib: None,
    }
}

fn ppmd_env() -> Env {
    Env { backend: Some("ppmd".to_string()), ..no_env() }
}

fn pack(entries: Vec<SourceEntry>, flags: &[&str], env: &Env) -> Vec<u8> {
    let opts = options(flags);
    let input = prepare(entries, &opts);
    add("out.syc", &opts, env, 4, &input).unwrap().bytes
}

/// What an extraction of `items` leaves behind: path, kind and contents, with
/// links to earlier files resolved.
fn tree(items: &[UnpackedEntry]) -> Vec<(String, char, Vec<u8>)> {
    let mut out: Vec<(String, char, Vec<u8>)> = Vec::new();
    for i in items {
        let h = &i.header;
        match h.kind {
            EntryKind::Dir => out.push((h.path.clone(), 'd', Vec::new())),
            EntryKind::Symlink => out.push((h.path.clone(), 'l', h.link_target.clone().into_bytes())),
            EntryKind::HardLink => {
                let body = out.iter().find(|e| e.0 == h.link_target).unwrap().2.clone();
                out.push((h.path.clone(), 'f', body));
            }
            _ => out.push((h.path.clone(), 'f', i.body.clone())),
        }
    }
    out.sort();
    out
}

fn source_tree(entries: &[SourceEntry]) -> Vec<(String, char, Vec<u8>)> {
    let mut out: Vec<(String, char, Vec<u8>)> = entries
        .iter()
        .map(|e| match e.kind {
            SourceKind::Dir => (e.path.clone(), 'd', Vec::new()),
            SourceKind::Symlink => (e.path.clone(), 'l', e.link_target.clone().into_bytes()),
            SourceKind::File => (e.path.clone(), 'f', e.data.clone()),
        })
        .collect();
    out.sort();
    out
}

fn assert_same_tree(entries: &[SourceEntry], archive: &[u8]) -> ReadArchive {
    let r = read_archive(archive).unwrap();
    assert_eq!(tree(&r.items), source_tree(entries));
    r
}

fn roundtrip_at_level(level: &str, env: &Env) -> ReadArchive {
    let a = pack(fixture(), &["-level", level, "-threads", "2"], env);
    assert_same_tree(&fixture(), &a)
}

#[test]
fn roundtrip_zstd_l1() {
    let r = roundtrip_at_level("1", &no_env());
    assert_eq!(r.preamble.backend, Backend::Zstd);
}

#[test]
fn hard_search_round_trips() {
    let c = Compressor::ZstdUltra {
        level: 19,
        threads: 0,
        window_log: 20,
        long: true,
        chain_log: 16,
        hash_log: 15,
        search_log: 4,
        target_length: 99,
    };
    let data = b"searching hard, searching hard, searching harder".repeat(100);
    let frame = compress(c, &[], &data).unwrap();
    assert!(frame.len() < data.len() / 10);
    assert_eq!(decompress(Backend::Zstd, &[], None, &frame).unwrap(), data);
}

#[test]
fn roundtrip_lzma_l5() {
    let r = roundtrip_at_level("5", &no_env());
    assert_eq!(r.preamble.backend, Backend::Lzma);
}

#[test]
fn roundtrip_ppmd_l7() {
    let r = roundtrip_at_level("7", &ppmd_env());
    assert_eq!(r.preamble.backend, Backend::Ppmd);
    assert_eq!(r.preamble.ppmd, Some(PpmdParams { order: 8, mem_mb: 128 }));
}

fn roundtrip_lzp(level: &str, env: &Env) {
    let mut entries = fixture();
    let long_rep: Vec<u8> = b"the quick brown fox jumps over the lazy dog 0123456789 ".repeat(4096);
    entries.push(file("nested/repeats.txt", &long_rep));
    let a = pack(entries, &["-level", level, "-lzp"], env);
    let mut entries = fixture();
    entries.push(file("nested/repeats.txt", &long_rep));
    let r = assert_same_tree(&entries, &a);
    assert_eq!(r.preamble.preproc & 0x80, 0x80);
}

#[test]
fn roundtrip_lzp_lzma() {
    roundtrip_lzp("6", &no_env());
}

#[test]
fn roundtrip_lzp_ppmd() {
    roundtrip_lzp("7", &ppmd_env());
}

fn roundtrip_hash(name: &str, algo: HashAlgo) {
    let a = pack(fixture(), &["-level", "1", "-hash", name], &no_env());
    let r = assert_same_tree(&fixture(), &a);
    assert_eq!(r.preamble.hash_algo, Some(algo));
    let t = test_items(&r.items, r.preamble.hash_algo);
    assert_eq!(t.hashes_verified, 5);
    assert_eq!(t.totals.entries, 7);
    assert_eq!(t.totals.bytes, 14 + 2048 + 32768 + 65537);
}

#[test]
fn roundtrip_hash_crc32() {
    roundtrip_hash("crc32", HashAlgo::Crc32);
}

#[test]
fn roundtrip_hash_xxh3() {
    roundtrip_hash("xxh3", HashAlgo::Xxh3);
}

#[test]
fn roundtrip_hash_blake3() {
    roundtrip_hash("blake3", HashAlgo::Blake3);
}

#[test]
fn no_checksums_on_demand() {
    let a = pack(fixture(), &["-level", "1", "-nochecksum"], &no_env());
    let r = assert_same_tree(&fixture(), &a);
    assert_eq!(r.preamble.hash_algo, None);
    assert_eq!(test_items(&r.items, None).hashes_verified, 0);
}

#[test]
fn roundtrip_xattrs() {
    let attr = (b"user.syc_test".to_vec(), b"roundtrip".to_vec());
    let mut entries = fixture();
    entries[0].xattrs.push(attr.clone());
    let a = pack(entries, &["-level", "1", "-xattrs"], &no_env());
    let r = assert_same_tree(&fixture(), &a);
    let hello = r.items.iter().find(|i| i.header.path == "hello.txt").unwrap();
    assert_eq!(hello.xattrs, vec![attr]);
    let zeros = r.items.iter().find(|i| i.header.path == "zeros.bin").unwrap();
    assert!(zeros.xattrs.is_empty());
}

fn roundtrip_append(level: &str) {
    let one = file("appended/one.txt", b"I was appended!\n");
    let two = file("appended/two.bin", &vec![7u8; 4096]);
    let first = pack(fixture(), &["-level", level], &no_env());
    let opts = options(&["-append", "-level", level]);
    let more = prepare(vec![one, two], &opts);
    let r = append("out.syc", &opts, &no_env(), first.clone(), &more.entries).unwrap();
    assert!(r.bytes.len() > first.len());
    assert_eq!(r.kept, first.len());
    assert_eq!(&r.bytes[..r.kept], &first[..]);
    assert!(r.warnings.is_empty());
    let mut all = fixture();
    all.push(file("appended/one.txt", b"I was appended!\n"));
    all.push(file("appended/two.bin", &vec![7u8; 4096]));
    assert_same_tree(&all, &r.bytes);
    // And once more.
    let third = prepare(vec![file("three", b"3")], &opts);
    let r = append("out.syc", &opts, &no_env(), r.bytes, &third.entries).unwrap();
    all.push(file("three", b"3"));
    assert_same_tree(&all, &r.bytes);
}

#[test]
fn roundtrip_append_zstd() {
    roundtrip_append("1");
}

#[test]
fn roundtrip_append_lzma() {
    roundtrip_append("5");
}

#[test]
fn append_behind_chunk_records() {
    let a = pack(fixture(), &["-level", "1", "-fastcdc"], &no_env());
    let opts = options(&["-append", "-level", "1"]);
    let more = prepare(vec![file("more", b"more")], &opts);
    let r = append("out.syc", &opts, &no_env(), a, &more.entries).unwrap();
    let mut all = fixture();
    all.push(file("more", b"more"));
    assert_same_tree(&all, &r.bytes);
}

#[test]
fn append_keeps_what_the_preamble_says() {
    let a = pack(fixture(), &["-level", "1", "-xattrs", "-comment", "first"], &no_env());
    let opts = options(&["-append", "-level", "1", "-hash", "blake3", "-comment", "second"]);
    let more = prepare(vec![file("more", b"more")], &opts);
    let r = append("out.syc", &opts, &no_env(), a, &more.entries).unwrap();
    assert_eq!(
        r.warnings,
        vec![AppendWarning::XattrsKept, AppendWarning::HashIgnored, AppendWarning::CommentIgnored]
    );
    let read = read_archive(&r.bytes).unwrap();
    assert_eq!(read.preamble.comment.as_deref(), Some("first"));
    assert_eq!(read.preamble.hash_algo, Some(HashAlgo::Crc32));
    assert_eq!(read.items.len(), 8);

    let plain = pack(fixture(), &["-level", "1"], &no_env());
    let opts = options(&["-append", "-level", "1", "-xattrs", "-summary", "-hash", "xxh3"]);
    let r = append("out.syc", &opts, &no_env(), plain, &[]).unwrap();
    assert_eq!(r.warnings, vec![AppendWarning::XattrsIgnored]);
}

fn append_error(archive: Vec<u8>, name: &str, flags: &[&str]) -> AddError {
    let mut all = vec!["-append"];
    all.extend_from_slice(flags);
    append(name, &options(&all), &no_env(), archive, &[]).unwrap_err()
}

#[test]
fn append_refuses_what_cannot_be_joined() {
    let plain = || pack(fixture(), &["-level", "1"], &no_env());
    assert_eq!(append_error(plain(), "-", &[]), AddError::Plan(PlanError::AppendToStdout));
    assert_eq!(append_error(plain(), "a", &["-chunk", "1"]), AddError::Plan(PlanError::AppendWithChunk));
    assert_eq!(append_error(plain(), "a", &["-fastcdc"]), AddError::Plan(PlanError::AppendWithFastcdc));
    assert_eq!(append_error(plain(), "a", &["-lzp"]), AddError::Plan(PlanError::AppendWithLzp));
    assert_eq!(append_error(plain(), "a", &["-level", "11"]), AddError::Plan(PlanError::BadLevel));
    let ppmd = pack(fixture(), &["-level", "7"], &ppmd_env());
    assert_eq!(append_error(ppmd, "a", &[]), AddError::Plan(PlanError::AppendToPpmd));
    let lzp = pack(fixture(), &["-level", "5", "-lzp"], &no_env());
    assert_eq!(append_error(lzp, "a", &[]), AddError::Plan(PlanError::AppendToLzp));
    let delta = pack(fixture(), &["-level", "1", "-delta", "2"], &no_env());
    assert_eq!(append_error(delta, "a", &[]), AddError::Plan(PlanError::AppendToDelta));
    let mut rep = plain();
    rep[5] |= 1;
    assert_eq!(append_error(rep, "a", &[]), AddError::Plan(PlanError::AppendToMatcher));
    assert_eq!(append_error(b"SYC9".to_vec(), "a", &[]), AddError::Archive(Error::BadMagic));
    let lzma = pack(fixture(), &["-level", "5"], &no_env());
    assert_eq!(append_error(lzma, "a", &["-bcj", "z80"]), AddError::Plan(PlanError::UnknownBcj));
}

fn roundtrip_delta(level: &str, stride: &str) {
    let mut pcm = Vec::with_capacity(16 * 1024);
    for i in 0..8192i32 {
        let v: i16 = ((i * 37) & 0x7FFF) as i16;
        pcm.extend_from_slice(&v.to_le_bytes());
    }
    let entries = || vec![file("tone.raw", &pcm), file("readme.txt", b"hello, delta\n")];
    let a = pack(entries(), &["-level", level, "-delta", stride], &no_env());
    let r = assert_same_tree(&entries(), &a);
    assert_eq!(r.preamble.delta_stride, Some(stride.parse().unwrap()));
}

#[test]
fn roundtrip_delta_zstd_s2() {
    roundtrip_delta("1", "2");
}

#[test]
fn roundtrip_delta_lzma_s2() {
    roundtrip_delta("5", "2");
}

#[test]
fn roundtrip_delta_lzma_s4() {
    roundtrip_delta("5", "4");
}

fn roundtrip_route(level: &str) {
    let entries = || {
        vec![
            file("notes.txt", &b"hello routing world!\n".repeat(200)),
            file("image.jpg", &vec![0xABu8; 5000]),
            dir("sub"),
            file("sub/clip.mp4", &vec![0xCDu8; 7000]),
            file("sub/pack.zip", &vec![0xEFu8; 3000]),
        ]
    };
    let opts = options(&["-level", level, "-route"]);
    let input = prepare(entries(), &opts);
    assert_eq!(input.entries.len(), 2);
    assert_eq!(input.media.len(), 3);
    let a = add("out.syc", &opts, &no_env(), 4, &input).unwrap().bytes;
    let r = assert_same_tree(&entries(), &a);
    let console = Console::init(false, false, false);
    let listing = list_items(&r.items, &None, false);
    let lines: Vec<String> =
        listing.rows.iter().map(|k| list_line(&r.items[*k].header, &console)).collect();
    for name in ["notes.txt", "image.jpg", "clip.mp4", "pack.zip"] {
        assert!(lines.iter().any(|l| l.contains(name)), "list missing {}", name);
    }
}

#[test]
fn roundtrip_route_zstd() {
    roundtrip_route("1");
}

#[test]
fn roundtrip_route_lzma() {
    roundtrip_route("5");
}

#[test]
fn routed_chunk_records_read_back() {
    let noise = |seed: u32, n: usize| -> Vec<u8> {
        let mut x = seed;
        (0..n)
            .map(|_| {
                x = x.wrapping_mul(1_664_525).wrapping_add(1_013_904_223);
                (x >> 24) as u8
            })
            .collect()
    };
    let entries = || {
        vec![
            file("a.bin", &noise(1, 30_000)),
            file("b.bin", &noise(1, 30_000)),
            file("image.jpg", &noise(2, 20_000)),
            file("clip.mp4", &noise(3, 20_000)),
            // Chunks of the other media file, and of the first frame.
            file("same.mp4", &noise(3, 20_000)),
            file("pack.zip", &noise(1, 30_000)),
        ]
    };
    for level in ["1", "5"] {
        let a = pack(entries(), &["-level", level, "-route", "-fastcdc"], &no_env());
        let r = assert_same_tree(&entries(), &a);
        assert_eq!(r.items.len(), 6);
        assert_eq!(r.items[2].header.kind, EntryKind::ChunkedFile);
    }
}

fn roundtrip_dedup(level: &str) {
    let big: Vec<u8> = (0..256 * 1024).map(|i| (i % 251) as u8).collect();
    let entries = || {
        vec![
            file("a/blob.bin", &big),
            file("b/blob.bin", &big),
            file("c/copy.bin", &big),
            file("unique.txt", b"not a duplicate\n"),
            file("empty1", b""),
            file("empty2", b""),
        ]
    };
    let plain = pack(entries(), &["-level", level], &no_env());
    let dedup = pack(entries(), &["-level", level, "-dedup"], &no_env());
    assert!(dedup.len() < plain.len(), "plain={} dedup={}", plain.len(), dedup.len());
    let r = assert_same_tree(&entries(), &dedup);
    let console = Console::init(false, false, false);
    let lines: Vec<String> = r.items.iter().map(|i| list_line(&i.header, &console)).collect();
    assert!(lines.iter().any(|l| l.contains("blob.bin")));
    assert!(lines.iter().any(|l| l.contains("unique.txt")));
    assert_eq!(lines.iter().filter(|l| l.contains(" -> ")).count(), 2);
    assert_eq!(lines.iter().filter(|l| l.contains("<hln>")).count(), 2);
}

#[test]
fn roundtrip_dedup_zstd() {
    roundtrip_dedup("1");
}

#[test]
fn roundtrip_dedup_lzma() {
    roundtrip_dedup("5");
}

fn roundtrip_fastcdc(level: &str) {
    let mut base: Vec<u8> = Vec::with_capacity(512 * 1024);
    let mut x: u64 = 0xABCD_0123;
    for _ in 0..512 * 1024 {
        x = x.wrapping_mul(6364136223846793005).wrapping_add(1442695040888963407);
        base.push((x >> 33) as u8);
    }
    let mut shifted: Vec<u8> = b"PREAMBLE-AAAAA".to_vec();
    shifted.extend_from_slice(&base);
    shifted.extend_from_slice(b"-TAIL-Z");
    let mut inserted: Vec<u8> = base[..256 * 1024].to_vec();
    inserted.extend_from_slice(b"INSERTED-MIDDLE-BLOCK-64-BYTES-PADDING-PADDING-");
    inserted.extend_from_slice(&base[256 * 1024..]);
    let entries = || {
        vec![
            file("a.bin", &base),
            file("b.bin", &shifted),
            file("c.bin", &inserted),
            file("note.txt", b"fastcdc test\n"),
        ]
    };
    let plain = pack(entries(), &["-level", level], &no_env());
    let cdc = pack(entries(), &["-level", level, "-fastcdc"], &no_env());
    let ceiling = plain.len() + plain.len() / 20;
    assert!(cdc.len() <= ceiling, "plain={} cdc={}", plain.len(), cdc.len());
    let r = assert_same_tree(&entries(), &cdc);
    assert!(r.items.iter().all(|i| i.header.kind == EntryKind::ChunkedFile));
}

#[test]
fn roundtrip_fastcdc_zstd() {
    roundtrip_fastcdc("1");
}

#[test]
fn roundtrip_fastcdc_lzma() {
    roundtrip_fastcdc("5");
}

#[test]
fn roundtrip_lzma_bcj_x86() {
    let env = Env { bcj: Some("x86".to_string()), ..no_env() };
    let opts = options(&["-level", "5", "-threads", "2"]);
    let input = prepare(fixture(), &opts);
    let a = add("out.syc", &opts, &env, 4, &input).unwrap();
    match a.plan.compressor {
        Compressor::Xz { chain } => assert_eq!(chain.bcj, syc::codec::Bcj::X86),
        other => panic!("{:?}", other),
    }
    assert_same_tree(&fixture(), &a.bytes);
}

#[test]
fn every_branch_filter_round_trips() {
    for name in ["off", "arm", "armt", "ia64", "sparc", "ppc"] {
        let a = pack(fixture(), &["-level", "5", "-bcj", name], &no_env());
        assert_same_tree(&fixture(), &a);
    }
}

#[test]
fn roundtrip_store() {
    let a = pack(fixture(), &["-store"], &no_env());
    assert_same_tree(&fixture(), &a);
}

#[test]
fn lzma_blocks_round_trip() {
    // Blocks of one MiB and several threads.
    let env = Env { lzma_block_mib: Some("1".to_string()), ..no_env() };
    let data: Vec<u8> = (0..3_000_000u32).map(|i| (i / 7 % 256) as u8).collect();
    let opts = options(&["-level", "5", "-threads", "2"]);
    let input = prepare(vec![file("big", &data)], &opts);
    let a = add("out.syc", &opts, &env, 4, &input).unwrap();
    match a.plan.compressor {
        Compressor::XzBlocks { block, threads, .. } => {
            assert_eq!(block, 1_048_576);
            assert_eq!(threads, 2);
        }
        other => panic!("{:?}", other),
    }
    assert_same_tree(&[file("big", &data)], &a.bytes);
}

#[test]
fn dictionaries_are_trained_and_used() {
    // Many small texts with common words, more than a megabyte of them.
    let mut entries = Vec::new();
    for k in 0..600u32 {
        let mut text = String::new();
        for j in 0..60u32 {
            text.push_str(&format!("field{} = value {} of record {}\n", j, k * j, k));
        }
        entries.push(file(&format!("r{:04}.txt", k), text.as_bytes()));
    }
    let copy: Vec<SourceEntry> = entries.iter().map(|e| file(&e.path, &e.data)).collect();
    let a = pack(entries, &["-level", "1", "-dict"], &no_env());
    let r = assert_same_tree(&copy, &a);
    assert!(!r.preamble.dict.is_empty());
    // Few samples give no dictionary.
    let b = pack(fixture(), &["-level", "1", "-dict"], &no_env());
    assert!(assert_same_tree(&fixture(), &b).preamble.dict.is_empty());
}

#[test]
fn links_and_directories_round_trip() {
    let entries = || vec![dir("d"), symlink("d/l", "../x"), file("d/f", b"1")];
    let a = pack(entries(), &["-level", "0"], &no_env());
    let r = assert_same_tree(&entries(), &a);
    assert_eq!(r.items[0].header.kind, EntryKind::Dir);
    assert_eq!(r.items[0].header.mode, 0o755);
    assert_eq!(r.items[1].header.kind, EntryKind::Symlink);
    assert_eq!(r.items[1].header.mode, 0o777);
    assert_eq!(r.items[2].header.mtime, 1_700_000_000);
}

#[test]
fn backslashes_become_slashes() {
    let a = pack(vec![file("d\\f", b"1")], &["-level", "1"], &no_env());
    assert_eq!(read_archive(&a).unwrap().items[0].header.path, "d/f");
}

#[test]
fn a_file_that_shrank_is_an_error() {
    let mut e = file("f", b"12345");
    e.size = 6;
    let opts = options(&["-level", "1"]);
    let input = prepare(vec![e], &opts);
    assert_eq!(
        add("out.syc", &opts, &no_env(), 1, &input).unwrap_err(),
        AddError::Archive(Error::FileTooShort)
    );
    let mut e = file("f", b"12345");
    e.size = 4;
    let opts = options(&["-level", "1", "-fastcdc"]);
    let input = prepare(vec![e], &opts);
    assert_eq!(
        add("out.syc", &opts, &no_env(), 1, &input).unwrap_err(),
        AddError::Archive(Error::FileChanged)
    );
}

#[test]
fn damaged_archives_are_refused() {
    assert_eq!(read_archive(b"").unwrap_err(), Error::UnexpectedEof);
    assert_eq!(read_archive(b"PK\x03\x04....").unwrap_err(), Error::BadMagic);
    assert_eq!(read_archive(b"SYC5\x07\x00").unwrap_err(), Error::UnknownBackend { id: 7 });
    let a = pack(fixture(), &["-level", "1"], &no_env());
    let n = a.len();
    assert_eq!(read_archive(&a[..n - 5]).unwrap_err(), Error::Decompressor);
    let mut flipped = a.clone();
    flipped[n / 2] ^= 0x10;
    assert!(read_archive(&flipped).is_err());
}

#[test]
fn wrong_hashes_are_found() {
    // The last bytes of a stored stream are those of the last file's hash.
    let a = pack(vec![file("f", b"contents")], &["-store", "-nolong"], &no_env());
    let opened = open_archive(&a).unwrap();
    let mut stream = opened.stream.clone();
    let n = stream.len();
    stream[n - 1] ^= 1;
    let framing = syc::frame::framing_of(&opened.preamble);
    assert_eq!(syc::reader::read_all(&stream, framing).unwrap_err(), Error::HashMismatch);
    assert!(syc::reader::read_all(&opened.stream, framing).is_ok());
}

#[test]
fn parts_join_to_the_archive() {
    let a = pack(fixture(), &["-level", "1"], &no_env());
    let parts = split_parts(&a, 100);
    assert!(parts.len() > 1);
    assert!(parts[..parts.len() - 1].iter().all(|p| p.len() == 100));
    assert_eq!(join_parts(&parts), a);
    assert_same_tree(&fixture(), &join_parts(&parts));
    assert_eq!(split_parts(&[1, 2, 3, 4], 2), vec![vec![1, 2], vec![3, 4]]);
    assert_eq!(split_parts(&[], 2), vec![Vec::<u8>::new()]);
}
