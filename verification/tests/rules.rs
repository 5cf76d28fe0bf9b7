//! The rules of the command line, of planning, of selection and of reports.

use syc::add::{add, prepare, AddError};
use syc::archive::{Backend, EntryHeader, EntryKind, HashAlgo, PpmdParams};
use syc::cli::{parse, parse_size, Cmd, CliError, Opts};
use syc::codec::Bcj;
use syc::color::Console;
use syc::dates::{days_to_ymd, fmt_mtime, parse_date_arg, DateError};
use syc::detect::{detect, FileKind};
use syc::dict::{adaptive_dict_target, gather_samples, train_dict, usable_dict};
use syc::entry::{SourceEntry, SourceKind};
use syc::frame::Compressor;
use syc::numbers::{eu_num, hms};
use syc::order::{solid_sort, text_less};
use syc::parts::{open_input, open_output, Input, Output};
use syc::paths::{extension, is_media_ext, is_stream_path, load_filelist, parent, part_path};
use syc::pipeline::{
    kind_label, order_jobs, pct, phase3_worker_count, pool_size, precompressed, DecodeJob, ExtKind,
    Plan, PrecompressBuffer, SpecificJob, SpecificKind,
};
use syc::plan::{
    auto_detect_bcj, build_lzma_stream, build_zstd, check_plan, env_u32, map_zstd_level, parse_bcj,
    parse_hash_algo, pick_backend, pick_ppmd_params, pick_threads, raw_bytes, Env, PlanError,
};
use syc::progress::Progress;
use syc::reader::UnpackedEntry;
use syc::report::{list_items, list_line, Step, Totals, Verdict, VerifyReport};
use syc::select::{apply_selectors, build_dedup_map, mark_duplicates, route};
use syc::snapshot::{dataset_of, detect_fs, plan_snapshot, FsKind, SnapshotPlan};
use syc::tree::{
    compare, dedupe_totals, duplicate_groups, fingerprint, shared_sizes, Fingerprint, IndexEntry,
};

fn args(line: &[&str]) -> Vec<String> {
    let mut v = vec!["syc".to_string()];
    v.extend(line.iter().map(|s| s.to_string()));
    v
}

fn options(flags: &[&str]) -> Opts {
    let mut line = vec!["a", "out.syc", "src"];
    line.extend_from_slice(flags);
    match parse(args(&line)) {
        Ok(Cmd::Add { opts, .. }) => opts,
        other => panic!("{:?}", other),
    }
}

fn flag_error(flags: &[&str]) -> CliError {
    let mut line = vec!["a", "out.syc", "src"];
    line.extend_from_slice(flags);
    parse(args(&line)).unwrap_err()
}

fn env() -> Env {
    Env {
        backend: None,
        bcj: None,
        ppmd_order: None,
        ppmd_mem_mb: None,
        lc: None,
        lp: None,
        pb: None,
        nice: None,
        dict: None,
        lzma_block_mib: None,
    }
}

fn file(path: &str, data: &[u8]) -> SourceEntry {
    SourceEntry {
        kind: SourceKind::File,
        mode: 0o644,
        size: data.len() as u64,
        mtime: 1000,
        path: path.to_string(),
        link_target: String::new(),
        xattrs: Vec::new(),
        data: data.to_vec(),
        duplicate_of: None,
    }
}

fn other(kind: SourceKind, path: &str) -> SourceEntry {
    SourceEntry { kind, ..file(path, b"") }
}

fn paths(v: &[SourceEntry]) -> Vec<&str> {
    v.iter().map(|e| e.path.as_str()).collect()
}

#[test]
fn commands_are_told_apart() {
    assert!(matches!(parse(args(&[])), Ok(Cmd::Banner)));
    assert!(matches!(parse(Vec::new()), Ok(Cmd::Banner)));
    assert!(matches!(parse(args(&["--version"])), Ok(Cmd::Version)));
    assert!(matches!(parse(args(&["-h"])), Ok(Cmd::Help { topic: None })));
    assert!(matches!(parse(args(&["help", "a", "-what"])), Ok(Cmd::Help { topic: Some(t) }) if t == "a"));
    match parse(args(&["add", "x.syc", "a", "-verbose", "b"])) {
        Ok(Cmd::Add { archive, sources, opts }) => {
            assert_eq!(archive, "x.syc");
            assert_eq!(sources, vec!["a", "b"]);
            assert!(opts.on.verbose);
            assert_eq!(opts.level, 5);
        }
        other => panic!("{:?}", other),
    }
    assert!(matches!(parse(args(&["x", "-"])), Ok(Cmd::Extract { archive, .. }) if archive == "-"));
    assert!(matches!(parse(args(&["l", "a"])), Ok(Cmd::List { .. })));
    assert!(matches!(parse(args(&["test", "a"])), Ok(Cmd::Test { .. })));
    assert!(matches!(parse(args(&["d", "dir"])), Ok(Cmd::Dedupe { root, .. }) if root == "dir"));
    assert!(matches!(parse(args(&["c", "p", "q"])), Ok(Cmd::Compare { left, right, .. }) if left == "p" && right == "q"));
    assert!(matches!(parse(args(&["v", "p", "q"])), Ok(Cmd::Verify { archive, source, .. }) if archive == "p" && source == "q"));
}

#[test]
fn commands_need_their_words() {
    assert!(matches!(parse(args(&["zap"])), Err(CliError::UnknownCommand(c)) if c == "zap"));
    assert!(matches!(parse(args(&["a"])), Err(CliError::NeedsArchive)));
    assert!(matches!(parse(args(&["a", "x"])), Err(CliError::NeedsSource)));
    assert!(matches!(parse(args(&["a", "x", "-filelist", "f"])), Ok(Cmd::Add { .. })));
    assert!(matches!(parse(args(&["x"])), Err(CliError::NeedsArchive)));
    assert!(matches!(parse(args(&["v", "x"])), Err(CliError::NeedsArchiveAndDir)));
    assert!(matches!(parse(args(&["d"])), Err(CliError::NeedsDir)));
    assert!(matches!(parse(args(&["c", "x"])), Err(CliError::NeedsTwoDirs)));
}

#[test]
fn flags_set_their_options() {
    let o = options(&[
        "-m", "7", "-j", "3", "-to", "d", "-find", "f", "-bcj", "arm", "-exec_ok", "ok",
        "-exec_error", "bad", "-exclude", "p", "-exclude", "q", "-minsize", "10", "-maxsize", "2K",
        "-filelist", "l", "-datefrom", "1970-01-02", "-dateto", "99", "-comment", "c", "-hash", "b3",
        "-delta", "4", "-chunk", "2", "-noeta", "-nc", "-lzp", "-fastcdc", "-snapshot",
    ]);
    assert_eq!(o.level, 7);
    assert_eq!(o.threads, 3);
    assert_eq!(o.to.as_deref(), Some("d"));
    assert_eq!(o.find.as_deref(), Some("f"));
    assert_eq!(o.bcj.as_deref(), Some("arm"));
    assert_eq!(o.exec_ok.as_deref(), Some("ok"));
    assert_eq!(o.exec_error.as_deref(), Some("bad"));
    assert_eq!(o.exclude, vec!["p", "q"]);
    assert_eq!(o.minsize, Some(10));
    assert_eq!(o.maxsize, Some(2048));
    assert_eq!(o.filelist.as_deref(), Some("l"));
    assert_eq!(o.datefrom, Some(86400));
    assert_eq!(o.dateto, Some(99));
    assert_eq!(o.comment.as_deref(), Some("c"));
    assert_eq!(o.hash.as_deref(), Some("b3"));
    assert_eq!(o.delta, Some(4));
    assert_eq!(o.chunk_bytes, Some(2 << 20));
    assert!(o.on.noprogress && o.on.nocolor && o.on.lzp && o.on.fastcdc && o.on.snapshot);
    assert!(!o.on.verbose && !o.on.append);
}

#[test]
fn bad_flags_are_refused() {
    assert!(matches!(flag_error(&["-zap"]), CliError::UnknownFlag(f) if f == "zap"));
    assert!(matches!(flag_error(&["-level"]), CliError::MissingValue(f) if f == "level"));
    assert!(matches!(flag_error(&["-level", "x"]), CliError::BadNumber));
    assert!(matches!(flag_error(&["-threads", "-1"]), CliError::BadNumber));
    assert!(matches!(flag_error(&["-delta", "3"]), CliError::BadStride(3)));
    assert!(matches!(flag_error(&["-delta", "300"]), CliError::BadNumber));
    assert!(matches!(flag_error(&["-minsize", "1X"]), CliError::BadSize));
    assert!(matches!(flag_error(&["-dateto", "soon"]), CliError::BadDate(DateError::Shape)));
}

#[test]
fn sizes_have_units() {
    assert_eq!(parse_size("100"), Some((100, true)));
    assert_eq!(parse_size("100B"), Some((100, false)));
    assert_eq!(parse_size("100MB"), Some((100 << 20, false)));
    assert_eq!(parse_size("2GB"), Some((2 << 30, false)));
    assert_eq!(parse_size("1.5GiB"), Some((3 << 29, false)));
    assert_eq!(parse_size("1KiB"), Some((1024, false)));
    assert_eq!(parse_size("3T"), Some((3 << 40, false)));
    assert_eq!(parse_size("0.0001K"), Some((0, false)));
    assert_eq!(parse_size("18446744073709551615"), Some((u64::MAX, true)));
    assert_eq!(parse_size("1.500000000000000000M"), Some((3 << 19, false)));
    assert_eq!(parse_size("1.5000000000000000000000000000000G"), Some((3 << 29, false)));
    assert_eq!(parse_size("0.99999999999999999999999999999K"), Some((1023, false)));
    assert_eq!(parse_size("000000000000000000000000000001.5K"), Some((1536, false)));
    assert_eq!(parse_size("16777215.99999999999999999999T"), Some((u64::MAX, false)));
    assert_eq!(parse_size("1.9B"), Some((1, false)));
    for bad in [
        "1.5", "0.0", "16777216.0T", "99999999999999999999999.5B", "+1.5K",
    ] {
        assert_eq!(parse_size(bad), None, "{}", bad);
    }
    for bad in ["", "K", "1.K", ".5K", "1..5K", "1Q", "1KBB", "-1", "18446744073709551616", "99999999T"] {
        assert_eq!(parse_size(bad), None, "{}", bad);
    }
}

#[test]
fn chunks_count_mebibytes_without_a_unit() {
    assert_eq!(options(&["-chunk", "3"]).chunk_bytes, Some(3 << 20));
    assert_eq!(options(&["-chunk", "3K"]).chunk_bytes, Some(3072));
    assert_eq!(options(&["-chunk", "0"]).chunk_bytes, Some(1));
    assert!(matches!(flag_error(&["-chunk", "1.5"]), CliError::BadSize));
    assert!(matches!(flag_error(&["-minsize", "1.5"]), CliError::BadSize));
    assert_eq!(options(&["-chunk", "99999999999999999"]).chunk_bytes, Some(u64::MAX));
}

#[test]
fn dates_are_days_of_the_calendar() {
    assert_eq!(parse_date_arg("1970-01-01"), Ok(0));
    assert_eq!(parse_date_arg(" 2000-03-01 "), Ok(951_868_800));
    assert_eq!(parse_date_arg("1969-12-31"), Ok(-86400));
    assert_eq!(parse_date_arg("1234567890"), Ok(1_234_567_890));
    assert_eq!(parse_date_arg("2024-13-01"), Err(DateError::Range));
    assert_eq!(parse_date_arg("2024-00-01"), Err(DateError::Range));
    assert_eq!(parse_date_arg("x-01-01"), Err(DateError::Year));
    assert_eq!(parse_date_arg("2024-x-01"), Err(DateError::Month));
    assert_eq!(parse_date_arg("2024-01-x"), Err(DateError::Day));
    assert_eq!(parse_date_arg("2024-01"), Err(DateError::Shape));
    assert_eq!(parse_date_arg("99999999999999999999"), Err(DateError::Seconds));
    assert_eq!(days_to_ymd(0), (1970, 1, 1));
    assert_eq!(days_to_ymd(11_016), (2000, 2, 29));
    assert_eq!(days_to_ymd(11_017), (2000, 3, 1));
    assert_eq!(fmt_mtime(951_868_800 + 3661), "2000-03-01 01:01:01");
    assert_eq!(fmt_mtime(-5), "1970-01-01 00:00:00");
}

#[test]
fn numbers_are_grouped() {
    assert_eq!(eu_num(0), "0");
    assert_eq!(eu_num(999), "999");
    assert_eq!(eu_num(131_858), "131.858");
    assert_eq!(eu_num(1_000_000), "1.000.000");
    assert_eq!(hms(3661), "01:01:01");
    assert_eq!(hms(360_000), "100:00:00");
}

#[test]
fn names_and_extensions() {
    assert_eq!(extension("a/b.tar.gz").as_deref(), Some("gz"));
    assert_eq!(extension("a.d/b"), None);
    assert_eq!(extension(".bashrc"), None);
    assert_eq!(extension("x."), Some(String::new()));
    assert_eq!(extension(".."), None);
    assert_eq!(parent("a/b/c"), "a/b");
    assert_eq!(parent("c"), "");
    assert!(is_media_ext("x/Photo.JPG"));
    assert!(is_media_ext("a.tzst"));
    assert!(!is_media_ext("jpg"));
    assert!(!is_media_ext("a.txt"));
    assert!(is_stream_path("-"));
    assert!(!is_stream_path("--"));
    assert_eq!(part_path("a.syc", 1), "a.syc.001");
    assert_eq!(part_path("a.syc", 1000), "a.syc.1000");
}

#[test]
fn file_lists_have_comments() {
    assert_eq!(
        load_filelist("# list\r\n a/b \n\n\t\n#x\nc d"),
        vec!["a/b".to_string(), "c d".to_string()]
    );
    assert!(load_filelist("").is_empty());
    assert_eq!(load_filelist("one\n"), vec!["one".to_string()]);
}

#[test]
fn selectors_keep_what_fits() {
    let all = || {
        let mut late = file("late", b"12345");
        late.mtime = 5000;
        vec![
            other(SourceKind::Dir, "dir"),
            file("dir/small", b"1"),
            file("dir/mid", b"123"),
            late,
            file("tmp/x", b"123"),
        ]
    };
    assert_eq!(apply_selectors(all(), &options(&[])).len(), 5);
    let kept = apply_selectors(all(), &options(&["-exclude", "tmp/", "-minsize", "2"]));
    assert_eq!(paths(&kept), vec!["dir", "dir/mid", "late"]);
    let kept = apply_selectors(all(), &options(&["-maxsize", "3", "-dateto", "2000"]));
    assert_eq!(paths(&kept), vec!["dir", "dir/small", "dir/mid", "tmp/x"]);
    let kept = apply_selectors(all(), &options(&["-datefrom", "2000"]));
    assert_eq!(paths(&kept), vec!["dir", "late"]);
}

#[test]
fn solid_order_groups_like_with_like() {
    let v = vec![
        file("z.txt", b"1"),
        file("b/a.TXT", b"22"),
        file("a.bin", b"333"),
        other(SourceKind::Symlink, "link"),
        other(SourceKind::Dir, "b"),
        file("b/b.txt", b"1"),
        file("noext", b""),
    ];
    assert_eq!(
        paths(&solid_sort(v)),
        vec!["b", "link", "noext", "a.bin", "z.txt", "b/b.txt", "b/a.TXT"]
    );
}

#[test]
fn solid_order_is_stable() {
    let mut first = file("Same.txt", b"x");
    first.mode = 1;
    let mut second = file("same.TXT", b"y");
    second.mode = 2;
    let sorted = solid_sort(vec![first, second]);
    assert_eq!(sorted[0].mode, 1);
    assert_eq!(sorted[1].mode, 2);
}

#[test]
fn orders_of_texts() {
    assert!(text_less("a", "b", false));
    assert!(text_less("", "a", false));
    assert!(!text_less("a", "a", false));
    // Paths are ordered by components: all below `a` comes before `a.txt`.
    assert!(text_less("a/b", "a.txt", true));
    assert!(!text_less("a/b", "a.txt", false));
    assert!(text_less("é", "ü", false));
}

#[test]
fn duplicates_refer_to_the_first() {
    let v = vec![
        file("d\\one", b"same"),
        file("empty1", b""),
        file("two", b"same"),
        file("empty2", b""),
        file("other", b"diff"),
        file("three", b"same"),
    ];
    let map = build_dedup_map(&v);
    let want = [None, None, Some("d/one"), None, None, Some("d/one")];
    assert_eq!(map.iter().map(|m| m.as_deref()).collect::<Vec<_>>(), want);
    let marked = mark_duplicates(v);
    assert_eq!(marked[5].duplicate_of.as_deref(), Some("d/one"));
    assert_eq!(marked[0].duplicate_of, None);
    assert_eq!(marked[5].path, "three");
}

#[test]
fn media_files_are_routed() {
    let (plain, media) = route(vec![file("a.txt", b""), file("b.png", b""), file("c", b"")]);
    assert_eq!(paths(&plain), vec!["a.txt", "c"]);
    assert_eq!(paths(&media), vec!["b.png"]);
    // Nothing is routed where the archive is added to.
    let p = prepare(vec![file("b.png", b"")], &options(&["-route", "-append"]));
    assert_eq!(p.entries.len(), 1);
    assert!(p.media.is_empty());
}

#[test]
fn backends_by_level() {
    let ppmd = Env { backend: Some("ppmd".to_string()), ..env() };
    let zstd = Env { backend: Some("zstd".to_string()), ..env() };
    let odd = Env { backend: Some("gzip".to_string()), ..env() };
    assert_eq!(pick_backend(4, false, &ppmd), Backend::Zstd);
    assert_eq!(pick_backend(5, false, &env()), Backend::Lzma);
    assert_eq!(pick_backend(5, true, &env()), Backend::Zstd);
    assert_eq!(pick_backend(5, false, &ppmd), Backend::Ppmd);
    assert_eq!(pick_backend(9, false, &zstd), Backend::Zstd);
    assert_eq!(pick_backend(9, false, &odd), Backend::Lzma);
    assert_eq!(pick_ppmd_params(7, &env()), PpmdParams { order: 8, mem_mb: 128 });
    assert_eq!(pick_ppmd_params(8, &env()), PpmdParams { order: 10, mem_mb: 192 });
    assert_eq!(pick_ppmd_params(9, &env()), PpmdParams { order: 12, mem_mb: 192 });
    assert_eq!(pick_ppmd_params(10, &env()), PpmdParams { order: 16, mem_mb: 256 });
    let wild = Env { ppmd_order: Some("99".to_string()), ppmd_mem_mb: Some("0".to_string()), ..env() };
    assert_eq!(pick_ppmd_params(7, &wild), PpmdParams { order: 16, mem_mb: 1 });
    let levels: Vec<i32> = (0..=5).map(map_zstd_level).collect();
    assert_eq!(levels, vec![-5, 1, 15, 19, 19, 9]);
    assert_eq!(env_u32(&Some("+7".to_string()), 1), 7);
    assert_eq!(env_u32(&Some("x".to_string()), 1), 1);
    assert_eq!(env_u32(&Some("4294967296".to_string()), 1), 1);
}

#[test]
fn hashes_and_filters_by_name() {
    let hash = |s: &str| parse_hash_algo(&Some(s.to_string()));
    assert_eq!(parse_hash_algo(&None), Ok(HashAlgo::Crc32));
    assert_eq!(hash(" CRC "), Ok(HashAlgo::Crc32));
    assert_eq!(hash(""), Ok(HashAlgo::Crc32));
    assert_eq!(hash("XXHash3"), Ok(HashAlgo::Xxh3));
    assert_eq!(hash("b3"), Ok(HashAlgo::Blake3));
    assert_eq!(hash("md5"), Err(PlanError::UnknownHash));
    assert_eq!(parse_bcj("none"), Some(Bcj::Off));
    assert_eq!(parse_bcj("powerpc"), Some(Bcj::PowerPc));
    assert_eq!(parse_bcj("X86"), None);
}

#[test]
fn compressors_by_level() {
    assert_eq!(
        build_zstd(1, false, 2, false, true),
        Compressor::Zstd { level: 1, threads: 2, window_log: 27, long: true }
    );
    assert_eq!(
        build_zstd(4, false, 0, true, true),
        Compressor::ZstdUltra {
            level: 19,
            threads: 0,
            window_log: 0,
            long: false,
            chain_log: 28,
            hash_log: 27,
            search_log: 10,
            target_length: 999,
        }
    );
    assert!(matches!(build_zstd(4, false, 0, true, false), Compressor::Zstd { level: 19, .. }));
    assert!(matches!(build_zstd(4, true, 0, true, true), Compressor::Zstd { level: 0, .. }));
    match build_lzma_stream(5, 4, 402_653_183, Bcj::X86, &env()) {
        Compressor::Xz { chain } => {
            assert_eq!(chain.preset, 9 | 1 << 31);
            assert_eq!((chain.lc, chain.lp, chain.pb, chain.nice_len), (4, 0, 0, 273));
            assert_eq!(chain.dict_size, 64 << 20);
            assert_eq!(chain.bcj, Bcj::X86);
        }
        other => panic!("{:?}", other),
    }
    assert!(matches!(
        build_lzma_stream(5, 4, 402_653_184, Bcj::Off, &env()),
        Compressor::XzBlocks { threads: 4, block: 201_326_592, .. }
    ));
    assert!(matches!(build_lzma_stream(5, 1, u64::MAX, Bcj::Off, &env()), Compressor::Xz { .. }));
    assert!(matches!(
        build_lzma_stream(7, 0, 0, Bcj::Off, &env()),
        Compressor::Xz { chain } if chain.dict_size == 128 << 20
    ));
}

#[test]
fn threads_follow_the_input() {
    assert_eq!(pick_threads(0, 268_435_455, 16), 0);
    assert_eq!(pick_threads(0, 268_435_456, 16), 8);
    assert_eq!(pick_threads(0, 268_435_456, 3), 3);
    assert_eq!(pick_threads(0, 268_435_456, 0), 1);
    assert_eq!(pick_threads(5, 268_435_456, 16), 5);
    assert_eq!(raw_bytes(&[file("a", b"12"), other(SourceKind::Dir, "d"), file("b", b"345")]), 5);
}

fn elf(machine: u8) -> Vec<u8> {
    let mut d = vec![0u8; 64];
    d[..4].copy_from_slice(b"\x7FELF");
    d[18] = machine;
    d
}

#[test]
fn programs_are_detected() {
    let mz = {
        let mut d = vec![0u8; 64];
        d[..2].copy_from_slice(b"MZ");
        d
    };
    let plain = vec![b'x'; 64];
    let list = |v: &[&Vec<u8>]| v.iter().map(|d| file("f", d)).collect::<Vec<_>>();
    let x64 = elf(0x3E);
    let arm = elf(0xB7);
    assert_eq!(auto_detect_bcj(&list(&[&x64, &mz, &plain, &plain])), Bcj::X86);
    assert_eq!(auto_detect_bcj(&list(&[&x64, &mz, &plain])), Bcj::Off);
    assert_eq!(auto_detect_bcj(&list(&[&x64, &arm, &plain, &plain])), Bcj::Off);
    assert_eq!(auto_detect_bcj(&list(&[&elf(3), &elf(3), &plain, &plain, &plain, &plain])), Bcj::X86);
    assert_eq!(auto_detect_bcj(&[]), Bcj::Off);
    // Only the first 64 entries count.
    let mut many: Vec<SourceEntry> = (0..64).map(|_| file("t", &plain)).collect();
    many.extend((0..200).map(|_| file("p", &x64)));
    assert_eq!(auto_detect_bcj(&many), Bcj::Off);
}

fn fault(archive: &str, flags: &[&str], env: &Env, total: u64) -> Option<PlanError> {
    check_plan(archive, &options(flags), env, total, Bcj::Off)
}

#[test]
fn flags_that_do_not_go_together() {
    let ppmd = Env { backend: Some("ppmd".to_string()), ..env() };
    let big = (1u64 << 30) + 1;
    assert_eq!(fault("a", &[], &env(), 0), None);
    assert_eq!(fault("a", &["-level", "11"], &env(), 0), Some(PlanError::BadLevel));
    assert_eq!(fault("a", &["-level", "-1"], &env(), 0), Some(PlanError::BadLevel));
    assert_eq!(fault("-", &["-chunk", "1"], &env(), 0), Some(PlanError::ChunkToStdout));
    assert_eq!(fault("a", &["-hash", "md5"], &env(), 0), Some(PlanError::UnknownHash));
    assert_eq!(fault("a", &["-hash", "md5", "-nochecksum"], &env(), 0), None);
    assert_eq!(fault("a", &["-delta", "2"], &ppmd, 0), Some(PlanError::DeltaWithPpmd));
    assert_eq!(fault("a", &["-delta", "2"], &env(), big), Some(PlanError::DeltaWithMatcher));
    assert_eq!(fault("a", &["-delta", "2"], &env(), big - 1), None);
    assert_eq!(fault("a", &["-delta", "2", "-nopreproc"], &env(), big), None);
    assert_eq!(fault("a", &["-delta", "2", "-fastcdc"], &env(), 0), Some(PlanError::FastcdcWithDelta));
    assert_eq!(fault("a", &["-lzp", "-level", "3"], &env(), 0), Some(PlanError::LzpBackend));
    assert_eq!(fault("a", &["-lzp"], &env(), big), Some(PlanError::LzpWithMatcher));
    assert_eq!(fault("a", &["-lzp", "-delta", "2"], &env(), 0), Some(PlanError::LzpWithDelta));
    assert_eq!(fault("a", &["-route"], &ppmd, 0), Some(PlanError::RouteWithPpmd));
    assert_eq!(fault("a", &["-route"], &env(), big), Some(PlanError::RouteWithMatcher));
    assert_eq!(fault("a", &["-route", "-lzp"], &env(), 0), Some(PlanError::RouteWithLzp));
    assert_eq!(fault("a", &["-route", "-delta", "1"], &env(), 0), Some(PlanError::RouteWithDelta));
    assert_eq!(fault("-", &["-route"], &env(), 0), Some(PlanError::RouteToStdout));
    assert_eq!(fault("a", &["-route", "-chunk", "1"], &env(), 0), Some(PlanError::RouteWithChunk));
    let long = "x".repeat(65536);
    assert_eq!(fault("a", &["-comment", &long], &env(), 0), Some(PlanError::CommentTooLong));
    assert_eq!(fault("a", &["-bcj", "z80"], &env(), 0), Some(PlanError::UnknownBcj));
    assert_eq!(fault("a", &["-bcj", "z80", "-level", "1"], &env(), 0), None);
    let odd = Env { bcj: Some("z80".to_string()), ..env() };
    assert_eq!(fault("a", &[], &odd, 0), Some(PlanError::UnknownEnvBcj));
    assert_eq!(fault("a", &["-bcj", "off"], &odd, 0), None);
    let mut o = options(&[]);
    o.delta = Some(3);
    assert_eq!(check_plan("a", &o, &env(), 0, Bcj::Off), Some(PlanError::BadStride));
}

#[test]
fn packing_reports_the_fault() {
    let o = options(&["-level", "1", "-lzp"]);
    let input = prepare(vec![file("f", b"1")], &o);
    assert_eq!(add("a", &o, &env(), 1, &input).unwrap_err(), AddError::Plan(PlanError::LzpBackend));
}

#[test]
fn outputs_and_inputs() {
    assert!(matches!(open_output("-", None), Ok(Output::Stdout)));
    assert!(matches!(open_output("-", Some(5)), Err(PlanError::ChunkToStdout)));
    assert!(matches!(open_output("a", Some(5)), Ok(Output::Parts { size: 5 })));
    assert!(matches!(open_output("a", None), Ok(Output::File { temporary }) if temporary == "a.tmp"));
    assert_eq!(open_input("-", false, false), Some(Input::Stdin));
    assert_eq!(open_input("a", true, true), Some(Input::File));
    assert_eq!(open_input("a", false, true), Some(Input::Parts));
    assert_eq!(open_input("a", false, false), None);
}

#[test]
fn samples_for_dictionaries() {
    let big = vec![7u8; 300_000];
    let v = vec![file("a", &big), other(SourceKind::Dir, "d"), file("e", b""), file("b", b"xy")];
    let s = gather_samples(&v);
    assert_eq!(s.len(), 2);
    assert_eq!(s[0].len(), 262_144);
    assert_eq!(s[1], b"xy");
    let many: Vec<SourceEntry> = (0..80).map(|_| file("a", &big)).collect();
    let s = gather_samples(&many);
    assert_eq!(s.len(), 64);
    assert_eq!(s.iter().map(|x| x.len()).sum::<usize>(), 16 << 20);
    assert!(train_dict(&s[..6], 65_536).is_empty());
    assert!(train_dict(&[vec![1u8; 10], vec![2u8; 10]], 65_536).is_empty());
    assert_eq!(usable_dict(Some(vec![1, 2])), vec![1, 2]);
    assert!(usable_dict(None).is_empty());
    let targets: Vec<usize> = [0, (64 << 20) - 1, 64 << 20, 512 << 20, 2u64 << 30]
        .iter()
        .map(|n| adaptive_dict_target(*n))
        .collect();
    assert_eq!(targets, vec![65_536, 65_536, 112_640, 196_608, 262_144]);
}

fn item(kind: EntryKind, path: &str, link: &str, mtime: i64, body: &[u8]) -> UnpackedEntry {
    UnpackedEntry {
        header: EntryHeader {
            kind,
            mode: 0o644,
            size: body.len() as u64,
            mtime,
            path: path.to_string(),
            link_target: link.to_string(),
        },
        xattrs: Vec::new(),
        body: body.to_vec(),
    }
}

#[test]
fn listings_find_and_count() {
    let items = vec![
        item(EntryKind::Dir, "Docs", "", 0, b""),
        item(EntryKind::File, "Docs/Read.ME", "", 0, b"12345"),
        item(EntryKind::ChunkedFile, "other", "", 0, b"123"),
        item(EntryKind::HardLink, "docs2", "other", 0, b""),
    ];
    let all = list_items(&items, &None, false);
    assert_eq!(all.rows, vec![0, 1, 2, 3]);
    assert_eq!(all.totals, Totals { entries: 4, files: 2, bytes: 8 });
    assert_eq!(list_items(&items, &Some("DOCS".to_string()), false).rows, vec![0, 1, 3]);
    assert_eq!(list_items(&items, &Some("read.me".to_string()), false).rows, vec![1]);
    let short = list_items(&items, &None, true);
    assert!(short.rows.is_empty());
    assert_eq!(short.totals, all.totals);
}

#[test]
fn lines_of_a_listing() {
    let console = Console::init(false, false, false);
    let line = |i: UnpackedEntry| list_line(&i.header, &console);
    assert_eq!(
        line(item(EntryKind::File, "f", "", 951_868_800, &[0; 1234])),
        "2000-03-01 00:00:00           1.234         f"
    );
    assert_eq!(
        line(item(EntryKind::Symlink, "l", "t", 0, b"")),
        "                                  0  <lnk>  l -> t"
    );
    assert_eq!(
        line(item(EntryKind::Dir, "d", "t", 0, b"")),
        "                                  0  <dir>  d"
    );
    let colours = Console::init(true, false, false);
    assert!(list_line(&item(EntryKind::Dir, "d", "", 0, b"").header, &colours)
        .contains("\x1b[1;36m<dir>\x1b[0m"));
}

#[test]
fn verifying_against_a_tree() {
    let mut r = VerifyReport::new();
    let f = item(EntryKind::File, "f", "", 0, b"abc");
    let d = item(EntryKind::Dir, "d", "", 0, b"");
    assert_eq!(r.check(&f, &Some(b"abc".to_vec())), Verdict::Same);
    assert_eq!(r.check(&f, &Some(b"abcd".to_vec())), Verdict::Different);
    assert_eq!(r.check(&f, &Some(b"ab".to_vec())), Verdict::Different);
    assert_eq!(r.check(&f, &None), Verdict::Missing);
    assert_eq!(r.check(&d, &Some(b"whatever".to_vec())), Verdict::Same);
    assert_eq!(r.check(&d, &None), Verdict::Missing);
    assert_eq!(r, VerifyReport { checked: 4, mismatches: 4, bytes: 12 });
}

#[test]
fn verifying_stops_at_the_first_mismatch() {
    let f = item(EntryKind::File, "f", "", 0, b"abc");
    let mut r = VerifyReport::new();
    assert_eq!(r.exit_code(), 0);
    assert_eq!(r.step(&f, &Some(b"abc".to_vec())), Step::GoOn);
    assert_eq!(r.exit_code(), 0);
    assert_eq!(r.step(&f, &Some(b"abd".to_vec())), Step::Stop(Verdict::Different));
    assert_eq!(r, VerifyReport { checked: 2, mismatches: 1, bytes: 6 });
    assert_eq!(r.exit_code(), 2);
    let mut r = VerifyReport::new();
    assert_eq!(r.step(&f, &None), Step::Stop(Verdict::Missing));
    assert_eq!(r.exit_code(), 2);
}

fn index(path: &str, size: u64, crc: u32) -> IndexEntry {
    IndexEntry { path: path.to_string(), print: Fingerprint { size, crc } }
}

#[test]
fn trees_are_compared_by_path() {
    let a = vec![index("z", 1, 1), index("a/b", 2, 2), index("a.txt", 3, 3), index("m", 4, 4)];
    let b = vec![index("m", 4, 5), index("z", 1, 1), index("n", 0, 0), index("b", 9, 9)];
    let c = compare(a, b);
    assert_eq!(c.only_a, vec!["a/b", "a.txt"]);
    assert_eq!(c.only_b, vec!["b", "n"]);
    assert_eq!(c.differing, vec!["m"]);
    assert_eq!(c.same, 1);
    assert!(!c.is_match());
    let same = compare(vec![index("x", 1, 1)], vec![index("x", 1, 1)]);
    assert!(same.is_match());
    assert_eq!(same.same, 1);
    assert_eq!(fingerprint(9, b"123456789"), Fingerprint { size: 9, crc: 0xCBF43926 });
}

#[test]
fn duplicates_are_grouped() {
    assert_eq!(shared_sizes(&[5, 7, 5, 9, 7]), vec![true, true, true, false, true]);
    let files = vec![
        index("d/z", 5, 1),
        index("b", 5, 1),
        index("alone", 5, 2),
        index("big2", 900, 7),
        index("big1", 900, 7),
        index("big3", 900, 7),
    ];
    let g = duplicate_groups(files);
    assert_eq!(g.len(), 2);
    assert_eq!(g[0].size, 900);
    assert_eq!(g[0].paths, vec!["big1", "big2", "big3"]);
    assert_eq!(g[1].size, 5);
    assert_eq!(g[1].paths, vec!["b", "d/z"]);
    assert_eq!(dedupe_totals(&g), (3, 1805));
    assert!(duplicate_groups(Vec::new()).is_empty());
}

#[test]
fn classify_extensions() {
    assert_eq!(ExtKind::classify("a.jpg"), ExtKind::Jpeg);
    assert_eq!(ExtKind::classify("A.JPEG"), ExtKind::Jpeg);
    assert_eq!(ExtKind::classify("p.png"), ExtKind::Png);
    assert_eq!(ExtKind::classify("p.APNG"), ExtKind::Png);
    assert_eq!(ExtKind::classify("v.mp4"), ExtKind::Media);
    assert_eq!(ExtKind::classify("README.md"), ExtKind::Other);
    assert_eq!(ExtKind::classify("noext"), ExtKind::Other);
}

#[test]
fn percentile_basic() {
    assert_eq!(pct(&[], 50), 0);
    assert_eq!(pct(&[42], 50), 42);
    assert_eq!(pct(&[1, 2, 3, 4, 5], 50), 3);
    assert_eq!(pct(&[1, 2, 3, 4, 5], 95), 5);
}

#[test]
fn scans_are_summed_up() {
    let found = |rel: &str, size: Option<u64>| (format!("/src/{}", rel), rel.to_string(), size);
    let p = Plan::from_entries(&[
        found("a.jpg", Some(10)),
        found("dir", None),
        found("b.txt", Some(5)),
        found("c.txt", Some(100)),
    ]);
    assert_eq!(p.total_bytes, 115);
    assert_eq!(p.regular_count, 3);
    assert_eq!(p.type_bytes.get(ExtKind::Other), 105);
    assert_eq!(p.type_count.get(ExtKind::Jpeg), 1);
    assert_eq!((p.p50_size, p.p95_size), (10, 100));
    assert_eq!(p.files[1].size, 0);
    assert!(!p.files[1].is_regular);
    let s = p.to_scan_summary();
    assert_eq!(s.total_bytes, 115);
    assert_eq!(s.file_count, 3);
    assert_eq!(s.type_dist, vec![(0, 1, 10), (3, 2, 105)]);
    assert_eq!(kind_label(ExtKind::Jpeg), "jpg");
}

#[test]
fn workers_and_jobs() {
    assert_eq!(phase3_worker_count(0, 12), 12);
    assert_eq!(phase3_worker_count(4, 12), 4);
    assert_eq!(phase3_worker_count(40, 12), 12);
    assert_eq!(phase3_worker_count(0, 0), 1);
    assert_eq!(pool_size(8, 3), 3);
    assert_eq!(pool_size(0, 3), 1);
    let job = |idx: usize| SpecificJob {
        idx,
        full: String::new(),
        rel: format!("r{}", idx),
        kind: SpecificKind::Pjg,
    };
    let order: Vec<usize> = order_jobs(vec![job(2), job(9), job(4)]).iter().map(|j| j.idx).collect();
    assert_eq!(order, vec![9, 4, 2]);
    let p = precompressed(&job(3), b"original", vec![1], 5, 6, Some(HashAlgo::Crc32));
    assert_eq!(p.original_size, 8);
    assert_eq!(p.rel, "r3");
    let decode = DecodeJob {
        full_path: String::new(),
        kind: SpecificKind::Pjg,
        body: p.body,
        hash_trailer: p.hash_trailer,
        hash_algo: Some(HashAlgo::Crc32),
        mtime: 0,
        mode: 0,
        xattrs: None,
        size: 8,
        rel_display: String::new(),
    };
    assert!(decode.hash_matches(b"original"));
    assert!(!decode.hash_matches(b"changed!"));
}

#[test]
fn results_wait_for_their_turn() {
    let mut b: PrecompressBuffer<&str> = PrecompressBuffer::new();
    assert_eq!(b.arrive(3, "three", 1), None);
    assert_eq!(b.arrive(1, "one", 1), Some("one"));
    assert_eq!(b.left(), 1);
    assert_eq!(b.take(3), Some("three"));
    assert_eq!(b.take(3), None);
    assert_eq!(b.left(), 0);
}

#[test]
fn pictures_by_their_first_bytes() {
    assert_eq!(detect(&[0xFF, 0xD8]), FileKind::Jpeg);
    assert_eq!(detect(&[0x89, b'P', b'N', b'G', 0x0D]), FileKind::Png);
    assert_eq!(detect(&[0x89, b'P', b'N']), FileKind::Other);
    assert_eq!(detect(&[]), FileKind::Other);
}

#[test]
fn lines_are_numbered_and_coloured() {
    let mut plain = Console::init(true, true, false);
    assert!(!plain.enabled());
    assert_eq!(plain.err_line("bad"), "00001! bad");
    assert_eq!(plain.err_line("bad"), "00002! bad");
    assert_eq!(plain.warn_line("odd"), "00001: odd");
    assert_eq!(plain.err_count(), 2);
    assert_eq!(plain.warn_count(), 1);
    assert_eq!(plain.footer(true).unwrap(), "(2 errors, 1 warning, with errors)");
    assert_eq!(plain.footer(false).unwrap(), "(1 warning)");
    assert_eq!(Console::init(true, false, true).footer(false), None);
    let mut colours = Console::init(true, false, false);
    assert_eq!(colours.g("x"), "\x1b[1;32mx\x1b[0m");
    assert_eq!(colours.r("x"), "\x1b[1;31mx\x1b[0m");
    assert_eq!(colours.y("x"), "\x1b[1;33mx\x1b[0m");
    assert_eq!(colours.c("x"), "\x1b[1;36mx\x1b[0m");
    assert_eq!(colours.err_line("e"), "\x1b[1;31m00001! e\x1b[0m");
    colours.errors = u32::MAX;
    assert_eq!(colours.err_line("e"), "\x1b[1;31m00000! e\x1b[0m");
}

#[test]
fn progress_is_shown_once_a_second() {
    let mut p = Progress::new(4_000_000, true);
    assert!(!p.advance(999_999, 0));
    assert!(p.advance(1, 0));
    assert!(!p.advance(1, 0));
    assert!(p.advance(1, 1));
    assert_eq!(p.remaining(), 2_999_998);
    assert_eq!(p.rate(2), 500_001);
    assert_eq!(p.rate(0), 1_000_002);
    p.done = 5_000_000;
    assert_eq!(p.done_capped(), 4_000_000);
    assert_eq!(p.remaining(), 0);
    p.done = 1_000_000;
    assert_eq!(p.projection(250_000), 1_000_000);
    assert!(!Progress::new(0, false).advance(5, 1));
    assert!(Progress::new(0, true).advance(5, 1));
    assert_eq!(Progress::new(7, true).projection(3), 0);
}

#[test]
fn snapshots_by_file_system() {
    assert_eq!(detect_fs(0x9123683E), Some(FsKind::Btrfs));
    assert_eq!(detect_fs(0xEF53).map(|f| f.name()), Some("ext4"));
    assert_eq!(detect_fs(1), None);
    assert_eq!(plan_snapshot(Some(FsKind::Zfs)), SnapshotPlan::Zfs);
    assert_eq!(plan_snapshot(Some(FsKind::Xfs)), SnapshotPlan::Live);
    assert_eq!(plan_snapshot(None), SnapshotPlan::Live);
    assert_eq!(dataset_of("Filesystem\ntank/home  \n").as_deref(), Some("tank/home"));
    assert_eq!(dataset_of("Filesystem\n"), None);
}
