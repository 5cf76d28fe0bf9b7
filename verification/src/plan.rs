//! How flags, environment and input decide the way an archive is made.

use vstd::prelude::*;
use vstd::utf8::encode_utf8;
use crate::archive::{
    ArchiveVersion, Backend, CURRENT_VERSION, FEATURE_COMMENT, FEATURE_CRC32, FEATURE_DELTA,
    FEATURE_HASH_ALGO, FEATURE_XATTRS, HashAlgo, PREPROC_LZP, PREPROC_REP, PREPROC_SREP,
    PpmdParams, Preamble, PreambleView, chars_of, flag_set, preamble_consistent, utf8_len,
};
use crate::cli::{Opts, OptsView};
use crate::codec::{Bcj, LzmaChain};
use crate::delta::{is_valid_stride, valid_stride};
use crate::entry::{SourceEntry, SourceKind, SourceView, capped, source_views};
use crate::frame::{ArchivePlan, Compressor};
use crate::numbers::{parse_unsigned, unsigned_value, within};
use crate::paths::is_stream_path;
use crate::text::{ascii_lowercase, ascii_lowered, str_eq, trimmed};

verus! {

/// Why an archive cannot be made the way the flags ask for.
#[derive(Clone, Copy, Debug, PartialEq, Eq, Structural)]
pub enum PlanError {
    BadLevel,
    ChunkToStdout,
    UnknownHash,
    BadStride,
    DeltaWithPpmd,
    DeltaWithMatcher,
    FastcdcWithDelta,
    LzpBackend,
    LzpWithMatcher,
    LzpWithDelta,
    RouteWithPpmd,
    RouteWithMatcher,
    RouteWithLzp,
    RouteWithDelta,
    RouteToStdout,
    RouteWithChunk,
    CommentTooLong,
    UnknownBcj,
    UnknownEnvBcj,
    AppendToStdout,
    AppendWithChunk,
    AppendWithFastcdc,
    AppendWithLzp,
    AppendToPpmd,
    AppendToMatcher,
    AppendToLzp,
    AppendToDelta,
}

/// The variables of the environment that tune an archive: `SYC_BACKEND`,
/// `SYC_BCJ`, `SYC_PPMD_ORDER`, `SYC_PPMD_MEM_MB`, `SYC_LC`, `SYC_LP`,
/// `SYC_PB`, `SYC_NICE`, `SYC_DICT` and `SYC_LZMA_BLOCK_MIB`.
#[derive(Debug)]
pub struct Env {
    pub backend: Option<String>,
    pub bcj: Option<String>,
    pub ppmd_order: Option<String>,
    pub ppmd_mem_mb: Option<String>,
    pub lc: Option<String>,
    pub lp: Option<String>,
    pub pb: Option<String>,
    pub nice: Option<String>,
    pub dict: Option<String>,
    pub lzma_block_mib: Option<String>,
}

pub struct EnvView {
    pub backend: Option<Seq<char>>,
    pub bcj: Option<Seq<char>>,
    pub ppmd_order: Option<Seq<char>>,
    pub ppmd_mem_mb: Option<Seq<char>>,
    pub lc: Option<Seq<char>>,
    pub lp: Option<Seq<char>>,
    pub pb: Option<Seq<char>>,
    pub nice: Option<Seq<char>>,
    pub dict: Option<Seq<char>>,
    pub lzma_block_mib: Option<Seq<char>>,
}

impl View for Env {
    type V = EnvView;

    open spec fn view(&self) -> EnvView {
        EnvView {
            backend: chars_of(self.backend),
            bcj: chars_of(self.bcj),
            ppmd_order: chars_of(self.ppmd_order),
            ppmd_mem_mb: chars_of(self.ppmd_mem_mb),
            lc: chars_of(self.lc),
            lp: chars_of(self.lp),
            pb: chars_of(self.pb),
            nice: chars_of(self.nice),
            dict: chars_of(self.dict),
            lzma_block_mib: chars_of(self.lzma_block_mib),
        }
    }
}

/// A number from the environment, or `default` where the variable is missing
/// or holds no number of 32 bits.
pub open spec fn env_number(v: Option<Seq<char>>, default: u32) -> u32 {
    match v {
        Some(t) => match within(unsigned_value(encode_utf8(t)), 0, u32::MAX as int) {
            Some(n) => n as u32,
            None => default,
        },
        None => default,
    }
}

/// A number from the environment.
pub fn env_u32(v: &Option<String>, default: u32) -> (n: u32)
    ensures
        n == env_number(chars_of(*v), default),
{
    match v {
        Some(t) => match parse_unsigned(t.as_str().as_bytes(), u32::MAX as u64) {
            Some(n) => n as u32,
            None => default,
        },
        None => default,
    }
}

/// The compressor for a level: zstd for stored data and up to level 4, above
/// that what the environment names, LZMA unless it names another.
pub open spec fn backend_for(level: int, store: bool, env: EnvView) -> Backend {
    if store || level <= 4 {
        Backend::Zstd
    } else {
        match env.backend {
            Some(b) => if b == "ppmd"@ {
                Backend::Ppmd
            } else if b == "zstd"@ {
                Backend::Zstd
            } else {
                Backend::Lzma
            },
            None => Backend::Lzma,
        }
    }
}

/// The compressor for a level.
pub fn pick_backend(level: i32, store: bool, env: &Env) -> (b: Backend)
    ensures
        b == backend_for(level as int, store, env@),
{
    if store || level <= 4 {
        return Backend::Zstd;
    }
    match &env.backend {
        Some(b) => {
            if str_eq(b.as_str(), "ppmd") {
                Backend::Ppmd
            } else if str_eq(b.as_str(), "zstd") {
                Backend::Zstd
            } else {
                Backend::Lzma
            }
        },
        None => Backend::Lzma,
    }
}

/// Order and memory of the PPMd model for a level. The environment can set
/// both; the order stays from 2 to 16 and the memory is at least one.
pub open spec fn ppmd_params_for(level: int, env: EnvView) -> PpmdParams {
    let order = env_number(
        env.ppmd_order,
        if level == 7 {
            8
        } else if level == 8 {
            10
        } else if level == 9 {
            12
        } else {
            16
        },
    );
    let mem = env_number(
        env.ppmd_mem_mb,
        if level == 7 {
            128
        } else if level == 8 || level == 9 {
            192
        } else {
            256
        },
    );
    PpmdParams {
        order: (if order < 2 {
            2
        } else if order > 16 {
            16
        } else {
            order
        }) as u8,
        mem_mb: if mem < 1 {
            1
        } else {
            mem
        },
    }
}

/// Order and memory of the PPMd model for a level.
pub fn pick_ppmd_params(level: i32, env: &Env) -> (p: PpmdParams)
    ensures
        p == ppmd_params_for(level as int, env@),
{
    let (default_order, default_mem): (u32, u32) = if level == 7 {
        (8, 128)
    } else if level == 8 {
        (10, 192)
    } else if level == 9 {
        (12, 192)
    } else {
        (16, 256)
    };
    let order: u32 = env_u32(&env.ppmd_order, default_order);
    let mem: u32 = env_u32(&env.ppmd_mem_mb, default_mem);
    let order: u32 = if order < 2 {
        2
    } else if order > 16 {
        16
    } else {
        order
    };
    PpmdParams {
        order: order as u8,
        mem_mb: if mem < 1 {
            1
        } else {
            mem
        },
    }
}

/// The level of zstd for a level of the archive.
pub open spec fn zstd_level_for(level: int) -> int {
    if level == 0 {
        -5
    } else if level == 1 {
        1
    } else if level == 2 {
        15
    } else if level == 3 || level == 4 {
        19
    } else {
        9
    }
}

/// The level of zstd for a level of the archive.
pub fn map_zstd_level(level: i32) -> (n: i32)
    ensures
        n == zstd_level_for(level as int),
{
    match level {
        0 => -5,
        1 => 1,
        2 => 15,
        3 => 19,
        4 => 19,
        _ => 9,
    }
}

/// The hash that a name stands for, without regard to case and to white space
/// around it. No name stands for CRC-32.
pub open spec fn hash_named(name: Option<Seq<char>>) -> Option<HashAlgo> {
    match name {
        None => Some(HashAlgo::Crc32),
        Some(t) => {
            let n = ascii_lowered(trimmed(t));
            if n == ""@ || n == "crc32"@ || n == "crc"@ {
                Some(HashAlgo::Crc32)
            } else if n == "xxh3"@ || n == "xxhash3"@ {
                Some(HashAlgo::Xxh3)
            } else if n == "blake3"@ || n == "b3"@ {
                Some(HashAlgo::Blake3)
            } else {
                None
            }
        },
    }
}

/// The hash that a name stands for.
pub fn parse_hash_algo(name: &Option<String>) -> (r: Result<HashAlgo, PlanError>)
    ensures
        match hash_named(chars_of(*name)) {
            Some(a) => r == Ok::<HashAlgo, PlanError>(a),
            None => r == Err::<HashAlgo, PlanError>(PlanError::UnknownHash),
        },
{
    match name {
        None => Ok(HashAlgo::Crc32),
        Some(t) => {
            let lower = ascii_lowercase(t.as_str().trim());
            let n = lower.as_str();
            if str_eq(n, "") || str_eq(n, "crc32") || str_eq(n, "crc") {
                Ok(HashAlgo::Crc32)
            } else if str_eq(n, "xxh3") || str_eq(n, "xxhash3") {
                Ok(HashAlgo::Xxh3)
            } else if str_eq(n, "blake3") || str_eq(n, "b3") {
                Ok(HashAlgo::Blake3)
            } else {
                Err(PlanError::UnknownHash)
            }
        },
    }
}

/// The branch filter with a name.
pub open spec fn bcj_named(n: Seq<char>) -> Option<Bcj> {
    if n == ""@ || n == "off"@ || n == "none"@ || n == "0"@ {
        Some(Bcj::Off)
    } else if n == "x86"@ {
        Some(Bcj::X86)
    } else if n == "arm"@ {
        Some(Bcj::Arm)
    } else if n == "armt"@ || n == "arm_thumb"@ {
        Some(Bcj::ArmThumb)
    } else if n == "ia64"@ {
        Some(Bcj::Ia64)
    } else if n == "sparc"@ {
        Some(Bcj::Sparc)
    } else if n == "powerpc"@ || n == "ppc"@ {
        Some(Bcj::PowerPc)
    } else {
        None
    }
}

/// The branch filter with a name.
pub fn parse_bcj(n: &str) -> (r: Option<Bcj>)
    ensures
        r == bcj_named(n@),
{
    if str_eq(n, "") || str_eq(n, "off") || str_eq(n, "none") || str_eq(n, "0") {
        Some(Bcj::Off)
    } else if str_eq(n, "x86") {
        Some(Bcj::X86)
    } else if str_eq(n, "arm") {
        Some(Bcj::Arm)
    } else if str_eq(n, "armt") || str_eq(n, "arm_thumb") {
        Some(Bcj::ArmThumb)
    } else if str_eq(n, "ia64") {
        Some(Bcj::Ia64)
    } else if str_eq(n, "sparc") {
        Some(Bcj::Sparc)
    } else if str_eq(n, "powerpc") || str_eq(n, "ppc") {
        Some(Bcj::PowerPc)
    } else {
        None
    }
}

/// Whether the head of a file looks like a program for x86: an ELF file for
/// one of its two machines, or a file that starts with `MZ`.
pub open spec fn x86_head(d: Seq<u8>) -> bool {
    ||| d[0] == 0x7F && d[1] == 0x45 && d[2] == 0x4C && d[3] == 0x46 && (d[18] == 0x3E || d[18]
        == 0x03) && d[19] == 0
    ||| d[0] == 0x4D && d[1] == 0x5A
}

/// Whether a file counts as a sample for [`detected_bcj`].
pub open spec fn bcj_sample(e: SourceView) -> bool {
    e.kind == SourceKind::File && e.size >= 20 && e.data.len() >= 20
}

/// How many of the first `n` entries are samples.
pub open spec fn bcj_samples(es: Seq<SourceView>, n: int) -> int
    decreases n,
{
    if n <= 0 {
        0
    } else {
        bcj_samples(es, n - 1) + if bcj_sample(es[n - 1]) {
            1int
        } else {
            0
        }
    }
}

/// How many of the first `n` entries are samples that look like programs.
pub open spec fn bcj_hits(es: Seq<SourceView>, n: int) -> int
    decreases n,
{
    if n <= 0 {
        0
    } else {
        bcj_hits(es, n - 1) + if bcj_sample(es[n - 1]) && x86_head(es[n - 1].data) {
            1int
        } else {
            0
        }
    }
}

/// The filter that the first 64 entries ask for: that for x86 where there are
/// at least four samples and three of ten look like programs.
pub open spec fn detected_bcj(es: Seq<SourceView>) -> Bcj {
    let n = if es.len() < 64 {
        es.len() as int
    } else {
        64
    };
    if bcj_samples(es, n) >= 4 && bcj_hits(es, n) * 10 >= bcj_samples(es, n) * 3 {
        Bcj::X86
    } else {
        Bcj::Off
    }
}

fn is_x86_head(d: &Vec<u8>) -> (r: bool)
    requires
        d@.len() >= 20,
    ensures
        r == x86_head(d@),
{
    if d[0] == 0x7F && d[1] == 0x45 && d[2] == 0x4C && d[3] == 0x46 {
        if (d[18] == 0x3E || d[18] == 0x03) && d[19] == 0 {
            return true;
        }
    }
    d[0] == 0x4D && d[1] == 0x5A
}

/// The filter that the first entries ask for.
pub fn auto_detect_bcj(entries: &[SourceEntry]) -> (b: Bcj)
    ensures
        b == detected_bcj(source_views(entries@)),
{
    let ghost es = source_views(entries@);
    let n: usize = if entries.len() < 64 {
        entries.len()
    } else {
        64
    };
    let mut samples: u32 = 0;
    let mut hits: u32 = 0;
    let mut i: usize = 0;
    while i < n
        invariant
            es == source_views(entries@),
            i <= n <= 64,
            n <= entries@.len(),
            samples == bcj_samples(es, i as int),
            hits == bcj_hits(es, i as int),
            hits <= samples <= i,
        decreases n - i,
    {
        let e = &entries[i];
        assert(es[i as int] == e@);
        let is_file: bool = match e.kind {
            SourceKind::File => true,
            _ => false,
        };
        if is_file && e.size >= 20 && e.data.len() >= 20 {
            samples = samples + 1;
            if is_x86_head(&e.data) {
                hits = hits + 1;
            }
        }
        i = i + 1;
    }
    if samples >= 4 && hits * 10 >= samples * 3 {
        Bcj::X86
    } else {
        Bcj::Off
    }
}

/// The bytes of all files.
pub open spec fn raw_sum(es: Seq<SourceView>) -> int
    decreases es.len(),
{
    if es.len() == 0 {
        0
    } else {
        raw_sum(es.drop_last()) + if es.last().kind == SourceKind::File {
            es.last().size as int
        } else {
            0
        }
    }
}

proof fn lemma_raw_sum(es: Seq<SourceView>)
    ensures
        raw_sum(es) >= 0,
    decreases es.len(),
{
    if es.len() > 0 {
        lemma_raw_sum(es.drop_last());
    }
}

/// The bytes of all files, at most what 64 bits can hold.
pub fn raw_bytes(entries: &[SourceEntry]) -> (n: u64)
    ensures
        n == capped(raw_sum(source_views(entries@))),
{
    let ghost es = source_views(entries@);
    let mut total: u64 = 0;
    let mut i: usize = 0;
    assert(es.take(0) =~= Seq::empty());
    while i < entries.len()
        invariant
            es == source_views(entries@),
            i <= entries@.len(),
            total == capped(raw_sum(es.take(i as int))),
        decreases entries@.len() - i,
    {
        proof {
            assert(es.take(i + 1).drop_last() =~= es.take(i as int));
            assert(es.take(i + 1).last() == entries@[i as int]@);
            lemma_raw_sum(es.take(i as int));
        }
        match entries[i].kind {
            SourceKind::File => {
                total = total.saturating_add(entries[i].size);
            },
            _ => {},
        }
        i = i + 1;
    }
    assert(es.take(i as int) =~= es);
    total
}

/// How many threads compress: as many as asked for; where none are asked for
/// and there are at least 256 MiB, one per core up to eight.
pub open spec fn threads_for(asked: int, total_raw: int, cores: int) -> int {
    if asked == 0 && total_raw >= 268_435_456 {
        if cores < 1 {
            1
        } else if cores > 8 {
            8
        } else {
            cores
        }
    } else {
        asked
    }
}

/// How many threads compress.
pub fn pick_threads(asked: u32, total_raw: u64, cores: u32) -> (n: u32)
    ensures
        n == threads_for(asked as int, total_raw as int, cores as int),
{
    if asked == 0 && total_raw >= 268_435_456 {
        if cores < 1 {
            1
        } else if cores > 8 {
            8
        } else {
            cores
        }
    } else {
        asked
    }
}

/// The LZMA filter chain for a level: the preset 9 with its extreme variant,
/// tuned for text unless the environment says otherwise.
pub open spec fn chain_for(level: int, bcj: Bcj, env: EnvView) -> LzmaChain {
    LzmaChain {
        preset: 0x8000_0009,
        lc: env_number(env.lc, 4),
        lp: env_number(env.lp, 0),
        pb: env_number(env.pb, 0),
        nice_len: env_number(env.nice, 273),
        dict_size: env_number(
            env.dict,
            if level == 5 || level == 6 {
                67_108_864
            } else {
                134_217_728
            },
        ),
        bcj,
    }
}

/// The size of an LZMA block that can be compressed on its own: what the
/// environment says in MiB, or three times the dictionary.
pub open spec fn block_for(dict_size: u32, env: EnvView) -> int {
    let mib = env_number(env.lzma_block_mib, 0);
    if mib > 0 {
        mib * 1_048_576
    } else {
        dict_size * 3
    }
}

/// The LZMA compressor for a level. The stream is divided into blocks where
/// there are several threads and at least two blocks.
pub open spec fn lzma_for(level: int, threads: u32, total_raw: int, bcj: Bcj, env: EnvView) -> Compressor {
    let chain = chain_for(level, bcj, env);
    let block = block_for(chain.dict_size, env);
    if threads > 1 && total_raw >= block * 2 {
        Compressor::XzBlocks { chain, threads, block: block as u64 }
    } else {
        Compressor::Xz { chain }
    }
}

/// The LZMA compressor for a level.
pub fn build_lzma_stream(level: i32, threads: u32, total_raw: u64, bcj: Bcj, env: &Env) -> (c:
    Compressor)
    ensures
        c == lzma_for(level as int, threads, total_raw as int, bcj, env@),
{
    let default_dict: u32 = if level == 5 || level == 6 {
        67_108_864
    } else {
        134_217_728
    };
    let chain = LzmaChain {
        preset: 0x8000_0009,
        lc: env_u32(&env.lc, 4),
        lp: env_u32(&env.lp, 0),
        pb: env_u32(&env.pb, 0),
        nice_len: env_u32(&env.nice, 273),
        dict_size: env_u32(&env.dict, default_dict),
        bcj,
    };
    let mib: u32 = env_u32(&env.lzma_block_mib, 0);
    let block: u64 = if mib > 0 {
        mib as u64 * 1_048_576
    } else {
        chain.dict_size as u64 * 3
    };
    if threads > 1 && total_raw >= block * 2 {
        Compressor::XzBlocks { chain, threads, block }
    } else {
        Compressor::Xz { chain }
    }
}

/// The zstd compressor for a level. From level 4 on it searches as hard as it
/// can where `ultra` allows it; long-distance matching comes with a window of
/// 128 MiB.
pub open spec fn zstd_for(level: int, store: bool, threads: u32, nolong: bool, ultra: bool) -> Compressor {
    let zlevel = if store {
        0int
    } else {
        zstd_level_for(level)
    };
    let window_log: u32 = if nolong {
        0
    } else {
        27
    };
    if ultra && level >= 4 && !store {
        Compressor::ZstdUltra {
            level: zlevel as i32,
            threads,
            window_log,
            long: !nolong,
            chain_log: 28,
            hash_log: 27,
            search_log: 10,
            target_length: 999,
        }
    } else {
        Compressor::Zstd { level: zlevel as i32, threads, window_log, long: !nolong }
    }
}

/// The zstd compressor for a level.
pub fn build_zstd(level: i32, store: bool, threads: u32, nolong: bool, ultra: bool) -> (c: Compressor)
    ensures
        c == zstd_for(level as int, store, threads, nolong, ultra),
        c.valid(),
{
    let zlevel: i32 = if store {
        0
    } else {
        map_zstd_level(level)
    };
    let window_log: u32 = if nolong {
        0
    } else {
        27
    };
    if ultra && level >= 4 && !store {
        Compressor::ZstdUltra {
            level: zlevel,
            threads,
            window_log,
            long: !nolong,
            chain_log: 28,
            hash_log: 27,
            search_log: 10,
            target_length: 999,
        }
    } else {
        Compressor::Zstd { level: zlevel, threads, window_log, long: !nolong }
    }
}

/// The branch filter that is asked for: by flag, else by the environment, else
/// the one that was detected.
pub open spec fn bcj_for(flag: Option<Seq<char>>, env: Option<Seq<char>>, detected: Bcj) -> Result<
    Bcj,
    PlanError,
> {
    match flag {
        Some(s) => match bcj_named(trimmed(s)) {
            Some(b) => Ok(b),
            None => Err(PlanError::UnknownBcj),
        },
        None => match env {
            Some(s) => match bcj_named(trimmed(s)) {
                Some(b) => Ok(b),
                None => Err(PlanError::UnknownEnvBcj),
            },
            None => Ok(detected),
        },
    }
}

/// The branch filter that is asked for.
pub fn pick_bcj(flag: &Option<String>, env: &Option<String>, detected: Bcj) -> (r: Result<
    Bcj,
    PlanError,
>)
    ensures
        r == bcj_for(chars_of(*flag), chars_of(*env), detected),
{
    match flag {
        Some(s) => match parse_bcj(s.as_str().trim()) {
            Some(b) => Ok(b),
            None => Err(PlanError::UnknownBcj),
        },
        None => match env {
            Some(s) => match parse_bcj(s.as_str().trim()) {
                Some(b) => Ok(b),
                None => Err(PlanError::UnknownEnvBcj),
            },
            None => Ok(detected),
        },
    }
}

/// The bit `v` where `on` holds.
pub open spec fn bit(on: bool, v: u8) -> u8 {
    if on {
        v
    } else {
        0
    }
}

/// Whether the long-range matcher is in use: for LZMA and PPMd above one GiB,
/// unless it is switched off.
pub open spec fn matcher_wanted(nopreproc: bool, backend: Backend, total_raw: int) -> bool {
    !nopreproc && backend != Backend::Zstd && total_raw > 1_073_741_824
}

/// The hash of the entries: none without checksums.
pub open spec fn hash_for(o: OptsView) -> Option<HashAlgo> {
    if o.on.nochecksum {
        None
    } else {
        hash_named(o.hash)
    }
}

/// The flags of the preamble.
pub open spec fn preproc_for(
    matcher: bool,
    algo: Option<HashAlgo>,
    comment: bool,
    xattrs: bool,
    delta: bool,
    lzp: bool,
) -> u8 {
    bit(matcher, PREPROC_SREP) | bit(algo is Some, FEATURE_CRC32) | bit(comment, FEATURE_COMMENT)
        | bit(algo is Some && algo != Some(HashAlgo::Crc32), FEATURE_HASH_ALGO) | bit(
        xattrs,
        FEATURE_XATTRS,
    ) | bit(delta, FEATURE_DELTA) | bit(lzp, PREPROC_LZP)
}

/// Every flag of the preamble is set exactly where it is asked for.
pub proof fn lemma_preproc_flags(
    matcher: bool,
    algo: Option<HashAlgo>,
    comment: bool,
    xattrs: bool,
    delta: bool,
    lzp: bool,
)
    ensures
        ({
            let p = preproc_for(matcher, algo, comment, xattrs, delta, lzp);
            &&& flag_set(p, PREPROC_SREP) == matcher
            &&& !flag_set(p, PREPROC_REP)
            &&& flag_set(p, FEATURE_CRC32) == (algo is Some)
            &&& flag_set(p, FEATURE_COMMENT) == comment
            &&& flag_set(p, FEATURE_HASH_ALGO) == (algo is Some && algo != Some(HashAlgo::Crc32))
            &&& flag_set(p, FEATURE_XATTRS) == xattrs
            &&& flag_set(p, FEATURE_DELTA) == delta
            &&& flag_set(p, PREPROC_LZP) == lzp
        }),
{
    let a = bit(matcher, 0x02);
    let b = bit(algo is Some, 0x04);
    let c = bit(comment, 0x08);
    let d = bit(algo is Some && algo != Some(HashAlgo::Crc32), 0x10);
    let e = bit(xattrs, 0x20);
    let f = bit(delta, 0x40);
    let g = bit(lzp, 0x80);
    let p = a | b | c | d | e | f | g;
    assert(p & 0x01 == 0 && p & 0x02 == a && p & 0x04 == b && p & 0x08 == c && p & 0x10 == d && p
        & 0x20 == e && p & 0x40 == f && p & 0x80 == g) by (bit_vector)
        requires
            p == a | b | c | d | e | f | g,
            a == 0 || a == 0x02,
            b == 0 || b == 0x04,
            c == 0 || c == 0x08,
            d == 0 || d == 0x10,
            e == 0 || e == 0x20,
            f == 0 || f == 0x40,
            g == 0 || g == 0x80,
    ;
}

fn preproc_flags(
    matcher: bool,
    algo: Option<HashAlgo>,
    comment: bool,
    xattrs: bool,
    delta: bool,
    lzp: bool,
) -> (p: u8)
    ensures
        p == preproc_for(matcher, algo, comment, xattrs, delta, lzp),
{
    let hashed: bool = algo.is_some();
    let named: bool = match algo {
        Some(HashAlgo::Crc32) => false,
        Some(_) => true,
        None => false,
    };
    let a: u8 = if matcher { PREPROC_SREP } else { 0 };
    let b: u8 = if hashed { FEATURE_CRC32 } else { 0 };
    let c: u8 = if comment { FEATURE_COMMENT } else { 0 };
    let d: u8 = if named { FEATURE_HASH_ALGO } else { 0 };
    let e: u8 = if xattrs { FEATURE_XATTRS } else { 0 };
    let f: u8 = if delta { FEATURE_DELTA } else { 0 };
    let g: u8 = if lzp { PREPROC_LZP } else { 0 };
    a | b | c | d | e | f | g
}

/// What the flags of delta, chunking and prediction rule out.
pub open spec fn filter_fault(o: OptsView, backend: Backend, matcher: bool) -> Option<PlanError> {
    if o.delta is Some && !valid_stride(o.delta->0) {
        Some(PlanError::BadStride)
    } else if o.delta is Some && backend == Backend::Ppmd {
        Some(PlanError::DeltaWithPpmd)
    } else if o.delta is Some && matcher {
        Some(PlanError::DeltaWithMatcher)
    } else if o.on.fastcdc && o.delta is Some {
        Some(PlanError::FastcdcWithDelta)
    } else if o.on.lzp && backend == Backend::Zstd {
        Some(PlanError::LzpBackend)
    } else if o.on.lzp && matcher {
        Some(PlanError::LzpWithMatcher)
    } else if o.on.lzp && o.delta is Some {
        Some(PlanError::LzpWithDelta)
    } else {
        None
    }
}

/// What routing rules out.
pub open spec fn route_fault(
    archive: Seq<char>,
    o: OptsView,
    backend: Backend,
    matcher: bool,
) -> Option<PlanError> {
    if !o.on.route {
        None
    } else if backend == Backend::Ppmd {
        Some(PlanError::RouteWithPpmd)
    } else if matcher {
        Some(PlanError::RouteWithMatcher)
    } else if o.on.lzp {
        Some(PlanError::RouteWithLzp)
    } else if o.delta is Some {
        Some(PlanError::RouteWithDelta)
    } else if archive == "-"@ {
        Some(PlanError::RouteToStdout)
    } else if o.chunk_bytes is Some {
        Some(PlanError::RouteWithChunk)
    } else {
        None
    }
}

/// The first thing that keeps an archive from being made as the flags ask.
pub open spec fn plan_fault(
    archive: Seq<char>,
    o: OptsView,
    env: EnvView,
    total_raw: int,
    detected: Bcj,
) -> Option<PlanError> {
    let backend = backend_for(o.level, o.on.store, env);
    let matcher = matcher_wanted(o.on.nopreproc, backend, total_raw);
    if !(0 <= o.level <= 10) {
        Some(PlanError::BadLevel)
    } else if archive == "-"@ && o.chunk_bytes is Some {
        Some(PlanError::ChunkToStdout)
    } else if !o.on.nochecksum && hash_named(o.hash) is None {
        Some(PlanError::UnknownHash)
    } else if filter_fault(o, backend, matcher) is Some {
        filter_fault(o, backend, matcher)
    } else if route_fault(archive, o, backend, matcher) is Some {
        route_fault(archive, o, backend, matcher)
    } else if o.comment is Some && utf8_len(o.comment->0) > 0xFFFF {
        Some(PlanError::CommentTooLong)
    } else if backend == Backend::Lzma {
        match bcj_for(o.bcj, env.bcj, detected) {
            Ok(_) => None,
            Err(e) => Some(e),
        }
    } else {
        None
    }
}

/// The preamble of a new archive.
pub open spec fn planned_preamble(
    o: OptsView,
    env: EnvView,
    total_raw: int,
    dict: Seq<u8>,
) -> PreambleView {
    let backend = backend_for(o.level, o.on.store, env);
    let algo = hash_for(o);
    PreambleView {
        version: CURRENT_VERSION,
        backend,
        preproc: preproc_for(
            matcher_wanted(o.on.nopreproc, backend, total_raw),
            algo,
            o.comment is Some,
            o.on.xattrs,
            o.delta is Some,
            o.on.lzp,
        ),
        dict,
        ppmd: if backend == Backend::Ppmd {
            Some(ppmd_params_for(o.level, env))
        } else {
            None
        },
        comment: o.comment,
        hash_algo: algo,
        delta_stride: match o.delta {
            Some(s) => Some(s as u8),
            None => None,
        },
    }
}

/// The compressor of the first frame of a new archive.
pub open spec fn planned_compressor(
    o: OptsView,
    env: EnvView,
    threads: u32,
    total_raw: int,
    detected: Bcj,
) -> Compressor {
    match backend_for(o.level, o.on.store, env) {
        Backend::Zstd => zstd_for(o.level, o.on.store, threads, o.on.nolong, true),
        Backend::Lzma => lzma_for(
            o.level,
            threads,
            total_raw,
            bcj_for(o.bcj, env.bcj, detected)->Ok_0,
            env,
        ),
        Backend::Ppmd => Compressor::Ppmd { params: ppmd_params_for(o.level, env) },
    }
}

/// The compressor of the frame for files that are compressed already: the same
/// one with the least effort.
pub open spec fn planned_media(o: OptsView, env: EnvView, threads: u32) -> Compressor {
    match backend_for(o.level, o.on.store, env) {
        Backend::Zstd => Compressor::Zstd { level: 0, threads, window_log: 0, long: false },
        Backend::Lzma => lzma_for(0, threads, 0, Bcj::Off, env),
        Backend::Ppmd => Compressor::Ppmd { params: ppmd_params_for(o.level, env) },
    }
}

fn check_filters(opts: &Opts, backend: Backend, matcher: bool) -> (r: Option<PlanError>)
    ensures
        r == filter_fault(opts@, backend, matcher),
{
    if let Some(stride) = opts.delta {
        if !is_valid_stride(stride) {
            return Some(PlanError::BadStride);
        }
        if backend == Backend::Ppmd {
            return Some(PlanError::DeltaWithPpmd);
        }
        if matcher {
            return Some(PlanError::DeltaWithMatcher);
        }
    }
    if opts.on.fastcdc && opts.delta.is_some() {
        return Some(PlanError::FastcdcWithDelta);
    }
    if opts.on.lzp {
        if backend == Backend::Zstd {
            return Some(PlanError::LzpBackend);
        }
        if matcher {
            return Some(PlanError::LzpWithMatcher);
        }
        if opts.delta.is_some() {
            return Some(PlanError::LzpWithDelta);
        }
    }
    None
}

fn check_route(archive: &str, opts: &Opts, backend: Backend, matcher: bool) -> (r: Option<PlanError>)
    ensures
        r == route_fault(archive@, opts@, backend, matcher),
{
    if !opts.on.route {
        return None;
    }
    if backend == Backend::Ppmd {
        return Some(PlanError::RouteWithPpmd);
    }
    if matcher {
        return Some(PlanError::RouteWithMatcher);
    }
    if opts.on.lzp {
        return Some(PlanError::RouteWithLzp);
    }
    if opts.delta.is_some() {
        return Some(PlanError::RouteWithDelta);
    }
    if is_stream_path(archive) {
        return Some(PlanError::RouteToStdout);
    }
    if opts.chunk_bytes.is_some() {
        return Some(PlanError::RouteWithChunk);
    }
    None
}

/// Whether a level is one of the eleven.
pub fn is_valid_level(level: i32) -> (r: bool)
    ensures
        r == (0 <= level <= 10),
{
    0 <= level && level <= 10
}

fn comment_fits(comment: &Option<String>) -> (r: bool)
    ensures
        r == (chars_of(*comment) matches Some(c) ==> utf8_len(c) <= 0xFFFF),
{
    reveal(utf8_len);
    match comment {
        Some(c) => c.as_str().as_bytes().len() <= 0xFFFF,
        None => true,
    }
}

/// The first thing that keeps an archive from being made as the flags ask.
pub fn check_plan(archive: &str, opts: &Opts, env: &Env, total_raw: u64, detected: Bcj) -> (r: Option<
    PlanError,
>)
    ensures
        r == plan_fault(archive@, opts@, env@, total_raw as int, detected),
{
    if !is_valid_level(opts.level) {
        return Some(PlanError::BadLevel);
    }
    let backend = pick_backend(opts.level, opts.on.store, env);
    let matcher: bool = !opts.on.nopreproc && backend != Backend::Zstd && total_raw > 1_073_741_824;
    if is_stream_path(archive) && opts.chunk_bytes.is_some() {
        return Some(PlanError::ChunkToStdout);
    }
    if !opts.on.nochecksum && parse_hash_algo(&opts.hash).is_err() {
        return Some(PlanError::UnknownHash);
    }
    if let Some(e) = check_filters(opts, backend, matcher) {
        return Some(e);
    }
    if let Some(e) = check_route(archive, opts, backend, matcher) {
        return Some(e);
    }
    if !comment_fits(&opts.comment) {
        return Some(PlanError::CommentTooLong);
    }
    if backend == Backend::Lzma {
        if let Err(e) = pick_bcj(&opts.bcj, &env.bcj, detected) {
            return Some(e);
        }
    }
    None
}

fn build_compressor(opts: &Opts, env: &Env, backend: Backend, threads: u32, total_raw: u64, detected: Bcj) -> (c:
    Compressor)
    requires
        backend == backend_for(opts@.level, opts@.on.store, env@),
        backend == Backend::Lzma ==> bcj_for(opts@.bcj, env@.bcj, detected) is Ok,
    ensures
        c == planned_compressor(opts@, env@, threads, total_raw as int, detected),
        c.backend() == backend,
        c.ppmd() == (if backend == Backend::Ppmd {
            Some(ppmd_params_for(opts@.level, env@))
        } else {
            None
        }),
{
    match backend {
        Backend::Zstd => build_zstd(opts.level, opts.on.store, threads, opts.on.nolong, true),
        Backend::Lzma => {
            let bcj = match pick_bcj(&opts.bcj, &env.bcj, detected) {
                Ok(b) => b,
                Err(_) => Bcj::Off,
            };
            build_lzma_stream(opts.level, threads, total_raw, bcj, env)
        },
        Backend::Ppmd => Compressor::Ppmd { params: pick_ppmd_params(opts.level, env) },
    }
}

fn build_media(opts: &Opts, env: &Env, backend: Backend, threads: u32) -> (c: Compressor)
    requires
        backend == backend_for(opts@.level, opts@.on.store, env@),
    ensures
        c == planned_media(opts@, env@, threads),
        c.backend() == backend,
{
    match backend {
        Backend::Zstd => Compressor::Zstd { level: 0, threads, window_log: 0, long: false },
        Backend::Lzma => build_lzma_stream(0, threads, 0, Bcj::Off, env),
        Backend::Ppmd => Compressor::Ppmd { params: pick_ppmd_params(opts.level, env) },
    }
}

/// Plans a new archive.
pub fn plan_archive(
    archive: &str,
    opts: &Opts,
    env: &Env,
    cores: u32,
    total_raw: u64,
    detected: Bcj,
    dict: Vec<u8>,
) -> (res: Result<ArchivePlan, PlanError>)
    requires
        dict@.len() <= u32::MAX,
    ensures
        match plan_fault(archive@, opts@, env@, total_raw as int, detected) {
            Some(e) => res == Err::<ArchivePlan, PlanError>(e),
            None => {
                let threads = threads_for(opts.threads as int, total_raw as int, cores as int) as u32;
                &&& res matches Ok(p)
                &&& p.valid()
                &&& p.preamble@ == planned_preamble(opts@, env@, total_raw as int, dict@)
                &&& p.compressor == planned_compressor(
                    opts@,
                    env@,
                    threads,
                    total_raw as int,
                    detected,
                )
                &&& p.media_compressor == planned_media(opts@, env@, threads)
                &&& p.fastcdc == opts.on.fastcdc
            },
        },
{
    if let Some(e) = check_plan(archive, opts, env, total_raw, detected) {
        return Err(e);
    }
    let backend = pick_backend(opts.level, opts.on.store, env);
    let matcher: bool = !opts.on.nopreproc && backend != Backend::Zstd && total_raw > 1_073_741_824;
    let hash_algo: Option<HashAlgo> = if opts.on.nochecksum {
        None
    } else {
        match parse_hash_algo(&opts.hash) {
            Ok(a) => Some(a),
            Err(_) => None,
        }
    };
    let comment: Option<String> = match &opts.comment {
        Some(c) => Some(c.clone()),
        None => None,
    };
    let ppmd: Option<PpmdParams> = if backend == Backend::Ppmd {
        Some(pick_ppmd_params(opts.level, env))
    } else {
        None
    };
    let preproc: u8 = preproc_flags(
        matcher,
        hash_algo,
        opts.comment.is_some(),
        opts.on.xattrs,
        opts.delta.is_some(),
        opts.on.lzp,
    );
    proof {
        lemma_preproc_flags(
            matcher,
            hash_algo,
            opts.comment is Some,
            opts.on.xattrs,
            opts.delta is Some,
            opts.on.lzp,
        );
    }
    let threads: u32 = pick_threads(opts.threads, total_raw, cores);
    let preamble = Preamble {
        version: CURRENT_VERSION,
        backend,
        preproc,
        dict,
        ppmd,
        comment,
        hash_algo,
        delta_stride: opts.delta,
    };
    assert(preamble@ =~= planned_preamble(opts@, env@, total_raw as int, dict@));
    let compressor = build_compressor(opts, env, backend, threads, total_raw, detected);
    let media_compressor = build_media(opts, env, backend, threads);
    assert(preamble_consistent(preamble@));
    Ok(ArchivePlan { preamble, compressor, media_compressor, fastcdc: opts.on.fastcdc })
}

/// What a plan writes in front of an archive. The compressor goes by level, by `store`
/// and by the environment. There is a hash unless checksums are off, CRC-32 where none is
/// named. Comment, stride and attributes are those that were asked for, and every one of
/// them sets its flag and no other.
pub proof fn lemma_plan_tells(o: OptsView, env: EnvView, total_raw: int, dict: Seq<u8>)
    requires
        0 <= o.level <= 10,
        !o.on.nochecksum ==> hash_named(o.hash) is Some,
    ensures
        ({
            let p = planned_preamble(o, env, total_raw, dict);
            let big = total_raw > 1024 * 1024 * 1024;
            &&& p.version == ArchiveVersion::V5
            &&& p.backend == Backend::Zstd <==> o.on.store || o.level <= 4 || env.backend == Some(
                "zstd"@,
            )
            &&& p.backend == Backend::Ppmd <==> !o.on.store && o.level >= 5 && env.backend == Some(
                "ppmd"@,
            )
            &&& p.ppmd is Some <==> p.backend == Backend::Ppmd
            &&& p.dict == dict
            &&& p.comment == o.comment
            &&& o.delta is None ==> p.delta_stride is None
            &&& o.delta matches Some(n) ==> (0 <= n < 256 ==> p.delta_stride == Some(n as u8))
            &&& p.hash_algo is None <==> o.on.nochecksum
            &&& !o.on.nochecksum && o.hash is None ==> p.hash_algo == Some(HashAlgo::Crc32)
            &&& p.preproc & 0x01 == 0
            &&& p.preproc & 0x02 != 0 <==> !o.on.nopreproc && p.backend != Backend::Zstd && big
            &&& p.preproc & 0x04 != 0 <==> !o.on.nochecksum
            &&& p.preproc & 0x08 != 0 <==> o.comment is Some
            &&& p.preproc & 0x10 != 0 <==> p.hash_algo == Some(HashAlgo::Xxh3) || p.hash_algo == Some(
                HashAlgo::Blake3,
            )
            &&& p.preproc & 0x20 != 0 <==> o.on.xattrs
            &&& p.preproc & 0x40 != 0 <==> o.delta is Some
            &&& p.preproc & 0x80 != 0 <==> o.on.lzp
        }),
{
    let backend = backend_for(o.level, o.on.store, env);
    reveal_strlit("zstd");
    reveal_strlit("ppmd");
    assert("zstd"@ != "ppmd"@) by {
        assert("zstd"@[0] == 'z');
        assert("ppmd"@[0] == 'p');
    }
    lemma_preproc_flags(
        matcher_wanted(o.on.nopreproc, backend, total_raw),
        hash_for(o),
        o.comment is Some,
        o.on.xattrs,
        o.delta is Some,
        o.on.lzp,
    );
}

/// Which flags go together. A plan is made exactly where the level is known, the hash and
/// the branch filter are known, the comment fits its field, and of delta filter, LZP
/// filter, matcher, chunk records, routing and parts no two that exclude each other are
/// asked for.
pub proof fn lemma_plan_accepts(
    archive: Seq<char>,
    o: OptsView,
    env: EnvView,
    total_raw: int,
    detected: Bcj,
)
    ensures
        plan_fault(archive, o, env, total_raw, detected) is None <==> {
            let zstd = o.on.store || o.level <= 4 || env.backend == Some("zstd"@);
            let ppmd = !o.on.store && o.level >= 5 && env.backend == Some("ppmd"@);
            let matcher = !o.on.nopreproc && !zstd && total_raw > 1024 * 1024 * 1024;
            &&& 0 <= o.level <= 10
            &&& archive == "-"@ ==> o.chunk_bytes is None && !o.on.route
            &&& !o.on.nochecksum ==> hash_named(o.hash) is Some
            &&& o.delta matches Some(n) ==> (n == 1 || n == 2 || n == 4) && !ppmd && !matcher
                && !o.on.fastcdc && !o.on.lzp && !o.on.route
            &&& o.on.lzp ==> !zstd && !matcher && !o.on.route
            &&& o.on.route ==> !ppmd && !matcher && o.chunk_bytes is None
            &&& o.comment matches Some(c) ==> encode_utf8(c).len() <= 65535
            &&& !zstd && !ppmd ==> (match o.bcj {
                Some(name) => bcj_named(trimmed(name)) is Some,
                None => match env.bcj {
                    Some(name) => bcj_named(trimmed(name)) is Some,
                    None => true,
                },
            })
        },
{
    reveal(utf8_len);
    reveal_strlit("zstd");
    reveal_strlit("ppmd");
    assert("zstd"@ != "ppmd"@) by {
        assert("zstd"@[0] == 'z');
        assert("ppmd"@[0] == 'p');
    }
}

/// How the name of a hash is read: in whatever case, white space around it aside. Without
/// a name it is CRC-32.
pub proof fn lemma_hash_names(t: Seq<char>)
    ensures
        hash_named(None) == Some(HashAlgo::Crc32),
        hash_named(Some(t)) == Some(HashAlgo::Crc32) <==> ascii_lowered(trimmed(t)) == ""@
            || ascii_lowered(trimmed(t)) == "crc32"@ || ascii_lowered(trimmed(t)) == "crc"@,
        hash_named(Some(t)) == Some(HashAlgo::Xxh3) <==> ascii_lowered(trimmed(t)) == "xxh3"@
            || ascii_lowered(trimmed(t)) == "xxhash3"@,
        hash_named(Some(t)) == Some(HashAlgo::Blake3) <==> ascii_lowered(trimmed(t)) == "blake3"@
            || ascii_lowered(trimmed(t)) == "b3"@,
{
    reveal_strlit("");
    reveal_strlit("crc32");
    reveal_strlit("crc");
    reveal_strlit("xxh3");
    reveal_strlit("xxhash3");
    reveal_strlit("blake3");
    reveal_strlit("b3");
    assert("crc32"@[0] == 'c' && "crc"@[0] == 'c' && "xxh3"@[0] == 'x' && "xxhash3"@[0] == 'x'
        && "blake3"@[0] == 'b' && "b3"@[0] == 'b');
    assert(""@.len() == 0);
}

/// When the filter for x86 programs is taken: of the first sixty-four entries at least
/// four are files of twenty bytes or more, and at least three in ten of these start as a
/// program does.
pub proof fn lemma_detection_tells(es: Seq<SourceView>)
    ensures
        ({
            let first = es.take(if es.len() < 64 {
                es.len() as int
            } else {
                64
            });
            let fit = |e: SourceView|
                e.kind == SourceKind::File && e.size >= 20 && e.data.len() >= 20;
            let program = |e: SourceView|
                e.kind == SourceKind::File && e.size >= 20 && e.data.len() >= 20 && ((e.data[0]
                    == 0x7F && e.data[1] == 0x45 && e.data[2] == 0x4C && e.data[3] == 0x46 && (
                e.data[18] == 0x3E || e.data[18] == 0x03) && e.data[19] == 0) || (e.data[0] == 0x4D
                    && e.data[1] == 0x5A));
            detected_bcj(es) == (if first.filter(fit).len() >= 4 && first.filter(program).len() * 10
                >= first.filter(fit).len() * 3 {
                Bcj::X86
            } else {
                Bcj::Off
            })
        }),
{
    let n: int = if es.len() < 64 {
        es.len() as int
    } else {
        64
    };
    lemma_detection_counts(es, n);
}

proof fn lemma_detection_counts(es: Seq<SourceView>, n: int)
    requires
        0 <= n <= es.len(),
    ensures
        bcj_samples(es, n) == es.take(n).filter(
            |e: SourceView| e.kind == SourceKind::File && e.size >= 20 && e.data.len() >= 20,
        ).len(),
        bcj_hits(es, n) == es.take(n).filter(
            |e: SourceView|
                e.kind == SourceKind::File && e.size >= 20 && e.data.len() >= 20 && ((e.data[0]
                    == 0x7F && e.data[1] == 0x45 && e.data[2] == 0x4C && e.data[3] == 0x46 && (
                e.data[18] == 0x3E || e.data[18] == 0x03) && e.data[19] == 0) || (e.data[0] == 0x4D
                    && e.data[1] == 0x5A)),
        ).len(),
    decreases n,
{
    reveal(Seq::filter);
    if n > 0 {
        lemma_detection_counts(es, n - 1);
        assert(es.take(n).drop_last() =~= es.take(n - 1));
    }
}

/// The bytes of several entries: every file adds its size and nothing else adds any.
pub proof fn lemma_raw_sum_grows(es: Seq<SourceView>, e: SourceView)
    ensures
        e.kind == SourceKind::File ==> raw_sum(es.push(e)) == raw_sum(es) + e.size,
        e.kind != SourceKind::File ==> raw_sum(es.push(e)) == raw_sum(es),
        raw_sum(Seq::empty()) == 0,
{
    assert(es.push(e).drop_last() =~= es);
}

/// How many threads are used: those that are asked for; where none are, none for less
/// than 256 MiB, and else one per core, at least one and at most eight.
pub proof fn lemma_threads_tell(asked: int, total_raw: int, cores: int)
    requires
        asked >= 0,
    ensures
        asked > 0 ==> threads_for(asked, total_raw, cores) == asked,
        asked == 0 && total_raw < 256 * 1024 * 1024 ==> threads_for(asked, total_raw, cores) == 0,
        asked == 0 && total_raw >= 256 * 1024 * 1024 ==> 1 <= threads_for(asked, total_raw, cores)
            <= 8,
        asked == 0 && total_raw >= 256 * 1024 * 1024 && 1 <= cores <= 8 ==> threads_for(
            asked,
            total_raw,
            cores,
        ) == cores,
{
}

/// A higher level of the fast compressor never asks it for less, and storing asks for
/// nothing.
pub proof fn lemma_levels_rise(a: int, b: int, threads: u32, nolong: bool)
    requires
        0 <= a <= b <= 4,
    ensures
        zstd_level_for(a) <= zstd_level_for(b),
        zstd_level_for(0) == -5,
        zstd_level_for(1) == 1,
        zstd_level_for(2) == 15,
        zstd_level_for(3) == 19,
        zstd_level_for(4) == 19,
        zstd_for(a, true, threads, nolong, true) == (Compressor::Zstd {
            level: 0,
            threads,
            window_log: if nolong {
                0
            } else {
                27
            },
            long: !nolong,
        }),
        a < 4 ==> zstd_for(a, false, threads, nolong, true) == (Compressor::Zstd {
            level: zstd_level_for(a) as i32,
            threads,
            window_log: if nolong {
                0
            } else {
                27
            },
            long: !nolong,
        }),
{
}

/// The settings of the strong compressor: what the environment gives as a number, and else
/// four literal context bits, no position bits, matches up to 273 bytes, and a dictionary
/// of 64 MiB at the levels 5 and 6 and of 128 MiB above.
pub proof fn lemma_chain_tells(level: int, bcj: Bcj, env: EnvView, t: Seq<char>, n: int)
    requires
        unsigned_value(encode_utf8(t)) == Some(n),
        0 <= n <= u32::MAX,
    ensures
        ({
            let c = chain_for(level, bcj, env);
            &&& c.bcj == bcj
            &&& env.lc is None ==> c.lc == 4
            &&& env.lp is None ==> c.lp == 0
            &&& env.pb is None ==> c.pb == 0
            &&& env.nice is None ==> c.nice_len == 273
            &&& env.dict is None && 5 <= level <= 6 ==> c.dict_size == 64 * 1024 * 1024
            &&& env.dict is None && level >= 7 ==> c.dict_size == 128 * 1024 * 1024
            &&& env.lc == Some(t) ==> c.lc == n
            &&& env.lp == Some(t) ==> c.lp == n
            &&& env.pb == Some(t) ==> c.pb == n
            &&& env.nice == Some(t) ==> c.nice_len == n
            &&& env.dict == Some(t) ==> c.dict_size == n
        }),
{
}

/// Blocks are packed in parallel only by more than one thread and only where there are two
/// of them; a block is what the environment gives in mebibytes, and else three
/// dictionaries.
pub proof fn lemma_blocks_tell(level: int, threads: u32, total_raw: int, bcj: Bcj, env: EnvView)
    ensures
        ({
            let c = lzma_for(level, threads, total_raw, bcj, env);
            let dict_size = chain_for(level, bcj, env).dict_size;
            &&& c matches Compressor::XzBlocks { threads: n, chain, .. } ==> n == threads && threads
                > 1 && chain == chain_for(level, bcj, env)
            &&& c matches Compressor::Xz { chain } ==> chain == chain_for(level, bcj, env)
            &&& threads <= 1 ==> c is Xz
            &&& env.lzma_block_mib is None && threads > 1 ==> (c is XzBlocks <==> total_raw >= 6
                * dict_size)
            &&& env.lzma_block_mib is None ==> (c matches Compressor::XzBlocks { block, .. } ==> block
                == 3 * dict_size)
        }),
{
}

/// The settings of the PPMd model: by the environment where it gives a number, and else by
/// the level; the order is from 2 to 16, and there is at least one mebibyte.
pub proof fn lemma_model_tells(level: int, env: EnvView, t: Seq<char>, n: int)
    requires
        unsigned_value(encode_utf8(t)) == Some(n),
        0 <= n <= u32::MAX,
    ensures
        ({
            let p = ppmd_params_for(level, env);
            &&& 2 <= p.order <= 16
            &&& p.mem_mb >= 1
            &&& env.ppmd_order == Some(t) && 2 <= n <= 16 ==> p.order == n
            &&& env.ppmd_mem_mb == Some(t) && n >= 1 ==> p.mem_mb == n
            &&& env.ppmd_order is None && level == 7 ==> p.order == 8
            &&& env.ppmd_order is None && level == 8 ==> p.order == 10
            &&& env.ppmd_order is None && level == 9 ==> p.order == 12
            &&& env.ppmd_order is None && level == 10 ==> p.order == 16
            &&& env.ppmd_mem_mb is None && level == 7 ==> p.mem_mb == 128
            &&& env.ppmd_mem_mb is None && 8 <= level <= 9 ==> p.mem_mb == 192
            &&& env.ppmd_mem_mb is None && level == 10 ==> p.mem_mb == 256
        }),
{
}

/// Which branch filter is used: the one of the flag, else the one of the environment, else
/// the one that was detected.
pub proof fn lemma_bcj_tells(flag: Seq<char>, env: Seq<char>, detected: Bcj)
    ensures
        bcj_for(None, None, detected) == Ok::<Bcj, PlanError>(detected),
        bcj_named(trimmed(flag)) matches Some(b) ==> bcj_for(Some(flag), None, detected) == Ok::<
            Bcj,
            PlanError,
        >(b) && bcj_for(Some(flag), Some(env), detected) == Ok::<Bcj, PlanError>(b),
        bcj_named(trimmed(env)) matches Some(b) ==> bcj_for(None, Some(env), detected) == Ok::<
            Bcj,
            PlanError,
        >(b),
        bcj_named("x86"@) == Some(Bcj::X86),
        bcj_named("arm"@) == Some(Bcj::Arm),
        bcj_named("armt"@) == Some(Bcj::ArmThumb),
        bcj_named("ia64"@) == Some(Bcj::Ia64),
        bcj_named("sparc"@) == Some(Bcj::Sparc),
        bcj_named("powerpc"@) == Some(Bcj::PowerPc),
        bcj_named("off"@) == Some(Bcj::Off),
{
    reveal_strlit("");
    reveal_strlit("off");
    reveal_strlit("none");
    reveal_strlit("0");
    reveal_strlit("x86");
    reveal_strlit("arm");
    reveal_strlit("armt");
    reveal_strlit("arm_thumb");
    reveal_strlit("ia64");
    reveal_strlit("sparc");
    reveal_strlit("powerpc");
    reveal_strlit("ppc");
    assert(""@.len() == 0);
    assert("off"@.len() == 3 && "off"@[0] == 'o');
    assert("none"@.len() == 4 && "none"@[0] == 'n');
    assert("0"@.len() == 1 && "0"@[0] == '0');
    assert("x86"@.len() == 3 && "x86"@[0] == 'x');
    assert("arm"@.len() == 3 && "arm"@[0] == 'a');
    assert("armt"@.len() == 4 && "armt"@[0] == 'a');
    assert("arm_thumb"@.len() == 9 && "arm_thumb"@[0] == 'a');
    assert("ia64"@.len() == 4 && "ia64"@[0] == 'i');
    assert("sparc"@.len() == 5 && "sparc"@[0] == 's');
    assert("powerpc"@.len() == 7 && "powerpc"@[0] == 'p');
    assert("ppc"@.len() == 3 && "ppc"@[0] == 'p');
}

/// What a new archive is packed with. The fast compressor stores where that is asked for,
/// goes by the level below 4, and at level 4 searches as far as it can; it looks far back
/// unless that is off. The strong one has its own settings, and PPMd its model.
pub proof fn lemma_compressor_planned(
    o: OptsView,
    env: EnvView,
    threads: u32,
    total_raw: int,
    detected: Bcj,
)
    requires
        0 <= o.level <= 10,
    ensures
        ({
            let c = planned_compressor(o, env, threads, total_raw, detected);
            let window_log: u32 = if o.on.nolong {
                0
            } else {
                27
            };
            let long = !o.on.nolong;
            &&& o.on.store ==> c == (Compressor::Zstd { level: 0, threads, window_log, long })
            &&& !o.on.store && o.level == 0 ==> c == (Compressor::Zstd {
                level: -5i32,
                threads,
                window_log,
                long,
            })
            &&& !o.on.store && o.level == 1 ==> c == (Compressor::Zstd {
                level: 1,
                threads,
                window_log,
                long,
            })
            &&& !o.on.store && o.level == 2 ==> c == (Compressor::Zstd {
                level: 15,
                threads,
                window_log,
                long,
            })
            &&& !o.on.store && o.level == 3 ==> c == (Compressor::Zstd {
                level: 19,
                threads,
                window_log,
                long,
            })
            &&& !o.on.store && o.level == 4 ==> c == (Compressor::ZstdUltra {
                level: 19,
                threads,
                window_log,
                long,
                chain_log: 28,
                hash_log: 27,
                search_log: 10,
                target_length: 999,
            })
            &&& !o.on.store && o.level >= 5 && env.backend is None && o.bcj is None && env.bcj is None
                ==> c == lzma_for(o.level, threads, total_raw, detected, env)
            &&& !o.on.store && o.level >= 5 && env.backend == Some("ppmd"@) ==> c == (
            Compressor::Ppmd { params: ppmd_params_for(o.level, env) })
        }),
{
}

/// What the frame of files that are compressed already is packed with: the same compressor
/// with as little work as it can do.
pub proof fn lemma_media_planned(o: OptsView, env: EnvView, threads: u32)
    ensures
        o.on.store || o.level <= 4 ==> planned_media(o, env, threads) == (Compressor::Zstd {
            level: 0,
            threads,
            window_log: 0,
            long: false,
        }),
        !o.on.store && o.level >= 5 && env.backend is None && env.lzma_block_mib is None
            ==> planned_media(o, env, threads) == lzma_for(0, threads, 0, Bcj::Off, env),
{
}

} // verus!
