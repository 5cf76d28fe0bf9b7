//! Whole archives: a preamble, and behind it one or more compressed frames of
//! entries that went through the filters the preamble names.

use vstd::prelude::*;
use crate::archive::{
    Backend, FEATURE_XATTRS, PREPROC_LZP, PREPROC_REP, PREPROC_SREP, PpmdParams, Preamble,
    PreambleView, flag_set, lemma_preamble_round_trip, parse_preamble, preamble_bytes,
    preamble_consistent, read_preamble, write_preamble,
};
use crate::codec::{
    LzmaChain, MAX_WINDOW_LOG, ppmd_contents, ppmd_decode, ppmd_encode, ppmd_stream, starts_xz,
    xz_blocks, xz_contents, xz_decode, xz_encode, xz_encode_blocks, xz_stream, zstd_contents,
    zstd_decode, zstd_encode, zstd_encode_ultra, zstd_frame, zstd_ultra_frame,
};
use crate::delta::{
    DeltaReader, DeltaWriter, delta_decoded, delta_encoded, lemma_delta_decoded_prefix,
    lemma_delta_round_trip, valid_stride,
};
use crate::entry::{
    Framing, SourceEntry, SourceView, no_numbers, numbers_after, pack_all, records, source_views,
};
use crate::error::Error;
use crate::fastcdc::{ChunkRegistry, no_collision};
use crate::lz::Stream;
use crate::lzp::{LzpReader, LzpWriter};
use crate::reader::{
    ItemView, UnpackedEntry, chunks_distinct, item_views, items, items_of, known_after_sources,
    lemma_plain_sources, lemma_records_round_trip, lemma_sources_resolve, read_all, source_fits,
};
use crate::rep::{RepReader, RepWriter};
use crate::srep::SrepWriter;
use crate::wire::{ByteReader, lemma_grouping, write_bytes};

verus! {

/// A compressor with all of its settings.
#[derive(Clone, Copy, Debug, PartialEq, Eq, Structural)]
pub enum Compressor {
    Zstd { level: i32, threads: u32, window_log: u32, long: bool },
    ZstdUltra {
        level: i32,
        threads: u32,
        window_log: u32,
        long: bool,
        chain_log: u32,
        hash_log: u32,
        search_log: u32,
        target_length: u32,
    },
    Xz { chain: LzmaChain },
    XzBlocks { chain: LzmaChain, threads: u32, block: u64 },
    Ppmd { params: PpmdParams },
}

impl Compressor {
    /// A zstd window is one that the decoder takes: at most 128 MiB.
    pub open spec fn valid(self) -> bool {
        match self {
            Compressor::Zstd { window_log, .. } => window_log <= MAX_WINDOW_LOG,
            Compressor::ZstdUltra { window_log, .. } => window_log <= MAX_WINDOW_LOG,
            _ => true,
        }
    }

    /// The compressor as the preamble names it.
    pub open spec fn backend(self) -> Backend {
        match self {
            Compressor::Zstd { .. } => Backend::Zstd,
            Compressor::ZstdUltra { .. } => Backend::Zstd,
            Compressor::Xz { .. } => Backend::Lzma,
            Compressor::XzBlocks { .. } => Backend::Lzma,
            Compressor::Ppmd { .. } => Backend::Ppmd,
        }
    }

    /// The model settings that the preamble stores.
    pub open spec fn ppmd(self) -> Option<PpmdParams> {
        match self {
            Compressor::Ppmd { params } => Some(params),
            _ => None,
        }
    }
}

/// The memory of a PPMd model in bytes, at most what 32 bits can hold.
pub open spec fn model_bytes(mem_mb: u32) -> u32 {
    if mem_mb >= 4096 {
        u32::MAX
    } else {
        (mem_mb * 1_048_576) as u32
    }
}

fn model_memory(mem_mb: u32) -> (n: u32)
    ensures
        n == model_bytes(mem_mb),
{
    if mem_mb >= 4096 {
        u32::MAX
    } else {
        mem_mb * 1_048_576
    }
}

/// The frame that a compressor makes of `data`.
pub open spec fn compressed(c: Compressor, dict: Seq<u8>, data: Seq<u8>) -> Seq<u8> {
    match c {
        Compressor::Zstd { level, threads, window_log, long } => zstd_frame(
            data,
            dict,
            level,
            threads,
            window_log,
            long,
        ),
        Compressor::ZstdUltra {
            level,
            threads,
            window_log,
            long,
            chain_log,
            hash_log,
            search_log,
            target_length,
        } => zstd_ultra_frame(
            data,
            dict,
            level,
            threads,
            window_log,
            long,
            chain_log,
            hash_log,
            search_log,
            target_length,
        ),
        Compressor::Xz { chain } => xz_stream(data, chain),
        Compressor::XzBlocks { chain, threads, block } => xz_blocks(data, chain, threads, block),
        Compressor::Ppmd { params } => ppmd_stream(
            data,
            params.order as u32,
            model_bytes(params.mem_mb),
        ),
    }
}

/// What the frames behind a preamble hold.
pub open spec fn contents(
    backend: Backend,
    dict: Seq<u8>,
    ppmd: Option<PpmdParams>,
    frames: Seq<u8>,
) -> Option<Seq<u8>> {
    match backend {
        Backend::Zstd => zstd_contents(frames, dict),
        Backend::Lzma => xz_contents(frames),
        Backend::Ppmd => match ppmd {
            Some(p) => ppmd_contents(frames, p.order as u32, model_bytes(p.mem_mb)),
            None => None,
        },
    }
}

/// Frames of the compressor's own format, which further frames may follow.
pub open spec fn in_format(backend: Backend, frames: Seq<u8>) -> bool {
    backend == Backend::Lzma ==> starts_xz(frames)
}

/// A frame continues what the frames before it hold.
pub open spec fn continues(
    backend: Backend,
    dict: Seq<u8>,
    ppmd: Option<PpmdParams>,
    frame: Seq<u8>,
    data: Seq<u8>,
) -> bool {
    forall|before: Seq<u8>, x: Seq<u8>|
        in_format(backend, before) && contents(backend, dict, ppmd, before) == Some(x)
            ==> #[trigger] contents(backend, dict, ppmd, before + frame) == Some(
            #[trigger] (x + data),
        )
}

/// Compresses `data` into one frame. Where that succeeds, the frame holds the
/// data, and except with PPMd it continues the frames before it.
pub fn compress(c: Compressor, dict: &[u8], data: &[u8]) -> (res: Result<Vec<u8>, Error>)
    requires
        c.valid(),
    ensures
        match res {
            Ok(v) => {
                &&& v@ == compressed(c, dict@, data@)
                &&& in_format(c.backend(), v@)
                &&& contents(c.backend(), dict@, c.ppmd(), v@) == Some(data@)
                &&& c.backend() != Backend::Ppmd ==> continues(
                    c.backend(),
                    dict@,
                    c.ppmd(),
                    v@,
                    data@,
                )
            },
            Err(e) => e == Error::Compressor,
        },
{
    let res: Result<Vec<u8>, std::io::Error> = match c {
        Compressor::Zstd { level, threads, window_log, long } => zstd_encode(
            data,
            dict,
            level,
            threads,
            window_log,
            long,
        ),
        Compressor::ZstdUltra {
            level,
            threads,
            window_log,
            long,
            chain_log,
            hash_log,
            search_log,
            target_length,
        } => zstd_encode_ultra(
            data,
            dict,
            level,
            threads,
            window_log,
            long,
            chain_log,
            hash_log,
            search_log,
            target_length,
        ),
        Compressor::Xz { chain } => xz_encode(data, chain),
        Compressor::XzBlocks { chain, threads, block } => xz_encode_blocks(
            data,
            chain,
            threads,
            block,
        ),
        Compressor::Ppmd { params } => ppmd_encode(
            data,
            params.order as u32,
            model_memory(params.mem_mb),
        ),
    };
    match res {
        Ok(v) => Ok(v),
        Err(_) => Err(Error::Compressor),
    }
}

/// Decompresses all frames behind a preamble.
pub fn decompress(backend: Backend, dict: &[u8], ppmd: Option<PpmdParams>, frames: &[u8]) -> (res:
    Result<Vec<u8>, Error>)
    ensures
        backend == Backend::Ppmd && ppmd is None ==> res == Err::<Vec<u8>, Error>(
            Error::MissingPpmdParams,
        ),
        !(backend == Backend::Ppmd && ppmd is None) ==> match res {
            Ok(v) => contents(backend, dict@, ppmd, frames@) == Some(v@),
            Err(e) => e == Error::Decompressor,
        },
{
    let res: Result<Vec<u8>, std::io::Error> = match backend {
        Backend::Zstd => zstd_decode(frames, dict),
        Backend::Lzma => xz_decode(frames),
        Backend::Ppmd => match ppmd {
            Some(p) => ppmd_decode(frames, p.order as u32, model_memory(p.mem_mb)),
            None => {
                return Err(Error::MissingPpmdParams);
            },
        },
    };
    match res {
        Ok(v) => Ok(v),
        Err(_) => Err(Error::Decompressor),
    }
}

/// A stream of entries after the filter that is in use: delta, or one of the
/// match finders, or none.
pub open spec fn filtered(preproc: u8, delta: Option<u8>, data: Seq<u8>) -> Seq<u8> {
    match delta {
        Some(s) => delta_encoded(data, s as int),
        None => if flag_set(preproc, PREPROC_SREP) {
            crate::srep::encoded_stream(data)
        } else if flag_set(preproc, PREPROC_REP) {
            crate::rep::encoded_stream(data)
        } else if flag_set(preproc, PREPROC_LZP) {
            crate::lzp::encoded_stream(data)
        } else {
            data
        },
    }
}

/// What a match finder's stream gives out as a whole.
pub open spec fn whole(s: Stream) -> Result<Seq<u8>, Error> {
    match s.fault {
        None => Ok(s.bytes),
        Some(e) => Err(e),
    }
}

/// The stream before the match finder.
pub open spec fn unmatched(preproc: u8, data: Seq<u8>) -> Result<Seq<u8>, Error> {
    if flag_set(preproc, PREPROC_REP) || flag_set(preproc, PREPROC_SREP) {
        whole(crate::rep::decoded_stream(data))
    } else if flag_set(preproc, PREPROC_LZP) {
        whole(crate::lzp::decoded_stream(data))
    } else {
        Ok(data)
    }
}

/// The stream before the filters.
pub open spec fn unfiltered(preproc: u8, delta: Option<u8>, data: Seq<u8>) -> Result<
    Seq<u8>,
    Error,
> {
    match unmatched(preproc, data) {
        Err(e) => Err(e),
        Ok(d) => match delta {
            Some(s) => Ok(delta_decoded(d, s as int)),
            None => Ok(d),
        },
    }
}

/// No match finder is in use.
pub open spec fn no_matcher(preproc: u8) -> bool {
    !flag_set(preproc, PREPROC_REP) && !flag_set(preproc, PREPROC_SREP) && !flag_set(
        preproc,
        PREPROC_LZP,
    )
}

/// Undoing the filters gives the stream back, where delta and the match
/// finders are not in use at once.
pub proof fn lemma_filter_round_trip(preproc: u8, delta: Option<u8>, data: Seq<u8>)
    requires
        data.len() <= usize::MAX,
        delta matches Some(s) ==> s >= 1 && no_matcher(preproc),
    ensures
        unfiltered(preproc, delta, filtered(preproc, delta, data)) == Ok::<Seq<u8>, Error>(data),
{
    match delta {
        Some(s) => {
            lemma_delta_round_trip(data, s as int);
        },
        None => {
            let e = Seq::<u8>::empty();
            let f = filtered(preproc, delta, data);
            assert(f + e =~= f);
            if flag_set(preproc, PREPROC_SREP) {
                crate::srep::lemma_srep_round_trip(data, e);
            } else if flag_set(preproc, PREPROC_REP) {
                crate::rep::lemma_rep_round_trip(data, e);
            } else if flag_set(preproc, PREPROC_LZP) {
                crate::lzp::lemma_lzp_round_trip(data, e);
            }
        },
    }
}

/// Applies the filter that is in use.
pub fn filter(preproc: u8, delta: Option<u8>, data: Vec<u8>) -> (out: Vec<u8>)
    requires
        delta matches Some(s) ==> 1 <= s <= 4,
    ensures
        out@ == filtered(preproc, delta, data@),
{
    match delta {
        Some(s) => {
            let mut w = DeltaWriter::new(Vec::new(), s);
            w.write(&data);
            let out = w.finish();
            assert(Seq::<u8>::empty() + data@ =~= data@);
            assert(out@ =~= delta_encoded(data@, s as int));
            out
        },
        None => {
            if preproc & PREPROC_SREP != 0 {
                let mut w = SrepWriter::new(Vec::new());
                w.write(&data);
                assert(Seq::<u8>::empty() + data@ =~= data@);
                let out = w.finish();
                assert(out@ =~= crate::srep::encoded_stream(data@));
                out
            } else if preproc & PREPROC_REP != 0 {
                let mut w = RepWriter::new(Vec::new());
                w.write(&data);
                assert(Seq::<u8>::empty() + data@ =~= data@);
                let out = w.finish();
                assert(out@ =~= crate::rep::encoded_stream(data@));
                out
            } else if preproc & PREPROC_LZP != 0 {
                let mut w = LzpWriter::new(Vec::new());
                w.write(&data);
                assert(Seq::<u8>::empty() + data@ =~= data@);
                let out = w.finish();
                assert(out@ =~= crate::lzp::encoded_stream(data@));
                out
            } else {
                data
            }
        },
    }
}

/// Undoes the filters.
pub fn unfilter(preproc: u8, delta: Option<u8>, data: Vec<u8>) -> (res: Result<Vec<u8>, Error>)
    requires
        delta matches Some(s) ==> 1 <= s <= 4,
    ensures
        match unfiltered(preproc, delta, data@) {
            Ok(d) => res matches Ok(v) && v@ == d,
            Err(e) => res == Err::<Vec<u8>, Error>(e),
        },
{
    let d: Vec<u8> = if preproc & PREPROC_REP != 0 || preproc & PREPROC_SREP != 0 {
        match RepReader::new(&data).read_to_end() {
            Ok(v) => v,
            Err(e) => {
                return Err(e);
            },
        }
    } else if preproc & PREPROC_LZP != 0 {
        match LzpReader::new(&data).read_to_end() {
            Ok(v) => v,
            Err(e) => {
                return Err(e);
            },
        }
    } else {
        data
    };
    match delta {
        Some(s) => {
            let mut out: Vec<u8> = vec![0u8; d.len()];
            let mut r = DeltaReader::new(&d, s);
            let n: usize = r.read(out.as_mut_slice());
            proof {
                lemma_delta_decoded_prefix(d@, d@.len() as int, s as int);
                assert(out@ =~= delta_decoded(d@, s as int));
            }
            Ok(out)
        },
        None => Ok(d),
    }
}

/// What the entries of an archive share, by its preamble.
pub open spec fn framing(p: PreambleView) -> Framing {
    Framing {
        version: p.version,
        hash_algo: p.hash_algo,
        xattrs: flag_set(p.preproc, FEATURE_XATTRS),
    }
}

pub fn framing_of(p: &Preamble) -> (f: Framing)
    ensures
        f == framing(p@),
{
    Framing {
        version: p.version,
        hash_algo: p.hash_algo,
        xattrs: p.preproc & FEATURE_XATTRS != 0,
    }
}

/// The stream of entries of an archive, with its preamble.
pub open spec fn archive_stream(a: Seq<u8>) -> Result<(PreambleView, Seq<u8>), Error> {
    match parse_preamble(a) {
        Err(e) => Err(e),
        Ok((p, frames)) => match contents(p.backend, p.dict, p.ppmd, frames) {
            None => Err(Error::Decompressor),
            Some(d) => match unfiltered(p.preproc, p.delta_stride, d) {
                Err(e) => Err(e),
                Ok(s) => Ok((p, s)),
            },
        },
    }
}

/// The entries of an archive.
pub open spec fn archive_items(a: Seq<u8>) -> Result<Seq<ItemView>, Error> {
    match archive_stream(a) {
        Err(e) => Err(e),
        Ok((p, s)) => items(framing(p), Seq::empty(), s),
    }
}

/// An archive that was opened: its preamble and its stream of entries.
#[derive(Debug)]
pub struct OpenedArchive {
    pub preamble: Preamble,
    pub stream: Vec<u8>,
}

/// Opens an archive. A bad preamble is reported as such; else the decompressor
/// decides, and what it gives goes back through the filters.
pub fn open_archive(a: &[u8]) -> (res: Result<OpenedArchive, Error>)
    ensures
        match parse_preamble(a@) {
            Err(e) => res matches Err(x) && x == e,
            Ok((p, frames)) => match res {
                Ok(o) => o.preamble@ == p && archive_stream(a@) == Ok::<
                    (PreambleView, Seq<u8>),
                    Error,
                >((p, o.stream@)),
                Err(e) => e == Error::Decompressor || archive_stream(a@) == Err::<
                    (PreambleView, Seq<u8>),
                    Error,
                >(e),
            },
        },
{
    let mut r = ByteReader::new(a);
    let preamble = match read_preamble(&mut r) {
        Ok(p) => p,
        Err(e) => {
            return Err(e);
        },
    };
    let frames = r.peek();
    proof {
        lemma_parsed_preamble(a@);
    }
    let data = match decompress(preamble.backend, &preamble.dict, preamble.ppmd, frames) {
        Ok(d) => d,
        Err(_) => {
            return Err(Error::Decompressor);
        },
    };
    match unfilter(preamble.preproc, preamble.delta_stride, data) {
        Ok(stream) => Ok(OpenedArchive { preamble, stream }),
        Err(e) => Err(e),
    }
}

/// An archive that was read: its preamble and its entries.
#[derive(Debug)]
pub struct ReadArchive {
    pub preamble: Preamble,
    pub items: Vec<UnpackedEntry>,
}

/// Reads all entries of an archive.
pub fn read_archive(a: &[u8]) -> (res: Result<ReadArchive, Error>)
    ensures
        match parse_preamble(a@) {
            Err(e) => res matches Err(x) && x == e,
            Ok((p, frames)) => match res {
                Ok(r) => r.preamble@ == p && archive_items(a@) == Ok::<Seq<ItemView>, Error>(
                    item_views(r.items@),
                ),
                Err(e) => e == Error::Decompressor || archive_items(a@) == Err::<
                    Seq<ItemView>,
                    Error,
                >(e),
            },
        },
{
    let opened = match open_archive(a) {
        Ok(o) => o,
        Err(e) => {
            return Err(e);
        },
    };
    match read_all(opened.stream.as_slice(), framing_of(&opened.preamble)) {
        Ok(items) => Ok(ReadArchive { preamble: opened.preamble, items }),
        Err(e) => Err(e),
    }
}

/// A preamble that was read has a stride that the filter takes, and model
/// settings where the compressor needs them.
proof fn lemma_parsed_preamble(a: Seq<u8>)
    ensures
        parse_preamble(a) matches Ok((p, t)) ==> {
            &&& p.delta_stride matches Some(s) ==> valid_stride(s as int)
            &&& p.backend == Backend::Ppmd ==> p.ppmd is Some
        },
{
}

/// An archive with preamble `p` whose frames together hold `data`.
pub open spec fn is_archive(a: Seq<u8>, p: PreambleView, data: Seq<u8>) -> bool {
    exists|frames: Seq<u8>|
        a == preamble_bytes(p) + frames && in_format(p.backend, frames) && #[trigger] contents(
            p.backend,
            p.dict,
            p.ppmd,
            frames,
        ) == Some(data)
}

/// Appends one frame with the records of `entries`, filtered as asked for. The
/// chunk numbers go on from those of `reg`.
fn write_frame(
    out: &mut Vec<u8>,
    c: Compressor,
    dict: &[u8],
    preproc: u8,
    delta: Option<u8>,
    entries: &[SourceEntry],
    f: Framing,
    fastcdc: bool,
    reg: &mut ChunkRegistry,
) -> (res: Result<(), Error>)
    requires
        c.valid(),
        delta matches Some(s) ==> 1 <= s <= 4,
    ensures
        match records(source_views(entries@), f, fastcdc, old(reg)@) {
            Err(e) => res == Err::<(), Error>(e),
            Ok(b) => match res {
                Ok(()) => {
                    let data = filtered(preproc, delta, b);
                    let frame = compressed(c, dict@, data);
                    &&& final(reg)@ == numbers_after(source_views(entries@), fastcdc, old(reg)@)
                    &&& final(out)@ == old(out)@ + frame
                    &&& in_format(c.backend(), frame)
                    &&& contents(c.backend(), dict@, c.ppmd(), frame) == Some(data)
                    &&& c.backend() != Backend::Ppmd ==> continues(
                        c.backend(),
                        dict@,
                        c.ppmd(),
                        frame,
                        data,
                    )
                },
                Err(e) => e == Error::Compressor,
            },
        },
{
    let mut raw: Vec<u8> = Vec::new();
    match pack_all(entries, &mut raw, f, fastcdc, reg) {
        Ok(()) => {},
        Err(e) => {
            return Err(e);
        },
    }
    proof {
        let b = records(source_views(entries@), f, fastcdc, old(reg)@)->Ok_0;
        assert(Seq::<u8>::empty() + b =~= b);
    }
    let data = filter(preproc, delta, raw);
    match compress(c, dict, &data) {
        Ok(v) => {
            write_bytes(out, &v);
            Ok(())
        },
        Err(e) => Err(e),
    }
}

/// The settings of a new archive. The compressor of the second frame, which
/// takes files that will not compress, is of the same kind.
#[derive(Debug)]
pub struct ArchivePlan {
    pub preamble: Preamble,
    pub compressor: Compressor,
    pub media_compressor: Compressor,
    pub fastcdc: bool,
}

impl ArchivePlan {
    /// The preamble goes with both compressors, which are valid, its flags and
    /// settings agree, and delta and the match finders are not in use at once.
    pub open spec fn valid(&self) -> bool {
        &&& preamble_consistent(self.preamble@)
        &&& self.compressor.valid()
        &&& self.media_compressor.valid()
        &&& self.compressor.backend() == self.preamble.backend
        &&& self.compressor.ppmd() == self.preamble.ppmd
        &&& self.media_compressor.backend() == self.preamble.backend
        &&& self.preamble.delta_stride is Some ==> no_matcher(self.preamble.preproc)
    }
}

/// The records of the entries of a plan, as they come before the filters.
pub open spec fn plan_records(plan: ArchivePlan, es: Seq<SourceView>) -> Result<Seq<u8>, Error> {
    records(es, framing(plan.preamble@), plan.fastcdc, no_numbers())
}

/// The records of the media files of a plan. Chunk numbers go on from those of
/// the entries, as a reader's do.
pub open spec fn media_records(
    plan: ArchivePlan,
    entries: Seq<SourceView>,
    media: Seq<SourceView>,
) -> Result<Seq<u8>, Error> {
    records(
        media,
        framing(plan.preamble@),
        plan.fastcdc,
        numbers_after(entries, plan.fastcdc, no_numbers()),
    )
}

/// What the frames of a new archive hold: the filtered records of the entries
/// and, in a second frame, the records of the media files as they are.
pub open spec fn plan_data(
    plan: ArchivePlan,
    entries: Seq<SourceView>,
    media: Seq<SourceView>,
) -> Seq<u8> {
    let first = filtered(
        plan.preamble.preproc,
        plan.preamble.delta_stride,
        plan_records(plan, entries)->Ok_0,
    );
    if media.len() == 0 {
        first
    } else {
        first + media_records(plan, entries, media)->Ok_0
    }
}

/// The bytes of a new archive.
pub open spec fn plan_bytes(
    plan: ArchivePlan,
    entries: Seq<SourceView>,
    media: Seq<SourceView>,
) -> Seq<u8> {
    let p = plan.preamble@;
    let first = compressed(
        plan.compressor,
        p.dict,
        filtered(p.preproc, p.delta_stride, plan_records(plan, entries)->Ok_0),
    );
    let head = preamble_bytes(p) + first;
    if media.len() == 0 {
        head
    } else {
        head + compressed(
            plan.media_compressor,
            p.dict,
            media_records(plan, entries, media)->Ok_0,
        )
    }
}

/// Makes an archive. A second frame needs a compressor whose frames can be
/// joined and a stream without filters.
pub fn create_archive(plan: &ArchivePlan, entries: &[SourceEntry], media: &[SourceEntry]) -> (res:
    Result<Vec<u8>, Error>)
    requires
        plan.valid(),
        media@.len() > 0 ==> plan.preamble.backend != Backend::Ppmd,
    ensures
        match plan_records(*plan, source_views(entries@)) {
            Err(e) => res == Err::<Vec<u8>, Error>(e),
            Ok(_) => match res {
                Ok(a) => {
                    &&& media@.len() > 0 ==> media_records(
                        *plan,
                        source_views(entries@),
                        source_views(media@),
                    ) is Ok
                    &&& a@ == plan_bytes(*plan, source_views(entries@), source_views(media@))
                    &&& is_archive(
                        a@,
                        plan.preamble@,
                        plan_data(*plan, source_views(entries@), source_views(media@)),
                    )
                },
                Err(e) => e == Error::Compressor || (media@.len() > 0 && media_records(
                    *plan,
                    source_views(entries@),
                    source_views(media@),
                ) == Err::<Seq<u8>, Error>(e)),
            },
        },
{
    let p = &plan.preamble;
    let f = framing_of(p);
    let mut out: Vec<u8> = Vec::new();
    let comment: Option<&str> = match &p.comment {
        Some(c) => Some(c.as_str()),
        None => None,
    };
    proof {
        lemma_preamble_round_trip(p@, Seq::empty());
    }
    let ghost pv = p@;
    let written = write_preamble(
        &mut out,
        p.version,
        p.backend,
        p.preproc,
        &p.dict,
        p.ppmd,
        comment,
        p.hash_algo,
        p.delta_stride,
    );
    assert(written is Ok && out@ == Seq::<u8>::empty() + preamble_bytes(pv));
    assert(Seq::<u8>::empty() + preamble_bytes(pv) =~= preamble_bytes(pv));
    let mut reg = ChunkRegistry::new();
    assert(reg@ == no_numbers());
    match write_frame(
        &mut out,
        plan.compressor,
        &p.dict,
        p.preproc,
        p.delta_stride,
        entries,
        f,
        plan.fastcdc,
        &mut reg,
    ) {
        Ok(()) => {},
        Err(e) => {
            return Err(e);
        },
    }
    let ghost raw1 = plan_records(*plan, source_views(entries@))->Ok_0;
    let ghost data1 = filtered(pv.preproc, pv.delta_stride, raw1);
    let ghost frame1 = compressed(plan.compressor, pv.dict, data1);
    assert(out@ == preamble_bytes(pv) + frame1);
    if media.len() == 0 {
        assert(contents(pv.backend, pv.dict, pv.ppmd, frame1) == Some(data1));
        return Ok(out);
    }
    match write_frame(
        &mut out,
        plan.media_compressor,
        &p.dict,
        0,
        None,
        media,
        f,
        plan.fastcdc,
        &mut reg,
    ) {
        Ok(()) => {},
        Err(e) => {
            return Err(e);
        },
    }
    proof {
        let data2 = media_records(*plan, source_views(entries@), source_views(media@))->Ok_0;
        lemma_no_filter(data2);
        let frame2 = compressed(plan.media_compressor, pv.dict, data2);
        lemma_grouping(preamble_bytes(pv), frame1, frame2);
        assert(contents(pv.backend, pv.dict, pv.ppmd, frame1 + frame2) == Some(data1 + data2));
    }
    Ok(out)
}

proof fn lemma_no_filter(data: Seq<u8>)
    ensures
        filtered(0, None, data) == data,
        no_matcher(0),
{
    assert(0u8 & 0x01 == 0) by (bit_vector);
    assert(0u8 & 0x02 == 0) by (bit_vector);
    assert(0u8 & 0x80 == 0) by (bit_vector);
}

/// Adds a frame with further entries, without chunk records, to an archive. The
/// bytes that are there stay as they are and the new frame follows them.
pub fn append_archive(
    old_archive: Vec<u8>,
    preamble: &Preamble,
    c: Compressor,
    entries: &[SourceEntry],
) -> (res: Result<Vec<u8>, Error>)
    requires
        preamble.backend != Backend::Ppmd,
        preamble.ppmd is None,
        c.valid(),
        c.backend() == preamble.backend,
    ensures
        match records(source_views(entries@), framing(preamble@), false, no_numbers()) {
            Err(e) => res == Err::<Vec<u8>, Error>(e),
            Ok(b) => match res {
                Ok(a) => {
                    &&& a@ == old_archive@ + compressed(c, preamble.dict@, b)
                    &&& forall|d: Seq<u8>| #[trigger]
                        is_archive(old_archive@, preamble@, d) ==> is_archive(a@, preamble@, d + b)
                },
                Err(e) => e == Error::Compressor,
            },
        },
{
    let f = framing_of(preamble);
    let mut out = old_archive;
    let mut reg = ChunkRegistry::new();
    assert(reg@ == no_numbers());
    match write_frame(&mut out, c, &preamble.dict, 0, None, entries, f, false, &mut reg) {
        Ok(()) => {},
        Err(e) => {
            return Err(e);
        },
    }
    proof {
        let b = records(source_views(entries@), f, false, no_numbers())->Ok_0;
        lemma_no_filter(b);
        let p = preamble@;
        let frame = compressed(c, p.dict, b);
        assert forall|d: Seq<u8>| #[trigger] is_archive(old_archive@, p, d) implies is_archive(
            out@,
            p,
            d + b,
        ) by {
            let frames = choose|frames: Seq<u8>|
                old_archive@ == preamble_bytes(p) + frames && in_format(p.backend, frames)
                    && #[trigger] contents(p.backend, p.dict, p.ppmd, frames) == Some(d);
            lemma_grouping(preamble_bytes(p), frames, frame);
            assert(contents(p.backend, p.dict, p.ppmd, frames + frame) == Some(d + b));
        }
    }
    Ok(out)
}

/// Opening an archive gives back its preamble, and its stream is what its
/// frames hold without the filters.
pub proof fn lemma_archive_opens(a: Seq<u8>, p: PreambleView, data: Seq<u8>)
    requires
        preamble_consistent(p),
        is_archive(a, p, data),
    ensures
        archive_stream(a) == (match unfiltered(p.preproc, p.delta_stride, data) {
            Ok(s) => Ok::<(PreambleView, Seq<u8>), Error>((p, s)),
            Err(e) => Err(e),
        }),
{
    let frames = choose|frames: Seq<u8>|
        a == preamble_bytes(p) + frames && in_format(p.backend, frames) && #[trigger] contents(
            p.backend,
            p.dict,
            p.ppmd,
            frames,
        ) == Some(data);
    lemma_preamble_round_trip(p, frames);
}

/// Every source fits its fields, and where chunk records are used no two
/// different chunks share a fingerprint.
pub open spec fn sources_fit(es: Seq<SourceView>, f: Framing, fastcdc: bool, set: Set<Seq<u8>>) -> bool {
    &&& forall|k: int| 0 <= k < es.len() ==> source_fits(#[trigger] es[k], f, fastcdc)
    &&& no_collision(set)
    &&& forall|k: int| 0 <= k < es.len() ==> chunks_distinct(#[trigger] es[k], fastcdc, set)
}

/// What was packed is what is read: the entries of an archive with one frame
/// are those that the sources stand for, whatever compressor and filter were
/// used.
pub proof fn lemma_archive_round_trip(
    a: Seq<u8>,
    p: PreambleView,
    es: Seq<SourceView>,
    fastcdc: bool,
    set: Set<Seq<u8>>,
)
    requires
        preamble_consistent(p),
        p.delta_stride is Some ==> no_matcher(p.preproc),
        records(es, framing(p), fastcdc, no_numbers()) matches Ok(b) && b.len() <= usize::MAX
            && is_archive(a, p, filtered(p.preproc, p.delta_stride, b)),
        sources_fit(es, framing(p), fastcdc, set),
    ensures
        archive_items(a) == Ok::<Seq<ItemView>, Error>(items_of(es, framing(p), fastcdc)),
{
    let f = framing(p);
    let b = records(es, f, fastcdc, no_numbers())->Ok_0;
    lemma_archive_opens(a, p, filtered(p.preproc, p.delta_stride, b));
    lemma_filter_round_trip(p.preproc, p.delta_stride, b);
    lemma_stream_round_trip(es, f, fastcdc, set, Seq::empty());
    assert(b + Seq::<u8>::empty() =~= b);
    lemma_no_more_items(f, known_after_sources(es, f, fastcdc, no_numbers(), Seq::empty()));
    assert(items_of(es, f, fastcdc) + Seq::<ItemView>::empty() =~= items_of(es, f, fastcdc));
}

proof fn lemma_stream_round_trip(
    es: Seq<SourceView>,
    f: Framing,
    fastcdc: bool,
    set: Set<Seq<u8>>,
    tail: Seq<u8>,
)
    requires
        records(es, f, fastcdc, no_numbers()) is Ok,
        sources_fit(es, f, fastcdc, set),
    ensures
        items(f, Seq::empty(), records(es, f, fastcdc, no_numbers())->Ok_0 + tail) == (match items(
            f,
            known_after_sources(es, f, fastcdc, no_numbers(), Seq::empty()),
            tail,
        ) {
            Ok(rest) => Ok::<Seq<ItemView>, Error>(items_of(es, f, fastcdc) + rest),
            Err(e) => Err(e),
        }),
{
    lemma_sources_resolve(es, f, fastcdc, no_numbers(), Seq::empty(), set);
    lemma_records_round_trip(es, f, fastcdc, no_numbers(), Seq::empty(), tail);
}

proof fn lemma_no_more_items(f: Framing, known: Seq<Seq<u8>>)
    ensures
        items(f, known, Seq::empty()) == Ok::<Seq<ItemView>, Error>(Seq::empty()),
{
    reveal(crate::reader::parse_item);
    reveal(crate::archive::parse_header);
}

/// The stream `d` reads as the entries `xs`, and a reader goes on behind it with
/// the chunks `known`.
pub open spec fn reads_as(
    f: Framing,
    d: Seq<u8>,
    xs: Seq<ItemView>,
    known: Seq<Seq<u8>>,
) -> bool {
    forall|t: Seq<u8>| #[trigger]
        items(f, Seq::empty(), d + t) == (match items(f, known, t) {
            Ok(rest) => Ok::<Seq<ItemView>, Error>(xs + rest),
            Err(e) => Err(e),
        })
}

/// What was packed in one frame reads as the entries of its sources.
pub proof fn lemma_records_read(
    es: Seq<SourceView>,
    f: Framing,
    fastcdc: bool,
    set: Set<Seq<u8>>,
)
    requires
        records(es, f, fastcdc, no_numbers()) is Ok,
        sources_fit(es, f, fastcdc, set),
    ensures
        reads_as(
            f,
            records(es, f, fastcdc, no_numbers())->Ok_0,
            items_of(es, f, fastcdc),
            known_after_sources(es, f, fastcdc, no_numbers(), Seq::empty()),
        ),
{
    let d = records(es, f, fastcdc, no_numbers())->Ok_0;
    let known = known_after_sources(es, f, fastcdc, no_numbers(), Seq::empty());
    assert forall|t: Seq<u8>| #[trigger] items(f, Seq::empty(), d + t) == (match items(f, known, t) {
        Ok(rest) => Ok::<Seq<ItemView>, Error>(items_of(es, f, fastcdc) + rest),
        Err(e) => Err(e),
    }) by {
        lemma_stream_round_trip(es, f, fastcdc, set, t);
    }
}

/// A further frame without chunk records reads as its entries behind those that
/// were there.
pub proof fn lemma_further_frame_reads(
    f: Framing,
    d: Seq<u8>,
    xs: Seq<ItemView>,
    known: Seq<Seq<u8>>,
    es: Seq<SourceView>,
)
    requires
        reads_as(f, d, xs, known),
        records(es, f, false, no_numbers()) is Ok,
        forall|k: int| 0 <= k < es.len() ==> source_fits(#[trigger] es[k], f, false),
    ensures
        reads_as(
            f,
            d + records(es, f, false, no_numbers())->Ok_0,
            xs + items_of(es, f, false),
            known,
        ),
{
    let b = records(es, f, false, no_numbers())->Ok_0;
    let ys = items_of(es, f, false);
    lemma_plain_sources(es, f, no_numbers(), known);
    assert forall|t: Seq<u8>| #[trigger] items(f, Seq::empty(), (d + b) + t) == (match items(
        f,
        known,
        t,
    ) {
        Ok(rest) => Ok::<Seq<ItemView>, Error>((xs + ys) + rest),
        Err(e) => Err(e),
    }) by {
        lemma_grouping(d, b, t);
        assert(items(f, Seq::empty(), d + (b + t)) == (match items(f, known, b + t) {
            Ok(rest) => Ok::<Seq<ItemView>, Error>(xs + rest),
            Err(e) => Err(e),
        }));
        lemma_records_round_trip(es, f, false, no_numbers(), known, t);
        if let Ok(rest) = items(f, known, t) {
            assert(xs + (ys + rest) =~= (xs + ys) + rest);
        }
    }
}

/// An archive without filters whose frames read as some entries has those
/// entries.
pub proof fn lemma_frames_round_trip(
    a: Seq<u8>,
    p: PreambleView,
    d: Seq<u8>,
    xs: Seq<ItemView>,
    known: Seq<Seq<u8>>,
)
    requires
        preamble_consistent(p),
        p.delta_stride is None,
        no_matcher(p.preproc),
        is_archive(a, p, d),
        reads_as(framing(p), d, xs, known),
    ensures
        archive_items(a) == Ok::<Seq<ItemView>, Error>(xs),
{
    let f = framing(p);
    lemma_archive_opens(a, p, d);
    assert(d + Seq::<u8>::empty() =~= d);
    assert(items(f, Seq::empty(), d + Seq::<u8>::empty()) == (match items(f, known, Seq::empty()) {
        Ok(rest) => Ok::<Seq<ItemView>, Error>(xs + rest),
        Err(e) => Err(e),
    }));
    lemma_no_more_items(f, known);
    assert(xs + Seq::<ItemView>::empty() =~= xs);
}

/// Without chunk records nothing is asked of the chunks of sources.
pub proof fn lemma_plain_sources_fit(es: Seq<SourceView>, f: Framing)
    requires
        forall|k: int| 0 <= k < es.len() ==> source_fits(#[trigger] es[k], f, false),
    ensures
        sources_fit(es, f, false, Set::empty()),
{
}

/// What the flags of a preamble do to the data: the delta filter goes with its stride, and
/// of the matchers each has a bit of its own, 2 for far repeats, 1 for near ones and 128
/// for predicted ones. Without any the data stands as it is.
pub proof fn lemma_filter_tells(preproc: u8, data: Seq<u8>, stride: u8)
    ensures
        filtered(preproc, Some(stride), data) == delta_encoded(data, stride as int),
        preproc & 0x02 != 0 ==> filtered(preproc, None, data) == crate::srep::encoded_stream(data),
        preproc & 0x02 == 0 && preproc & 0x01 != 0 ==> filtered(preproc, None, data)
            == crate::rep::encoded_stream(data),
        preproc & 0x03 == 0 && preproc & 0x80 != 0 ==> filtered(preproc, None, data)
            == crate::lzp::encoded_stream(data),
        preproc & 0x83 == 0 ==> filtered(preproc, None, data) == data,
        preproc & 0x83 == 0 ==> unfiltered(preproc, None, data) == Ok::<Seq<u8>, Error>(data),
{
    assert(preproc & 0x03 == 0 ==> preproc & 0x01 == 0 && preproc & 0x02 == 0) by (bit_vector);
    assert(preproc & 0x83 == 0 ==> preproc & 0x01 == 0 && preproc & 0x02 == 0 && preproc & 0x80
        == 0) by (bit_vector);
}

/// What a compressor is given: all of the data, the dictionary, and its own settings. The
/// memory of the PPMd model is counted in mebibytes.
pub proof fn lemma_compressor_tells(
    data: Seq<u8>,
    dict: Seq<u8>,
    frames: Seq<u8>,
    chain: LzmaChain,
    p: PpmdParams,
    level: i32,
    threads: u32,
    window_log: u32,
    long: bool,
    block: u64,
)
    ensures
        compressed(Compressor::Zstd { level, threads, window_log, long }, dict, data) == zstd_frame(
            data,
            dict,
            level,
            threads,
            window_log,
            long,
        ),
        compressed(Compressor::Xz { chain }, dict, data) == xz_stream(data, chain),
        compressed(Compressor::XzBlocks { chain, threads, block }, dict, data) == xz_blocks(
            data,
            chain,
            threads,
            block,
        ),
        p.mem_mb < 4096 ==> compressed(Compressor::Ppmd { params: p }, dict, data) == ppmd_stream(
            data,
            p.order as u32,
            (p.mem_mb * 1024 * 1024) as u32,
        ),
        contents(Backend::Zstd, dict, None, frames) == zstd_contents(frames, dict),
        contents(Backend::Lzma, dict, None, frames) == xz_contents(frames),
        p.mem_mb < 4096 ==> contents(Backend::Ppmd, dict, Some(p), frames) == ppmd_contents(
            frames,
            p.order as u32,
            (p.mem_mb * 1024 * 1024) as u32,
        ),
{
}

} // verus!
