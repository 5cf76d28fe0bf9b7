//! Packing: from the entries that were found to the bytes of an archive.

use vstd::prelude::*;
use crate::archive::{
    ArchiveVersion, Backend, EntryKind, FEATURE_XATTRS, PREPROC_LZP, PREPROC_REP, PREPROC_SREP,
    Preamble, PreambleView, flag_set, parse_preamble, preamble_consistent, read_preamble,
};
use crate::cli::{Opts, OptsView};
use crate::codec::Bcj;
use crate::dict::{
    adaptive_dict_target, dict_target, gather_samples, is_trained_dict, samples_from, train_dict,
};
use crate::entry::{
    SourceEntry, SourceKind, SourceView, capped, lemma_records_joined, no_numbers, numbers_after,
    records, source_views,
};
use crate::error::Error;
use crate::fastcdc::Numbering;
use crate::frame::{
    ArchivePlan, Compressor, append_archive, archive_items, compressed, create_archive, filtered,
    framing, is_archive, lemma_archive_round_trip, lemma_frames_round_trip,
    lemma_further_frame_reads, lemma_records_read, media_records, plan_bytes, plan_data,
    plan_records, reads_as, sources_fit,
};
use crate::hashes::xxh3_of;
use crate::order::{arranged, is_solid_order, lemma_arranged_keeps, solid_sort};
use crate::paths::{is_stream_path, media_path};
use crate::plan::{
    Env, EnvView, PlanError, auto_detect_bcj, backend_for, bcj_for, build_lzma_stream, build_zstd,
    detected_bcj, is_valid_level, lzma_for, pick_backend, pick_bcj, plan_archive, plan_fault,
    planned_compressor, planned_media, planned_preamble, raw_bytes, raw_sum, threads_for, zstd_for,
};
use crate::reader::{ItemView, items_of, known_after_sources, lemma_items_tell, source_fits};
use crate::select::{
    apply_selectors, keeps, lemma_copies_are_marked, lemma_duplicates_resolve, lemma_marks_tell,
    mark_duplicates, marked, route,
};
use crate::wire::ByteReader;

verus! {

/// The entries that go into an archive, in the order of its frames.
#[derive(Debug)]
pub struct Prepared {
    pub entries: Vec<SourceEntry>,
    pub media: Vec<SourceEntry>,
}

/// The entries in solid order, or as they came where sorting is off.
pub open spec fn ordered(es: Seq<SourceView>, nosort: bool, order: Seq<int>) -> Seq<SourceView> {
    if nosort {
        es
    } else {
        arranged(es, order)
    }
}

/// One frame's entries, with duplicates marked where deduplication is on.
pub open spec fn deduplicated(es: Seq<SourceView>, dedup: bool) -> Seq<SourceView> {
    if dedup {
        marked(es)
    } else {
        es
    }
}

/// The entries of the first frame.
pub open spec fn first_frame(es: Seq<SourceView>, o: OptsView) -> Seq<SourceView> {
    if o.on.route && !o.on.append {
        es.filter(|e: SourceView| !media_path(e.path))
    } else {
        es
    }
}

/// The entries of the frame for files that are compressed already.
pub open spec fn media_frame(es: Seq<SourceView>, o: OptsView) -> Seq<SourceView> {
    if o.on.route && !o.on.append {
        es.filter(|e: SourceView| media_path(e.path))
    } else {
        Seq::empty()
    }
}

fn deduplicate(entries: Vec<SourceEntry>, dedup: bool) -> (r: Vec<SourceEntry>)
    ensures
        source_views(r@) == deduplicated(source_views(entries@), dedup),
{
    if dedup {
        mark_duplicates(entries)
    } else {
        entries
    }
}

/// The two frames are what the selectors keep of all entries, in the given
/// order, divided and with duplicates marked as the flags ask.
pub open spec fn prepared_as(
    all: Seq<SourceView>,
    o: OptsView,
    order: Seq<int>,
    entries: Seq<SourceView>,
    media: Seq<SourceView>,
) -> bool {
    let kept = all.filter(|e: SourceView| keeps(e, o));
    let sorted = ordered(kept, o.on.nosort, order);
    &&& is_solid_order(kept, order)
    &&& entries == deduplicated(first_frame(sorted, o), o.on.dedup)
    &&& media == deduplicated(media_frame(sorted, o), o.on.dedup)
}

/// Selects and sorts entries and divides them into frames. In a new archive
/// routed media files come in a frame of their own, and a duplicate always
/// refers to an entry of its own frame.
pub fn prepare(all: Vec<SourceEntry>, opts: &Opts) -> (r: Prepared)
    ensures
        exists|order: Seq<int>| #[trigger]
            prepared_as(
                source_views(all@),
                opts@,
                order,
                source_views(r.entries@),
                source_views(r.media@),
            ),
{
    let kept = apply_selectors(all, opts);
    let ghost kv = source_views(kept@);
    let sorted = if opts.on.nosort {
        proof {
            crate::order::lemma_solid_order_exists(kv);
        }
        kept
    } else {
        solid_sort(kept)
    };
    let ghost order = choose|order: Seq<int>| #[trigger]
        is_solid_order(kv, order) && source_views(sorted@) == ordered(kv, opts.on.nosort, order);
    assert(is_solid_order(kv, order) && source_views(sorted@) == ordered(kv, opts.on.nosort, order));
    let (entries, media) = if opts.on.route && !opts.on.append {
        route(sorted)
    } else {
        let none: Vec<SourceEntry> = Vec::new();
        assert(source_views(none@) =~= Seq::empty());
        (sorted, none)
    };
    let entries = deduplicate(entries, opts.on.dedup);
    let media = deduplicate(media, opts.on.dedup);
    let r = Prepared { entries, media };
    assert(prepared_as(
        source_views(all@),
        opts@,
        order,
        source_views(r.entries@),
        source_views(r.media@),
    ));
    r
}

/// Preparing loses nothing that the selectors keep and invents nothing: the two
/// frames hold as many entries as are kept, every kept entry is in one of them with
/// all that it had, and every entry of a frame is one that was kept. Only a
/// duplicate gets a mark, and only where deduplication is on. A frame for media is
/// made only where it is asked for.
pub proof fn lemma_prepared_keeps(
    all: Seq<SourceView>,
    o: OptsView,
    order: Seq<int>,
    entries: Seq<SourceView>,
    media: Seq<SourceView>,
)
    requires
        prepared_as(all, o, order, entries, media),
    ensures
        entries.len() + media.len() == all.filter(|e: SourceView| keeps(e, o)).len(),
        forall|e: SourceView| #[trigger]
            all.contains(e) && keeps(e, o) ==> exists|x: SourceView| #[trigger]
                (entries + media).contains(x) && x.kind == e.kind && x.mode == e.mode
                && x.size == e.size && x.mtime == e.mtime && x.path == e.path && x.link_target
                == e.link_target && x.xattrs == e.xattrs && x.data == e.data,
        forall|x: SourceView| #[trigger]
            (entries + media).contains(x) ==> exists|e: SourceView| #[trigger]
                all.contains(e) && keeps(e, o) && x.kind == e.kind && x.mode == e.mode
                && x.size == e.size && x.mtime == e.mtime && x.path == e.path && x.link_target
                == e.link_target && x.xattrs == e.xattrs && x.data == e.data
                && (!o.on.dedup ==> x.duplicate_of == e.duplicate_of),
        !o.on.route || o.on.append ==> media.len() == 0,
{
    broadcast use vstd::seq_lib::group_filter_ensures;

    let pred = |e: SourceView| keeps(e, o);
    let kept = all.filter(pred);
    let sorted = ordered(kept, o.on.nosort, order);
    let plain = |e: SourceView| !media_path(e.path);
    let routed = |e: SourceView| media_path(e.path);
    let first = first_frame(sorted, o);
    let second = media_frame(sorted, o);
    lemma_arranged_keeps(kept, order);
    lemma_halves(sorted, plain, routed);
    assert forall|e: SourceView| #[trigger] all.contains(e) && keeps(e, o) implies exists|
        x: SourceView,
    | #[trigger]
        (entries + media).contains(x) && x.kind == e.kind && x.mode == e.mode
                && x.size == e.size && x.mtime == e.mtime && x.path == e.path && x.link_target
                == e.link_target && x.xattrs == e.xattrs && x.data == e.data by {
        let k = choose|k: int| 0 <= k < all.len() && all[k] == e;
        assert(pred(all[k]));
        assert(kept.contains(e));
        assert(sorted.contains(e));
        let m = choose|m: int| 0 <= m < sorted.len() && sorted[m] == e;
        if o.on.route && !o.on.append {
            assert(plain(sorted[m]) || routed(sorted[m]));
        }
        assert(first.contains(e) || second.contains(e));
        if first.contains(e) {
            let i = choose|i: int| 0 <= i < first.len() && first[i] == e;
            assert((entries + media)[i] == entries[i]);
            assert((entries + media).contains(entries[i]));
        } else {
            let i = choose|i: int| 0 <= i < second.len() && second[i] == e;
            assert((entries + media)[entries.len() + i] == media[i]);
            assert((entries + media).contains(media[i]));
        }
    }
    assert forall|x: SourceView| #[trigger] (entries + media).contains(x) implies exists|
        e: SourceView,
    | #[trigger]
        all.contains(e) && keeps(e, o) && x.kind == e.kind && x.mode == e.mode
                && x.size == e.size && x.mtime == e.mtime && x.path == e.path && x.link_target
                == e.link_target && x.xattrs == e.xattrs && x.data == e.data && (!o.on.dedup ==> x.duplicate_of == e.duplicate_of) by {
        let i = choose|i: int| 0 <= i < (entries + media).len() && (entries + media)[i] == x;
        let e = if i < entries.len() {
            first[i]
        } else {
            second[i - entries.len()]
        };
        assert(first.contains(e) || second.contains(e));
        assert(sorted.contains(e)) by {
            if o.on.route && !o.on.append {
                if first.contains(e) {
                    sorted.lemma_filter_contains_rev(plain, e);
                } else {
                    sorted.lemma_filter_contains_rev(routed, e);
                }
            }
        }
        assert(kept.contains(e));
        let n = choose|n: int| 0 <= n < kept.len() && kept[n] == e;
        assert(pred(kept[n]));
        all.lemma_filter_contains_rev(pred, e);
    }
}

proof fn lemma_halves(
    s: Seq<SourceView>,
    p: spec_fn(SourceView) -> bool,
    q: spec_fn(SourceView) -> bool,
)
    requires
        forall|e: SourceView| #[trigger] p(e) == !q(e),
    ensures
        s.filter(p).len() + s.filter(q).len() == s.len(),
    decreases s.len(),
{
    reveal(Seq::filter);
    if s.len() > 0 {
        lemma_halves(s.drop_last(), p, q);
        assert(p(s.last()) == !q(s.last()));
    }
}

/// Why packing failed.
#[derive(Clone, Copy, Debug, PartialEq, Eq, Structural)]
pub enum AddError {
    /// The flags do not go together.
    Plan(PlanError),
    /// The archive could not be read or written.
    Archive(Error),
}

/// Whether a dictionary is trained: for zstd, on demand.
pub open spec fn dict_wanted(o: OptsView, env: EnvView) -> bool {
    backend_for(o.level, o.on.store, env) == Backend::Zstd && !o.on.store && !o.on.nodict
        && o.on.dict
}

/// The dictionary `d` of a new archive is trained from the samples of its
/// entries, for a size that goes by their bytes; there is none where none is
/// wanted.
pub open spec fn dict_follows(
    o: OptsView,
    env: EnvView,
    entries: Seq<SourceView>,
    total_raw: int,
    d: Seq<u8>,
) -> bool {
    if dict_wanted(o, env) {
        is_trained_dict(samples_from(entries, 0, 0), dict_target(total_raw) as usize, d)
    } else {
        d.len() == 0
    }
}

/// The dictionary of a new archive.
fn make_dict(opts: &Opts, env: &Env, entries: &[SourceEntry], total_raw: u64) -> (d: Vec<u8>)
    ensures
        d@.len() <= u32::MAX,
        dict_follows(opts@, env@, source_views(entries@), total_raw as int, d@),
{
    let backend = pick_backend(opts.level, opts.on.store, env);
    if backend == Backend::Zstd && !opts.on.store && !opts.on.nodict && opts.on.dict {
        let samples = gather_samples(entries);
        train_dict(samples.as_slice(), adaptive_dict_target(total_raw))
    } else {
        Vec::new()
    }
}

/// A new archive, with the plan that it was made by.
#[derive(Debug)]
pub struct Added {
    pub plan: ArchivePlan,
    pub bytes: Vec<u8>,
}

/// The plan is the one that flags, environment and entries ask for.
pub open spec fn plan_follows(
    plan: ArchivePlan,
    o: OptsView,
    env: EnvView,
    cores: int,
    entries: Seq<SourceView>,
) -> bool {
    let total_raw = capped(raw_sum(entries));
    let threads = threads_for(o.threads, total_raw, cores) as u32;
    &&& plan.preamble@ == planned_preamble(o, env, total_raw, plan.preamble@.dict)
    &&& plan.compressor == planned_compressor(o, env, threads, total_raw, detected_bcj(entries))
    &&& plan.media_compressor == planned_media(o, env, threads)
    &&& plan.fastcdc == o.on.fastcdc
    &&& dict_follows(o, env, entries, total_raw, plan.preamble@.dict)
}

/// Why packing fails before anything is packed.
pub open spec fn add_fault(
    archive: Seq<char>,
    o: OptsView,
    env: EnvView,
    entries: Seq<SourceView>,
) -> Option<AddError> {
    match plan_fault(archive, o, env, capped(raw_sum(entries)), detected_bcj(entries)) {
        Some(e) => Some(AddError::Plan(e)),
        None => None,
    }
}

/// What packing gives where the flags go together: the error of the first
/// record that cannot be made, else an archive by the plan, unless the
/// compressor fails or a record of the media files cannot be made.
pub open spec fn add_outcome(
    o: OptsView,
    env: EnvView,
    cores: int,
    entries: Seq<SourceView>,
    media: Seq<SourceView>,
    res: Result<Added, AddError>,
) -> bool {
    match add_records(o, env, entries, entries, no_numbers()) {
        Err(e) => res == Err::<Added, AddError>(AddError::Archive(e)),
        Ok(_) => match res {
            Ok(a) => {
                &&& a.plan.valid()
                &&& plan_follows(a.plan, o, env, cores, entries)
                &&& media.len() > 0 ==> media_records(a.plan, entries, media) is Ok
                &&& a.bytes@ == plan_bytes(a.plan, entries, media)
                &&& is_archive(a.bytes@, a.plan.preamble@, plan_data(a.plan, entries, media))
            },
            Err(AddError::Archive(e)) => e == Error::Compressor || (media.len() > 0 && add_records(
                o,
                env,
                entries,
                media,
                numbers_after(entries, o.on.fastcdc, no_numbers()),
            ) == Err::<Seq<u8>, Error>(e)),
            Err(_) => false,
        },
    }
}

/// Makes a new archive of the entries in two frames. It fails where the flags
/// do not go together, where a file gave fewer bytes than announced, where the
/// chunk numbers run out, or where the compressor fails.
pub fn add(archive: &str, opts: &Opts, env: &Env, cores: u32, input: &Prepared) -> (res: Result<
    Added,
    AddError,
>)
    requires
        input.media@.len() > 0 ==> opts.on.route,
    ensures
        match add_fault(archive@, opts@, env@, source_views(input.entries@)) {
            Some(e) => res == Err::<Added, AddError>(e),
            None => add_outcome(
                opts@,
                env@,
                cores as int,
                source_views(input.entries@),
                source_views(input.media@),
                res,
            ),
        },
{
    let total_raw: u64 = raw_bytes(input.entries.as_slice());
    let detected = auto_detect_bcj(input.entries.as_slice());
    let dict = make_dict(opts, env, input.entries.as_slice(), total_raw);
    let plan = match plan_archive(archive, opts, env, cores, total_raw, detected, dict) {
        Ok(p) => p,
        Err(e) => {
            return Err(AddError::Plan(e));
        },
    };
    match create_archive(&plan, input.entries.as_slice(), input.media.as_slice()) {
        Ok(bytes) => Ok(Added { plan, bytes }),
        Err(e) => Err(AddError::Archive(e)),
    }
}

/// The records of the entries of a frame in a new archive, the plan of which
/// is made from `entries`, with the chunk numbers before it. They do not depend
/// on the dictionary.
pub open spec fn add_records(
    o: OptsView,
    env: EnvView,
    entries: Seq<SourceView>,
    frame: Seq<SourceView>,
    numbers: Numbering,
) -> Result<Seq<u8>, Error> {
    records(
        frame,
        framing(planned_preamble(o, env, capped(raw_sum(entries)), Seq::empty())),
        o.on.fastcdc,
        numbers,
    )
}

/// What the user is told when entries are added to an archive whose preamble
/// is kept.
#[derive(Clone, Copy, Debug, PartialEq, Eq, Structural)]
pub enum AppendWarning {
    /// Attributes were asked for, but the archive has none.
    XattrsIgnored,
    /// The archive has attributes, so the new entries have them too.
    XattrsKept,
    /// The archive decides the hash.
    HashIgnored,
    /// The comment of the archive stays.
    CommentIgnored,
}

/// The warnings on flags that the archive overrules. With a summary only the
/// first kind is given.
pub open spec fn append_warnings(o: OptsView, p: PreambleView) -> Seq<AppendWarning> {
    let has_xattrs = flag_set(p.preproc, FEATURE_XATTRS);
    let first = if o.on.xattrs && !has_xattrs {
        seq![AppendWarning::XattrsIgnored]
    } else if !o.on.xattrs && has_xattrs && !o.on.summary {
        seq![AppendWarning::XattrsKept]
    } else {
        Seq::empty()
    };
    let second = if o.hash is Some && !o.on.summary {
        first.push(AppendWarning::HashIgnored)
    } else {
        first
    };
    if o.comment is Some && !o.on.summary {
        second.push(AppendWarning::CommentIgnored)
    } else {
        second
    }
}

fn collect_warnings(opts: &Opts, preproc: u8) -> (w: Vec<AppendWarning>)
    ensures
        forall|p: PreambleView| p.preproc == preproc ==> w@ == #[trigger] append_warnings(opts@, p),
{
    let mut out: Vec<AppendWarning> = Vec::new();
    let has_xattrs: bool = preproc & FEATURE_XATTRS != 0;
    if opts.on.xattrs && !has_xattrs {
        out.push(AppendWarning::XattrsIgnored);
    } else if !opts.on.xattrs && has_xattrs && !opts.on.summary {
        out.push(AppendWarning::XattrsKept);
    }
    if opts.hash.is_some() && !opts.on.summary {
        out.push(AppendWarning::HashIgnored);
    }
    if opts.comment.is_some() && !opts.on.summary {
        out.push(AppendWarning::CommentIgnored);
    }
    assert forall|p: PreambleView| p.preproc == preproc implies out@ == #[trigger] append_warnings(
        opts@,
        p,
    ) by {
        assert(out@ =~= append_warnings(opts@, p));
    }
    out
}

/// What flags rule out adding to an archive.
pub open spec fn append_flags_fault(archive: Seq<char>, o: OptsView) -> Option<PlanError> {
    if !(0 <= o.level <= 10) {
        Some(PlanError::BadLevel)
    } else if archive == "-"@ {
        Some(PlanError::AppendToStdout)
    } else if o.chunk_bytes is Some {
        Some(PlanError::AppendWithChunk)
    } else if o.on.fastcdc {
        Some(PlanError::AppendWithFastcdc)
    } else if o.on.lzp {
        Some(PlanError::AppendWithLzp)
    } else {
        None
    }
}

/// What archives cannot be added to: a PPMd stream has no further frames, and
/// the filters would carry state from one frame to the next.
pub open spec fn append_archive_fault(p: PreambleView) -> Option<PlanError> {
    if p.backend == Backend::Ppmd {
        Some(PlanError::AppendToPpmd)
    } else if flag_set(p.preproc, PREPROC_REP) || flag_set(p.preproc, PREPROC_SREP) {
        Some(PlanError::AppendToMatcher)
    } else if flag_set(p.preproc, PREPROC_LZP) {
        Some(PlanError::AppendToLzp)
    } else if p.delta_stride is Some {
        Some(PlanError::AppendToDelta)
    } else {
        None
    }
}

/// Whether flags allow adding to an archive.
pub fn check_append_flags(archive: &str, opts: &Opts) -> (r: Option<PlanError>)
    ensures
        r == append_flags_fault(archive@, opts@),
{
    if !is_valid_level(opts.level) {
        return Some(PlanError::BadLevel);
    }
    if is_stream_path(archive) {
        return Some(PlanError::AppendToStdout);
    }
    if opts.chunk_bytes.is_some() {
        return Some(PlanError::AppendWithChunk);
    }
    if opts.on.fastcdc {
        return Some(PlanError::AppendWithFastcdc);
    }
    if opts.on.lzp {
        return Some(PlanError::AppendWithLzp);
    }
    None
}

fn check_append_archive(p: &Preamble) -> (r: Option<PlanError>)
    ensures
        r == append_archive_fault(p@),
{
    if p.backend == Backend::Ppmd {
        return Some(PlanError::AppendToPpmd);
    }
    if p.preproc & PREPROC_REP != 0 || p.preproc & PREPROC_SREP != 0 {
        return Some(PlanError::AppendToMatcher);
    }
    if p.preproc & PREPROC_LZP != 0 {
        return Some(PlanError::AppendToLzp);
    }
    if p.delta_stride.is_some() {
        return Some(PlanError::AppendToDelta);
    }
    None
}

/// The compressor of a further frame.
pub open spec fn append_compressor(o: OptsView, env: EnvView, backend: Backend, detected: Bcj) -> Result<
    Compressor,
    PlanError,
> {
    let threads = o.threads as u32;
    match backend {
        Backend::Zstd => Ok(zstd_for(o.level, o.on.store, threads, o.on.nolong, false)),
        Backend::Lzma => match bcj_for(o.bcj, env.bcj, detected) {
            Ok(b) => Ok(lzma_for(o.level, threads, 0, b, env)),
            Err(e) => Err(e),
        },
        Backend::Ppmd => Err(PlanError::AppendToPpmd),
    }
}

fn build_append_compressor(opts: &Opts, env: &Env, backend: Backend, detected: Bcj) -> (r: Result<
    Compressor,
    PlanError,
>)
    ensures
        r == append_compressor(opts@, env@, backend, detected),
        r matches Ok(c) ==> c.valid() && c.backend() == backend,
{
    match backend {
        Backend::Zstd => Ok(
            build_zstd(opts.level, opts.on.store, opts.threads, opts.on.nolong, false),
        ),
        Backend::Lzma => match pick_bcj(&opts.bcj, &env.bcj, detected) {
            Ok(b) => Ok(build_lzma_stream(opts.level, opts.threads, 0, b, env)),
            Err(e) => Err(e),
        },
        Backend::Ppmd => Err(PlanError::AppendToPpmd),
    }
}

/// Why adding fails before anything is compressed, or the preamble of the
/// archive and the compressor of the new frame.
pub open spec fn append_plan(
    archive: Seq<char>,
    o: OptsView,
    env: EnvView,
    bytes: Seq<u8>,
    entries: Seq<SourceView>,
) -> Result<(PreambleView, Compressor), AddError> {
    match append_flags_fault(archive, o) {
        Some(e) => Err(AddError::Plan(e)),
        None => match parse_preamble(bytes) {
            Err(e) => Err(AddError::Archive(e)),
            Ok((p, _)) => match append_archive_fault(p) {
                Some(e) => Err(AddError::Plan(e)),
                None => match append_compressor(o, env, p.backend, detected_bcj(entries)) {
                    Err(e) => Err(AddError::Plan(e)),
                    Ok(c) => Ok((p, c)),
                },
            },
        },
    }
}

/// An archive with a further frame. The bytes before `kept` are those that
/// were there.
#[derive(Debug)]
pub struct Appended {
    pub bytes: Vec<u8>,
    pub kept: usize,
    pub warnings: Vec<AppendWarning>,
}

/// What adding gives once the flags and the archive allow it.
pub open spec fn append_outcome(
    o: OptsView,
    old_bytes: Seq<u8>,
    p: PreambleView,
    c: Compressor,
    entries: Seq<SourceView>,
    res: Result<Appended, AddError>,
) -> bool {
    match records(entries, framing(p), false, no_numbers()) {
        Err(e) => res == Err::<Appended, AddError>(AddError::Archive(e)),
        Ok(b) => match res {
            Ok(a) => {
                &&& a.bytes@ == old_bytes + compressed(c, p.dict, b)
                &&& a.kept == old_bytes.len()
                &&& a.warnings@ == append_warnings(o, p)
                &&& forall|d: Seq<u8>| #[trigger]
                    is_archive(old_bytes, p, d) ==> is_archive(a.bytes@, p, d + b)
            },
            Err(e) => e == AddError::Archive(Error::Compressor),
        },
    }
}

/// Adds entries to an archive in a frame of their own. The preamble decides
/// hash and attributes, and the bytes that are there are kept.
pub fn append(
    archive: &str,
    opts: &Opts,
    env: &Env,
    bytes: Vec<u8>,
    entries: &[SourceEntry],
) -> (res: Result<Appended, AddError>)
    ensures
        match append_plan(archive@, opts@, env@, bytes@, source_views(entries@)) {
            Err(e) => res == Err::<Appended, AddError>(e),
            Ok((p, c)) => append_outcome(opts@, bytes@, p, c, source_views(entries@), res),
        },
        res matches Ok(a) ==> a.kept == bytes@.len() && a.kept <= a.bytes@.len() && a.bytes@.take(
            a.kept as int,
        ) == bytes@,
{
    let ghost before = bytes@;
    if let Some(e) = check_append_flags(archive, opts) {
        return Err(AddError::Plan(e));
    }
    let mut r = ByteReader::new(bytes.as_slice());
    let preamble = match read_preamble(&mut r) {
        Ok(p) => p,
        Err(e) => {
            return Err(AddError::Archive(e));
        },
    };
    if let Some(e) = check_append_archive(&preamble) {
        return Err(AddError::Plan(e));
    }
    let detected = auto_detect_bcj(entries);
    let c = match build_append_compressor(opts, env, preamble.backend, detected) {
        Ok(c) => c,
        Err(e) => {
            return Err(AddError::Plan(e));
        },
    };
    let warnings = collect_warnings(opts, preamble.preproc);
    let kept: usize = bytes.len();
    match append_archive(bytes, &preamble, c, entries) {
        Ok(bytes) => {
            assert(bytes@.take(kept as int) =~= before);
            Ok(Appended { bytes, kept, warnings })
        },
        Err(e) => Err(AddError::Archive(e)),
    }
}

/// New archives have the current revision, with modification times, and attributes
/// where they are asked for.
proof fn lemma_planned_framing(o: OptsView, env: EnvView, total_raw: int, p: PreambleView)
    requires
        p == planned_preamble(o, env, total_raw, p.dict),
    ensures
        framing(p).version == ArchiveVersion::V5,
        framing(p).xattrs == o.on.xattrs,
{
    crate::plan::lemma_preproc_flags(
        crate::plan::matcher_wanted(o.on.nopreproc, p.backend, total_raw),
        crate::plan::hash_for(o),
        o.comment is Some,
        o.on.xattrs,
        o.delta is Some,
        o.on.lzp,
    );
}

/// What is packed is what is read: an archive that was made with one frame has
/// the entries of its sources, by whatever compressor and filter. It must fit
/// in memory, every name its field, and no two chunks may share a fingerprint.
pub proof fn lemma_added_reads(
    o: OptsView,
    env: EnvView,
    cores: int,
    entries: Seq<SourceView>,
    a: Added,
    set: Set<Seq<u8>>,
)
    requires
        add_outcome(o, env, cores, entries, Seq::empty(), Ok(a)),
        plan_records(a.plan, entries)->Ok_0.len() <= usize::MAX,
        sources_fit(entries, framing(a.plan.preamble@), o.on.fastcdc, set),
    ensures
        archive_items(a.bytes@) == Ok::<Seq<ItemView>, Error>(
            items_of(entries, framing(a.plan.preamble@), o.on.fastcdc),
        ),
        archive_items(a.bytes@) matches Ok(xs) && xs.len() == entries.len() && forall|k: int|
            0 <= k < entries.len() ==> {
                let e = #[trigger] entries[k];
                let x = xs[k];
                &&& x.header.mode == e.mode
                &&& x.header.mtime == e.mtime
                &&& x.header.path.len() == e.path.len()
                &&& forall|n: int|
                    0 <= n < e.path.len() ==> #[trigger] x.header.path[n] == (if e.path[n] == '\\' {
                        '/'
                    } else {
                        e.path[n]
                    })
                &&& e.duplicate_of matches Some(target) ==> x.header.kind == EntryKind::HardLink
                    && x.header.link_target == target && x.body.len() == 0
                &&& e.duplicate_of is None && e.kind == SourceKind::File ==> x.header.kind == (if o.on.fastcdc {
                        EntryKind::ChunkedFile
                    } else {
                        EntryKind::File
                    })
                    && x.header.size == e.size && x.body == e.data.take(e.size as int)
                &&& e.duplicate_of is None && e.kind == SourceKind::Dir ==> x.header.kind
                    == EntryKind::Dir && x.body.len() == 0
                &&& e.duplicate_of is None && e.kind == SourceKind::Symlink ==> x.header.kind
                    == EntryKind::Symlink && x.header.link_target == e.link_target && x.body.len()
                    == 0
                &&& o.on.xattrs && e.kind != SourceKind::Symlink ==> x.xattrs == e.xattrs
                &&& !(o.on.xattrs) ==> x.xattrs.len() == 0
            },
{
    lemma_archive_round_trip(a.bytes@, a.plan.preamble@, entries, o.on.fastcdc, set);
    lemma_planned_framing(o, env, capped(raw_sum(entries)), a.plan.preamble@);
    lemma_items_tell(entries, framing(a.plan.preamble@), o.on.fastcdc);
}

/// With routed media files the archive has the entries of the first frame and
/// behind them those of the second. Every name must fit its field, and no two
/// chunks may share a fingerprint.
pub proof fn lemma_routed_reads(
    archive: Seq<char>,
    o: OptsView,
    env: EnvView,
    cores: int,
    entries: Seq<SourceView>,
    media: Seq<SourceView>,
    a: Added,
    set: Set<Seq<u8>>,
)
    requires
        o.on.route,
        media.len() > 0,
        add_fault(archive, o, env, entries) is None,
        add_outcome(o, env, cores, entries, media, Ok(a)),
        sources_fit(entries + media, framing(a.plan.preamble@), o.on.fastcdc, set),
    ensures
        archive_items(a.bytes@) == Ok::<Seq<ItemView>, Error>(
            items_of(entries, framing(a.plan.preamble@), o.on.fastcdc) + items_of(
                media,
                framing(a.plan.preamble@),
                o.on.fastcdc,
            ),
        ),
        archive_items(a.bytes@) matches Ok(xs) && xs.len() == entries.len() + media.len() && forall|
            k: int,
        |
            0 <= k < entries.len() + media.len() ==> {
                let e = #[trigger] (entries + media)[k];
                let x = xs[k];
                &&& x.header.mode == e.mode
                &&& x.header.mtime == e.mtime
                &&& x.header.path.len() == e.path.len()
                &&& forall|n: int|
                    0 <= n < e.path.len() ==> #[trigger] x.header.path[n] == (if e.path[n] == '\\' {
                        '/'
                    } else {
                        e.path[n]
                    })
                &&& e.duplicate_of matches Some(target) ==> x.header.kind == EntryKind::HardLink
                    && x.header.link_target == target && x.body.len() == 0
                &&& e.duplicate_of is None && e.kind == SourceKind::File ==> x.header.kind == (if o.on.fastcdc {
                        EntryKind::ChunkedFile
                    } else {
                        EntryKind::File
                    })
                    && x.header.size == e.size && x.body == e.data.take(e.size as int)
                &&& e.duplicate_of is None && e.kind == SourceKind::Dir ==> x.header.kind
                    == EntryKind::Dir && x.body.len() == 0
                &&& e.duplicate_of is None && e.kind == SourceKind::Symlink ==> x.header.kind
                    == EntryKind::Symlink && x.header.link_target == e.link_target && x.body.len()
                    == 0
                &&& o.on.xattrs && e.kind != SourceKind::Symlink ==> x.xattrs == e.xattrs
                &&& !(o.on.xattrs) ==> x.xattrs.len() == 0
            },
{
    let p = a.plan.preamble@;
    let f = framing(p);
    let cdc = o.on.fastcdc;
    let total_raw = capped(raw_sum(entries));
    let backend = backend_for(o.level, o.on.store, env);
    crate::plan::lemma_preproc_flags(
        crate::plan::matcher_wanted(o.on.nopreproc, backend, total_raw),
        crate::plan::hash_for(o),
        o.comment is Some,
        o.on.xattrs,
        o.delta is Some,
        o.on.lzp,
    );
    assert(crate::frame::no_matcher(p.preproc));
    assert(p.delta_stride is None);
    let b = plan_records(a.plan, entries)->Ok_0;
    assert(filtered(p.preproc, p.delta_stride, b) == b);
    let all = entries + media;
    lemma_records_joined(entries, media, f, cdc, no_numbers());
    lemma_records_read(all, f, cdc, set);
    assert(items_of(all, f, cdc) =~= items_of(entries, f, cdc) + items_of(media, f, cdc));
    lemma_planned_framing(o, env, total_raw, p);
    lemma_items_tell(all, f, cdc);
    lemma_frames_round_trip(
        a.bytes@,
        p,
        b + media_records(a.plan, entries, media)->Ok_0,
        items_of(all, f, cdc),
        known_after_sources(all, f, cdc, no_numbers(), Seq::empty()),
    );
}

/// An archive that was added to has the entries that it had and behind them
/// the new ones, and it can be added to again.
pub proof fn lemma_appended_reads(
    o: OptsView,
    old_bytes: Seq<u8>,
    p: PreambleView,
    c: Compressor,
    entries: Seq<SourceView>,
    a: Appended,
    d: Seq<u8>,
    xs: Seq<ItemView>,
    known: Seq<Seq<u8>>,
)
    requires
        preamble_consistent(p),
        append_archive_fault(p) is None,
        is_archive(old_bytes, p, d),
        reads_as(framing(p), d, xs, known),
        records(entries, framing(p), false, no_numbers()) is Ok,
        append_outcome(o, old_bytes, p, c, entries, Ok(a)),
        forall|k: int|
            0 <= k < entries.len() ==> source_fits(#[trigger] entries[k], framing(p), false),
    ensures
        a.bytes@.take(a.kept as int) == old_bytes,
        archive_items(a.bytes@) == Ok::<Seq<ItemView>, Error>(
            xs + items_of(entries, framing(p), false),
        ),
        ({
            let more = d + records(entries, framing(p), false, no_numbers())->Ok_0;
            &&& is_archive(a.bytes@, p, more)
            &&& reads_as(framing(p), more, xs + items_of(entries, framing(p), false), known)
        }),
        archive_items(a.bytes@) matches Ok(ys) && ys.len() == xs.len() + entries.len() && ys.take(
            xs.len() as int,
        ) == xs && forall|k: int|
            0 <= k < entries.len() ==> {
                let e = #[trigger] entries[k];
                let x = ys[xs.len() + k];
                &&& x.header.mode == e.mode
                &&& p.version == ArchiveVersion::V5 ==> x.header.mtime == e.mtime
                &&& x.header.path.len() == e.path.len()
                &&& forall|n: int|
                    0 <= n < e.path.len() ==> #[trigger] x.header.path[n] == (if e.path[n] == '\\' {
                        '/'
                    } else {
                        e.path[n]
                    })
                &&& e.duplicate_of matches Some(target) ==> x.header.kind == EntryKind::HardLink
                    && x.header.link_target == target && x.body.len() == 0
                &&& e.duplicate_of is None && e.kind == SourceKind::File ==> x.header.kind == EntryKind::File
                    && x.header.size == e.size && x.body == e.data.take(e.size as int)
                &&& e.duplicate_of is None && e.kind == SourceKind::Dir ==> x.header.kind
                    == EntryKind::Dir && x.body.len() == 0
                &&& e.duplicate_of is None && e.kind == SourceKind::Symlink ==> x.header.kind
                    == EntryKind::Symlink && x.header.link_target == e.link_target && x.body.len()
                    == 0
                &&& p.preproc & 0x20 != 0 && e.kind != SourceKind::Symlink ==> x.xattrs == e.xattrs
                &&& !(p.preproc & 0x20 != 0) ==> x.xattrs.len() == 0
            },
{
    let f = framing(p);
    assert((xs + items_of(entries, f, false)).take(xs.len() as int) =~= xs);
    lemma_items_tell(entries, f, false);
    let b = records(entries, f, false, no_numbers())->Ok_0;
    assert(a.bytes@.take(a.kept as int) =~= old_bytes);
    assert(is_archive(a.bytes@, p, d + b));
    lemma_further_frame_reads(f, d, xs, known, entries);
    lemma_frames_round_trip(a.bytes@, p, d + b, xs + items_of(entries, f, false), known);
}

/// When an archive can be added to. The level must be known, and neither the standard
/// output nor parts nor chunk records nor the LZP filter be asked for. The archive must not
/// be packed by PPMd, through a matcher, or through a filter.
pub proof fn lemma_append_accepts(archive: Seq<char>, o: OptsView, p: PreambleView)
    ensures
        append_flags_fault(archive, o) is None <==> 0 <= o.level <= 10 && archive != "-"@
            && o.chunk_bytes is None && !o.on.fastcdc && !o.on.lzp,
        append_archive_fault(p) is None <==> p.backend != Backend::Ppmd && p.preproc & 0x83 == 0
            && p.delta_stride is None,
{
    let q = p.preproc;
    assert(q & 0x83 == 0 <==> q & 0x01 == 0 && q & 0x02 == 0 && q & 0x80 == 0) by (bit_vector);
}

/// What adding warns of: attributes that are asked for and that the archive does not have,
/// attributes that it has without being asked, and a hash and a comment, which stay those
/// of the archive. A summary only tells of what is lost.
pub proof fn lemma_append_warns(o: OptsView, p: PreambleView)
    ensures
        ({
            let w = append_warnings(o, p);
            let stored = p.preproc & 0x20 != 0;
            &&& w.contains(AppendWarning::XattrsIgnored) <==> o.on.xattrs && !stored
            &&& w.contains(AppendWarning::XattrsKept) <==> !o.on.xattrs && stored && !o.on.summary
            &&& w.contains(AppendWarning::HashIgnored) <==> o.hash is Some && !o.on.summary
            &&& w.contains(AppendWarning::CommentIgnored) <==> o.comment is Some && !o.on.summary
            &&& w.len() <= 3
        }),
{
    let w = append_warnings(o, p);
    if o.on.xattrs && p.preproc & 0x20 == 0 {
        assert(w[0] == AppendWarning::XattrsIgnored);
    }
    if !o.on.xattrs && p.preproc & 0x20 != 0 && !o.on.summary {
        assert(w[0] == AppendWarning::XattrsKept);
    }
    if o.comment is Some && !o.on.summary {
        assert(w[w.len() - 1] == AppendWarning::CommentIgnored);
        if o.hash is Some {
            assert(w[w.len() - 2] == AppendWarning::HashIgnored);
        }
    } else if o.hash is Some && !o.on.summary {
        assert(w[w.len() - 1] == AppendWarning::HashIgnored);
    }
}

/// How the frames are made. Entries stand in solid order, or as they came where sorting is
/// off. A routed archive has the files that are compressed already in the second frame and
/// all others in the first. Where deduplication is on, a file in a frame gets a mark
/// exactly where it is not empty and a file before it in that frame has its size and the
/// XXH3 value of all its data.
pub proof fn lemma_frames_tell(
    all: Seq<SourceView>,
    o: OptsView,
    order: Seq<int>,
    entries: Seq<SourceView>,
    media: Seq<SourceView>,
    i: int,
)
    requires
        prepared_as(all, o, order, entries, media),
        0 <= i < entries.len(),
    ensures
        ({
            let kept = all.filter(|e: SourceView| keeps(e, o));
            &&& !o.on.route && o.on.nosort ==> entries.len() == kept.len() && entries[i].path
                == kept[i].path && entries[i].data == kept[i].data
            &&& !o.on.route && !o.on.nosort ==> entries.len() == kept.len() && entries[i].path
                == kept[order[i]].path && entries[i].data == kept[order[i]].data
            &&& o.on.route && !o.on.append ==> !media_path(entries[i].path)
            &&& o.on.route && !o.on.append ==> forall|k: int|
                0 <= k < media.len() ==> media_path((#[trigger] media[k]).path)
            &&& o.on.dedup ==> (entries[i].duplicate_of is Some <==> exists|j: int|
                0 <= j < i && (#[trigger] entries[j]).kind == SourceKind::File && entries[i].kind
                    == SourceKind::File && entries[i].size > 0 && entries[j].size == entries[i].size
                    && xxh3_of(entries[j].data) == xxh3_of(entries[i].data))
        }),
{
    broadcast use vstd::seq_lib::group_filter_ensures;

    let pred = |e: SourceView| keeps(e, o);
    let kept = all.filter(pred);
    let sorted = ordered(kept, o.on.nosort, order);
    let plain = |e: SourceView| !media_path(e.path);
    let routed = |e: SourceView| media_path(e.path);
    let first = first_frame(sorted, o);
    let second = media_frame(sorted, o);
    if o.on.route && !o.on.append {
        assert(plain(first[i]));
        assert forall|k: int| 0 <= k < media.len() implies media_path((#[trigger] media[k]).path) by {
            assert(routed(second[k]));
        }
    }
    if o.on.dedup {
        lemma_marks_tell(first, i);
        if exists|j: int|
            0 <= j < i && (#[trigger] entries[j]).kind == SourceKind::File && entries[i].kind
                == SourceKind::File && entries[i].size > 0 && entries[j].size == entries[i].size
                && xxh3_of(entries[j].data) == xxh3_of(entries[i].data) {
            let j = choose|j: int|
                0 <= j < i && (#[trigger] entries[j]).kind == SourceKind::File && entries[i].kind
                    == SourceKind::File && entries[i].size > 0 && entries[j].size == entries[i].size
                    && xxh3_of(entries[j].data) == xxh3_of(entries[i].data);
            lemma_copies_are_marked(first, i, j);
        }
        if entries[i].duplicate_of is Some {
            let j = lemma_duplicates_resolve(first, i);
            assert(entries[j].kind == SourceKind::File);
        }
    }
}

/// A dictionary is trained only for the fast compressor, only where it is asked for, and
/// not for stored data; else there is none.
pub proof fn lemma_dict_only_on_demand(
    o: OptsView,
    env: EnvView,
    entries: Seq<SourceView>,
    total_raw: int,
    d: Seq<u8>,
)
    requires
        dict_follows(o, env, entries, total_raw, d),
    ensures
        !o.on.dict || o.on.nodict || o.on.store ==> d.len() == 0,
        o.level >= 5 && env.backend != Some("zstd"@) ==> d.len() == 0,
{
    reveal_strlit("zstd");
}

} // verus!
