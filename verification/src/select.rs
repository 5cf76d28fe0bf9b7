//! Which of the entries that were found go into an archive, and how they are
//! divided.

use vstd::prelude::*;
use std::collections::HashMap;
use vstd::utf8::encode_utf8;
use crate::cli::{Opts, OptsView, texts};
use crate::entry::{SourceEntry, SourceKind, SourceView, archive_path, slashed, source_views};
use crate::hashes::{xxh3, xxh3_of};
use crate::order::reversed;
use crate::paths::{is_media_ext, media_path};
use crate::text::{has_run, lemma_part_is_found, str_contains};

verus! {

/// Whether a pattern stands somewhere in a path.
pub open spec fn excluded(path: Seq<char>, patterns: Seq<Seq<char>>) -> bool {
    exists|k: int|
        0 <= k < patterns.len() && has_run(encode_utf8(path), encode_utf8(#[trigger] patterns[k]))
}

/// Whether an entry passes the selectors: no exclude pattern stands in its path
/// and, for a file, its size and time are within the bounds that are given.
pub open spec fn keeps(e: SourceView, o: OptsView) -> bool {
    &&& !excluded(e.path, o.exclude)
    &&& e.kind == SourceKind::File ==> {
        &&& o.minsize matches Some(v) ==> e.size >= v
        &&& o.maxsize matches Some(v) ==> e.size <= v
        &&& o.datefrom matches Some(v) ==> e.mtime >= v
        &&& o.dateto matches Some(v) ==> e.mtime <= v
    }
}

fn is_excluded(path: &str, patterns: &Vec<String>) -> (r: bool)
    ensures
        r == excluded(path@, texts(patterns@)),
{
    let mut i: usize = 0;
    while i < patterns.len()
        invariant
            i <= patterns@.len(),
            forall|k: int|
                0 <= k < i ==> !has_run(
                    encode_utf8(path@),
                    encode_utf8(#[trigger] texts(patterns@)[k]),
                ),
        decreases patterns@.len() - i,
    {
        assert(texts(patterns@)[i as int] == patterns@[i as int]@);
        if str_contains(path, patterns[i].as_str()) {
            return true;
        }
        i = i + 1;
    }
    false
}

proof fn lemma_excluded_tells(path: Seq<char>, patterns: Seq<String>)
    ensures
        !excluded(path, texts(patterns)) <==> forall|k: int, i: int|
            #![trigger encode_utf8(path).subrange(i, i + encode_utf8(patterns[k]@).len())]
            0 <= k < patterns.len() && 0 <= i <= encode_utf8(path).len() - encode_utf8(
                patterns[k]@,
            ).len() ==> encode_utf8(path).subrange(i, i + encode_utf8(patterns[k]@).len())
                != encode_utf8(patterns[k]@),
{
    let b = encode_utf8(path);
    let ps = texts(patterns);
    if excluded(path, ps) {
        let k = choose|k: int| 0 <= k < ps.len() && has_run(b, encode_utf8(#[trigger] ps[k]));
        let n = encode_utf8(ps[k]);
        let i = choose|i: int|
            0 <= i <= b.len() - n.len() && #[trigger] b.subrange(i, i + n.len()) == n;
        assert(ps[k] == patterns[k]@);
        assert(b.subrange(i, i + encode_utf8(patterns[k]@).len()) == n);
    } else {
        assert forall|k: int, i: int|
            #![trigger b.subrange(i, i + encode_utf8(patterns[k]@).len())]
            0 <= k < patterns.len() && 0 <= i <= b.len() - encode_utf8(
                patterns[k]@,
            ).len() implies b.subrange(i, i + encode_utf8(patterns[k]@).len()) != encode_utf8(
            patterns[k]@,
        ) by {
            assert(ps[k] == patterns[k]@);
            assert(!has_run(b, encode_utf8(ps[k])));
        }
    }
}

/// An entry in whose path an exclude pattern stands, wherever, is left out.
pub proof fn lemma_pattern_leaves_out(
    e: SourceView,
    o: OptsView,
    k: int,
    before: Seq<char>,
    after: Seq<char>,
)
    requires
        0 <= k < o.exclude.len(),
        e.path == before + o.exclude[k] + after,
    ensures
        !keeps(e, o),
{
    lemma_part_is_found(before, o.exclude[k], after);
}

/// The selectors of an entry. Without exclude patterns, a file is kept exactly where
/// its size and its time are within the bounds that are given, ends included, and
/// anything else is kept.
pub proof fn lemma_bounds_select(e: SourceView, o: OptsView)
    requires
        o.exclude.len() == 0,
    ensures
        e.kind != SourceKind::File ==> keeps(e, o),
        e.kind == SourceKind::File ==> (keeps(e, o) <==> {
            &&& o.minsize matches Some(v) ==> v <= e.size
            &&& o.maxsize matches Some(v) ==> e.size <= v
            &&& o.datefrom matches Some(v) ==> v <= e.mtime
            &&& o.dateto matches Some(v) ==> e.mtime <= v
        }),
{
}

/// Whether an entry passes the selectors.
pub fn selected(e: &SourceEntry, opts: &Opts) -> (r: bool)
    ensures
        r == keeps(e@, opts@),
        r <==> {
            &&& forall|k: int, i: int|
                #![trigger encode_utf8(e.path@).subrange(i, i + encode_utf8(opts.exclude@[k]@).len())]
                0 <= k < opts.exclude@.len() && 0 <= i <= encode_utf8(e.path@).len() - encode_utf8(
                    opts.exclude@[k]@,
                ).len() ==> encode_utf8(e.path@).subrange(
                    i,
                    i + encode_utf8(opts.exclude@[k]@).len(),
                ) != encode_utf8(opts.exclude@[k]@)
            &&& e.kind == SourceKind::File ==> {
                &&& opts.minsize matches Some(v) ==> e.size >= v
                &&& opts.maxsize matches Some(v) ==> e.size <= v
                &&& opts.datefrom matches Some(v) ==> e.mtime >= v
                &&& opts.dateto matches Some(v) ==> e.mtime <= v
            }
        },
{
    proof {
        lemma_excluded_tells(e.path@, opts.exclude@);
    }
    if is_excluded(e.path.as_str(), &opts.exclude) {
        return false;
    }
    match e.kind {
        SourceKind::File => {},
        _ => {
            return true;
        },
    }
    if let Some(v) = opts.minsize {
        if e.size < v {
            return false;
        }
    }
    if let Some(v) = opts.maxsize {
        if e.size > v {
            return false;
        }
    }
    if let Some(v) = opts.datefrom {
        if e.mtime < v {
            return false;
        }
    }
    if let Some(v) = opts.dateto {
        if e.mtime > v {
            return false;
        }
    }
    true
}

proof fn lemma_filter_step(es: Seq<SourceView>, i: int, pred: spec_fn(SourceView) -> bool)
    requires
        0 <= i < es.len(),
    ensures
        es.take(i + 1).filter(pred) == (if pred(es[i]) {
            es.take(i).filter(pred).push(es[i])
        } else {
            es.take(i).filter(pred)
        }),
{
    reveal(Seq::filter);
    assert(es.take(i + 1).drop_last() =~= es.take(i));
}

/// The entries that pass the selectors, in their order.
pub fn apply_selectors(all: Vec<SourceEntry>, opts: &Opts) -> (r: Vec<SourceEntry>)
    ensures
        source_views(r@) == source_views(all@).filter(|e: SourceView| keeps(e, opts@)),
{
    let ghost xs = all@;
    let ghost es = source_views(all@);
    let ghost pred = |e: SourceView| keeps(e, opts@);
    let total: usize = all.len();
    let mut from = reversed(all);
    let mut out: Vec<SourceEntry> = Vec::new();
    let mut i: usize = 0;
    proof {
        reveal(Seq::filter);
        assert(source_views(out@) =~= es.take(0).filter(pred));
        assert(from@ =~= xs.reverse().take(xs.len() as int));
    }
    while from.len() > 0
        invariant
            es == source_views(xs),
            pred == (|e: SourceView| keeps(e, opts@)),
            total == xs.len(),
            from@.len() + i == xs.len(),
            from@ == xs.reverse().take(xs.len() - i),
            source_views(out@) == es.take(i as int).filter(pred),
        decreases from@.len(),
    {
        proof {
            lemma_filter_step(es, i as int, pred);
        }
        let ghost before = source_views(out@);
        match from.pop() {
            Some(e) => {
                assert(e == xs[i as int]);
                if selected(&e, opts) {
                    out.push(e);
                    assert(source_views(out@) =~= before.push(e@));
                }
                i = i + 1;
                assert(from@ =~= xs.reverse().take(xs.len() - i));
            },
            None => {},
        }
    }
    assert(es.take(i as int) =~= es);
    out
}

/// Divides entries by their paths: the others, and those that are compressed
/// already.
pub fn route(all: Vec<SourceEntry>) -> (r: (Vec<SourceEntry>, Vec<SourceEntry>))
    ensures
        source_views(r.0@) == source_views(all@).filter(|e: SourceView| !media_path(e.path)),
        source_views(r.1@) == source_views(all@).filter(|e: SourceView| media_path(e.path)),
{
    let ghost xs = all@;
    let ghost es = source_views(all@);
    let ghost plain = |e: SourceView| !media_path(e.path);
    let ghost media = |e: SourceView| media_path(e.path);
    let total: usize = all.len();
    let mut from = reversed(all);
    let mut a: Vec<SourceEntry> = Vec::new();
    let mut b: Vec<SourceEntry> = Vec::new();
    let mut i: usize = 0;
    proof {
        reveal(Seq::filter);
        assert(source_views(a@) =~= es.take(0).filter(plain));
        assert(source_views(b@) =~= es.take(0).filter(media));
        assert(from@ =~= xs.reverse().take(xs.len() as int));
    }
    while from.len() > 0
        invariant
            es == source_views(xs),
            plain == (|e: SourceView| !media_path(e.path)),
            media == (|e: SourceView| media_path(e.path)),
            total == xs.len(),
            from@.len() + i == xs.len(),
            from@ == xs.reverse().take(xs.len() - i),
            source_views(a@) == es.take(i as int).filter(plain),
            source_views(b@) == es.take(i as int).filter(media),
        decreases from@.len(),
    {
        proof {
            lemma_filter_step(es, i as int, plain);
            lemma_filter_step(es, i as int, media);
        }
        let ghost before_a = source_views(a@);
        let ghost before_b = source_views(b@);
        match from.pop() {
            Some(e) => {
                assert(e == xs[i as int]);
                if is_media_ext(e.path.as_str()) {
                    b.push(e);
                    assert(source_views(b@) =~= before_b.push(e@));
                } else {
                    a.push(e);
                    assert(source_views(a@) =~= before_a.push(e@));
                }
                i = i + 1;
                assert(from@ =~= xs.reverse().take(xs.len() - i));
            },
            None => {},
        }
    }
    assert(es.take(i as int) =~= es);
    (a, b)
}

/// Whether an entry can have duplicates: it is a file and not empty.
pub open spec fn candidate(e: SourceView) -> bool {
    e.kind == SourceKind::File && e.size > 0
}

/// Whether two entries count as copies: both are files that are not empty, of
/// one size and one XXH3 value.
pub open spec fn copies(a: SourceView, b: SourceView) -> bool {
    candidate(a) && candidate(b) && a.size == b.size && xxh3_of(a.data) == xxh3_of(b.data)
}

/// Whether entry `j` is the first copy of entry `i`.
pub open spec fn first_copy(es: Seq<SourceView>, i: int, j: int) -> bool {
    &&& 0 <= j < i
    &&& copies(es[j], es[i])
    &&& forall|k: int| 0 <= k < j ==> !copies(#[trigger] es[k], es[i])
}

/// The archive path that entry `i` is a duplicate of.
pub open spec fn canonical(es: Seq<SourceView>, i: int) -> Option<Seq<char>> {
    if exists|j: int| first_copy(es, i, j) {
        Some(slashed(es[choose|j: int| first_copy(es, i, j)].path))
    } else {
        None
    }
}

/// Size and hash in one number.
spec fn copy_key(e: SourceView) -> int {
    e.size * 0x1_0000_0000_0000_0000 + xxh3_of(e.data)
}

proof fn lemma_copy_key(a: SourceView, b: SourceView)
    requires
        candidate(a),
        candidate(b),
    ensures
        copy_key(a) == copy_key(b) <==> copies(a, b),
{
}

proof fn lemma_first_copy_unique(es: Seq<SourceView>, i: int, j: int)
    requires
        first_copy(es, i, j),
    ensures
        canonical(es, i) == Some(slashed(es[j].path)),
{
    let k = choose|k: int| first_copy(es, i, k);
    assert(first_copy(es, i, k));
    if k < j {
        assert(!copies(es[k], es[i]));
    } else if j < k {
        assert(!copies(es[j], es[i]));
    }
}

/// For every entry the archive path of the first entry before it with the same
/// contents, by size and hash; nothing for an entry that is the first.
pub fn build_dedup_map(entries: &[SourceEntry]) -> (r: Vec<Option<String>>)
    ensures
        r@.len() == entries@.len(),
        forall|i: int|
            0 <= i < r@.len() ==> crate::archive::chars_of(#[trigger] r@[i]) == canonical(
                source_views(entries@),
                i,
            ),
        forall|i: int|
            0 <= i < r@.len() ==> match #[trigger] r@[i] {
                Some(target) => exists|j: int|
                    0 <= j < i && (#[trigger] entries@[j]).kind == SourceKind::File
                        && entries@[i].kind == SourceKind::File && entries@[j].size > 0
                        && entries@[j].size == entries@[i].size && xxh3_of(entries@[j].data@)
                        == xxh3_of(entries@[i].data@) && target@ == slashed(entries@[j].path@),
                None => forall|j: int|
                    0 <= j < i && (#[trigger] entries@[j]).kind == SourceKind::File
                        && entries@[i].kind == SourceKind::File && entries@[j].size > 0
                        && entries@[j].size == entries@[i].size ==> xxh3_of(entries@[j].data@)
                        != xxh3_of(entries@[i].data@),
            },
{
    broadcast use vstd::std_specs::hash::group_hash_axioms;

    let ghost es = source_views(entries@);
    let mut seen: HashMap<u128, usize> = HashMap::new();
    let mut out: Vec<Option<String>> = Vec::new();
    let mut i: usize = 0;
    while i < entries.len()
        invariant
            es == source_views(entries@),
            i <= entries@.len(),
            out@.len() == i,
            forall|k: int|
                0 <= k < i ==> crate::archive::chars_of(#[trigger] out@[k]) == canonical(es, k),
            forall|key: u128| #[trigger]
                seen@.contains_key(key) ==> {
                    let j = seen@[key] as int;
                    &&& 0 <= j < i
                    &&& candidate(es[j])
                    &&& copy_key(es[j]) == key
                    &&& forall|k: int| 0 <= k < j ==> !copies(#[trigger] es[k], es[j])
                },
            forall|k: int|
                0 <= k < i && candidate(#[trigger] es[k]) ==> seen@.contains_key(
                    copy_key(es[k]) as u128,
                ),
        decreases entries@.len() - i,
    {
        let e = &entries[i];
        assert(es[i as int] == e@);
        let is_file: bool = match e.kind {
            SourceKind::File => true,
            _ => false,
        };
        if !is_file || e.size == 0 {
            proof {
                assert(canonical(es, i as int) is None);
            }
            out.push(None);
            i = i + 1;
            continue;
        }
        let h: u64 = xxh3(e.data.as_slice());
        let key: u128 = e.size as u128 * 0x1_0000_0000_0000_0000 + h as u128;
        assert(key == copy_key(es[i as int]));
        match seen.get(&key) {
            Some(j) => {
                let first: usize = *j;
                proof {
                    lemma_copy_key(es[first as int], es[i as int]);
                    assert forall|k: int| 0 <= k < first implies !copies(
                        #[trigger] es[k],
                        es[i as int],
                    ) by {
                        if copies(es[k], es[i as int]) {
                            assert(copies(es[k], es[first as int]));
                        }
                    }
                    lemma_first_copy_unique(es, i as int, first as int);
                }
                out.push(Some(archive_path(entries[first].path.as_str())));
                i = i + 1;
            },
            None => {
                proof {
                    assert forall|k: int| 0 <= k < i implies !copies(
                        #[trigger] es[k],
                        es[i as int],
                    ) by {
                        if copies(es[k], es[i as int]) {
                            lemma_copy_key(es[k], es[i as int]);
                            assert(seen@.contains_key(copy_key(es[k]) as u128));
                        }
                    }
                    assert(canonical(es, i as int) is None);
                }
                seen.insert(key, i);
                out.push(None);
                i = i + 1;
            },
        }
    }
    proof {
        assert forall|i: int| 0 <= i < out@.len() implies match #[trigger] out@[i] {
            Some(target) => exists|j: int|
                0 <= j < i && (#[trigger] entries@[j]).kind == SourceKind::File && entries@[i].kind
                    == SourceKind::File && entries@[j].size > 0 && entries@[j].size
                    == entries@[i].size && xxh3_of(entries@[j].data@) == xxh3_of(
                    entries@[i].data@,
                ) && target@ == slashed(entries@[j].path@),
            None => forall|j: int|
                0 <= j < i && (#[trigger] entries@[j]).kind == SourceKind::File && entries@[i].kind
                    == SourceKind::File && entries@[j].size > 0 && entries@[j].size
                    == entries@[i].size ==> xxh3_of(entries@[j].data@) != xxh3_of(
                    entries@[i].data@,
                ),
        } by {
            assert(crate::archive::chars_of(out@[i]) == canonical(es, i));
            if let Some(target) = out@[i] {
                let j = choose|j: int| first_copy(es, i, j);
                assert(first_copy(es, i, j));
                assert(es[j] == entries@[j]@ && es[i] == entries@[i]@);
            } else {
                assert forall|j: int|
                    0 <= j < i && (#[trigger] entries@[j]).kind == SourceKind::File
                        && entries@[i].kind == SourceKind::File && entries@[j].size > 0
                        && entries@[j].size == entries@[i].size implies xxh3_of(entries@[j].data@)
                    != xxh3_of(entries@[i].data@) by {
                    assert(es[j] == entries@[j]@ && es[i] == entries@[i]@);
                    if xxh3_of(es[j].data) == xxh3_of(es[i].data) {
                        lemma_copies_are_marked(es, i, j);
                    }
                }
            }
        }
    }
    out
}

/// The entries with duplicates marked.
pub open spec fn marked(es: Seq<SourceView>) -> Seq<SourceView> {
    Seq::new(es.len(), |i: int| SourceView { duplicate_of: canonical(es, i), ..es[i] })
}

/// Marks every entry whose contents came before. Nothing else of an entry
/// changes.
pub fn mark_duplicates(entries: Vec<SourceEntry>) -> (r: Vec<SourceEntry>)
    ensures
        source_views(r@) == marked(source_views(entries@)),
        r@.len() == entries@.len(),
        forall|k: int|
            0 <= k < r@.len() ==> {
                &&& (#[trigger] r@[k]).kind == entries@[k].kind
                &&& r@[k].mode == entries@[k].mode
                &&& r@[k].size == entries@[k].size
                &&& r@[k].mtime == entries@[k].mtime
                &&& r@[k].path@ == entries@[k].path@
                &&& r@[k].link_target@ == entries@[k].link_target@
                &&& r@[k].xattrs@ == entries@[k].xattrs@
                &&& r@[k].data@ == entries@[k].data@
            },
{
    let mut links = reversed(build_dedup_map(entries.as_slice()));
    let ghost xs = entries@;
    let ghost es = source_views(xs);
    let ghost ls = links@.reverse();
    assert(links@ =~= ls.reverse());
    let mut from = reversed(entries);
    let mut out: Vec<SourceEntry> = Vec::new();
    proof {
        assert(from@ =~= xs.reverse().take(xs.len() as int));
        assert(links@ =~= ls.reverse().take(ls.len() as int));
    }
    while from.len() > 0
        invariant
            es == source_views(xs),
            ls.len() == xs.len(),
            forall|i: int|
                0 <= i < ls.len() ==> crate::archive::chars_of(#[trigger] ls[i]) == canonical(es, i),
            from@.len() + out@.len() == xs.len(),
            from@ == xs.reverse().take(xs.len() - out@.len()),
            links@ == ls.reverse().take(xs.len() - out@.len()),
            forall|k: int| 0 <= k < out@.len() ==> (#[trigger] out@[k])@ == marked(es)[k],
            forall|k: int|
                0 <= k < out@.len() ==> {
                    &&& (#[trigger] out@[k]).kind == xs[k].kind
                    &&& out@[k].mode == xs[k].mode
                    &&& out@[k].size == xs[k].size
                    &&& out@[k].mtime == xs[k].mtime
                    &&& out@[k].path@ == xs[k].path@
                    &&& out@[k].link_target@ == xs[k].link_target@
                    &&& out@[k].xattrs@ == xs[k].xattrs@
                    &&& out@[k].data@ == xs[k].data@
                },
        decreases from@.len(),
    {
        let ghost n = out@.len() as int;
        if let Some(e) = from.pop() {
            if let Some(link) = links.pop() {
                assert(e == xs[n]);
                assert(link == ls[n]);
                assert(es[n] == e@);
                let next = SourceEntry { duplicate_of: link, ..e };
                assert(next@ =~= marked(es)[n]);
                out.push(next);
                assert(from@ =~= xs.reverse().take(xs.len() - out@.len()));
                assert(links@ =~= ls.reverse().take(xs.len() - out@.len()));
            }
        }
    }
    assert(source_views(out@) =~= marked(es));
    out
}

/// Every file that is not empty is marked where a file before it has the same
/// size and the same XXH3 value of all its data.
pub proof fn lemma_copies_are_marked(es: Seq<SourceView>, i: int, j: int)
    requires
        0 <= j < i < es.len(),
        es[i].kind == SourceKind::File,
        es[j].kind == SourceKind::File,
        es[i].size > 0,
        es[j].size == es[i].size,
        xxh3_of(es[j].data) == xxh3_of(es[i].data),
    ensures
        canonical(es, i) is Some,
        marked(es)[i].duplicate_of is Some,
    decreases j,
{
    assert(copies(es[j], es[i]));
    if forall|k: int| 0 <= k < j ==> !copies(#[trigger] es[k], es[i]) {
        assert(first_copy(es, i, j));
    } else {
        let k = choose|k: int| 0 <= k < j && copies(#[trigger] es[k], es[i]);
        lemma_copies_are_marked(es, i, k);
    }
}

/// What a mark on an entry means. A marked entry is a file that is not empty, and
/// a file before it, which has no mark, has the same size and the same XXH3 value
/// of all its data; the mark is that file's path in the archive. No file before
/// that one has them. Nothing but the mark is changed.
pub proof fn lemma_marks_tell(es: Seq<SourceView>, i: int)
    requires
        0 <= i < es.len(),
    ensures
        marked(es).len() == es.len(),
        marked(es)[i].kind == es[i].kind,
        marked(es)[i].mode == es[i].mode,
        marked(es)[i].size == es[i].size,
        marked(es)[i].mtime == es[i].mtime,
        marked(es)[i].path == es[i].path,
        marked(es)[i].link_target == es[i].link_target,
        marked(es)[i].xattrs == es[i].xattrs,
        marked(es)[i].data == es[i].data,
        marked(es)[i].duplicate_of matches Some(target) ==> es[i].kind == SourceKind::File
            && es[i].size > 0 && exists|j: int|
            0 <= j < i && (#[trigger] es[j]).kind == SourceKind::File && es[j].size == es[i].size
                && xxh3_of(es[j].data) == xxh3_of(es[i].data) && target == slashed(es[j].path)
                && marked(es)[j].duplicate_of is None && (forall|k: int|
                0 <= k < j && (#[trigger] es[k]).kind == SourceKind::File && es[k].size
                    == es[i].size ==> xxh3_of(es[k].data) != xxh3_of(es[i].data)),
{
    if marked(es)[i].duplicate_of is Some {
        let j = lemma_duplicates_resolve(es, i);
        assert(es[j].kind == SourceKind::File);
        assert forall|k: int|
            0 <= k < j && (#[trigger] es[k]).kind == SourceKind::File && es[k].size
                == es[i].size implies xxh3_of(es[k].data) != xxh3_of(es[i].data) by {
            if xxh3_of(es[k].data) == xxh3_of(es[i].data) {
                lemma_copies_are_marked(es, j, k);
            }
        }
    }
}

/// A duplicate refers to an entry before it that is no duplicate itself and is a
/// file of the same size and hash.
pub proof fn lemma_duplicates_resolve(es: Seq<SourceView>, i: int) -> (j: int)
    requires
        0 <= i < es.len(),
        marked(es)[i].duplicate_of is Some,
    ensures
        0 <= j < i,
        marked(es)[i].duplicate_of == Some(slashed(es[j].path)),
        marked(es)[j].duplicate_of is None,
        copies(es[j], es[i]),
        es[j].kind == SourceKind::File,
        es[i].kind == SourceKind::File,
        es[i].size > 0,
        es[j].size == es[i].size,
        xxh3_of(es[j].data) == xxh3_of(es[i].data),
{
    let j = choose|j: int| first_copy(es, i, j);
    assert(first_copy(es, i, j));
    assert forall|k: int| !first_copy(es, j, k) by {
        if first_copy(es, j, k) {
            assert(copies(es[k], es[i]));
        }
    }
    j
}

/// No two files that are not empty have the same size and the same XXH3 value of
/// all their data, and different data.
pub open spec fn copies_are_equal(es: Seq<SourceView>) -> bool {
    forall|a: int, b: int|
        #![trigger es[a], es[b]]
        0 <= a < es.len() && 0 <= b < es.len() && es[a].kind == SourceKind::File && es[b].kind
            == SourceKind::File && es[a].size > 0 && es[a].size == es[b].size && xxh3_of(
            es[a].data,
        ) == xxh3_of(es[b].data) ==> es[a].data == es[b].data
}

/// The entry that a duplicate refers to has the contents of the duplicate, where
/// no two files with the same size and hash have different contents.
pub proof fn lemma_duplicates_have_contents(es: Seq<SourceView>, i: int) -> (j: int)
    requires
        0 <= i < es.len(),
        marked(es)[i].duplicate_of is Some,
        forall|a: int, b: int|
            #![trigger es[a], es[b]]
            0 <= a < es.len() && 0 <= b < es.len() && es[a].kind == SourceKind::File && es[b].kind
                == SourceKind::File && es[a].size > 0 && es[a].size == es[b].size && xxh3_of(
                es[a].data,
            ) == xxh3_of(es[b].data) ==> es[a].data == es[b].data,
    ensures
        0 <= j < i,
        marked(es)[i].duplicate_of == Some(slashed(es[j].path)),
        marked(es)[j].duplicate_of is None,
        marked(es)[j].data == es[i].data,
        marked(es)[j].size == es[i].size,
{
    let j = lemma_duplicates_resolve(es, i);
    assert(copies_are_equal(es));
    j
}

} // verus!
