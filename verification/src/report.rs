//! What the commands that read an archive tell about it.

use vstd::prelude::*;
use vstd::utf8::encode_utf8;
use crate::archive::{EntryHeader, EntryKind, HashAlgo, HeaderView, chars_of};
use crate::color::{CYAN, Console, GREEN, YELLOW, coloured};
use crate::dates::{fmt_mtime, time_text};
use crate::entry::capped;
use crate::numbers::{eu_num, grouped};
use crate::reader::{ItemView, UnpackedEntry, item_views, same_bytes};
use crate::text::{has_run, lowercase, lowercase_of, str_contains};

verus! {

/// How many entries were read, how many of them are files, and the bytes of
/// the files.
#[derive(Clone, Copy, Debug, PartialEq, Eq, Structural)]
pub struct Totals {
    pub entries: u64,
    pub files: u64,
    pub bytes: u64,
}

/// The totals with one more entry; none grows past what 64 bits can hold.
pub open spec fn totals_with(t: Totals, h: HeaderView) -> Totals {
    Totals {
        entries: capped(t.entries + 1) as u64,
        files: if h.kind.file_like() {
            capped(t.files + 1) as u64
        } else {
            t.files
        },
        bytes: if h.kind.file_like() {
            capped(t.bytes + h.size) as u64
        } else {
            t.bytes
        },
    }
}

/// The totals of several entries.
pub open spec fn totals_of(items: Seq<ItemView>) -> Totals
    decreases items.len(),
{
    if items.len() == 0 {
        Totals { entries: 0, files: 0, bytes: 0 }
    } else {
        totals_with(totals_of(items.drop_last()), items.last().header)
    }
}

/// The totals of several entries: how many there are, and of the files, plain or
/// in chunks, how many. One more entry adds its size where it is a file.
pub proof fn lemma_totals_tell(items: Seq<ItemView>)
    requires
        items.len() <= u64::MAX,
    ensures
        totals_of(items).entries == items.len(),
        totals_of(items).files == items.filter(
            |x: ItemView|
                x.header.kind == EntryKind::File || x.header.kind == EntryKind::ChunkedFile,
        ).len(),
        items.len() == 0 ==> totals_of(items).bytes == 0,
        items.len() > 0 && items.last().header.kind != EntryKind::File && items.last().header.kind
            != EntryKind::ChunkedFile ==> totals_of(items).bytes == totals_of(
            items.drop_last(),
        ).bytes,
        items.len() > 0 && (items.last().header.kind == EntryKind::File || items.last().header.kind
            == EntryKind::ChunkedFile) ==> totals_of(items).bytes == (if totals_of(
            items.drop_last(),
        ).bytes + items.last().header.size > u64::MAX {
            u64::MAX as int
        } else {
            totals_of(items.drop_last()).bytes + items.last().header.size
        }),
    decreases items.len(),
{
    reveal(Seq::filter);
    if items.len() > 0 {
        lemma_totals_tell(items.drop_last());
        items.drop_last().lemma_filter_len(
            |x: ItemView|
                x.header.kind == EntryKind::File || x.header.kind == EntryKind::ChunkedFile,
        );
    }
}

impl Totals {
    /// Nothing read yet.
    pub fn new() -> (t: Self)
        ensures
            t == totals_of(Seq::empty()),
    {
        Totals { entries: 0, files: 0, bytes: 0 }
    }

    /// Counts an entry.
    pub fn count(&mut self, h: &EntryHeader)
        ensures
            *final(self) == totals_with(*old(self), h@),
            old(self).entries < u64::MAX ==> final(self).entries == old(self).entries + 1,
            h.kind != EntryKind::File && h.kind != EntryKind::ChunkedFile ==> final(self).files
                == old(self).files && final(self).bytes == old(self).bytes,
            (h.kind == EntryKind::File || h.kind == EntryKind::ChunkedFile) && old(self).files
                < u64::MAX ==> final(self).files == old(self).files + 1,
            (h.kind == EntryKind::File || h.kind == EntryKind::ChunkedFile) && old(self).bytes
                + h.size <= u64::MAX ==> final(self).bytes == old(self).bytes + h.size,
    {
        self.entries = self.entries.saturating_add(1);
        if h.kind.is_file_like() {
            self.files = self.files.saturating_add(1);
            self.bytes = self.bytes.saturating_add(h.size);
        }
    }
}

/// The totals of several entries.
pub fn count_all(items: &[UnpackedEntry]) -> (t: Totals)
    ensures
        t == totals_of(item_views(items@)),
{
    let ghost all = item_views(items@);
    let mut t = Totals::new();
    let mut i: usize = 0;
    assert(all.take(0) =~= Seq::empty());
    while i < items.len()
        invariant
            all == item_views(items@),
            i <= items@.len(),
            t == totals_of(all.take(i as int)),
        decreases items@.len() - i,
    {
        proof {
            assert(all.take(i + 1).drop_last() =~= all.take(i as int));
            assert(all.take(i + 1).last() == items@[i as int]@);
        }
        t.count(&items[i].header);
        i = i + 1;
    }
    assert(all.take(i as int) =~= all);
    t
}

/// Whether an entry is listed: where something is searched for, its path must
/// hold it, in whatever case.
pub open spec fn shown(path: Seq<char>, find: Option<Seq<char>>) -> bool {
    find matches Some(t) ==> has_run(
        encode_utf8(lowercase_of(path)),
        encode_utf8(lowercase_of(t)),
    )
}

/// The places of the first `n` entries that are listed.
pub open spec fn shown_rows(items: Seq<ItemView>, find: Option<Seq<char>>, n: int) -> Seq<int>
    decreases n,
{
    if n <= 0 {
        Seq::empty()
    } else if shown(items[n - 1].header.path, find) {
        shown_rows(items, find, n - 1).push(n - 1)
    } else {
        shown_rows(items, find, n - 1)
    }
}

/// What a listing shows: the places of the entries with a line of their own,
/// and the totals of all.
#[derive(Debug)]
pub struct Listing {
    pub rows: Vec<usize>,
    pub totals: Totals,
}

/// Lists entries. A summary has no lines.
pub fn list_items(items: &[UnpackedEntry], find: &Option<String>, summary: bool) -> (l: Listing)
    ensures
        l.totals == totals_of(item_views(items@)),
        l.rows@.map_values(|k: usize| k as int) == (if summary {
            Seq::empty()
        } else {
            shown_rows(item_views(items@), chars_of(*find), items@.len() as int)
        }),
        forall|i: int, j: int|
            0 <= i < j < l.rows@.len() ==> (#[trigger] l.rows@[i]) < (#[trigger] l.rows@[j]),
        forall|k: usize| #[trigger]
            l.rows@.contains(k) <==> !summary && k < items@.len() && match *find {
                None => true,
                Some(t) => exists|i: int|
                    0 <= i <= encode_utf8(lowercase_of(items@[k as int].header.path@)).len()
                        - encode_utf8(lowercase_of(t@)).len() && #[trigger] encode_utf8(
                        lowercase_of(items@[k as int].header.path@),
                    ).subrange(i, i + encode_utf8(lowercase_of(t@)).len()) == encode_utf8(
                        lowercase_of(t@),
                    ),
            },
{
    let ghost all = item_views(items@);
    let needle: Option<String> = match find {
        Some(t) => Some(lowercase(t.as_str())),
        None => None,
    };
    let mut rows: Vec<usize> = Vec::new();
    let ghost place = |k: usize| k as int;
    assert(rows@.map_values(place) =~= Seq::empty());
    if !summary {
        let mut i: usize = 0;
        while i < items.len()
            invariant
                all == item_views(items@),
                place == (|k: usize| k as int),
                i <= items@.len(),
                match needle {
                    Some(n) => find matches Some(t) && n@ == lowercase_of(t@),
                    None => find is None,
                },
                rows@.map_values(place) == shown_rows(all, chars_of(*find), i as int),
            decreases items@.len() - i,
        {
            assert(all[i as int] == items@[i as int]@);
            let show: bool = match &needle {
                Some(n) => {
                    let path = lowercase(items[i].header.path.as_str());
                    str_contains(path.as_str(), n.as_str())
                },
                None => true,
            };
            if show {
                let ghost before = rows@;
                rows.push(i);
                assert(rows@.map_values(place) =~= before.map_values(place).push(i as int));
            }
            i = i + 1;
        }
    }
    proof {
        lemma_rows_tell(all, chars_of(*find), items@.len() as int);
        let places = rows@.map_values(place);
        assert forall|i: int, j: int| 0 <= i < j < rows@.len() implies (#[trigger] rows@[i]) < (
        #[trigger] rows@[j]) by {
            assert(places[i] < places[j]);
        }
        assert forall|k: usize| #[trigger] rows@.contains(k) <==> !summary && k < items@.len()
            && shown(items@[k as int].header.path@, chars_of(*find)) by {
            if rows@.contains(k) {
                let i = choose|i: int| 0 <= i < rows@.len() && rows@[i] == k;
                assert(places[i] == k);
                assert(places.contains(k as int));
                assert(all[k as int] == items@[k as int]@);
            } else if !summary && k < items@.len() && shown(
                items@[k as int].header.path@,
                chars_of(*find),
            ) {
                assert(all[k as int] == items@[k as int]@);
                assert(places.contains(k as int));
                let i = choose|i: int| 0 <= i < places.len() && places[i] == k;
                assert(rows@[i] == k);
            }
        }
    }
    Listing { rows, totals: count_all(items) }
}

/// The rows of a listing stand in order, and are exactly the entries whose path
/// holds what is searched for.
proof fn lemma_rows_tell(items: Seq<ItemView>, find: Option<Seq<char>>, n: int)
    requires
        0 <= n <= items.len(),
    ensures
        forall|i: int, j: int|
            0 <= i < j < shown_rows(items, find, n).len() ==> (#[trigger] shown_rows(
                items,
                find,
                n,
            )[i]) < (#[trigger] shown_rows(items, find, n)[j]),
        forall|k: int| #[trigger]
            shown_rows(items, find, n).contains(k) <==> 0 <= k < n && shown(
                items[k].header.path,
                find,
            ),
    decreases n,
{
    if n > 0 {
        let p = shown_rows(items, find, n - 1);
        let q = shown_rows(items, find, n);
        lemma_rows_tell(items, find, n - 1);
        assert forall|k: int| #[trigger] q.contains(k) <==> 0 <= k < n && shown(
            items[k].header.path,
            find,
        ) by {
            if q.contains(k) {
                let i = choose|i: int| 0 <= i < q.len() && q[i] == k;
                if i < p.len() {
                    assert(p[i] == k);
                    assert(p.contains(k));
                }
            }
            if 0 <= k < n && shown(items[k].header.path, find) {
                if k == n - 1 {
                    assert(q[q.len() - 1] == k);
                } else {
                    assert(p.contains(k));
                    let i = choose|i: int| 0 <= i < p.len() && p[i] == k;
                    assert(q[i] == k);
                }
            }
        }
        assert forall|i: int, j: int| 0 <= i < j < q.len() implies (#[trigger] q[i]) < (
        #[trigger] q[j]) by {
            if j < p.len() {
                assert(p[i] < p[j]);
            } else {
                assert(p.contains(p[i]));
            }
        }
    }
}

/// A text at the right of a field.
pub open spec fn at_right(s: Seq<char>, w: int) -> Seq<char> {
    if s.len() >= w {
        s
    } else {
        Seq::new((w - s.len()) as nat, |k: int| ' ') + s
    }
}

fn push_spaces(out: &mut String, n: usize)
    ensures
        final(out)@ == old(out)@ + Seq::new(n as nat, |k: int| ' '),
{
    let mut k: usize = 0;
    assert(out@ =~= old(out)@ + Seq::new(0nat, |k: int| ' '));
    while k < n
        invariant
            k <= n,
            out@ == old(out)@ + Seq::new(k as nat, |k: int| ' '),
        decreases n - k,
    {
        out.push(' ');
        k = k + 1;
        assert(out@ =~= old(out)@ + Seq::new(k as nat, |k: int| ' '));
    }
}

/// What stands for the kind of an entry.
pub open spec fn kind_tag(kind: EntryKind, coloured_lines: bool) -> Seq<char> {
    match kind {
        EntryKind::Dir => coloured(coloured_lines, CYAN@, "<dir>"@),
        EntryKind::Symlink => coloured(coloured_lines, YELLOW@, "<lnk>"@),
        EntryKind::HardLink => coloured(coloured_lines, YELLOW@, "<hln>"@),
        EntryKind::ChunkedFile => coloured(coloured_lines, GREEN@, "<cdc>"@),
        EntryKind::File => "     "@,
    }
}

fn tag_of(kind: EntryKind, console: &Console) -> (r: String)
    ensures
        r@ == kind_tag(kind, console.enabled),
{
    match kind {
        EntryKind::Dir => console.c("<dir>"),
        EntryKind::Symlink => console.y("<lnk>"),
        EntryKind::HardLink => console.y("<hln>"),
        EntryKind::ChunkedFile => console.g("<cdc>"),
        EntryKind::File => "     ".to_owned(),
    }
}

/// The date of an entry, blank where it has none.
pub open spec fn date_field(mtime: int, date: Seq<char>) -> bool {
    if mtime > 0 {
        time_text(mtime, date)
    } else {
        date == "                   "@
    }
}

/// Whether the line of an entry names what it refers to.
pub open spec fn names_target(h: HeaderView) -> bool {
    h.link_target.len() > 0 && (h.kind == EntryKind::Symlink || h.kind == EntryKind::HardLink)
}

/// The line of an entry behind its date: size, kind, path and what it refers
/// to.
pub open spec fn row_text(date: Seq<char>, h: HeaderView, coloured_lines: bool) -> Seq<char> {
    let line = date + "  "@ + at_right(grouped(h.size as int), 14) + "  "@ + kind_tag(
        h.kind,
        coloured_lines,
    ) + "  "@ + h.path;
    if names_target(h) {
        line + " -> "@ + h.link_target
    } else {
        line
    }
}

fn date_of(mtime: i64) -> (r: String)
    ensures
        date_field(mtime as int, r@),
{
    if mtime > 0 {
        fmt_mtime(mtime)
    } else {
        "                   ".to_owned()
    }
}

/// The line of an entry in a listing.
pub fn list_line(h: &EntryHeader, console: &Console) -> (r: String)
    ensures
        exists|date: Seq<char>| #[trigger]
            date_field(h.mtime as int, date) && r@ == row_text(date, h@, console.enabled),
{
    let date = date_of(h.mtime);
    let ghost d = date@;
    let mut out = date;
    out.push_str("  ");
    let size = eu_num(h.size);
    let width: usize = size.as_str().unicode_len();
    let ghost o1 = out@;
    if width < 14 {
        push_spaces(&mut out, 14 - width);
    }
    out.push_str(size.as_str());
    assert(out@ =~= o1 + at_right(grouped(h.size as int), 14));
    out.push_str("  ");
    let tag = tag_of(h.kind, console);
    out.push_str(tag.as_str());
    out.push_str("  ");
    out.push_str(h.path.as_str());
    let link: bool = match h.kind {
        EntryKind::Symlink => true,
        EntryKind::HardLink => true,
        _ => false,
    };
    if link && h.link_target.as_str().unicode_len() > 0 {
        out.push_str(" -> ");
        out.push_str(h.link_target.as_str());
    }
    assert(out@ == row_text(d, h@, console.enabled));
    out
}

/// What testing an archive found.
#[derive(Clone, Copy, Debug, PartialEq, Eq, Structural)]
pub struct TestReport {
    pub totals: Totals,
    /// How many hashes were compared: one per file, if there are hashes.
    pub hashes_verified: u64,
}

/// Sums up entries that were read, and so tested.
pub fn test_items(items: &[UnpackedEntry], hash_algo: Option<HashAlgo>) -> (r: TestReport)
    ensures
        r.totals == totals_of(item_views(items@)),
        r.hashes_verified == (if hash_algo is Some {
            r.totals.files
        } else {
            0
        }),
{
    let totals = count_all(items);
    let hashes_verified: u64 = if hash_algo.is_some() {
        totals.files
    } else {
        0
    };
    TestReport { totals, hashes_verified }
}

/// How an entry stands against the live tree.
#[derive(Clone, Copy, Debug, PartialEq, Eq, Structural)]
pub enum Verdict {
    Same,
    Missing,
    Different,
}

/// The verdict on an entry: missing where the live tree has nothing there,
/// different where a file has other contents. Of other entries only presence
/// counts.
pub open spec fn verdict(item: ItemView, live: Option<Seq<u8>>) -> Verdict {
    match live {
        None => Verdict::Missing,
        Some(c) => if item.header.kind.file_like() && c != item.body {
            Verdict::Different
        } else {
            Verdict::Same
        },
    }
}

/// What the live tree has at a path.
pub open spec fn live_view(live: Option<Vec<u8>>) -> Option<Seq<u8>> {
    match live {
        Some(c) => Some(c@),
        None => None,
    }
}

/// Whether verifying goes on: it stops at the first entry that is missing or
/// different.
#[derive(Clone, Copy, Debug, PartialEq, Eq, Structural)]
pub enum Step {
    GoOn,
    Stop(Verdict),
}

/// What follows from a verdict.
pub open spec fn step_after(v: Verdict) -> Step {
    if v == Verdict::Same {
        Step::GoOn
    } else {
        Step::Stop(v)
    }
}

/// What comparing an archive with a live tree found so far.
#[derive(Clone, Copy, Debug, PartialEq, Eq, Structural)]
pub struct VerifyReport {
    pub checked: u64,
    pub mismatches: u64,
    pub bytes: u64,
}

/// The report with one more entry.
pub open spec fn report_with(r: VerifyReport, h: HeaderView, v: Verdict) -> VerifyReport {
    VerifyReport {
        checked: if h.kind.file_like() {
            capped(r.checked + 1) as u64
        } else {
            r.checked
        },
        mismatches: if v == Verdict::Same {
            r.mismatches
        } else {
            capped(r.mismatches + 1) as u64
        },
        bytes: if h.kind.file_like() {
            capped(r.bytes + h.size) as u64
        } else {
            r.bytes
        },
    }
}

impl VerifyReport {
    /// Nothing compared yet.
    pub fn new() -> (r: Self)
        ensures
            r == nothing_compared(),
    {
        VerifyReport { checked: 0, mismatches: 0, bytes: 0 }
    }

    /// Compares an entry with what the live tree has at its path: nothing, or
    /// something with the given contents, which only count for files.
    pub fn check(&mut self, item: &UnpackedEntry, live: &Option<Vec<u8>>) -> (v: Verdict)
        ensures
            v == verdict(item@, live_view(*live)),
            *final(self) == report_with(*old(self), item.header@, v),
            v == Verdict::Missing <==> *live is None,
            item.header.kind == EntryKind::File || item.header.kind == EntryKind::ChunkedFile ==> (v
                == Verdict::Same <==> (*live matches Some(c) && c@ == item.body@)),
            item.header.kind != EntryKind::File && item.header.kind != EntryKind::ChunkedFile ==> (v
                == Verdict::Same <==> *live is Some),
            v == Verdict::Same ==> final(self).mismatches == old(self).mismatches,
            v != Verdict::Same && old(self).mismatches < u64::MAX ==> final(self).mismatches == old(
                self,
            ).mismatches + 1,
    {
        let is_file: bool = item.header.kind.is_file_like();
        if is_file {
            self.checked = self.checked.saturating_add(1);
            self.bytes = self.bytes.saturating_add(item.header.size);
        }
        let v = match live {
            None => Verdict::Missing,
            Some(c) => {
                if is_file && !same_bytes(c.as_slice(), item.body.as_slice()) {
                    Verdict::Different
                } else {
                    Verdict::Same
                }
            },
        };
        match v {
            Verdict::Same => {},
            _ => {
                self.mismatches = self.mismatches.saturating_add(1);
            },
        }
        v
    }

    /// Compares the next entry and says whether to go on.
    pub fn step(&mut self, item: &UnpackedEntry, live: &Option<Vec<u8>>) -> (n: Step)
        ensures
            n == step_after(verdict(item@, live_view(*live))),
            *final(self) == report_with(
                *old(self),
                item.header@,
                verdict(item@, live_view(*live)),
            ),
            n == Step::Stop(Verdict::Missing) <==> *live is None,
            item.header.kind == EntryKind::File || item.header.kind == EntryKind::ChunkedFile ==> (n
                == Step::GoOn <==> (*live matches Some(c) && c@ == item.body@)),
            item.header.kind != EntryKind::File && item.header.kind != EntryKind::ChunkedFile ==> (n
                == Step::GoOn <==> *live is Some),
            n != Step::GoOn && *live is Some ==> n == Step::Stop(Verdict::Different),
    {
        let v = self.check(item, live);
        match v {
            Verdict::Same => Step::GoOn,
            _ => Step::Stop(v),
        }
    }

    /// The exit status of verifying: 0 where all was the same, else 2.
    pub fn exit_code(&self) -> (c: i32)
        ensures
            c == status_of(*self),
            self.mismatches == 0 ==> c == 0,
            self.mismatches > 0 ==> c == 2,
    {
        if self.mismatches == 0 {
            0
        } else {
            2
        }
    }
}

/// The exit status of verifying.
pub open spec fn status_of(r: VerifyReport) -> i32 {
    if r.mismatches == 0 {
        0
    } else {
        2
    }
}

/// Before anything was compared.
pub open spec fn nothing_compared() -> VerifyReport {
    VerifyReport { checked: 0, mismatches: 0, bytes: 0 }
}

/// The report after comparing all of some entries, each with what the live tree
/// has at its path.
pub open spec fn report_on(xs: Seq<(ItemView, Option<Seq<u8>>)>) -> VerifyReport
    decreases xs.len(),
{
    if xs.len() == 0 {
        nothing_compared()
    } else {
        let (item, live) = xs.last();
        report_with(report_on(xs.drop_last()), item.header, verdict(item, live))
    }
}

/// The live tree has every entry, and every file with the same contents.
pub open spec fn all_same(xs: Seq<(ItemView, Option<Seq<u8>>)>) -> bool {
    forall|k: int| 0 <= k < xs.len() ==> verdict((#[trigger] xs[k]).0, xs[k].1) == Verdict::Same
}

/// The entries that are compared: up to the first one that is not the same.
pub open spec fn compared_before_stop(xs: Seq<(ItemView, Option<Seq<u8>>)>) -> Seq<
    (ItemView, Option<Seq<u8>>),
>
    decreases xs.len(),
{
    if xs.len() == 0 {
        xs
    } else if step_after(verdict(xs[0].0, xs[0].1)) == Step::GoOn {
        seq![xs[0]] + compared_before_stop(xs.skip(1))
    } else {
        seq![xs[0]]
    }
}

/// What a verdict says of the bytes. A file is the same exactly where the live
/// tree has something at its path whose bytes are those of its body, all of them.
/// Anything else is the same exactly where the live tree has something there.
pub proof fn lemma_verdict_tells(item: ItemView, live: Option<Seq<u8>>)
    ensures
        verdict(item, live) == Verdict::Missing <==> live is None,
        item.header.kind == EntryKind::File || item.header.kind == EntryKind::ChunkedFile ==> (
        verdict(item, live) == Verdict::Same <==> live == Some(item.body)),
        item.header.kind != EntryKind::File && item.header.kind != EntryKind::ChunkedFile ==> (
        verdict(item, live) == Verdict::Same <==> live is Some),
{
}

/// One more entry counts once as checked, with its size, where it is a file, and
/// once as a mismatch where it is missing or its bytes are not those of its body.
pub proof fn lemma_report_grows(
    xs: Seq<(ItemView, Option<Seq<u8>>)>,
    item: ItemView,
    live: Option<Seq<u8>>,
)
    requires
        report_on(xs).checked < u64::MAX,
        report_on(xs).mismatches < u64::MAX,
        report_on(xs).bytes + item.header.size <= u64::MAX,
    ensures
        ({
            let r = report_on(xs);
            let n = report_on(xs.push((item, live)));
            let file = item.header.kind == EntryKind::File || item.header.kind
                == EntryKind::ChunkedFile;
            &&& n.checked == r.checked + (if file {
                1int
            } else {
                0
            })
            &&& n.bytes == r.bytes + (if file {
                item.header.size as int
            } else {
                0
            })
            &&& n.mismatches == r.mismatches + (if live is None || (file && live != Some(
                item.body,
            )) {
                1int
            } else {
                0
            })
        }),
        report_on(Seq::empty()).checked == 0,
        report_on(Seq::empty()).mismatches == 0,
        report_on(Seq::empty()).bytes == 0,
{
    assert(xs.push((item, live)).drop_last() =~= xs);
    lemma_verdict_tells(item, live);
}

/// There is a mismatch in the report exactly where an entry is not the same: the
/// live tree lacks it, or has a file with other bytes.
pub proof fn lemma_report_tells(xs: Seq<(ItemView, Option<Seq<u8>>)>)
    ensures
        report_on(xs).mismatches == 0 <==> all_same(xs),
        report_on(xs).mismatches == 0 <==> forall|k: int|
            0 <= k < xs.len() ==> (#[trigger] xs[k]).1 is Some && (xs[k].0.header.kind
                == EntryKind::File || xs[k].0.header.kind == EntryKind::ChunkedFile ==> xs[k].1
                == Some(xs[k].0.body)),
        status_of(report_on(xs)) == (if all_same(xs) {
            0i32
        } else {
            2i32
        }),
    decreases xs.len(),
{
    assert(all_same(xs) <==> forall|k: int|
        0 <= k < xs.len() ==> (#[trigger] xs[k]).1 is Some && (xs[k].0.header.kind
            == EntryKind::File || xs[k].0.header.kind == EntryKind::ChunkedFile ==> xs[k].1
            == Some(xs[k].0.body))) by {
        assert forall|k: int| 0 <= k < xs.len() implies (verdict((#[trigger] xs[k]).0, xs[k].1)
            == Verdict::Same <==> xs[k].1 is Some && (xs[k].0.header.kind == EntryKind::File
            || xs[k].0.header.kind == EntryKind::ChunkedFile ==> xs[k].1 == Some(xs[k].0.body))) by {
            lemma_verdict_tells(xs[k].0, xs[k].1);
        }
    }
    if xs.len() > 0 {
        let front = xs.drop_last();
        lemma_report_tells(front);
        if all_same(xs) {
            assert forall|k: int| 0 <= k < front.len() implies verdict(
                (#[trigger] front[k]).0,
                front[k].1,
            ) == Verdict::Same by {
                assert(front[k] == xs[k]);
            }
            assert(verdict(xs[xs.len() - 1].0, xs[xs.len() - 1].1) == Verdict::Same);
        }
        if all_same(front) && verdict(xs.last().0, xs.last().1) == Verdict::Same {
            assert forall|k: int| 0 <= k < xs.len() implies verdict(
                (#[trigger] xs[k]).0,
                xs[k].1,
            ) == Verdict::Same by {
                if k < front.len() {
                    assert(front[k] == xs[k]);
                }
            }
        }
    }
}

/// Verifying stops at the first entry that is not the same, which is the last
/// one that is compared, and still tells whether all are the same: the exit
/// status is 0 if and only if they are.
pub proof fn lemma_verify_outcome(xs: Seq<(ItemView, Option<Seq<u8>>)>)
    ensures
        ({
            let ys = compared_before_stop(xs);
            &&& ys == xs.take(ys.len() as int)
            &&& ys.len() > 0 ==> all_same(ys.drop_last())
            &&& all_same(xs) ==> ys == xs
            &&& !all_same(xs) ==> ys.len() > 0 && verdict(ys.last().0, ys.last().1)
                != Verdict::Same && report_on(ys).mismatches == 1
            &&& status_of(report_on(ys)) == (if all_same(xs) {
                0i32
            } else {
                2i32
            })
        }),
        status_of(report_on(compared_before_stop(xs))) == 0 <==> forall|k: int|
            0 <= k < xs.len() ==> (#[trigger] xs[k]).1 is Some && (xs[k].0.header.kind
                == EntryKind::File || xs[k].0.header.kind == EntryKind::ChunkedFile ==> xs[k].1
                == Some(xs[k].0.body)),
{
    let ys = compared_before_stop(xs);
    lemma_report_tells(xs);
    lemma_compared(xs);
    lemma_report_tells(ys);
    if !all_same(xs) {
        lemma_report_tells(ys.drop_last());
        assert(ys[ys.len() - 1] == ys.last());
        assert(!all_same(ys));
    }
}

proof fn lemma_compared(xs: Seq<(ItemView, Option<Seq<u8>>)>)
    ensures
        ({
            let ys = compared_before_stop(xs);
            &&& ys.len() <= xs.len()
            &&& ys == xs.take(ys.len() as int)
            &&& ys.len() > 0 ==> all_same(ys.drop_last())
            &&& all_same(xs) ==> ys == xs
            &&& !all_same(xs) ==> ys.len() > 0 && verdict(ys.last().0, ys.last().1)
                != Verdict::Same
        }),
    decreases xs.len(),
{
    let ys = compared_before_stop(xs);
    if xs.len() == 0 {
        assert(ys =~= xs.take(0));
    } else if step_after(verdict(xs[0].0, xs[0].1)) == Step::GoOn {
        let more = xs.skip(1);
        let zs = compared_before_stop(more);
        lemma_compared(more);
        assert(ys =~= xs.take(ys.len() as int)) by {
            assert forall|k: int| 1 <= k < ys.len() implies ys[k] == xs[k] by {
                assert(ys[k] == zs[k - 1]);
                assert(zs[k - 1] == more.take(zs.len() as int)[k - 1]);
            }
        }
        assert(all_same(ys.drop_last())) by {
            assert forall|k: int| 0 <= k < ys.drop_last().len() implies verdict(
                (#[trigger] ys.drop_last()[k]).0,
                ys.drop_last()[k].1,
            ) == Verdict::Same by {
                if k > 0 {
                    assert(ys.drop_last()[k] == zs.drop_last()[k - 1]);
                }
            }
        }
        if all_same(xs) {
            assert forall|k: int| 0 <= k < more.len() implies verdict(
                (#[trigger] more[k]).0,
                more[k].1,
            ) == Verdict::Same by {
                assert(more[k] == xs[k + 1]);
            }
            assert(ys =~= xs);
        } else {
            if all_same(more) {
                assert forall|k: int| 0 <= k < xs.len() implies verdict(
                    (#[trigger] xs[k]).0,
                    xs[k].1,
                ) == Verdict::Same by {
                    if k > 0 {
                        assert(more[k - 1] == xs[k]);
                    }
                }
            }
            assert(ys.last() == zs.last());
        }
    } else {
        assert(ys =~= xs.take(1));
        assert(ys.drop_last() =~= Seq::empty());
        assert(!all_same(xs)) by {
            assert(verdict(xs[0].0, xs[0].1) != Verdict::Same);
        }
    }
}

/// What the line of an entry shows: first the date, then the size, which ends sixteen
/// columns behind the date where it has no more than fourteen, then the kind, and at the
/// end the path, behind which a link has an arrow and what it refers to.
pub proof fn lemma_row_tells(date: Seq<char>, h: HeaderView)
    requires
        grouped(h.size as int).len() <= 14,
    ensures
        ({
            let row = row_text(date, h, false);
            let size = grouped(h.size as int);
            let n = date.len() as int;
            let link = (h.kind == EntryKind::Symlink || h.kind == EntryKind::HardLink)
                && h.link_target.len() > 0;
            &&& row.take(n) == date
            &&& row.subrange(n + 16 - size.len(), n + 16) == size
            &&& forall|k: int| n <= k < n + 16 - size.len() ==> #[trigger] row[k] == ' '
            &&& row.subrange(n + 18, n + 23) == (match h.kind {
                EntryKind::Dir => "<dir>"@,
                EntryKind::Symlink => "<lnk>"@,
                EntryKind::HardLink => "<hln>"@,
                EntryKind::ChunkedFile => "<cdc>"@,
                EntryKind::File => "     "@,
            })
            &&& !link ==> row.skip(n + 25) == h.path
            &&& link ==> row.skip(n + 25) == h.path + " -> "@ + h.link_target
        }),
{
    reveal_strlit("  ");
    reveal_strlit(" -> ");
    reveal_strlit("<dir>");
    reveal_strlit("<lnk>");
    reveal_strlit("<hln>");
    reveal_strlit("<cdc>");
    reveal_strlit("     ");
    let row = row_text(date, h, false);
    let size = grouped(h.size as int);
    let n = date.len() as int;
    let field = at_right(size, 14);
    let tag = kind_tag(h.kind, false);
    assert(field.len() == 14);
    assert(tag.len() == 5);
    assert(row.take(n) =~= date);
    assert(row.subrange(n + 16 - size.len(), n + 16) =~= size);
    assert(row.subrange(n + 18, n + 23) =~= tag);
    if names_target(h) {
        assert(row.skip(n + 25) =~= h.path + " -> "@ + h.link_target);
    } else {
        assert(row.skip(n + 25) =~= h.path);
    }
}

} // verus!
