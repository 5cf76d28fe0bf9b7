//! The scan before packing, and the order of work that is done in parallel.

use vstd::prelude::*;
use std::collections::HashMap;
use crate::archive::{HashAlgo, XattrPair};
use crate::entry::{capped, hash_bytes, hash_of};
use crate::hashes::{blake3_of, crc32_of, xxh3_of};
use crate::order::{Ranked, ascending, merge_sort};
use crate::paths::{extension, extension_of};
use crate::reader::same_bytes;
use crate::text::{ascii_lowercase, ascii_lowered, str_eq};
use crate::wire::le_bytes;

verus! {

/// What the extension of a file tells about its contents.
#[derive(Clone, Copy, Debug, PartialEq, Eq, Structural)]
pub enum ExtKind {
    Jpeg,
    Png,
    Media,
    Other,
}

/// Whether a lower-case extension counts as media in a scan.
pub open spec fn scan_media(e: Seq<char>) -> bool {
    ||| e == "mp4"@
    ||| e == "m4a"@
    ||| e == "m4v"@
    ||| e == "mov"@
    ||| e == "mkv"@
    ||| e == "webm"@
    ||| e == "avi"@
    ||| e == "mp3"@
    ||| e == "ogg"@
    ||| e == "opus"@
    ||| e == "flac"@
    ||| e == "aac"@
    ||| e == "wma"@
    ||| e == "zip"@
    ||| e == "7z"@
    ||| e == "rar"@
    ||| e == "gz"@
    ||| e == "xz"@
    ||| e == "bz2"@
    ||| e == "lz4"@
    ||| e == "zst"@
    ||| e == "pdf"@
    ||| e == "epub"@
    ||| e == "djvu"@
}

fn is_scan_media(e: &str) -> (r: bool)
    ensures
        r == scan_media(e@),
{
    str_eq(e, "mp4") || str_eq(e, "m4a") || str_eq(e, "m4v") || str_eq(e, "mov") || str_eq(e,
        "mkv") || str_eq(e, "webm") || str_eq(e, "avi") || str_eq(e, "mp3") || str_eq(e, "ogg") ||
        str_eq(e, "opus") || str_eq(e, "flac") || str_eq(e, "aac") || str_eq(e, "wma") ||
        str_eq(e, "zip") || str_eq(e, "7z") || str_eq(e, "rar") || str_eq(e, "gz") || str_eq(e,
        "xz") || str_eq(e, "bz2") || str_eq(e, "lz4") || str_eq(e, "zst") || str_eq(e, "pdf") ||
        str_eq(e, "epub") || str_eq(e, "djvu")
}

/// The kind of a file by its path.
pub open spec fn kind_of(path: Seq<char>) -> ExtKind {
    match extension_of(path) {
        None => ExtKind::Other,
        Some(x) => {
            let e = ascii_lowered(x);
            if e == "jpg"@ || e == "jpeg"@ {
                ExtKind::Jpeg
            } else if e == "png"@ || e == "apng"@ {
                ExtKind::Png
            } else if scan_media(e) {
                ExtKind::Media
            } else {
                ExtKind::Other
            }
        },
    }
}

impl ExtKind {
    /// The kind of a file by its path.
    pub fn classify(rel: &str) -> (k: Self)
        ensures
            k == kind_of(rel@),
    {
        match extension(rel) {
            None => ExtKind::Other,
            Some(x) => {
                let e = ascii_lowercase(x.as_str());
                if str_eq(e.as_str(), "jpg") || str_eq(e.as_str(), "jpeg") {
                    ExtKind::Jpeg
                } else if str_eq(e.as_str(), "png") || str_eq(e.as_str(), "apng") {
                    ExtKind::Png
                } else if is_scan_media(e.as_str()) {
                    ExtKind::Media
                } else {
                    ExtKind::Other
                }
            },
        }
    }
}

/// The short name of a kind.
pub fn kind_label(k: ExtKind) -> (s: &'static str)
    ensures
        s@ == (match k {
            ExtKind::Png => "png"@,
            ExtKind::Jpeg => "jpg"@,
            ExtKind::Media => "media"@,
            ExtKind::Other => "other"@,
        }),
{
    match k {
        ExtKind::Png => "png",
        ExtKind::Jpeg => "jpg",
        ExtKind::Media => "media",
        ExtKind::Other => "other",
    }
}

/// One number per kind.
#[derive(Clone, Copy, Debug, PartialEq, Eq, Structural)]
pub struct PerKind {
    pub jpeg: u64,
    pub png: u64,
    pub media: u64,
    pub other: u64,
}

impl PerKind {
    /// The number of a kind.
    pub open spec fn at(self, k: ExtKind) -> u64 {
        match k {
            ExtKind::Jpeg => self.jpeg,
            ExtKind::Png => self.png,
            ExtKind::Media => self.media,
            ExtKind::Other => self.other,
        }
    }

    /// The number of a kind.
    pub fn get(&self, k: ExtKind) -> (n: u64)
        ensures
            n == self.at(k),
    {
        match k {
            ExtKind::Jpeg => self.jpeg,
            ExtKind::Png => self.png,
            ExtKind::Media => self.media,
            ExtKind::Other => self.other,
        }
    }

    /// Adds to the number of a kind.
    pub fn raise(&mut self, k: ExtKind, n: u64)
        requires
            old(self).at(k) + n <= u64::MAX,
        ensures
            forall|j: ExtKind| #[trigger]
                final(self).at(j) == old(self).at(j) + (if j == k {
                    n as int
                } else {
                    0
                }),
    {
        match k {
            ExtKind::Jpeg => {
                self.jpeg = self.jpeg + n;
            },
            ExtKind::Png => {
                self.png = self.png + n;
            },
            ExtKind::Media => {
                self.media = self.media + n;
            },
            ExtKind::Other => {
                self.other = self.other + n;
            },
        }
    }
}

/// Something that a scan found. Only regular files have a size.
#[derive(Debug)]
pub struct ScanEntry {
    pub full: String,
    pub rel: String,
    pub size: u64,
    pub kind: ExtKind,
    pub is_regular: bool,
}

/// What a scan found, with sums by kind and the size below which half of the
/// files and 95 of a hundred are.
#[derive(Debug)]
pub struct Plan {
    pub files: Vec<ScanEntry>,
    pub total_bytes: u64,
    pub type_bytes: PerKind,
    pub type_count: PerKind,
    pub regular_count: u64,
    pub p50_size: u64,
    pub p95_size: u64,
}

/// What a scan is made from: full path, path in the archive, and the size of a
/// regular file.
pub type Found = (String, String, Option<u64>);

/// The bytes of the first `n` things found that are regular files of a kind.
pub open spec fn found_bytes(v: Seq<Found>, n: int, k: ExtKind) -> int
    decreases n,
{
    if n <= 0 {
        0
    } else {
        found_bytes(v, n - 1, k) + match v[n - 1].2 {
            Some(size) => if kind_of(v[n - 1].1@) == k {
                size as int
            } else {
                0
            },
            None => 0,
        }
    }
}

/// How many of the first `n` things found are regular files of a kind.
pub open spec fn found_count(v: Seq<Found>, n: int, k: ExtKind) -> int
    decreases n,
{
    if n <= 0 {
        0
    } else {
        found_count(v, n - 1, k) + if v[n - 1].2 is Some && kind_of(v[n - 1].1@) == k {
            1int
        } else {
            0
        }
    }
}

/// The sizes of the regular files among the first `n` things found.
pub open spec fn found_sizes(v: Seq<Found>, n: int) -> Seq<u64>
    decreases n,
{
    if n <= 0 {
        Seq::empty()
    } else {
        match v[n - 1].2 {
            Some(size) => found_sizes(v, n - 1).push(size),
            None => found_sizes(v, n - 1),
        }
    }
}

/// The bytes of all regular files among the first `n` things found.
pub open spec fn found_total(v: Seq<Found>, n: int) -> int {
    found_bytes(v, n, ExtKind::Jpeg) + found_bytes(v, n, ExtKind::Png) + found_bytes(
        v,
        n,
        ExtKind::Media,
    ) + found_bytes(v, n, ExtKind::Other)
}

/// The row of something found.
pub open spec fn row_is(e: ScanEntry, f: Found) -> bool {
    &&& e.full@ == f.0@
    &&& e.rel@ == f.1@
    &&& e.kind == kind_of(f.1@)
    &&& e.is_regular == (f.2 is Some)
    &&& e.size == (match f.2 {
        Some(size) => size,
        None => 0,
    })
}

/// The value that `p` of a hundred numbers do not exceed, by nearest rank;
/// zero of none. The numbers are in order.
pub open spec fn percentile(s: Seq<u64>, p: int) -> u64 {
    if s.len() == 0 {
        0
    } else {
        let rank = (p * s.len() + 99) / 100;
        if rank < 1 {
            s[0]
        } else if rank > s.len() {
            s.last()
        } else {
            s[rank - 1]
        }
    }
}

/// The value that `p` of a hundred numbers do not exceed.
pub fn pct(sorted: &[u64], p: u64) -> (n: u64)
    ensures
        n == percentile(sorted@, p as int),
{
    if sorted.len() == 0 {
        return 0;
    }
    let len: u128 = sorted.len() as u128;
    assert(0 <= p * len <= 0xFFFF_FFFF_FFFF_FFFF * 0xFFFF_FFFF_FFFF_FFFF) by (nonlinear_arith)
        requires
            0 <= p <= 0xFFFF_FFFF_FFFF_FFFF,
            0 <= len <= 0xFFFF_FFFF_FFFF_FFFF,
    ;
    let rank: u128 = (p as u128 * len + 99) / 100;
    if rank < 1 {
        sorted[0]
    } else if rank > len {
        sorted[sorted.len() - 1]
    } else {
        sorted[(rank - 1) as usize]
    }
}

impl Ranked for u64 {
    open spec fn leq(self, other: Self) -> bool {
        self <= other
    }

    proof fn lemma_total(a: Self, b: Self) {
    }

    proof fn lemma_transitive(a: Self, b: Self, c: Self) {
    }

    fn before(&self, other: &Self) -> (r: bool) {
        *self <= *other
    }
}

proof fn lemma_found_bytes(v: Seq<Found>, n: int, k: ExtKind)
    ensures
        found_bytes(v, n, k) >= 0,
        0 <= found_count(v, n, k) <= (if n < 0 {
            0
        } else {
            n
        }),
    decreases n,
{
    if n > 0 {
        lemma_found_bytes(v, n - 1, k);
    }
}

proof fn lemma_found_bytes_grows(v: Seq<Found>, n: int, m: int, k: ExtKind)
    requires
        0 <= n <= m,
    ensures
        found_bytes(v, n, k) <= found_bytes(v, m, k),
    decreases m - n,
{
    if n < m {
        lemma_found_bytes_grows(v, n, m - 1, k);
    }
}

impl Plan {
    /// Sums up what a scan found.
    pub fn from_entries(entries: &[Found]) -> (p: Self)
        requires
            forall|k: ExtKind| #[trigger]
                found_bytes(entries@, entries@.len() as int, k) <= u64::MAX,
        ensures
            p.files@.len() == entries@.len(),
            forall|i: int|
                0 <= i < p.files@.len() ==> row_is(#[trigger] p.files@[i], entries@[i]),
            forall|i: int|
                0 <= i < p.files@.len() ==> {
                    &&& (#[trigger] p.files@[i]).full@ == entries@[i].0@
                    &&& p.files@[i].rel@ == entries@[i].1@
                    &&& p.files@[i].is_regular <==> entries@[i].2 is Some
                    &&& entries@[i].2 matches Some(size) ==> p.files@[i].size == size
                    &&& entries@[i].2 is None ==> p.files@[i].size == 0
                },
            p.total_bytes == capped(found_total(entries@, entries@.len() as int)),
            forall|k: ExtKind| #[trigger]
                p.type_bytes.at(k) == found_bytes(entries@, entries@.len() as int, k),
            forall|k: ExtKind| #[trigger]
                p.type_count.at(k) == found_count(entries@, entries@.len() as int, k),
            p.regular_count == found_sizes(entries@, entries@.len() as int).len(),
            exists|s: Seq<u64>|
                #![trigger ascending(s)]
                ascending(s) && s.to_multiset() == found_sizes(
                    entries@,
                    entries@.len() as int,
                ).to_multiset() && p.p50_size == percentile(s, 50) && p.p95_size == percentile(
                    s,
                    95,
                ),
    {
        let ghost v = entries@;
        let mut files: Vec<ScanEntry> = Vec::new();
        let mut sizes: Vec<u64> = Vec::new();
        let mut total_bytes: u64 = 0;
        let mut type_bytes = PerKind { jpeg: 0, png: 0, media: 0, other: 0 };
        let mut type_count = PerKind { jpeg: 0, png: 0, media: 0, other: 0 };
        let mut i: usize = 0;
        while i < entries.len()
            invariant
                v == entries@,
                i <= entries@.len(),
                forall|k: ExtKind| #[trigger] found_bytes(v, v.len() as int, k) <= u64::MAX,
                files@.len() == i,
                forall|k: int| 0 <= k < i ==> row_is(#[trigger] files@[k], v[k]),
                total_bytes == capped(found_total(v, i as int)),
                forall|k: ExtKind| #[trigger] type_bytes.at(k) == found_bytes(v, i as int, k),
                forall|k: ExtKind| #[trigger] type_count.at(k) == found_count(v, i as int, k),
                sizes@ == found_sizes(v, i as int),
                sizes@.len() <= i,
            decreases entries@.len() - i,
        {
            let kind = ExtKind::classify(entries[i].1.as_str());
            proof {
                lemma_found_bytes_grows(v, i + 1, v.len() as int, kind);
                assert(found_bytes(v, v.len() as int, kind) <= u64::MAX);
                lemma_found_bytes(v, i as int, ExtKind::Jpeg);
                lemma_found_bytes(v, i as int, ExtKind::Png);
                lemma_found_bytes(v, i as int, ExtKind::Media);
                lemma_found_bytes(v, i as int, ExtKind::Other);
                assert(type_bytes.at(kind) == found_bytes(v, i as int, kind));
                assert(type_count.at(kind) == found_count(v, i as int, kind));
            }
            let (size, is_regular): (u64, bool) = match entries[i].2 {
                Some(size) => (size, true),
                None => (0, false),
            };
            if is_regular {
                total_bytes = total_bytes.saturating_add(size);
                type_bytes.raise(kind, size);
                type_count.raise(kind, 1);
                sizes.push(size);
            }
            let e = ScanEntry {
                full: entries[i].0.clone(),
                rel: entries[i].1.clone(),
                size,
                kind,
                is_regular,
            };
            files.push(e);
            i = i + 1;
        }
        let regular_count: u64 = sizes.len() as u64;
        let sorted = merge_sort(sizes);
        let p50_size: u64 = pct(sorted.as_slice(), 50);
        let p95_size: u64 = pct(sorted.as_slice(), 95);
        assert(ascending(sorted@));
        Plan { files, total_bytes, type_bytes, type_count, regular_count, p50_size, p95_size }
    }

    /// The summary that goes with an archive: for every kind with files its
    /// number, how many there are, and their bytes.
    pub fn to_scan_summary(&self) -> (s: ScanSummary)
        ensures
            s.total_bytes == self.total_bytes,
            s.file_count == self.regular_count,
            s.type_dist@ == type_dist(*self),
    {
        let mut dist: Vec<(u8, u32, u64)> = Vec::new();
        push_kind(&mut dist, 0, self.type_count.jpeg, self.type_bytes.jpeg);
        push_kind(&mut dist, 1, self.type_count.png, self.type_bytes.png);
        push_kind(&mut dist, 2, self.type_count.media, self.type_bytes.media);
        push_kind(&mut dist, 3, self.type_count.other, self.type_bytes.other);
        assert(dist@ =~= type_dist(*self));
        ScanSummary {
            total_bytes: self.total_bytes,
            file_count: self.regular_count,
            type_dist: dist,
        }
    }
}

/// The summary of a scan.
#[derive(Debug)]
pub struct ScanSummary {
    pub total_bytes: u64,
    pub file_count: u64,
    pub type_dist: Vec<(u8, u32, u64)>,
}

/// The line of a kind in a summary; none where it has no files.
pub open spec fn kind_line(id: u8, count: u64, bytes: u64) -> Seq<(u8, u32, u64)> {
    if count > 0 {
        seq![
            (
                id,
                if count > u32::MAX {
                    u32::MAX
                } else {
                    count as u32
                },
                bytes,
            ),
        ]
    } else {
        Seq::empty()
    }
}

/// The lines of all kinds.
pub open spec fn type_dist(p: Plan) -> Seq<(u8, u32, u64)> {
    kind_line(0, p.type_count.jpeg, p.type_bytes.jpeg) + kind_line(
        1,
        p.type_count.png,
        p.type_bytes.png,
    ) + kind_line(2, p.type_count.media, p.type_bytes.media) + kind_line(
        3,
        p.type_count.other,
        p.type_bytes.other,
    )
}

fn push_kind(out: &mut Vec<(u8, u32, u64)>, id: u8, count: u64, bytes: u64)
    ensures
        final(out)@ == old(out)@ + kind_line(id, count, bytes),
{
    if count > 0 {
        let n: u32 = if count > u32::MAX as u64 {
            u32::MAX
        } else {
            count as u32
        };
        out.push((id, n, bytes));
    }
    assert(out@ =~= old(out)@ + kind_line(id, count, bytes));
}

/// How many workers there are for `threads` asked for: one per core where none
/// are asked for, never more than cores and at least one.
pub fn phase3_worker_count(threads: u32, cores: usize) -> (n: usize)
    ensures
        n == ({
            let user = if threads == 0 {
                cores as int
            } else {
                threads as int
            };
            let least = if user < cores {
                user
            } else {
                cores as int
            };
            if least < 1 {
                1
            } else {
                least
            }
        }),
{
    let user: u64 = if threads == 0 {
        cores as u64
    } else {
        threads as u64
    };
    if user >= cores as u64 {
        if cores < 1 {
            1
        } else {
            cores
        }
    } else {
        user as usize
    }
}

/// How many workers a pool has for a number of jobs: no more than jobs, and at
/// least one.
pub fn pool_size(workers: usize, jobs: usize) -> (n: usize)
    ensures
        n == (if workers < jobs {
            if workers < 1 {
                1
            } else {
                workers
            }
        } else {
            if jobs < 1 {
                1
            } else {
                jobs
            }
        }),
{
    let n: usize = if workers < jobs {
        workers
    } else {
        jobs
    };
    if n < 1 {
        1
    } else {
        n
    }
}

/// The compressor for one kind of picture.
#[derive(Clone, Copy, Debug, PartialEq, Eq, Structural)]
pub enum SpecificKind {
    Pjg,
    Ppg,
}

/// A picture to be compressed on its own; `idx` is its place among the entries.
#[derive(Debug)]
pub struct SpecificJob {
    pub idx: usize,
    pub full: String,
    pub rel: String,
    pub kind: SpecificKind,
}

/// A picture that was compressed on its own.
#[derive(Debug)]
pub struct Precompressed {
    pub idx: usize,
    pub kind: SpecificKind,
    pub rel: String,
    pub original_size: u64,
    pub body: Vec<u8>,
    pub hash_trailer: Option<Vec<u8>>,
    pub mtime: i64,
    pub mode: u32,
}

/// What becomes of a job once its file was read and compressed: the trailer is
/// the hash of the file as it was.
pub fn precompressed(
    job: &SpecificJob,
    bytes: &[u8],
    body: Vec<u8>,
    mtime: i64,
    mode: u32,
    hash_algo: Option<HashAlgo>,
) -> (r: Precompressed)
    ensures
        r.idx == job.idx,
        r.kind == job.kind,
        r.rel@ == job.rel@,
        r.original_size == bytes@.len(),
        r.body == body,
        r.mtime == mtime,
        r.mode == mode,
        match hash_algo {
            Some(a) => r.hash_trailer matches Some(t) && t@ == hash_bytes(a, bytes@),
            None => r.hash_trailer is None,
        },
        hash_algo == Some(HashAlgo::Crc32) ==> (r.hash_trailer matches Some(t) && t@ == le_bytes(
            crc32_of(bytes@) as int,
            4,
        )),
        hash_algo == Some(HashAlgo::Xxh3) ==> (r.hash_trailer matches Some(t) && t@ == le_bytes(
            xxh3_of(bytes@) as int,
            8,
        )),
        hash_algo == Some(HashAlgo::Blake3) ==> (r.hash_trailer matches Some(t) && t@ == blake3_of(
            bytes@,
        )@),
{
    let hash_trailer: Option<Vec<u8>> = match hash_algo {
        Some(a) => Some(hash_of(a, bytes)),
        None => None,
    };
    Precompressed {
        idx: job.idx,
        kind: job.kind,
        rel: job.rel.clone(),
        original_size: bytes.len() as u64,
        body,
        hash_trailer,
        mtime,
        mode,
    }
}

impl Ranked for SpecificJob {
    /// The later entry first: workers take jobs from the end.
    open spec fn leq(self, other: Self) -> bool {
        self.idx >= other.idx
    }

    proof fn lemma_total(a: Self, b: Self) {
    }

    proof fn lemma_transitive(a: Self, b: Self, c: Self) {
    }

    fn before(&self, other: &Self) -> (r: bool) {
        self.idx >= other.idx
    }
}

/// Orders jobs so that workers, who take them from the end, begin with the
/// first entry.
pub fn order_jobs(jobs: Vec<SpecificJob>) -> (r: Vec<SpecificJob>)
    ensures
        r@.to_multiset() == jobs@.to_multiset(),
        forall|i: int, j: int| 0 <= i < j < r@.len() ==> (#[trigger] r@[i]).idx >= (
        #[trigger] r@[j]).idx,
{
    let r = merge_sort(jobs);
    assert forall|i: int, j: int| 0 <= i < j < r@.len() implies (#[trigger] r@[i]).idx >= (
    #[trigger] r@[j]).idx by {
        assert(r@[i].leq(r@[j]));
    }
    r
}

/// Results that came before they were wanted, by their place.
pub struct PrecompressBuffer<T> {
    held: HashMap<usize, T>,
}

impl<T> View for PrecompressBuffer<T> {
    type V = Map<usize, T>;

    closed spec fn view(&self) -> Map<usize, T> {
        self.held@
    }
}

impl<T> PrecompressBuffer<T> {
    /// Nothing held.
    pub fn new() -> (b: Self)
        ensures
            b@ == Map::<usize, T>::empty(),
    {
        PrecompressBuffer { held: HashMap::new() }
    }

    /// A result arrives while another, or this one, is wanted: it is handed on
    /// if it is the wanted one and held otherwise.
    pub fn arrive(&mut self, idx: usize, result: T, wanted: usize) -> (r: Option<T>)
        ensures
            idx == wanted ==> r == Some(result) && final(self)@ == old(self)@,
            idx != wanted ==> r is None && final(self)@ == old(self)@.insert(idx, result),
    {
        broadcast use vstd::std_specs::hash::group_hash_axioms;

        if idx == wanted {
            return Some(result);
        }
        self.held.insert(idx, result);
        None
    }

    /// Takes a result that is held.
    pub fn take(&mut self, idx: usize) -> (r: Option<T>)
        ensures
            r == (if old(self)@.contains_key(idx) {
                Some(old(self)@[idx])
            } else {
                None
            }),
            final(self)@ == old(self)@.remove(idx),
    {
        broadcast use vstd::std_specs::hash::group_hash_axioms;

        self.held.remove(&idx)
    }

    /// How many results are held.
    pub fn left(&self) -> (n: usize)
        ensures
            n == self@.len(),
    {
        broadcast use vstd::std_specs::hash::group_hash_axioms;

        self.held.len()
    }
}

/// A picture to be restored and written.
#[derive(Debug)]
pub struct DecodeJob {
    pub full_path: String,
    pub kind: SpecificKind,
    pub body: Vec<u8>,
    pub hash_trailer: Option<Vec<u8>>,
    pub hash_algo: Option<HashAlgo>,
    pub mtime: i64,
    pub mode: u32,
    pub xattrs: Option<Vec<XattrPair>>,
    pub size: u64,
    pub rel_display: String,
}

/// What became of a job.
#[derive(Debug)]
pub struct DecodeResult {
    pub size: u64,
    pub rel_display: String,
    pub result: Result<(), String>,
}

impl DecodeJob {
    /// Whether restored bytes are those that were packed: their hash is the
    /// stored one. Without a hash there is nothing to compare.
    pub fn hash_matches(&self, decoded: &[u8]) -> (r: bool)
        ensures
            r == (match (self.hash_algo, self.hash_trailer) {
                (Some(a), Some(t)) => hash_bytes(a, decoded@) == t@,
                _ => true,
            }),
    {
        match (self.hash_algo, &self.hash_trailer) {
            (Some(a), Some(t)) => {
                let computed = hash_of(a, decoded);
                same_bytes(computed.as_slice(), t.as_slice())
            },
            _ => true,
        }
    }
}

/// The sums of a scan: of regular files of a kind, how many there are, and one more adds
/// its size to its own kind and to no other. What is no regular file counts for nothing.
pub proof fn lemma_scan_counts(v: Seq<Found>, n: int, k: ExtKind)
    requires
        0 <= n < v.len(),
    ensures
        found_count(v, n, k) == v.take(n).filter(
            |f: Found| f.2 is Some && kind_of(f.1@) == k,
        ).len(),
        found_sizes(v, n).len() == v.take(n).filter(|f: Found| f.2 is Some).len(),
        found_bytes(v, 0, k) == 0,
        v[n].2 is None ==> found_bytes(v, n + 1, k) == found_bytes(v, n, k),
        v[n].2 matches Some(size) ==> found_bytes(v, n + 1, k) == found_bytes(v, n, k) + (if kind_of(
            v[n].1@,
        ) == k {
            size as int
        } else {
            0
        }),
        v[n].2 matches Some(size) ==> found_total(v, n + 1) == found_total(v, n) + size,
        v[n].2 matches Some(size) ==> found_sizes(v, n + 1) == found_sizes(v, n).push(size),
    decreases n,
{
    reveal(Seq::filter);
    if n > 0 {
        lemma_scan_counts(v, n - 1, k);
        assert(v.take(n).drop_last() =~= v.take(n - 1));
    }
}

/// The value of rank `r` by nearest rank: `r` of the numbers are the first that make up
/// `p` of a hundred.
pub proof fn lemma_percentile_tells(s: Seq<u64>, p: int, r: int)
    requires
        1 <= r <= s.len(),
        100 * (r - 1) < p * s.len() <= 100 * r,
    ensures
        percentile(s, p) == s[r - 1],
        percentile(Seq::empty(), p) == 0,
{
    let x = p * s.len();
    assert((x + 99) / 100 == r);
}

/// The kind of a file goes by its extension, in whatever case.
pub proof fn lemma_kind_in_any_case(p: Seq<char>, q: Seq<char>)
    requires
        extension_of(p) is Some,
        extension_of(q) is Some,
        ascii_lowered(extension_of(p)->0) == ascii_lowered(extension_of(q)->0),
    ensures
        kind_of(p) == kind_of(q),
        ascii_lowered(extension_of(p)->0) == "jpg"@ || ascii_lowered(extension_of(p)->0) == "jpeg"@
            <==> kind_of(p) == ExtKind::Jpeg,
{
}

/// What a scan makes of an extension, in whatever case: pictures of two formats apart from
/// other files that do not shrink, and everything else.
pub proof fn lemma_scan_kinds(path: Seq<char>)
    requires
        extension_of(path) is Some,
    ensures
        ({
            let e = ascii_lowered(extension_of(path)->0);
            let media = e == "mp4"@
                || e == "m4a"@
                || e == "m4v"@
                || e == "mov"@
                || e == "mkv"@
                || e == "webm"@
                || e == "avi"@
                || e == "mp3"@
                || e == "ogg"@
                || e == "opus"@
                || e == "flac"@
                || e == "aac"@
                || e == "wma"@
                || e == "zip"@
                || e == "7z"@
                || e == "rar"@
                || e == "gz"@
                || e == "xz"@
                || e == "bz2"@
                || e == "lz4"@
                || e == "zst"@
                || e == "pdf"@
                || e == "epub"@
                || e == "djvu"@;
            &&& kind_of(path) == ExtKind::Jpeg <==> e == "jpg"@ || e == "jpeg"@
            &&& kind_of(path) == ExtKind::Png <==> e == "png"@ || e == "apng"@
            &&& kind_of(path) == ExtKind::Media <==> media
            &&& kind_of(path) == ExtKind::Other <==> !(e == "jpg"@ || e == "jpeg"@ || e == "png"@ || e
                == "apng"@ || media)
        }),
{
    reveal_strlit("jpg");
    reveal_strlit("jpeg");
    reveal_strlit("png");
    reveal_strlit("apng");
    reveal_strlit("mp4");
    reveal_strlit("m4a");
    reveal_strlit("m4v");
    reveal_strlit("mov");
    reveal_strlit("mkv");
    reveal_strlit("webm");
    reveal_strlit("avi");
    reveal_strlit("mp3");
    reveal_strlit("ogg");
    reveal_strlit("opus");
    reveal_strlit("flac");
    reveal_strlit("aac");
    reveal_strlit("wma");
    reveal_strlit("zip");
    reveal_strlit("7z");
    reveal_strlit("rar");
    reveal_strlit("gz");
    reveal_strlit("xz");
    reveal_strlit("bz2");
    reveal_strlit("lz4");
    reveal_strlit("zst");
    reveal_strlit("pdf");
    reveal_strlit("epub");
    reveal_strlit("djvu");
    assert("jpg"@.len() == 3 && "jpg"@[0] == 'j' && "jpg"@[1] == 'p');
    assert("jpeg"@.len() == 4 && "jpeg"@[0] == 'j' && "jpeg"@[1] == 'p');
    assert("png"@.len() == 3 && "png"@[0] == 'p' && "png"@[1] == 'n');
    assert("apng"@.len() == 4 && "apng"@[0] == 'a' && "apng"@[1] == 'p');
    assert("mp4"@.len() == 3 && "mp4"@[0] == 'm' && "mp4"@[1] == 'p');
    assert("m4a"@.len() == 3 && "m4a"@[0] == 'm' && "m4a"@[1] == '4');
    assert("m4v"@.len() == 3 && "m4v"@[0] == 'm' && "m4v"@[1] == '4');
    assert("mov"@.len() == 3 && "mov"@[0] == 'm' && "mov"@[1] == 'o');
    assert("mkv"@.len() == 3 && "mkv"@[0] == 'm' && "mkv"@[1] == 'k');
    assert("webm"@.len() == 4 && "webm"@[0] == 'w' && "webm"@[1] == 'e');
    assert("avi"@.len() == 3 && "avi"@[0] == 'a' && "avi"@[1] == 'v');
    assert("mp3"@.len() == 3 && "mp3"@[0] == 'm' && "mp3"@[1] == 'p');
    assert("ogg"@.len() == 3 && "ogg"@[0] == 'o' && "ogg"@[1] == 'g');
    assert("opus"@.len() == 4 && "opus"@[0] == 'o' && "opus"@[1] == 'p');
    assert("flac"@.len() == 4 && "flac"@[0] == 'f' && "flac"@[1] == 'l');
    assert("aac"@.len() == 3 && "aac"@[0] == 'a' && "aac"@[1] == 'a');
    assert("wma"@.len() == 3 && "wma"@[0] == 'w' && "wma"@[1] == 'm');
    assert("zip"@.len() == 3 && "zip"@[0] == 'z' && "zip"@[1] == 'i');
    assert("7z"@.len() == 2 && "7z"@[0] == '7' && "7z"@[1] == 'z');
    assert("rar"@.len() == 3 && "rar"@[0] == 'r' && "rar"@[1] == 'a');
    assert("gz"@.len() == 2 && "gz"@[0] == 'g' && "gz"@[1] == 'z');
    assert("xz"@.len() == 2 && "xz"@[0] == 'x' && "xz"@[1] == 'z');
    assert("bz2"@.len() == 3 && "bz2"@[0] == 'b' && "bz2"@[1] == 'z');
    assert("lz4"@.len() == 3 && "lz4"@[0] == 'l' && "lz4"@[1] == 'z');
    assert("zst"@.len() == 3 && "zst"@[0] == 'z' && "zst"@[1] == 's');
    assert("pdf"@.len() == 3 && "pdf"@[0] == 'p' && "pdf"@[1] == 'd');
    assert("epub"@.len() == 4 && "epub"@[0] == 'e' && "epub"@[1] == 'p');
    assert("djvu"@.len() == 4 && "djvu"@[0] == 'd' && "djvu"@[1] == 'j');
}

/// What a summary of a scan says of every kind: nothing where there is none of it, and else
/// how many there are and their bytes.
pub proof fn lemma_summary_tells(p: Plan)
    ensures
        ({
            let d = type_dist(p);
            let line = |id: u8, count: u64, bytes: u64|
                (
                    id,
                    if count > u32::MAX {
                        u32::MAX
                    } else {
                        count as u32
                    },
                    bytes,
                );
            let jpeg: int = if p.type_count.jpeg > 0 {
                1
            } else {
                0
            };
            let png: int = if p.type_count.png > 0 {
                1
            } else {
                0
            };
            let media: int = if p.type_count.media > 0 {
                1
            } else {
                0
            };
            let other: int = if p.type_count.other > 0 {
                1
            } else {
                0
            };
            &&& d.len() == jpeg + png + media + other
            &&& jpeg == 1 ==> d[0] == line(0, p.type_count.jpeg, p.type_bytes.jpeg)
            &&& png == 1 ==> d[jpeg] == line(1, p.type_count.png, p.type_bytes.png)
            &&& media == 1 ==> d[jpeg + png] == line(2, p.type_count.media, p.type_bytes.media)
            &&& other == 1 ==> d[jpeg + png + media] == line(
                3,
                p.type_count.other,
                p.type_bytes.other,
            )
        }),
{
}

} // verus!
