//! Comparing directory trees by size and checksum, and finding duplicates.

use vstd::prelude::*;
use std::collections::HashMap;
use crate::cli::texts;
use crate::entry::capped;
use crate::hashes::{crc32, crc32_of};
use crate::order::{
    Ranked, ascending, lemma_text_total, lemma_text_transitive, merge_sort, reversed, text_less,
    text_lt,
};
use crate::text::str_eq;

verus! {

/// What files are compared by: size and CRC-32.
#[derive(Clone, Copy, Debug, PartialEq, Eq, Structural)]
pub struct Fingerprint {
    pub size: u64,
    pub crc: u32,
}

/// The fingerprint of a file of `size` bytes with the given contents.
pub fn fingerprint(size: u64, data: &[u8]) -> (f: Fingerprint)
    ensures
        f == (Fingerprint { size, crc: crc32_of(data@) }),
{
    Fingerprint { size, crc: crc32(data) }
}

/// Something in a tree: its path and its fingerprint. What is no file has the
/// size and checksum zero.
#[derive(Debug)]
pub struct IndexEntry {
    pub path: String,
    pub print: Fingerprint,
}

impl Ranked for IndexEntry {
    /// By path, component by component.
    open spec fn leq(self, other: Self) -> bool {
        !text_lt(other.path@, self.path@, true)
    }

    proof fn lemma_total(a: Self, b: Self) {
        lemma_text_total(a.path@, b.path@, true);
    }

    proof fn lemma_transitive(a: Self, b: Self, c: Self) {
        lemma_text_total(a.path@, b.path@, true);
        lemma_text_total(b.path@, c.path@, true);
        lemma_text_total(a.path@, c.path@, true);
        lemma_text_transitive(c.path@, a.path@, b.path@, true);
        lemma_text_transitive(b.path@, c.path@, a.path@, true);
    }

    fn before(&self, other: &Self) -> (r: bool) {
        !text_less(other.path.as_str(), self.path.as_str(), true)
    }
}

/// No path occurs twice.
pub open spec fn distinct_paths(s: Seq<IndexEntry>) -> bool {
    forall|i: int, j: int|
        0 <= i < s.len() && 0 <= j < s.len() && i != j ==> (#[trigger] s[i]).path@ != (
        #[trigger] s[j]).path@
}

/// Whether a tree has a path.
pub open spec fn has_path(s: Seq<IndexEntry>, path: Seq<char>) -> bool {
    exists|i: int| 0 <= i < s.len() && (#[trigger] s[i]).path@ == path
}

/// The fingerprint that a tree has at a path.
pub open spec fn print_at(s: Seq<IndexEntry>, path: Seq<char>) -> Fingerprint {
    s[choose|i: int| 0 <= i < s.len() && (#[trigger] s[i]).path@ == path].print
}

/// The paths of several entries.
pub open spec fn paths_of(s: Seq<IndexEntry>) -> Seq<Seq<char>> {
    Seq::new(s.len(), |k: int| s[k].path@)
}

/// `s` lists what `t` does, by path.
pub open spec fn lists_by_path(s: Seq<IndexEntry>, t: Seq<IndexEntry>) -> bool {
    ascending(s) && s.to_multiset() == t.to_multiset()
}

proof fn lemma_same_members(s: Seq<IndexEntry>, t: Seq<IndexEntry>, path: Seq<char>)
    requires
        s.to_multiset() == t.to_multiset(),
    ensures
        has_path(s, path) == has_path(t, path),
        forall|i: int|
            0 <= i < s.len() && distinct_paths(t) && (#[trigger] s[i]).path@ == path ==> s[i].print
                == print_at(t, path),
{
    s.to_multiset_ensures();
    t.to_multiset_ensures();
    assert forall|x: IndexEntry| s.contains(x) == t.contains(x) by {
        assert(s.contains(x) <==> s.to_multiset().count(x) > 0);
        assert(t.contains(x) <==> t.to_multiset().count(x) > 0);
    }
    if has_path(s, path) {
        let i = choose|i: int| 0 <= i < s.len() && (#[trigger] s[i]).path@ == path;
        assert(s.contains(s[i]));
        assert(t.contains(s[i]));
    }
    if has_path(t, path) {
        let i = choose|i: int| 0 <= i < t.len() && (#[trigger] t[i]).path@ == path;
        assert(t.contains(t[i]));
        assert(s.contains(t[i]));
    }
    assert forall|i: int|
        0 <= i < s.len() && distinct_paths(t) && (#[trigger] s[i]).path@ == path implies s[i].print
        == print_at(t, path) by {
        assert(s.contains(s[i]));
        assert(t.contains(s[i]));
        let j = choose|j: int| 0 <= j < t.len() && t[j] == s[i];
        let k = choose|k: int| 0 <= k < t.len() && (#[trigger] t[k]).path@ == path;
        assert(t[j].path@ == path);
        assert(t[k].path@ == path);
        assert(j == k);
    }
}

/// Finds a path in a list by path.
fn find(list: &Vec<IndexEntry>, path: &str) -> (r: Option<usize>)
    requires
        ascending(list@),
    ensures
        match r {
            Some(i) => i < list@.len() && list@[i as int].path@ == path@,
            None => !has_path(list@, path@),
        },
{
    let mut lo: usize = 0;
    let mut hi: usize = list.len();
    while lo < hi
        invariant
            ascending(list@),
            lo <= hi <= list@.len(),
            forall|k: int| 0 <= k < lo ==> text_lt((#[trigger] list@[k]).path@, path@, true),
            forall|k: int|
                hi <= k < list@.len() ==> text_lt(path@, (#[trigger] list@[k]).path@, true),
        decreases hi - lo,
    {
        let mid: usize = lo + (hi - lo) / 2;
        let here = list[mid].path.as_str();
        if str_eq(here, path) {
            return Some(mid);
        }
        let less: bool = text_less(here, path, true);
        proof {
            let m = list@[mid as int].path@;
            lemma_text_total(m, path@, true);
            assert forall|k: int| 0 <= k < list@.len() && less && k <= mid implies text_lt(
                (#[trigger] list@[k]).path@,
                path@,
                true,
            ) by {
                if k < mid {
                    assert(list@[k].leq(list@[mid as int]));
                    lemma_text_total(list@[k].path@, m, true);
                    lemma_text_transitive(list@[k].path@, m, path@, true);
                }
            }
            assert forall|k: int| 0 <= k < list@.len() && !less && k >= mid implies text_lt(
                path@,
                (#[trigger] list@[k]).path@,
                true,
            ) by {
                if k > mid {
                    assert(list@[mid as int].leq(list@[k]));
                    lemma_text_total(list@[k].path@, m, true);
                    lemma_text_transitive(path@, m, list@[k].path@, true);
                }
            }
        }
        if less {
            lo = mid + 1;
        } else {
            hi = mid;
        }
    }
    proof {
        assert forall|k: int| 0 <= k < list@.len() implies (#[trigger] list@[k]).path@ != path@ by {
            lemma_text_total(path@, path@, true);
        }
    }
    None
}

/// How two trees differ: the paths that only one of them has, those with
/// different fingerprints, and how many agree.
#[derive(Debug)]
pub struct Comparison {
    pub only_a: Vec<String>,
    pub only_b: Vec<String>,
    pub differing: Vec<String>,
    pub same: u64,
}

/// Whether both trees have the entry with other fingerprints.
pub open spec fn differs(x: IndexEntry, b: Seq<IndexEntry>) -> bool {
    has_path(b, x.path@) && print_at(b, x.path@) != x.print
}

/// Whether both trees have the entry with one fingerprint.
pub open spec fn agrees(x: IndexEntry, b: Seq<IndexEntry>) -> bool {
    has_path(b, x.path@) && print_at(b, x.path@) == x.print
}

/// The comparison of `a`, listed as `sa`, with `b`, listed as `sb`.
pub open spec fn compared(
    r: Comparison,
    a: Seq<IndexEntry>,
    b: Seq<IndexEntry>,
    sa: Seq<IndexEntry>,
    sb: Seq<IndexEntry>,
) -> bool {
    &&& lists_by_path(sa, a)
    &&& lists_by_path(sb, b)
    &&& texts(r.only_a@) == paths_of(sa.filter(|x: IndexEntry| !has_path(b, x.path@)))
    &&& texts(r.only_b@) == paths_of(sb.filter(|x: IndexEntry| !has_path(a, x.path@)))
    &&& texts(r.differing@) == paths_of(sa.filter(|x: IndexEntry| differs(x, b)))
    &&& r.same == sa.filter(|x: IndexEntry| agrees(x, b)).len()
}

proof fn lemma_index_filter_step(s: Seq<IndexEntry>, i: int, pred: spec_fn(IndexEntry) -> bool)
    requires
        0 <= i < s.len(),
    ensures
        s.take(i + 1).filter(pred) == (if pred(s[i]) {
            s.take(i).filter(pred).push(s[i])
        } else {
            s.take(i).filter(pred)
        }),
{
    reveal(Seq::filter);
    assert(s.take(i + 1).drop_last() =~= s.take(i));
}

proof fn lemma_paths_push(s: Seq<IndexEntry>, x: IndexEntry)
    ensures
        paths_of(s.push(x)) == paths_of(s).push(x.path@),
{
    assert(paths_of(s.push(x)) =~= paths_of(s).push(x.path@));
}

/// The paths of a list that another tree does not have.
fn only_in(list: &Vec<IndexEntry>, other: &Vec<IndexEntry>) -> (r: Vec<String>)
    requires
        ascending(other@),
    ensures
        texts(r@) == paths_of(list@.filter(|x: IndexEntry| !has_path(other@, x.path@))),
{
    let ghost pred = |x: IndexEntry| !has_path(other@, x.path@);
    let mut out: Vec<String> = Vec::new();
    let mut i: usize = 0;
    proof {
        reveal(Seq::filter);
        assert(texts(out@) =~= paths_of(list@.take(0).filter(pred)));
    }
    while i < list.len()
        invariant
            ascending(other@),
            pred == (|x: IndexEntry| !has_path(other@, x.path@)),
            i <= list@.len(),
            texts(out@) == paths_of(list@.take(i as int).filter(pred)),
        decreases list@.len() - i,
    {
        proof {
            lemma_index_filter_step(list@, i as int, pred);
            lemma_paths_push(list@.take(i as int).filter(pred), list@[i as int]);
        }
        if find(other, list[i].path.as_str()).is_none() {
            let ghost before = texts(out@);
            out.push(list[i].path.clone());
            assert(texts(out@) =~= before.push(list@[i as int].path@));
        }
        i = i + 1;
    }
    assert(list@.take(i as int) =~= list@);
    out
}

/// Compares the entries that two trees share: the paths with other
/// fingerprints, and how many agree.
fn shared(list: &Vec<IndexEntry>, other: &Vec<IndexEntry>) -> (r: (Vec<String>, u64))
    requires
        ascending(other@),
        distinct_paths(other@),
    ensures
        texts(r.0@) == paths_of(list@.filter(|x: IndexEntry| differs(x, other@))),
        r.1 == list@.filter(|x: IndexEntry| agrees(x, other@)).len(),
{
    let ghost diff = |x: IndexEntry| differs(x, other@);
    let ghost agree = |x: IndexEntry| agrees(x, other@);
    let mut out: Vec<String> = Vec::new();
    let mut same: u64 = 0;
    let mut i: usize = 0;
    proof {
        reveal(Seq::filter);
        assert(texts(out@) =~= paths_of(list@.take(0).filter(diff)));
    }
    while i < list.len()
        invariant
            ascending(other@),
            distinct_paths(other@),
            diff == (|x: IndexEntry| differs(x, other@)),
            agree == (|x: IndexEntry| agrees(x, other@)),
            i <= list@.len(),
            same <= i,
            texts(out@) == paths_of(list@.take(i as int).filter(diff)),
            same == list@.take(i as int).filter(agree).len(),
        decreases list@.len() - i,
    {
        let ghost x = list@[i as int];
        proof {
            lemma_index_filter_step(list@, i as int, diff);
            lemma_index_filter_step(list@, i as int, agree);
            lemma_paths_push(list@.take(i as int).filter(diff), x);
        }
        if let Some(j) = find(other, list[i].path.as_str()) {
            proof {
                lemma_same_members(other@, other@, x.path@);
                assert(other@[j as int].path@ == x.path@);
            }
            if other[j].print == list[i].print {
                same = same + 1;
            } else {
                let ghost before = texts(out@);
                out.push(list[i].path.clone());
                assert(texts(out@) =~= before.push(x.path@));
            }
        }
        i = i + 1;
    }
    assert(list@.take(i as int) =~= list@);
    (out, same)
}

proof fn lemma_filter_agrees(
    s: Seq<IndexEntry>,
    p: spec_fn(IndexEntry) -> bool,
    q: spec_fn(IndexEntry) -> bool,
)
    requires
        forall|x: IndexEntry| #[trigger] p(x) == q(x),
    ensures
        s.filter(p) == s.filter(q),
    decreases s.len(),
{
    reveal(Seq::filter);
    if s.len() > 0 {
        lemma_filter_agrees(s.drop_last(), p, q);
        assert(p(s.last()) == q(s.last()));
    }
}

proof fn lemma_distinct_listed(s: Seq<IndexEntry>, t: Seq<IndexEntry>)
    requires
        distinct_paths(t),
        s.to_multiset() == t.to_multiset(),
    ensures
        distinct_paths(s),
        forall|path: Seq<char>| has_path(s, path) ==> #[trigger] print_at(s, path) == print_at(t, path),
{
    s.to_multiset_ensures();
    t.to_multiset_ensures();
    assert(t.no_duplicates()) by {
        assert forall|i: int, j: int| 0 <= i < t.len() && 0 <= j < t.len() && i != j implies t[i]
            != t[j] by {
            assert(t[i].path@ != t[j].path@);
        }
    }
    t.lemma_multiset_has_no_duplicates();
    s.lemma_multiset_has_no_duplicates_conv();
    assert forall|i: int, j: int| 0 <= i < s.len() && 0 <= j < s.len() && i != j implies (
    #[trigger] s[i]).path@ != (#[trigger] s[j]).path@ by {
        if s[i].path@ == s[j].path@ {
            assert(s.contains(s[i]) && s.contains(s[j]));
            assert(t.to_multiset().count(s[i]) > 0 && t.to_multiset().count(s[j]) > 0);
            assert(t.contains(s[i]) && t.contains(s[j]));
            let a = choose|a: int| 0 <= a < t.len() && t[a] == s[i];
            let b = choose|b: int| 0 <= b < t.len() && t[b] == s[j];
            if a != b {
                assert(t[a].path@ != t[b].path@);
            }
            assert(s[i] == s[j]);
        }
    }
    assert forall|path: Seq<char>| has_path(s, path) implies #[trigger] print_at(s, path)
        == print_at(t, path) by {
        lemma_same_members(s, t, path);
        let i = choose|i: int| 0 <= i < s.len() && (#[trigger] s[i]).path@ == path;
        assert(s[i].print == print_at(t, path));
    }
}

/// Compares two trees. The lists of the result are by path.
pub fn compare(a: Vec<IndexEntry>, b: Vec<IndexEntry>) -> (r: Comparison)
    requires
        distinct_paths(a@),
        distinct_paths(b@),
    ensures
        exists|sa: Seq<IndexEntry>, sb: Seq<IndexEntry>| #[trigger] compared(r, a@, b@, sa, sb),
        forall|i: int, j: int|
            #![trigger a@[i], b@[j]]
            0 <= i < a@.len() && 0 <= j < b@.len() && a@[i].path@ == b@[j].path@ ==> ((exists|k: int|
                0 <= k < r.differing@.len() && (#[trigger] r.differing@[k])@ == a@[i].path@) <==> (
            a@[i].print.size != b@[j].print.size || a@[i].print.crc != b@[j].print.crc)),
        forall|x: IndexEntry| #[trigger]
            a@.contains(x) ==> ((exists|k: int|
                0 <= k < r.only_a@.len() && (#[trigger] r.only_a@[k])@ == x.path@) <==> !(exists|m: int|
                0 <= m < b@.len() && (#[trigger] b@[m]).path@ == x.path@)),
        forall|x: IndexEntry| #[trigger]
            b@.contains(x) ==> ((exists|k: int|
                0 <= k < r.only_b@.len() && (#[trigger] r.only_b@[k])@ == x.path@) <==> !(exists|m: int|
                0 <= m < a@.len() && (#[trigger] a@[m]).path@ == x.path@)),
        r.only_a@.len() + r.differing@.len() + r.same == a@.len(),
        r.only_b@.len() + r.differing@.len() + r.same == b@.len(),
{
    let ghost va = a@;
    let ghost vb = b@;
    let sa = merge_sort(a);
    let sb = merge_sort(b);
    proof {
        lemma_distinct_listed(sa@, va);
        lemma_distinct_listed(sb@, vb);
    }
    let only_a = only_in(&sa, &sb);
    let only_b = only_in(&sb, &sa);
    let (differing, same) = shared(&sa, &sb);
    let r = Comparison { only_a, only_b, differing, same };
    proof {
        assert forall|path: Seq<char>| #[trigger] has_path(sa@, path) == has_path(va, path) by {
            lemma_same_members(sa@, va, path);
        }
        assert forall|path: Seq<char>| #[trigger] has_path(sb@, path) == has_path(vb, path) by {
            lemma_same_members(sb@, vb, path);
        }
        lemma_filter_agrees(
            sa@,
            |x: IndexEntry| !has_path(sb@, x.path@),
            |x: IndexEntry| !has_path(vb, x.path@),
        );
        lemma_filter_agrees(
            sb@,
            |x: IndexEntry| !has_path(sa@, x.path@),
            |x: IndexEntry| !has_path(va, x.path@),
        );
        lemma_filter_agrees(
            sa@,
            |x: IndexEntry| differs(x, sb@),
            |x: IndexEntry| differs(x, vb),
        );
        lemma_filter_agrees(
            sa@,
            |x: IndexEntry| agrees(x, sb@),
            |x: IndexEntry| agrees(x, vb),
        );
        assert(compared(r, va, vb, sa@, sb@));
        lemma_comparison_tells(r, va, vb, sa@, sb@);
    }
    r
}

/// A listed path is that of an entry that was kept, and every entry that was
/// kept has its path listed.
proof fn lemma_kept_listed(
    s: Seq<IndexEntry>,
    t: Seq<IndexEntry>,
    keep: spec_fn(IndexEntry) -> bool,
    v: Seq<String>,
    path: Seq<char>,
)
    requires
        s.to_multiset() == t.to_multiset(),
        texts(v) == paths_of(s.filter(keep)),
    ensures
        (exists|k: int| 0 <= k < v.len() && (#[trigger] v[k])@ == path) <==> (exists|i: int|
            0 <= i < t.len() && (#[trigger] t[i]).path@ == path && keep(t[i])),
{
    broadcast use vstd::seq_lib::group_filter_ensures;

    let f = s.filter(keep);
    s.to_multiset_ensures();
    t.to_multiset_ensures();
    assert(v.len() == texts(v).len() == f.len());
    if exists|k: int| 0 <= k < v.len() && (#[trigger] v[k])@ == path {
        let k = choose|k: int| 0 <= k < v.len() && (#[trigger] v[k])@ == path;
        assert(texts(v)[k] == path);
        assert(paths_of(f)[k] == f[k].path@);
        assert(keep(f[k]));
        assert(f.contains(f[k]));
        s.lemma_filter_contains_rev(keep, f[k]);
        assert(t.to_multiset().count(f[k]) > 0);
        assert(t.contains(f[k]));
        let i = choose|i: int| 0 <= i < t.len() && t[i] == f[k];
        assert(t[i].path@ == path && keep(t[i]));
    }
    if exists|i: int| 0 <= i < t.len() && (#[trigger] t[i]).path@ == path && keep(t[i]) {
        let i = choose|i: int| 0 <= i < t.len() && (#[trigger] t[i]).path@ == path && keep(t[i]);
        assert(t.contains(t[i]));
        assert(s.to_multiset().count(t[i]) > 0);
        assert(s.contains(t[i]));
        let m = choose|m: int| 0 <= m < s.len() && s[m] == t[i];
        assert(f.contains(s[m]));
        let k = choose|k: int| 0 <= k < f.len() && f[k] == s[m];
        assert(texts(v)[k] == paths_of(f)[k]);
        assert(v[k]@ == path);
    }
}

/// Of entries with distinct paths, those that are kept have distinct paths.
proof fn lemma_kept_distinct(s: Seq<IndexEntry>, keep: spec_fn(IndexEntry) -> bool)
    requires
        distinct_paths(s),
    ensures
        distinct_paths(s.filter(keep)),
        forall|x: IndexEntry| s.filter(keep).contains(x) ==> #[trigger] s.contains(x),
    decreases s.len(),
{
    reveal(Seq::filter);
    if s.len() > 0 {
        let p = s.drop_last();
        assert forall|i: int, j: int| 0 <= i < p.len() && 0 <= j < p.len() && i != j implies (
        #[trigger] p[i]).path@ != (#[trigger] p[j]).path@ by {
            assert(s[i].path@ != s[j].path@);
        }
        lemma_kept_distinct(p, keep);
        let f = p.filter(keep);
        let g = s.filter(keep);
        assert forall|i: int, j: int| 0 <= i < g.len() && 0 <= j < g.len() && i != j implies (
        #[trigger] g[i]).path@ != (#[trigger] g[j]).path@ by {
            if i < f.len() && j < f.len() {
                assert(f[i].path@ != f[j].path@);
            } else {
                let o = if i < f.len() {
                    i
                } else {
                    j
                };
                assert(f.contains(f[o]));
                assert(p.contains(f[o]));
                let m = choose|m: int| 0 <= m < p.len() && p[m] == f[o];
                assert(s[m].path@ != s[s.len() - 1].path@);
            }
        }
        assert forall|x: IndexEntry| g.contains(x) implies #[trigger] s.contains(x) by {
            let k = choose|k: int| 0 <= k < g.len() && g[k] == x;
            if k < f.len() {
                assert(f.contains(f[k]));
                assert(p.contains(x));
                let m = choose|m: int| 0 <= m < p.len() && p[m] == x;
                assert(s[m] == x);
            } else {
                assert(s[s.len() - 1] == x);
            }
        }
    }
}

/// As many entries of one tree are in the other as the other way round.
proof fn lemma_shared_count(a: Seq<IndexEntry>, b: Seq<IndexEntry>)
    requires
        distinct_paths(a),
        distinct_paths(b),
    ensures
        a.filter(|x: IndexEntry| has_path(b, x.path@)).len() == b.filter(
            |x: IndexEntry| has_path(a, x.path@),
        ).len(),
{
    broadcast use vstd::seq_lib::group_filter_ensures;

    let ka = |x: IndexEntry| has_path(b, x.path@);
    let kb = |x: IndexEntry| has_path(a, x.path@);
    let pa = paths_of(a.filter(ka));
    let pb = paths_of(b.filter(kb));
    lemma_kept_distinct(a, ka);
    lemma_kept_distinct(b, kb);
    assert(pa.no_duplicates());
    assert(pb.no_duplicates());
    assert forall|path: Seq<char>| pa.contains(path) implies pb.contains(path) by {
        let k = choose|k: int| 0 <= k < pa.len() && pa[k] == path;
        let x = a.filter(ka)[k];
        assert(ka(x));
        assert(a.filter(ka).contains(x));
        assert(a.contains(x));
        let j = choose|j: int| 0 <= j < b.len() && (#[trigger] b[j]).path@ == path;
        assert(kb(b[j]));
        assert(b.filter(kb).contains(b[j]));
        let m = choose|m: int| 0 <= m < b.filter(kb).len() && b.filter(kb)[m] == b[j];
        assert(pb[m] == path);
    }
    assert forall|path: Seq<char>| pb.contains(path) implies pa.contains(path) by {
        let k = choose|k: int| 0 <= k < pb.len() && pb[k] == path;
        let x = b.filter(kb)[k];
        assert(kb(x));
        assert(b.filter(kb).contains(x));
        assert(b.contains(x));
        let j = choose|j: int| 0 <= j < a.len() && (#[trigger] a[j]).path@ == path;
        assert(ka(a[j]));
        assert(a.filter(ka).contains(a[j]));
        let m = choose|m: int| 0 <= m < a.filter(ka).len() && a.filter(ka)[m] == a[j];
        assert(pa[m] == path);
    }
    assert(pa.to_set() =~= pb.to_set());
    pa.unique_seq_to_set();
    pb.unique_seq_to_set();
}

/// What is not kept is what the other condition keeps.
proof fn lemma_complement_count(
    s: Seq<IndexEntry>,
    p: spec_fn(IndexEntry) -> bool,
    q: spec_fn(IndexEntry) -> bool,
)
    requires
        forall|x: IndexEntry| #[trigger] p(x) == !q(x),
    ensures
        s.filter(p).len() + s.filter(q).len() == s.len(),
    decreases s.len(),
{
    reveal(Seq::filter);
    if s.len() > 0 {
        lemma_complement_count(s.drop_last(), p, q);
        assert(p(s.last()) == !q(s.last()));
    }
}

/// What a comparison tells of two trees. A path that both have is listed as
/// differing exactly where the two sizes or the two checksums are not equal. A
/// path is listed as of one tree only exactly where that tree has it and the
/// other does not. Every path of a tree that is in no list is counted as the
/// same.
pub proof fn lemma_comparison_tells(
    r: Comparison,
    a: Seq<IndexEntry>,
    b: Seq<IndexEntry>,
    sa: Seq<IndexEntry>,
    sb: Seq<IndexEntry>,
)
    requires
        distinct_paths(a),
        distinct_paths(b),
        compared(r, a, b, sa, sb),
    ensures
        forall|i: int, j: int|
            #![trigger a[i], b[j]]
            0 <= i < a.len() && 0 <= j < b.len() && a[i].path@ == b[j].path@ ==> ((exists|k: int|
                0 <= k < r.differing@.len() && (#[trigger] r.differing@[k])@ == a[i].path@) <==> (
            a[i].print.size != b[j].print.size || a[i].print.crc != b[j].print.crc)),
        forall|x: IndexEntry| #[trigger]
            a.contains(x) ==> ((exists|k: int|
                0 <= k < r.only_a@.len() && (#[trigger] r.only_a@[k])@ == x.path@) <==> !(exists|m: int|
                0 <= m < b.len() && (#[trigger] b[m]).path@ == x.path@)),
        forall|x: IndexEntry| #[trigger]
            b.contains(x) ==> ((exists|k: int|
                0 <= k < r.only_b@.len() && (#[trigger] r.only_b@[k])@ == x.path@) <==> !(exists|m: int|
                0 <= m < a.len() && (#[trigger] a[m]).path@ == x.path@)),
        r.only_a@.len() + r.differing@.len() + r.same == a.len(),
        r.only_b@.len() + r.differing@.len() + r.same == b.len(),
{
    let away = |x: IndexEntry| !has_path(b, x.path@);
    let extra = |x: IndexEntry| !has_path(a, x.path@);
    let diff = |x: IndexEntry| differs(x, b);
    assert forall|i: int, j: int|
        #![trigger a[i], b[j]]
        0 <= i < a.len() && 0 <= j < b.len() && a[i].path@ == b[j].path@ implies ((exists|k: int|
            0 <= k < r.differing@.len() && (#[trigger] r.differing@[k])@ == a[i].path@) <==> (
        a[i].print.size != b[j].print.size || a[i].print.crc != b[j].print.crc)) by {
        lemma_kept_listed(sa, a, diff, r.differing@, a[i].path@);
        lemma_same_members(b, b, a[i].path@);
        assert(b[j].print == print_at(b, a[i].path@));
        assert(forall|m: int|
            0 <= m < a.len() && (#[trigger] a[m]).path@ == a[i].path@ ==> m == i);
        if diff(a[i]) {
            assert(a[i].path@ == a[i].path@ && diff(a[i]));
        }
    }
    assert forall|x: IndexEntry| #[trigger] a.contains(x) implies ((exists|k: int|
        0 <= k < r.only_a@.len() && (#[trigger] r.only_a@[k])@ == x.path@) <==> !(exists|m: int|
        0 <= m < b.len() && (#[trigger] b[m]).path@ == x.path@)) by {
        lemma_kept_listed(sa, a, away, r.only_a@, x.path@);
        let i = choose|i: int| 0 <= i < a.len() && a[i] == x;
        assert(a[i].path@ == x.path@);
        if away(x) {
            assert(a[i].path@ == x.path@ && away(a[i]));
        }
    }
    assert forall|x: IndexEntry| #[trigger] b.contains(x) implies ((exists|k: int|
        0 <= k < r.only_b@.len() && (#[trigger] r.only_b@[k])@ == x.path@) <==> !(exists|m: int|
        0 <= m < a.len() && (#[trigger] a[m]).path@ == x.path@)) by {
        lemma_kept_listed(sb, b, extra, r.only_b@, x.path@);
        let i = choose|i: int| 0 <= i < b.len() && b[i] == x;
        assert(b[i].path@ == x.path@);
        if extra(x) {
            assert(b[i].path@ == x.path@ && extra(b[i]));
        }
    }
    sa.to_multiset_ensures();
    a.to_multiset_ensures();
    sb.to_multiset_ensures();
    b.to_multiset_ensures();
    assert(sa.len() == a.len());
    assert(sb.len() == b.len());
    assert(texts(r.only_a@).len() == sa.filter(away).len());
    assert(texts(r.only_b@).len() == sb.filter(extra).len());
    assert(texts(r.differing@).len() == sa.filter(diff).len());
    lemma_comparison_covers(sa, b);
    lemma_distinct_listed(sa, a);
    lemma_distinct_listed(sb, b);
    assert forall|path: Seq<char>| #[trigger] has_path(sa, path) == has_path(a, path) by {
        lemma_same_members(sa, a, path);
    }
    assert forall|path: Seq<char>| #[trigger] has_path(sb, path) == has_path(b, path) by {
        lemma_same_members(sb, b, path);
    }
    lemma_shared_count(sa, sb);
    lemma_complement_count(sa, away, |x: IndexEntry| has_path(sb, x.path@));
    lemma_complement_count(sb, extra, |x: IndexEntry| has_path(sa, x.path@));
}

/// Two trees match exactly where they hold the same paths with the same sizes
/// and the same checksums.
pub proof fn lemma_match_is_equality(
    r: Comparison,
    a: Seq<IndexEntry>,
    b: Seq<IndexEntry>,
    sa: Seq<IndexEntry>,
    sb: Seq<IndexEntry>,
)
    requires
        distinct_paths(a),
        distinct_paths(b),
        compared(r, a, b, sa, sb),
    ensures
        r.only_a@.len() == 0 && r.only_b@.len() == 0 && r.differing@.len() == 0 <==> {
            &&& forall|x: IndexEntry| #[trigger]
                a.contains(x) ==> exists|y: IndexEntry| #[trigger]
                    b.contains(y) && y.path@ == x.path@ && y.print.size == x.print.size
                        && y.print.crc == x.print.crc
            &&& forall|x: IndexEntry| #[trigger]
                b.contains(x) ==> exists|y: IndexEntry| #[trigger]
                    a.contains(y) && y.path@ == x.path@ && y.print.size == x.print.size
                        && y.print.crc == x.print.crc
        },
{
    lemma_comparison_tells(r, a, b, sa, sb);
    let away = |x: IndexEntry| !has_path(b, x.path@);
    let extra = |x: IndexEntry| !has_path(a, x.path@);
    let diff = |x: IndexEntry| differs(x, b);
    if r.only_a@.len() == 0 && r.only_b@.len() == 0 && r.differing@.len() == 0 {
        assert forall|x: IndexEntry| #[trigger] a.contains(x) implies exists|y: IndexEntry| #[trigger]
            b.contains(y) && y.path@ == x.path@ && y.print.size == x.print.size && y.print.crc
                == x.print.crc by {
            let i = choose|i: int| 0 <= i < a.len() && a[i] == x;
            let j = choose|j: int| 0 <= j < b.len() && (#[trigger] b[j]).path@ == x.path@;
            assert(a[i].path@ == b[j].path@);
            assert(b.contains(b[j]));
        }
        assert forall|x: IndexEntry| #[trigger] b.contains(x) implies exists|y: IndexEntry| #[trigger]
            a.contains(y) && y.path@ == x.path@ && y.print.size == x.print.size && y.print.crc
                == x.print.crc by {
            let i = choose|i: int| 0 <= i < b.len() && b[i] == x;
            let j = choose|j: int| 0 <= j < a.len() && (#[trigger] a[j]).path@ == x.path@;
            assert(b[i].path@ == a[j].path@);
            assert(a.contains(a[j]));
        }
    } else if r.only_a@.len() > 0 {
        let path = r.only_a@[0]@;
        lemma_kept_listed(sa, a, away, r.only_a@, path);
        let i = choose|i: int| 0 <= i < a.len() && (#[trigger] a[i]).path@ == path && away(a[i]);
        assert(a.contains(a[i]));
    } else if r.only_b@.len() > 0 {
        let path = r.only_b@[0]@;
        lemma_kept_listed(sb, b, extra, r.only_b@, path);
        let j = choose|j: int| 0 <= j < b.len() && (#[trigger] b[j]).path@ == path && extra(b[j]);
        assert(b.contains(b[j]));
    } else {
        let path = r.differing@[0]@;
        lemma_kept_listed(sa, a, diff, r.differing@, path);
        let i = choose|i: int| 0 <= i < a.len() && (#[trigger] a[i]).path@ == path && diff(a[i]);
        assert(a.contains(a[i]));
        assert forall|j: int| 0 <= j < b.len() && (#[trigger] b[j]).path@ == path implies b[j].print
            != a[i].print by {
            lemma_same_members(b, b, path);
        }
    }
}

impl Comparison {
    /// Whether the trees are the same.
    pub fn is_match(&self) -> (r: bool)
        ensures
            r == (self.only_a@.len() == 0 && self.only_b@.len() == 0 && self.differing@.len() == 0),
    {
        self.only_a.len() == 0 && self.only_b.len() == 0 && self.differing.len() == 0
    }
}

/// Every path of a tree is listed as missing from the other, as differing, or
/// counted as the same, and none twice.
pub proof fn lemma_comparison_covers(sa: Seq<IndexEntry>, b: Seq<IndexEntry>)
    ensures
        sa.filter(|x: IndexEntry| !has_path(b, x.path@)).len() + sa.filter(
            |x: IndexEntry| differs(x, b),
        ).len() + sa.filter(|x: IndexEntry| agrees(x, b)).len() == sa.len(),
    decreases sa.len(),
{
    reveal(Seq::filter);
    if sa.len() > 0 {
        lemma_comparison_covers(sa.drop_last(), b);
    }
}

/// A tree agrees with itself.
pub proof fn lemma_compare_self(r: Comparison, a: Seq<IndexEntry>, sa: Seq<IndexEntry>, sb: Seq<IndexEntry>)
    requires
        distinct_paths(a),
        compared(r, a, a, sa, sb),
    ensures
        r.only_a@.len() == 0,
        r.only_b@.len() == 0,
        r.differing@.len() == 0,
        r.same == a.len(),
{
    lemma_all_agree(sa, a, sa.len() as int);
    lemma_all_agree(sb, a, sb.len() as int);
    assert(sa.take(sa.len() as int) =~= sa);
    assert(sb.take(sb.len() as int) =~= sb);
    assert(texts(r.only_a@).len() == 0);
    assert(texts(r.only_b@).len() == 0);
    assert(texts(r.differing@).len() == 0);
    sa.to_multiset_ensures();
    a.to_multiset_ensures();
    assert(sa.len() == sa.to_multiset().len());
    assert(a.len() == a.to_multiset().len());
}

proof fn lemma_all_agree(s: Seq<IndexEntry>, a: Seq<IndexEntry>, n: int)
    requires
        distinct_paths(a),
        s.to_multiset() == a.to_multiset(),
        0 <= n <= s.len(),
    ensures
        s.take(n).filter(|x: IndexEntry| !has_path(a, x.path@)).len() == 0,
        s.take(n).filter(|x: IndexEntry| differs(x, a)).len() == 0,
        s.take(n).filter(|x: IndexEntry| agrees(x, a)).len() == n,
    decreases n,
{
    reveal(Seq::filter);
    if n > 0 {
        lemma_all_agree(s, a, n - 1);
        assert(s.take(n).drop_last() =~= s.take(n - 1));
        let x = s[n - 1];
        lemma_same_members(s, a, x.path@);
        assert(has_path(s, x.path@));
        assert(s[n - 1].print == print_at(a, x.path@));
    }
}

/// Whether another number of a list is the same.
pub open spec fn occurs_again(sizes: Seq<u64>, i: int) -> bool {
    exists|j: int| 0 <= j < sizes.len() && j != i && #[trigger] sizes[j] == sizes[i]
}

/// For every file whether another has its size: only those need their contents
/// read.
pub fn shared_sizes(sizes: &[u64]) -> (r: Vec<bool>)
    ensures
        r@.len() == sizes@.len(),
        forall|i: int| 0 <= i < r@.len() ==> #[trigger] r@[i] == occurs_again(sizes@, i),
        forall|i: int|
            0 <= i < r@.len() ==> (#[trigger] r@[i] <==> exists|j: int|
                0 <= j < sizes@.len() && j != i && #[trigger] sizes@[j] == sizes@[i]),
{
    broadcast use vstd::std_specs::hash::group_hash_axioms;

    let mut first: HashMap<u64, usize> = HashMap::new();
    let mut r: Vec<bool> = Vec::new();
    let mut i: usize = 0;
    while i < sizes.len()
        invariant
            i <= sizes@.len(),
            r@.len() == i,
            forall|k: int|
                0 <= k < i ==> #[trigger] r@[k] == occurs_again(sizes@.take(i as int), k),
            forall|n: u64| #[trigger]
                first@.contains_key(n) ==> first@[n] < i && sizes@[first@[n] as int] == n,
            forall|k: int| 0 <= k < i ==> first@.contains_key(#[trigger] sizes@[k]),
        decreases sizes@.len() - i,
    {
        let n: u64 = sizes[i];
        let ghost p = sizes@.take(i as int);
        let ghost q = sizes@.take(i + 1);
        let ghost before = r@;
        match first.get(&n) {
            Some(j) => {
                let at: usize = *j;
                assert(q[at as int] == n && q[i as int] == n);
                r.set(at, true);
                r.push(true);
                proof {
                    assert forall|k: int| 0 <= k < i + 1 implies #[trigger] r@[k] == occurs_again(
                        q,
                        k,
                    ) by {
                        if k < i && k != at {
                            assert(r@[k] == before[k]);
                            if occurs_again(p, k) {
                                let m = choose|m: int|
                                    0 <= m < p.len() && m != k && #[trigger] p[m] == p[k];
                                assert(q[m] == q[k]);
                            }
                            if occurs_again(q, k) {
                                let m = choose|m: int|
                                    0 <= m < q.len() && m != k && #[trigger] q[m] == q[k];
                                if m == i {
                                    assert(p[at as int] == p[k]);
                                } else {
                                    assert(p[m] == p[k]);
                                }
                            }
                        } else if k == at {
                            assert(q[i as int] == q[k]);
                        } else {
                            assert(q[at as int] == q[k]);
                        }
                    }
                }
            },
            None => {
                first.insert(n, i);
                r.push(false);
                proof {
                    assert forall|k: int| 0 <= k < i + 1 implies #[trigger] r@[k] == occurs_again(
                        q,
                        k,
                    ) by {
                        if k < i {
                            assert(r@[k] == before[k]);
                            if occurs_again(p, k) {
                                let m = choose|m: int|
                                    0 <= m < p.len() && m != k && #[trigger] p[m] == p[k];
                                assert(q[m] == q[k]);
                            }
                            if occurs_again(q, k) {
                                let m = choose|m: int|
                                    0 <= m < q.len() && m != k && #[trigger] q[m] == q[k];
                                if m == i {
                                    assert(sizes@[k] == n);
                                } else {
                                    assert(p[m] == p[k]);
                                }
                            }
                        } else if occurs_again(q, k) {
                            let m = choose|m: int|
                                0 <= m < q.len() && m != k && #[trigger] q[m] == q[k];
                            assert(sizes@[m] == n);
                        }
                    }
                }
            },
        }
        i = i + 1;
    }
    assert(sizes@.take(i as int) =~= sizes@);
    r
}

/// A file in the order of a report on duplicates: the greater first, then by
/// checksum and by path.
struct ByPrint {
    file: IndexEntry,
}

/// Whether one file comes before another in a report on duplicates, or at its
/// place.
pub open spec fn print_leq(a: IndexEntry, b: IndexEntry) -> bool {
    if a.print.size != b.print.size {
        a.print.size > b.print.size
    } else if a.print.crc != b.print.crc {
        a.print.crc < b.print.crc
    } else {
        a.leq(b)
    }
}

impl Ranked for ByPrint {
    closed spec fn leq(self, other: Self) -> bool {
        print_leq(self.file, other.file)
    }

    proof fn lemma_total(a: Self, b: Self) {
        IndexEntry::lemma_total(a.file, b.file);
    }

    proof fn lemma_transitive(a: Self, b: Self, c: Self) {
        if a.file.print == b.file.print && b.file.print == c.file.print {
            IndexEntry::lemma_transitive(a.file, b.file, c.file);
        }
    }

    fn before(&self, other: &Self) -> (r: bool) {
        let a = self.file.print;
        let b = other.file.print;
        if a.size != b.size {
            a.size > b.size
        } else if a.crc != b.crc {
            a.crc < b.crc
        } else {
            self.file.before(&other.file)
        }
    }
}

/// Files in the order of a report on duplicates.
pub open spec fn by_print(s: Seq<IndexEntry>) -> bool {
    forall|i: int, j: int| 0 <= i < j < s.len() ==> print_leq(#[trigger] s[i], #[trigger] s[j])
}

/// The end of the run of files with one fingerprint that starts at `i`.
pub open spec fn run_end(s: Seq<IndexEntry>, i: int) -> int
    decreases s.len() - i,
{
    if i + 1 < s.len() && s[i + 1].print == s[i].print {
        run_end(s, i + 1)
    } else {
        i + 1
    }
}

pub proof fn lemma_run_end(s: Seq<IndexEntry>, i: int)
    requires
        0 <= i < s.len(),
    ensures
        i < run_end(s, i) <= s.len(),
        forall|k: int| i <= k < run_end(s, i) ==> (#[trigger] s[k]).print == s[i].print,
        run_end(s, i) < s.len() ==> s[run_end(s, i)].print != s[i].print,
    decreases s.len() - i,
{
    if i + 1 < s.len() && s[i + 1].print == s[i].print {
        lemma_run_end(s, i + 1);
    }
}

/// The runs of at least two files from `i` on.
pub open spec fn runs_from(s: Seq<IndexEntry>, i: int) -> Seq<Seq<IndexEntry>>
    decreases s.len() - i,
{
    if i < 0 || i >= s.len() {
        Seq::empty()
    } else {
        let e = run_end(s, i);
        proof {
            lemma_run_end(s, i);
        }
        if e - i >= 2 {
            seq![s.subrange(i, e)] + runs_from(s, e)
        } else {
            runs_from(s, e)
        }
    }
}

/// Files with the same size and checksum.
#[derive(Debug)]
pub struct DupGroup {
    pub size: u64,
    pub paths: Vec<String>,
}

/// The group holds the files of a run.
pub open spec fn group_is(g: DupGroup, run: Seq<IndexEntry>) -> bool {
    run.len() > 0 && g.size == run[0].print.size && texts(g.paths@) == paths_of(run)
}

/// The groups hold the files of the runs.
pub open spec fn groups_are(gs: Seq<DupGroup>, runs: Seq<Seq<IndexEntry>>) -> bool {
    &&& gs.len() == runs.len()
    &&& forall|k: int| 0 <= k < gs.len() ==> group_is(#[trigger] gs[k], runs[k])
}

/// In files by fingerprint, two files of one fingerprint are in one run.
pub proof fn lemma_duplicates_grouped(s: Seq<IndexEntry>, i: int, j: int, from: int)
    requires
        by_print(s),
        0 <= from <= i < j < s.len(),
        s[i].print == s[j].print,
        from == 0 || s[from - 1].print != s[from].print,
    ensures
        exists|k: int|
            0 <= k < runs_from(s, from).len() && (#[trigger] runs_from(s, from)[k]).contains(s[i])
                && runs_from(s, from)[k].contains(s[j]),
    decreases s.len() - from,
{
    let e = run_end(s, from);
    lemma_run_end(s, from);
    let runs = runs_from(s, from);
    if i < e {
        if j >= e {
            assert(print_leq(s[i], s[e]));
            assert(print_leq(s[e], s[j]));
            assert(s[i].print == s[from].print);
        }
        let run = s.subrange(from, e);
        assert(runs[0] == run);
        assert(run[i - from] == s[i]);
        assert(run[j - from] == s[j]);
        assert(runs[0].contains(s[i]) && runs[0].contains(s[j]));
    } else {
        assert(s[e - 1].print == s[from].print);
        lemma_duplicates_grouped(s, i, j, e);
        let rest = runs_from(s, e);
        let k = choose|k: int|
            0 <= k < rest.len() && (#[trigger] rest[k]).contains(s[i]) && rest[k].contains(s[j]);
        if e - from >= 2 {
            assert(runs[k + 1] == rest[k]);
        } else {
            assert(runs[k] == rest[k]);
        }
    }
}

/// A run holds at least two files, all with one fingerprint.
pub proof fn lemma_runs_are_duplicates(s: Seq<IndexEntry>, from: int, k: int)
    requires
        0 <= from,
        0 <= k < runs_from(s, from).len(),
    ensures
        runs_from(s, from)[k].len() >= 2,
        forall|m: int|
            0 <= m < runs_from(s, from)[k].len() ==> (#[trigger] runs_from(s, from)[k][m]).print
                == runs_from(s, from)[k][0].print,
    decreases s.len() - from,
{
    if from < s.len() {
        let e = run_end(s, from);
        lemma_run_end(s, from);
        let rest = runs_from(s, e);
        if e - from >= 2 {
            if k > 0 {
                lemma_runs_are_duplicates(s, e, k - 1);
                assert(runs_from(s, from)[k] == rest[k - 1]);
            } else {
                let run = s.subrange(from, e);
                assert(runs_from(s, from)[0] == run);
                assert forall|m: int| 0 <= m < run.len() implies (#[trigger] run[m]).print
                    == run[0].print by {
                    assert(run[m] == s[from + m]);
                }
            }
        } else {
            lemma_runs_are_duplicates(s, e, k);
        }
    }
}

fn wrap_files(files: Vec<IndexEntry>) -> (r: Vec<ByPrint>)
    ensures
        r@.len() == files@.len(),
        forall|k: int| 0 <= k < r@.len() ==> (#[trigger] r@[k]).file == files@[k],
{
    let ghost fs = files@;
    let mut from = reversed(files);
    let mut out: Vec<ByPrint> = Vec::new();
    while from.len() > 0
        invariant
            from@.len() + out@.len() == fs.len(),
            from@ == fs.reverse().take(fs.len() - out@.len()),
            forall|k: int| 0 <= k < out@.len() ==> (#[trigger] out@[k]).file == fs[k],
        decreases from@.len(),
    {
        let ghost n = out@.len() as int;
        if let Some(file) = from.pop() {
            assert(file == fs[n]);
            out.push(ByPrint { file });
            assert(from@ =~= fs.reverse().take(fs.len() - out@.len()));
        }
    }
    out
}

proof fn lemma_unwrapped(fs: Seq<IndexEntry>, ws: Seq<ByPrint>)
    requires
        ws.len() == fs.len(),
        forall|k: int| 0 <= k < ws.len() ==> (#[trigger] ws[k]).file == fs[k],
    ensures
        forall|x: IndexEntry| #[trigger] fs.to_multiset().count(x) == ws.to_multiset().count(
            (ByPrint { file: x }),
        ),
    decreases fs.len(),
{
    fs.to_multiset_ensures();
    ws.to_multiset_ensures();
    if fs.len() > 0 {
        let f = fs.drop_last();
        let w = ws.drop_last();
        assert forall|k: int| 0 <= k < w.len() implies (#[trigger] w[k]).file == f[k] by {
            assert(w[k] == ws[k]);
        }
        lemma_unwrapped(f, w);
        f.to_multiset_ensures();
        w.to_multiset_ensures();
        assert(f.push(fs.last()) =~= fs);
        assert(w.push(ws.last()) =~= ws);
        assert(ws.last() == (ByPrint { file: fs.last() }));
        assert forall|x: IndexEntry| #[trigger] fs.to_multiset().count(x) == ws.to_multiset().count(
            (ByPrint { file: x }),
        ) by {
            assert(f.to_multiset().count(x) == w.to_multiset().count((ByPrint { file: x })));
        }
    } else {
        assert forall|x: IndexEntry| #[trigger] fs.to_multiset().count(x) == ws.to_multiset().count(
            (ByPrint { file: x }),
        ) by {
            assert(!fs.contains(x));
            assert(!ws.contains((ByPrint { file: x })));
            assert(fs.to_multiset().count(x) == 0);
            assert(ws.to_multiset().count((ByPrint { file: x })) == 0);
        }
    }
}

/// Groups files with the same size and checksum: the greatest first, the paths
/// of a group in order. A file alone is in no group.
pub fn duplicate_groups(files: Vec<IndexEntry>) -> (r: Vec<DupGroup>)
    ensures
        exists|s: Seq<IndexEntry>|
            #![trigger by_print(s)]
            by_print(s) && s.to_multiset() == files@.to_multiset() && groups_are(
                r@,
                runs_from(s, 0),
            ),
{
    let ghost fs = files@;
    let wrapped = wrap_files(files);
    let ghost ws = wrapped@;
    let sorted = merge_sort(wrapped);
    let ghost s = Seq::new(sorted@.len(), |k: int| sorted@[k].file);
    proof {
        lemma_unwrapped(fs, ws);
        lemma_unwrapped(s, sorted@);
        assert(s.to_multiset() =~= fs.to_multiset()) by {
            assert forall|x: IndexEntry| #[trigger] s.to_multiset().count(x)
                == fs.to_multiset().count(x) by {
                assert(s.to_multiset().count(x) == sorted@.to_multiset().count(
                    (ByPrint { file: x }),
                ));
                assert(fs.to_multiset().count(x) == ws.to_multiset().count((ByPrint { file: x })));
            }
        }
        assert forall|i: int, j: int| 0 <= i < j < s.len() implies print_leq(
            #[trigger] s[i],
            #[trigger] s[j],
        ) by {
            assert(sorted@[i].leq(sorted@[j]));
        }
    }
    let ghost all = runs_from(s, 0);
    let mut out: Vec<DupGroup> = Vec::new();
    let mut i: usize = 0;
    assert(Seq::<Seq<IndexEntry>>::empty() + all =~= all);
    let ghost mut done: Seq<Seq<IndexEntry>> = Seq::empty();
    while i < sorted.len()
        invariant
            s == Seq::new(sorted@.len(), |k: int| sorted@[k].file),
            i <= sorted@.len(),
            all == runs_from(s, 0),
            done + runs_from(s, i as int) == all,
            groups_are(out@, done),
        decreases sorted@.len() - i,
    {
        proof {
            lemma_run_end(s, i as int);
        }
        let ghost e = run_end(s, i as int);
        let mut paths: Vec<String> = Vec::new();
        paths.push(sorted[i].file.path.clone());
        let mut j: usize = i + 1;
        assert(texts(paths@) =~= paths_of(s.subrange(i as int, j as int)));
        while j < sorted.len() && sorted[j].file.print == sorted[i].file.print
            invariant
                s == Seq::new(sorted@.len(), |k: int| sorted@[k].file),
                i < j <= sorted@.len(),
                e == run_end(s, i as int),
                run_end(s, j - 1) == e,
                s[j - 1].print == s[i as int].print,
                texts(paths@) == paths_of(s.subrange(i as int, j as int)),
            decreases sorted@.len() - j,
        {
            let ghost before = texts(paths@);
            assert(s[j as int] == sorted@[j as int].file);
            assert(s[i as int] == sorted@[i as int].file);
            paths.push(sorted[j].file.path.clone());
            j = j + 1;
            proof {
                assert(texts(paths@) =~= before.push(s[j - 1].path@));
                assert(paths_of(s.subrange(i as int, j as int)) =~= before.push(s[j - 1].path@));
            }
        }
        assert(j == e) by {
            if j < sorted@.len() {
                assert(s[j as int].print != s[j - 1].print);
            }
        }
        if j - i >= 2 {
            let ghost run = s.subrange(i as int, e);
            let g = DupGroup { size: sorted[i].file.print.size, paths };
            out.push(g);
            proof {
                assert(group_is(g, run));
                let next = done.push(run);
                assert(done + (seq![run] + runs_from(s, e)) =~= next + runs_from(s, e));
                assert forall|k: int| 0 <= k < out@.len() implies group_is(
                    #[trigger] out@[k],
                    next[k],
                ) by {
                    if k < done.len() {
                        assert(group_is(out@[k], done[k]));
                    }
                }
                done = next;
            }
        }
        i = j;
    }
    proof {
        assert(done + Seq::<Seq<IndexEntry>>::empty() =~= done);
        assert(by_print(s));
    }
    out
}

/// A group holds at least two paths. Any two of them are those of files with the size
/// of the group and with one checksum.
pub proof fn lemma_group_tells(
    files: Seq<IndexEntry>,
    s: Seq<IndexEntry>,
    gs: Seq<DupGroup>,
    k: int,
    m: int,
    n: int,
) -> (r: (IndexEntry, IndexEntry))
    requires
        by_print(s),
        s.to_multiset() == files.to_multiset(),
        groups_are(gs, runs_from(s, 0)),
        0 <= k < gs.len(),
        0 <= m < gs[k].paths@.len(),
        0 <= n < gs[k].paths@.len(),
    ensures
        gs[k].paths@.len() >= 2,
        files.contains(r.0),
        files.contains(r.1),
        r.0.path@ == gs[k].paths@[m]@,
        r.1.path@ == gs[k].paths@[n]@,
        r.0.print.size == gs[k].size,
        r.1.print.size == gs[k].size,
        r.0.print.crc == r.1.print.crc,
{
    let runs = runs_from(s, 0);
    let run = runs[k];
    assert(group_is(gs[k], run));
    lemma_runs_are_duplicates(s, 0, k);
    lemma_runs_hold_files(s, 0, k);
    s.to_multiset_ensures();
    files.to_multiset_ensures();
    assert(texts(gs[k].paths@).len() == run.len());
    assert(texts(gs[k].paths@)[m] == paths_of(run)[m]);
    assert(texts(gs[k].paths@)[n] == paths_of(run)[n]);
    let a = run[m];
    let b = run[n];
    assert(s.contains(a) && s.contains(b));
    assert(files.to_multiset().count(a) > 0 && files.to_multiset().count(b) > 0);
    assert(files.contains(a) && files.contains(b));
    assert(a.print == run[0].print && b.print == run[0].print);
    (a, b)
}

proof fn lemma_runs_hold_files(s: Seq<IndexEntry>, from: int, k: int)
    requires
        0 <= from,
        0 <= k < runs_from(s, from).len(),
    ensures
        forall|m: int|
            0 <= m < runs_from(s, from)[k].len() ==> s.contains(#[trigger] runs_from(s, from)[k][m]),
    decreases s.len() - from,
{
    if from < s.len() {
        let e = run_end(s, from);
        lemma_run_end(s, from);
        let rest = runs_from(s, e);
        if e - from >= 2 {
            if k > 0 {
                lemma_runs_hold_files(s, e, k - 1);
                assert(runs_from(s, from)[k] == rest[k - 1]);
            } else {
                let run = s.subrange(from, e);
                assert(runs_from(s, from)[0] == run);
                assert forall|m: int| 0 <= m < run.len() implies s.contains(#[trigger] run[m]) by {
                    assert(run[m] == s[from + m]);
                }
            }
        } else {
            lemma_runs_hold_files(s, e, k);
        }
    }
}

/// Two files with the same size and the same checksum are in one group.
pub proof fn lemma_equal_files_grouped(
    files: Seq<IndexEntry>,
    s: Seq<IndexEntry>,
    gs: Seq<DupGroup>,
    a: IndexEntry,
    b: IndexEntry,
) -> (r: (int, int, int))
    requires
        by_print(s),
        s.to_multiset() == files.to_multiset(),
        groups_are(gs, runs_from(s, 0)),
        files.contains(a),
        files.contains(b),
        a.path@ != b.path@,
        a.print.size == b.print.size,
        a.print.crc == b.print.crc,
    ensures
        0 <= r.0 < gs.len(),
        gs[r.0].size == a.print.size,
        0 <= r.1 < gs[r.0].paths@.len(),
        gs[r.0].paths@[r.1]@ == a.path@,
        0 <= r.2 < gs[r.0].paths@.len(),
        gs[r.0].paths@[r.2]@ == b.path@,
{
    s.to_multiset_ensures();
    files.to_multiset_ensures();
    assert(s.to_multiset().count(a) > 0 && s.to_multiset().count(b) > 0);
    assert(s.contains(a) && s.contains(b));
    let i = choose|i: int| 0 <= i < s.len() && s[i] == a;
    let j = choose|j: int| 0 <= j < s.len() && s[j] == b;
    assert(s[i].print == s[j].print);
    if i < j {
        lemma_duplicates_grouped(s, i, j, 0);
    } else {
        lemma_duplicates_grouped(s, j, i, 0);
    }
    let runs = runs_from(s, 0);
    let k = choose|k: int|
        0 <= k < runs.len() && (#[trigger] runs[k]).contains(a) && runs[k].contains(b);
    let run = runs[k];
    assert(group_is(gs[k], run));
    let m = choose|m: int| 0 <= m < run.len() && run[m] == a;
    let n = choose|n: int| 0 <= n < run.len() && run[n] == b;
    lemma_runs_are_duplicates(s, 0, k);
    assert(run[m].print == run[0].print);
    assert(texts(gs[k].paths@).len() == run.len());
    assert(texts(gs[k].paths@)[m] == paths_of(run)[m]);
    assert(texts(gs[k].paths@)[n] == paths_of(run)[n]);
    (k, m, n)
}

/// What could go: of one more group of `n` files of some size all but one, with as
/// many times that size in bytes. Of no groups nothing.
pub proof fn lemma_waste_grows(gs: Seq<DupGroup>, g: DupGroup)
    ensures
        redundant_files(gs.push(g)) == redundant_files(gs) + g.paths@.len() - 1,
        wasted_bytes(gs.push(g)) == wasted_bytes(gs) + g.size * (g.paths@.len() - 1),
        redundant_files(Seq::empty()) == 0,
        wasted_bytes(Seq::empty()) == 0,
{
    assert(gs.push(g).drop_last() =~= gs);
}

/// How many files could go: all of a group but one.
pub open spec fn redundant_files(gs: Seq<DupGroup>) -> int
    decreases gs.len(),
{
    if gs.len() == 0 {
        0
    } else {
        redundant_files(gs.drop_last()) + gs.last().paths@.len() - 1
    }
}

/// How many bytes the files that could go take.
pub open spec fn wasted_bytes(gs: Seq<DupGroup>) -> int
    decreases gs.len(),
{
    if gs.len() == 0 {
        0
    } else {
        wasted_bytes(gs.drop_last()) + gs.last().size * (gs.last().paths@.len() - 1)
    }
}

/// Redundant files and the bytes that they take, at most what 64 bits hold.
pub fn dedupe_totals(groups: &[DupGroup]) -> (r: (u64, u64))
    requires
        forall|k: int| 0 <= k < groups@.len() ==> (#[trigger] groups@[k]).paths@.len() >= 1,
    ensures
        r.0 == capped(redundant_files(groups@)),
        r.1 == capped(wasted_bytes(groups@)),
{
    let mut files: u64 = 0;
    let mut bytes: u64 = 0;
    let mut i: usize = 0;
    assert(groups@.take(0) =~= Seq::empty());
    while i < groups.len()
        invariant
            forall|k: int| 0 <= k < groups@.len() ==> (#[trigger] groups@[k]).paths@.len() >= 1,
            i <= groups@.len(),
            redundant_files(groups@.take(i as int)) >= 0,
            wasted_bytes(groups@.take(i as int)) >= 0,
            files == capped(redundant_files(groups@.take(i as int))),
            bytes == capped(wasted_bytes(groups@.take(i as int))),
        decreases groups@.len() - i,
    {
        let ghost p = groups@.take(i as int);
        let ghost q = groups@.take(i + 1);
        assert(q.drop_last() =~= p);
        assert(groups@[i as int].paths@.len() >= 1);
        let extra: u64 = (groups[i].paths.len() - 1) as u64;
        files = files.saturating_add(extra);
        assert(groups@[i as int].size * extra >= 0) by (nonlinear_arith)
            requires
                0 <= groups@[i as int].size,
                0 <= extra,
        ;
        match groups[i].size.checked_mul(extra) {
            Some(n) => {
                bytes = bytes.saturating_add(n);
            },
            None => {
                bytes = u64::MAX;
            },
        }
        i = i + 1;
    }
    assert(groups@.take(i as int) =~= groups@);
    (files, bytes)
}

/// What is kept of entries in order is in order.
proof fn lemma_kept_ascending(s: Seq<IndexEntry>, keep: spec_fn(IndexEntry) -> bool)
    requires
        ascending(s),
    ensures
        ascending(s.filter(keep)),
    decreases s.len(),
{
    reveal(Seq::filter);
    if s.len() > 0 {
        let p = s.drop_last();
        assert forall|i: int, j: int| 0 <= i < j < p.len() implies (#[trigger] p[i]).leq(
            #[trigger] p[j],
        ) by {
            assert(s[i].leq(s[j]));
        }
        lemma_kept_ascending(p, keep);
        let f = p.filter(keep);
        let g = s.filter(keep);
        assert forall|i: int, j: int| 0 <= i < j < g.len() implies (#[trigger] g[i]).leq(
            #[trigger] g[j],
        ) by {
            if j < f.len() {
                assert(f[i].leq(f[j]));
            } else {
                assert(f.contains(f[i]));
                p.lemma_filter_contains_rev(keep, f[i]);
                let m = choose|m: int| 0 <= m < p.len() && p[m] == f[i];
                assert(s[m].leq(s[s.len() - 1]));
            }
        }
    }
}

/// The lists of a comparison are by path: none holds a path behind one that comes later.
pub proof fn lemma_comparison_in_order(
    r: Comparison,
    a: Seq<IndexEntry>,
    b: Seq<IndexEntry>,
    sa: Seq<IndexEntry>,
    sb: Seq<IndexEntry>,
    i: int,
    j: int,
)
    requires
        compared(r, a, b, sa, sb),
        0 <= i < j,
    ensures
        j < r.only_a@.len() ==> !text_lt(r.only_a@[j]@, r.only_a@[i]@, true),
        j < r.only_b@.len() ==> !text_lt(r.only_b@[j]@, r.only_b@[i]@, true),
        j < r.differing@.len() ==> !text_lt(r.differing@[j]@, r.differing@[i]@, true),
{
    let away = |x: IndexEntry| !has_path(b, x.path@);
    let extra = |x: IndexEntry| !has_path(a, x.path@);
    let diff = |x: IndexEntry| differs(x, b);
    lemma_kept_ascending(sa, away);
    lemma_kept_ascending(sb, extra);
    lemma_kept_ascending(sa, diff);
    assert(texts(r.only_a@).len() == sa.filter(away).len());
    assert(texts(r.only_b@).len() == sb.filter(extra).len());
    assert(texts(r.differing@).len() == sa.filter(diff).len());
    if j < r.only_a@.len() {
        let f = sa.filter(away);
        assert(f[i].leq(f[j]));
        assert(texts(r.only_a@)[i] == paths_of(f)[i] && texts(r.only_a@)[j] == paths_of(f)[j]);
    }
    if j < r.only_b@.len() {
        let f = sb.filter(extra);
        assert(f[i].leq(f[j]));
        assert(texts(r.only_b@)[i] == paths_of(f)[i] && texts(r.only_b@)[j] == paths_of(f)[j]);
    }
    if j < r.differing@.len() {
        let f = sa.filter(diff);
        assert(f[i].leq(f[j]));
        assert(texts(r.differing@)[i] == paths_of(f)[i] && texts(r.differing@)[j] == paths_of(f)[j]);
    }
}

/// The place of a run.
proof fn lemma_run_place(s: Seq<IndexEntry>, from: int, k: int) -> (r: (int, int))
    requires
        0 <= from,
        0 <= k < runs_from(s, from).len(),
    ensures
        from <= r.0 < r.1 <= s.len(),
        runs_from(s, from)[k] == s.subrange(r.0, r.1),
    decreases s.len() - from,
{
    let e = run_end(s, from);
    lemma_run_end(s, from);
    if e - from >= 2 {
        if k == 0 {
            (from, e)
        } else {
            assert(runs_from(s, from)[k] == runs_from(s, e)[k - 1]);
            lemma_run_place(s, e, k - 1)
        }
    } else {
        lemma_run_place(s, e, k)
    }
}

proof fn lemma_runs_in_order(s: Seq<IndexEntry>, from: int, i: int, j: int)
    requires
        by_print(s),
        0 <= from,
        0 <= i < j < runs_from(s, from).len(),
    ensures
        runs_from(s, from)[i].len() > 0,
        runs_from(s, from)[j].len() > 0,
        print_leq(runs_from(s, from)[i][0], runs_from(s, from)[j][0]),
    decreases s.len() - from,
{
    let e = run_end(s, from);
    lemma_run_end(s, from);
    if e - from >= 2 {
        assert(runs_from(s, from)[j] == runs_from(s, e)[j - 1]);
        if i == 0 {
            let (x, y) = lemma_run_place(s, e, j - 1);
            assert(runs_from(s, from)[0] == s.subrange(from, e));
            assert(print_leq(s[from], s[x]));
        } else {
            assert(runs_from(s, from)[i] == runs_from(s, e)[i - 1]);
            lemma_runs_in_order(s, e, i - 1, j - 1);
        }
    } else {
        lemma_runs_in_order(s, e, i, j);
    }
}

/// A report on duplicates has the greatest files first, and the paths of a group in order.
pub proof fn lemma_groups_in_order(s: Seq<IndexEntry>, gs: Seq<DupGroup>, i: int, j: int)
    requires
        by_print(s),
        groups_are(gs, runs_from(s, 0)),
        0 <= i < j,
    ensures
        j < gs.len() ==> gs[i].size >= gs[j].size,
        forall|k: int|
            0 <= k < gs.len() && j < (#[trigger] gs[k]).paths@.len() ==> !text_lt(
                gs[k].paths@[j]@,
                gs[k].paths@[i]@,
                true,
            ),
{
    let runs = runs_from(s, 0);
    if j < gs.len() {
        assert(group_is(gs[i], runs[i]) && group_is(gs[j], runs[j]));
        lemma_runs_in_order(s, 0, i, j);
    }
    assert forall|k: int| 0 <= k < gs.len() && j < (#[trigger] gs[k]).paths@.len() implies !text_lt(
        gs[k].paths@[j]@,
        gs[k].paths@[i]@,
        true,
    ) by {
        let run = runs[k];
        assert(group_is(gs[k], run));
        assert(texts(gs[k].paths@).len() == run.len());
        assert(texts(gs[k].paths@)[i] == paths_of(run)[i]);
        assert(texts(gs[k].paths@)[j] == paths_of(run)[j]);
        lemma_runs_are_duplicates(s, 0, k);
        let (x, y) = lemma_run_place(s, 0, k);
        assert(run[i] == s[x + i] && run[j] == s[x + j]);
        assert(print_leq(s[x + i], s[x + j]));
        assert(run[i].print == run[0].print && run[j].print == run[0].print);
    }
}

} // verus!
