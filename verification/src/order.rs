//! Orders on texts, a sort, and the order of entries in a solid stream.

use vstd::prelude::*;
use vstd::multiset::Multiset;
use vstd::utf8::encode_utf8;
use crate::entry::{SourceEntry, SourceKind, SourceView, source_views};
use crate::paths::{extension, extension_of, parent, parent_of};
use crate::text::{
    ascii_lowercase, ascii_lowered, lemma_utf8_round_trip, lowercase, lowercase_of, str_eq,
};

verus! {

/// Lexicographic order: the first place where two sequences differ decides, and
/// a sequence comes before those that it starts.
pub open spec fn lex_lt(a: Seq<int>, b: Seq<int>) -> bool
    decreases a.len(),
{
    if b.len() == 0 {
        false
    } else if a.len() == 0 {
        true
    } else if a[0] != b[0] {
        a[0] < b[0]
    } else {
        lex_lt(a.skip(1), b.skip(1))
    }
}

/// Nothing comes before itself.
pub proof fn lemma_lex_irreflexive(a: Seq<int>)
    ensures
        !lex_lt(a, a),
    decreases a.len(),
{
    if a.len() > 0 {
        lemma_lex_irreflexive(a.skip(1));
    }
}

/// What comes before something comes before all that follows it.
pub proof fn lemma_lex_transitive(a: Seq<int>, b: Seq<int>, c: Seq<int>)
    requires
        lex_lt(a, b),
        lex_lt(b, c),
    ensures
        lex_lt(a, c),
    decreases a.len(),
{
    if a.len() > 0 && b.len() > 0 && c.len() > 0 && a[0] == b[0] && b[0] == c[0] {
        lemma_lex_transitive(a.skip(1), b.skip(1), c.skip(1));
    }
}

/// Of two different sequences one comes before the other.
pub proof fn lemma_lex_total(a: Seq<int>, b: Seq<int>)
    requires
        a != b,
    ensures
        lex_lt(a, b) || lex_lt(b, a),
    decreases a.len(),
{
    if a.len() == 0 {
        if b.len() == 0 {
            assert(a =~= b);
        }
    } else if b.len() > 0 && a[0] == b[0] {
        if a.skip(1) == b.skip(1) {
            assert(a =~= seq![a[0]] + a.skip(1));
            assert(b =~= seq![b[0]] + b.skip(1));
        }
        lemma_lex_total(a.skip(1), b.skip(1));
    }
}

/// The rank of a byte where texts are ordered by their bytes, or, for paths,
/// by their components: there a slash comes before all else.
pub open spec fn byte_rank(b: u8, path: bool) -> int {
    if path && b == 47 {
        -1
    } else {
        b as int
    }
}

/// The ranks of the bytes of a text.
pub open spec fn ranks(s: Seq<char>, path: bool) -> Seq<int> {
    let b = encode_utf8(s);
    Seq::new(b.len(), |k: int| byte_rank(b[k], path))
}

/// The order of texts by bytes, or of paths by components.
pub open spec fn text_lt(s: Seq<char>, t: Seq<char>, path: bool) -> bool {
    lex_lt(ranks(s, path), ranks(t, path))
}

/// Two texts of the same rank are one text.
pub proof fn lemma_ranks_injective(s: Seq<char>, t: Seq<char>, path: bool)
    requires
        ranks(s, path) == ranks(t, path),
    ensures
        s == t,
{
    let a = encode_utf8(s);
    let b = encode_utf8(t);
    assert(ranks(s, path).len() == a.len());
    assert(ranks(t, path).len() == b.len());
    assert forall|k: int| 0 <= k < a.len() implies a[k] == b[k] by {
        assert(ranks(s, path)[k] == byte_rank(a[k], path));
        assert(ranks(t, path)[k] == byte_rank(b[k], path));
    }
    assert(a =~= b);
    lemma_utf8_round_trip(s);
    lemma_utf8_round_trip(t);
}

/// Whether one text comes before another.
pub fn text_less(s: &str, t: &str, path: bool) -> (r: bool)
    ensures
        r == text_lt(s@, t@, path),
{
    let a = s.as_bytes();
    let b = t.as_bytes();
    let ghost ra = ranks(s@, path);
    let ghost rb = ranks(t@, path);
    assert(ra.skip(0) =~= ra);
    assert(rb.skip(0) =~= rb);
    let mut i: usize = 0;
    while i < a.len() && i < b.len()
        invariant
            i <= a@.len(),
            i <= b@.len(),
            a@ == encode_utf8(s@),
            b@ == encode_utf8(t@),
            ra == ranks(s@, path),
            rb == ranks(t@, path),
            lex_lt(ra, rb) == lex_lt(ra.skip(i as int), rb.skip(i as int)),
        decreases a@.len() - i,
    {
        let ghost ta = ra.skip(i as int);
        let ghost tb = rb.skip(i as int);
        let x: u8 = a[i];
        let y: u8 = b[i];
        assert(ta[0] == byte_rank(x, path));
        assert(tb[0] == byte_rank(y, path));
        if x != y {
            if path && x == 47 {
                return true;
            }
            if path && y == 47 {
                return false;
            }
            return x < y;
        }
        assert(ta.skip(1) =~= ra.skip(i + 1));
        assert(tb.skip(1) =~= rb.skip(i + 1));
        i = i + 1;
    }
    i < b.len()
}

/// A type with a total order.
pub trait Ranked: Sized {
    /// Whether one value may stand before another.
    spec fn leq(self, other: Self) -> bool;

    proof fn lemma_total(a: Self, b: Self)
        ensures
            a.leq(b) || b.leq(a),
    ;

    proof fn lemma_transitive(a: Self, b: Self, c: Self)
        requires
            a.leq(b),
            b.leq(c),
        ensures
            a.leq(c),
    ;

    fn before(&self, other: &Self) -> (r: bool)
        ensures
            r == self.leq(*other),
    ;
}

/// Every item may stand before those behind it.
pub open spec fn ascending<T: Ranked>(s: Seq<T>) -> bool {
    forall|i: int, j: int| 0 <= i < j < s.len() ==> (#[trigger] s[i]).leq(#[trigger] s[j])
}

/// No item may stand behind a later one.
spec fn descending<T: Ranked>(s: Seq<T>) -> bool {
    forall|i: int, j: int| 0 <= i < j < s.len() ==> (#[trigger] s[j]).leq(#[trigger] s[i])
}

/// Every item of `s` may stand before every item of `t`.
spec fn all_before<T: Ranked>(s: Seq<T>, t: Seq<T>) -> bool {
    forall|i: int, j: int|
        0 <= i < s.len() && 0 <= j < t.len() ==> (#[trigger] s[i]).leq(#[trigger] t[j])
}

/// The items in the other direction.
pub fn reversed<T>(v: Vec<T>) -> (r: Vec<T>)
    ensures
        r@ == v@.reverse(),
{
    let mut from = v;
    let mut out: Vec<T> = Vec::new();
    while from.len() > 0
        invariant
            from@ + out@.reverse() == v@,
        decreases from@.len(),
    {
        let ghost f = from@;
        let ghost o = out@;
        match from.pop() {
            Some(x) => {
                out.push(x);
                proof {
                    assert(f =~= from@.push(x));
                    assert(out@.reverse() =~= seq![x] + o.reverse());
                    assert(from@ + out@.reverse() =~= f + o.reverse());
                }
            },
            None => {},
        }
    }
    proof {
        assert(from@ + out@.reverse() =~= out@.reverse());
        assert(out@.reverse().reverse() =~= out@);
    }
    out
}

proof fn lemma_pop_multiset<T>(s: Seq<T>)
    requires
        s.len() > 0,
    ensures
        s.to_multiset() == s.drop_last().to_multiset().insert(s.last()),
{
    s.drop_last().to_multiset_ensures();
    assert(s.drop_last().push(s.last()) =~= s);
}

/// Moves the last item of `from` to the end of `out`.
fn move_last<T: Ranked>(from: &mut Vec<T>, out: &mut Vec<T>)
    requires
        old(from)@.len() > 0,
    ensures
        final(from)@ == old(from)@.drop_last(),
        final(out)@ == old(out)@.push(old(from)@.last()),
{
    match from.pop() {
        Some(x) => {
            out.push(x);
            assert(from@ =~= old(from)@.drop_last());
        },
        None => {},
    }
}

/// One step of a merge keeps what is known of it.
proof fn lemma_merge_step<T: Ranked>(a: Seq<T>, b: Seq<T>, out: Seq<T>)
    requires
        a.len() > 0,
        ascending(a),
        descending(out),
        all_before(a, out),
        all_before(b, out),
        forall|j: int| 0 <= j < b.len() ==> (#[trigger] b[j]).leq(a.last()),
    ensures
        ascending(a.drop_last()),
        descending(out.push(a.last())),
        all_before(a.drop_last(), out.push(a.last())),
        all_before(b, out.push(a.last())),
        a.to_multiset().add(b.to_multiset()).add(out.to_multiset()) == a.drop_last().to_multiset().add(
            b.to_multiset(),
        ).add(out.push(a.last()).to_multiset()),
{
    let x = a.last();
    let next = out.push(x);
    assert forall|i: int, j: int| 0 <= i < j < next.len() implies (#[trigger] next[j]).leq(
        #[trigger] next[i],
    ) by {
        if j == out.len() {
            assert(a[a.len() - 1].leq(out[i]));
        } else {
            assert(out[j].leq(out[i]));
        }
    }
    assert forall|i: int, j: int|
        0 <= i < a.drop_last().len() && 0 <= j < next.len() implies (#[trigger] a.drop_last()[i]).leq(
        #[trigger] next[j],
    ) by {
        assert(a.drop_last()[i] == a[i]);
        if j == out.len() {
            assert(a[i].leq(a[a.len() - 1]));
        } else {
            assert(a[i].leq(out[j]));
        }
    }
    assert forall|i: int, j: int| 0 <= i < b.len() && 0 <= j < next.len() implies (#[trigger] b[i]).leq(
        #[trigger] next[j],
    ) by {
        if j < out.len() {
            assert(b[i].leq(out[j]));
        }
    }
    lemma_pop_multiset(a);
    out.to_multiset_ensures();
    assert(a.to_multiset().add(b.to_multiset()).add(out.to_multiset())
        =~= a.drop_last().to_multiset().add(b.to_multiset()).add(next.to_multiset()));
}

/// Merges two ascending runs.
fn merge<T: Ranked>(a: Vec<T>, b: Vec<T>) -> (r: Vec<T>)
    requires
        ascending(a@),
        ascending(b@),
    ensures
        ascending(r@),
        r@.to_multiset() == a@.to_multiset().add(b@.to_multiset()),
{
    let mut x = a;
    let mut y = b;
    let mut out: Vec<T> = Vec::new();
    let ghost all = a@.to_multiset().add(b@.to_multiset());
    proof {
        assert(out@.to_multiset() =~= Multiset::empty()) by {
            out@.to_multiset_ensures();
        }
        assert(all.add(Multiset::<T>::empty()) =~= all);
    }
    while x.len() > 0 || y.len() > 0
        invariant
            ascending(x@),
            ascending(y@),
            descending(out@),
            all_before(x@, out@),
            all_before(y@, out@),
            x@.to_multiset().add(y@.to_multiset()).add(out@.to_multiset()) == all,
        decreases x@.len() + y@.len(),
    {
        let from_x: bool = if x.len() == 0 {
            false
        } else if y.len() == 0 {
            true
        } else {
            y[y.len() - 1].before(&x[x.len() - 1])
        };
        let ghost sx = x@;
        let ghost sy = y@;
        let ghost so = out@;
        if from_x {
            proof {
                assert forall|j: int| 0 <= j < sy.len() implies (#[trigger] sy[j]).leq(sx.last()) by {
                    if j < sy.len() - 1 {
                        assert(sy[j].leq(sy[sy.len() - 1]));
                        T::lemma_transitive(sy[j], sy.last(), sx.last());
                    }
                }
                lemma_merge_step(sx, sy, so);
            }
            move_last(&mut x, &mut out);
        } else {
            proof {
                assert forall|j: int| 0 <= j < sx.len() implies (#[trigger] sx[j]).leq(sy.last()) by {
                    T::lemma_total(sx.last(), sy.last());
                    if j < sx.len() - 1 {
                        assert(sx[j].leq(sx[sx.len() - 1]));
                        T::lemma_transitive(sx[j], sx.last(), sy.last());
                    }
                }
                lemma_merge_step(sy, sx, so);
                assert(sx.to_multiset().add(sy.to_multiset()) =~= sy.to_multiset().add(
                    sx.to_multiset(),
                ));
                assert(sx.to_multiset().add(sy.drop_last().to_multiset())
                    =~= sy.drop_last().to_multiset().add(sx.to_multiset()));
            }
            move_last(&mut y, &mut out);
        }
    }
    let ghost o = out@;
    let r = reversed(out);
    proof {
        x@.to_multiset_ensures();
        y@.to_multiset_ensures();
        assert(x@.to_multiset().add(y@.to_multiset()).add(o.to_multiset()) =~= o.to_multiset());
        o.lemma_reverse_to_multiset();
        assert forall|i: int, j: int| 0 <= i < j < r@.len() implies (#[trigger] r@[i]).leq(
            #[trigger] r@[j],
        ) by {
            assert(r@[i] == o[o.len() - 1 - i]);
            assert(r@[j] == o[o.len() - 1 - j]);
        }
    }
    r
}

/// Sorts by halves.
pub fn merge_sort<T: Ranked>(v: Vec<T>) -> (r: Vec<T>)
    ensures
        ascending(r@),
        r@.to_multiset() == v@.to_multiset(),
    decreases v@.len(),
{
    let n: usize = v.len();
    if n < 2 {
        return v;
    }
    let ghost whole = v@;
    let mut a = v;
    let b = a.split_off(n / 2);
    proof {
        vstd::seq_lib::lemma_multiset_commutative(a@, b@);
        assert(a@ + b@ =~= whole);
    }
    let x = merge_sort(a);
    let y = merge_sort(b);
    merge(x, y)
}

/// What decides the place of an entry in a solid stream.
#[verifier::ext_equal]
pub struct KeyView {
    pub rank: int,
    pub ext: Seq<char>,
    pub parent: Seq<char>,
    pub size: int,
    pub path: Seq<char>,
}

/// What decides the place of an entry in a solid stream.
pub struct SortKey {
    pub rank: u8,
    pub ext: String,
    pub parent: String,
    pub size: u64,
    pub path: String,
}

impl View for SortKey {
    type V = KeyView;

    open spec fn view(&self) -> KeyView {
        KeyView {
            rank: self.rank as int,
            ext: self.ext@,
            parent: self.parent@,
            size: self.size as int,
            path: self.path@,
        }
    }
}

/// The key of an entry: directories, then symlinks, then files; files of one
/// extension together, then those of one directory, the smaller first.
pub open spec fn key_of(e: SourceView) -> KeyView {
    KeyView {
        rank: match e.kind {
            SourceKind::Dir => 0,
            SourceKind::Symlink => 1,
            SourceKind::File => 2,
        },
        ext: match extension_of(e.path) {
            Some(x) => ascii_lowered(x),
            None => Seq::empty(),
        },
        parent: lowercase_of(parent_of(e.path)),
        size: match e.kind {
            SourceKind::File => e.size as int,
            _ => 0,
        },
        path: lowercase_of(e.path),
    }
}

/// The key of an entry.
pub fn sort_key(e: &SourceEntry) -> (k: SortKey)
    ensures
        k@ == key_of(e@),
{
    let (rank, size): (u8, u64) = match e.kind {
        SourceKind::Dir => (0, 0),
        SourceKind::Symlink => (1, 0),
        SourceKind::File => (2, e.size),
    };
    let ext = match extension(e.path.as_str()) {
        Some(x) => ascii_lowercase(x.as_str()),
        None => String::new(),
    };
    let dir = parent(e.path.as_str());
    let k = SortKey {
        rank,
        ext,
        parent: lowercase(dir.as_str()),
        size,
        path: lowercase(e.path.as_str()),
    };
    assert(k@ =~= key_of(e@));
    k
}

/// Whether one key comes before another: the first field in which they differ
/// decides.
pub open spec fn key_lt(a: KeyView, b: KeyView) -> bool {
    if a.rank != b.rank {
        a.rank < b.rank
    } else if a.ext != b.ext {
        text_lt(a.ext, b.ext, false)
    } else if a.parent != b.parent {
        text_lt(a.parent, b.parent, false)
    } else if a.size != b.size {
        a.size < b.size
    } else {
        text_lt(a.path, b.path, false)
    }
}

pub proof fn lemma_text_total(s: Seq<char>, t: Seq<char>, path: bool)
    ensures
        s != t ==> text_lt(s, t, path) || text_lt(t, s, path),
        !(text_lt(s, t, path) && text_lt(t, s, path)),
        !text_lt(s, s, path),
{
    if s != t {
        if ranks(s, path) == ranks(t, path) {
            lemma_ranks_injective(s, t, path);
        }
        lemma_lex_total(ranks(s, path), ranks(t, path));
    }
    if text_lt(s, t, path) && text_lt(t, s, path) {
        lemma_lex_transitive(ranks(s, path), ranks(t, path), ranks(s, path));
    }
    lemma_lex_irreflexive(ranks(s, path));
}

pub proof fn lemma_text_transitive(s: Seq<char>, t: Seq<char>, u: Seq<char>, path: bool)
    ensures
        text_lt(s, t, path) && text_lt(t, u, path) ==> text_lt(s, u, path),
{
    if text_lt(s, t, path) && text_lt(t, u, path) {
        lemma_lex_transitive(ranks(s, path), ranks(t, path), ranks(u, path));
    }
}

/// Of two different keys exactly one comes before the other, and no key comes
/// before itself.
pub proof fn lemma_key_total(a: KeyView, b: KeyView)
    ensures
        a != b ==> key_lt(a, b) || key_lt(b, a),
        !(key_lt(a, b) && key_lt(b, a)),
        !key_lt(a, a),
{
    lemma_text_total(a.ext, b.ext, false);
    lemma_text_total(a.parent, b.parent, false);
    lemma_text_total(a.path, b.path, false);
    if a.rank == b.rank && a.ext == b.ext && a.parent == b.parent && a.size == b.size && a.path
        == b.path {
        assert(a =~= b);
    }
}

/// The order of keys is transitive.
pub proof fn lemma_key_transitive(a: KeyView, b: KeyView, c: KeyView)
    requires
        key_lt(a, b),
        key_lt(b, c),
    ensures
        key_lt(a, c),
{
    lemma_text_transitive(a.ext, b.ext, c.ext, false);
    lemma_text_transitive(a.parent, b.parent, c.parent, false);
    lemma_text_transitive(a.path, b.path, c.path, false);
    lemma_text_total(a.ext, b.ext, false);
    lemma_text_total(a.parent, b.parent, false);
}

/// Whether one key comes before another.
fn key_less(a: &SortKey, b: &SortKey) -> (r: bool)
    ensures
        r == key_lt(a@, b@),
{
    if a.rank != b.rank {
        a.rank < b.rank
    } else if !str_eq(a.ext.as_str(), b.ext.as_str()) {
        text_less(a.ext.as_str(), b.ext.as_str(), false)
    } else if !str_eq(a.parent.as_str(), b.parent.as_str()) {
        text_less(a.parent.as_str(), b.parent.as_str(), false)
    } else if a.size != b.size {
        a.size < b.size
    } else {
        text_less(a.path.as_str(), b.path.as_str(), false)
    }
}

/// An entry with its key and the place that it had.
struct Keyed {
    key: SortKey,
    pos: usize,
    entry: SourceEntry,
}

impl Ranked for Keyed {
    closed spec fn leq(self, other: Self) -> bool {
        key_lt(self.key@, other.key@) || (self.key@ == other.key@ && self.pos <= other.pos)
    }

    proof fn lemma_total(a: Self, b: Self) {
        lemma_key_total(a.key@, b.key@);
    }

    proof fn lemma_transitive(a: Self, b: Self, c: Self) {
        if key_lt(a.key@, b.key@) && key_lt(b.key@, c.key@) {
            lemma_key_transitive(a.key@, b.key@, c.key@);
        }
    }

    fn before(&self, other: &Self) -> (r: bool) {
        proof {
            lemma_key_total(self.key@, other.key@);
        }
        if key_less(&self.key, &other.key) {
            true
        } else if key_less(&other.key, &self.key) {
            false
        } else {
            self.pos <= other.pos
        }
    }
}

/// `order` lists every place below `n` once.
pub open spec fn is_order(order: Seq<int>, n: nat) -> bool {
    &&& order.len() == n
    &&& order.no_duplicates()
    &&& forall|i: int| 0 <= i < n ==> 0 <= #[trigger] order[i] < n
}

/// `order` lists the entries by their keys, and those of one key as they came.
pub open spec fn is_solid_order(es: Seq<SourceView>, order: Seq<int>) -> bool {
    &&& is_order(order, es.len())
    &&& forall|i: int, j: int|
        0 <= i < j < es.len() ==> {
            let a = key_of(es[#[trigger] order[i]]);
            let b = key_of(es[#[trigger] order[j]]);
            key_lt(a, b) || (a == b && order[i] < order[j])
        }
}

/// The entries in the places that `order` gives them.
pub open spec fn arranged(es: Seq<SourceView>, order: Seq<int>) -> Seq<SourceView> {
    Seq::new(order.len(), |i: int| es[order[i]])
}

/// The entries with keys and places.
fn with_keys(entries: Vec<SourceEntry>) -> (r: Vec<Keyed>)
    ensures
        r@.len() == entries@.len(),
        forall|k: int|
            0 <= k < r@.len() ==> (#[trigger] r@[k]).pos == k && r@[k].entry == entries@[k]
                && r@[k].key@ == key_of(entries@[k]@),
{
    let ghost es = entries@;
    let mut from = reversed(entries);
    let mut out: Vec<Keyed> = Vec::new();
    while from.len() > 0
        invariant
            from@.len() + out@.len() == es.len(),
            from@ == es.reverse().take(es.len() - out@.len()),
            forall|k: int|
                0 <= k < out@.len() ==> (#[trigger] out@[k]).pos == k && out@[k].entry == es[k]
                    && out@[k].key@ == key_of(es[k]@),
        decreases from@.len(),
    {
        let pos: usize = out.len();
        let ghost f = from@;
        match from.pop() {
            Some(entry) => {
                assert(entry == es[pos as int]);
                let key = sort_key(&entry);
                out.push(Keyed { key, pos, entry });
                assert(from@ =~= es.reverse().take(es.len() - out@.len()));
            },
            None => {},
        }
    }
    out
}

/// The entries without their keys.
fn without_keys(items: Vec<Keyed>) -> (r: Vec<SourceEntry>)
    ensures
        r@.len() == items@.len(),
        forall|k: int| 0 <= k < r@.len() ==> #[trigger] r@[k] == items@[k].entry,
{
    let ghost ks = items@;
    let mut from = reversed(items);
    let mut out: Vec<SourceEntry> = Vec::new();
    while from.len() > 0
        invariant
            from@.len() + out@.len() == ks.len(),
            from@ == ks.reverse().take(ks.len() - out@.len()),
            forall|k: int| 0 <= k < out@.len() ==> #[trigger] out@[k] == ks[k].entry,
        decreases from@.len(),
    {
        let ghost n = out@.len() as int;
        match from.pop() {
            Some(item) => {
                assert(item == ks[n]);
                out.push(item.entry);
                assert(from@ =~= ks.reverse().take(ks.len() - out@.len()));
            },
            None => {},
        }
    }
    out
}

/// What a sort makes of entries with places is an order of those places.
proof fn lemma_places(ks: Seq<Keyed>, rs: Seq<Keyed>) -> (order: Seq<int>)
    requires
        rs.to_multiset() == ks.to_multiset(),
        forall|k: int| 0 <= k < ks.len() ==> (#[trigger] ks[k]).pos == k,
    ensures
        is_order(order, ks.len()),
        rs.len() == ks.len(),
        forall|i: int|
            0 <= i < rs.len() ==> #[trigger] order[i] == rs[i].pos && rs[i] == ks[order[i]],
{
    let order = Seq::new(rs.len(), |i: int| rs[i].pos as int);
    ks.to_multiset_ensures();
    rs.to_multiset_ensures();
    assert(ks.len() == ks.to_multiset().len());
    assert forall|i: int| 0 <= i < rs.len() implies 0 <= #[trigger] order[i] < ks.len() && rs[i]
        == ks[order[i]] by {
        assert(rs.contains(rs[i]));
        assert(rs.to_multiset().count(rs[i]) > 0);
        assert(ks.contains(rs[i]));
        let k = choose|k: int| 0 <= k < ks.len() && ks[k] == rs[i];
        assert(ks[k].pos == k);
    }
    assert(ks.no_duplicates()) by {
        assert forall|i: int, j: int| 0 <= i < ks.len() && 0 <= j < ks.len() && i != j implies ks[i]
            != ks[j] by {
            assert(ks[i].pos == i && ks[j].pos == j);
        }
    }
    ks.lemma_multiset_has_no_duplicates();
    rs.lemma_multiset_has_no_duplicates_conv();
    assert(order.no_duplicates()) by {
        assert forall|i: int, j: int|
            0 <= i < order.len() && 0 <= j < order.len() && i != j implies order[i] != order[j] by {
            if order[i] == order[j] {
                assert(rs[i] == rs[j]);
            }
        }
    }
    order
}

/// Puts entries in the order of a solid stream: directories, symlinks, then
/// files by extension, directory, size and path. Entries that agree in all of
/// these keep their order.
pub fn solid_sort(entries: Vec<SourceEntry>) -> (r: Vec<SourceEntry>)
    ensures
        exists|order: Seq<int>| #[trigger]
            is_solid_order(source_views(entries@), order) && source_views(r@) == arranged(
                source_views(entries@),
                order,
            ),
{
    let ghost es = source_views(entries@);
    let ghost xs = entries@;
    let keyed = with_keys(entries);
    let ghost ks = keyed@;
    let sorted = merge_sort(keyed);
    let ghost rs = sorted@;
    let r = without_keys(sorted);
    proof {
        let order = lemma_places(ks, rs);
        assert forall|i: int, j: int| 0 <= i < j < es.len() implies {
            let a = key_of(es[#[trigger] order[i]]);
            let b = key_of(es[#[trigger] order[j]]);
            key_lt(a, b) || (a == b && order[i] < order[j])
        } by {
            assert(rs[i].leq(rs[j]));
            assert(rs[i] == ks[order[i]]);
            assert(rs[j] == ks[order[j]]);
            assert(order[i] != order[j]);
        }
        assert(is_solid_order(es, order));
        assert forall|i: int| 0 <= i < es.len() implies source_views(r@)[i] == #[trigger] arranged(
            es,
            order,
        )[i] by {
            assert(rs[i] == ks[order[i]]);
            assert(r@[i] == rs[i].entry);
            assert(ks[order[i]].entry == xs[order[i]]);
        }
        assert(source_views(r@) =~= arranged(es, order));
    }
    r
}

proof fn lemma_order_counts(order: Seq<int>, n: nat)
    requires
        is_order(order, n),
    ensures
        forall|p: int| #[trigger] order.to_multiset().count(p) == (if 0 <= p < n {
            1nat
        } else {
            0nat
        }),
{
    vstd::set_lib::lemma_int_range(0, n as int);
    order.unique_seq_to_set();
    vstd::seq_lib::seq_to_set_is_finite(order);
    let range = vstd::set_lib::set_int_range(0, n as int);
    assert forall|p: int| order.to_set().contains(p) implies range.contains(p) by {
        let i = choose|i: int| 0 <= i < order.len() && order[i] == p;
        assert(0 <= order[i] < n);
    }
    vstd::set_lib::lemma_subset_equality(order.to_set(), range);
    order.to_multiset_ensures();
    order.lemma_multiset_has_no_duplicates();
    assert forall|p: int| #[trigger] order.to_multiset().count(p) == (if 0 <= p < n {
        1nat
    } else {
        0nat
    }) by {
        assert(order.contains(p) <==> order.to_set().contains(p));
        assert(range.contains(p) <==> 0 <= p < n);
        if 0 <= p < n {
            assert(order.to_multiset().contains(p));
        }
    }
}

/// Entries have one solid order.
pub proof fn lemma_solid_order_unique(es: Seq<SourceView>, a: Seq<int>, b: Seq<int>)
    requires
        is_solid_order(es, a),
        is_solid_order(es, b),
    ensures
        a == b,
{
    let leq = |p: int, q: int|
        key_lt(key_of(es[p]), key_of(es[q])) || (key_of(es[p]) == key_of(es[q]) && p <= q);
    assert forall|p: int, q: int| #[trigger] leq(p, q) || #[trigger] leq(q, p) by {
        lemma_key_total(key_of(es[p]), key_of(es[q]));
    }
    assert forall|p: int, q: int| #[trigger] leq(p, q) && #[trigger] leq(q, p) implies p == q by {
        lemma_key_total(key_of(es[p]), key_of(es[q]));
    }
    assert forall|p: int, q: int, r: int| #[trigger] leq(p, q) && #[trigger] leq(q, r) implies leq(
        p,
        r,
    ) by {
        if key_lt(key_of(es[p]), key_of(es[q])) && key_lt(key_of(es[q]), key_of(es[r])) {
            lemma_key_transitive(key_of(es[p]), key_of(es[q]), key_of(es[r]));
        }
    }
    lemma_order_counts(a, es.len());
    lemma_order_counts(b, es.len());
    assert(a.to_multiset() =~= b.to_multiset());
    assert(vstd::relations::sorted_by(a, leq)) by {
        assert forall|i: int, j: int| 0 <= i < j < a.len() implies #[trigger] leq(a[i], a[j]) by {}
    }
    assert(vstd::relations::sorted_by(b, leq)) by {
        assert forall|i: int, j: int| 0 <= i < j < b.len() implies #[trigger] leq(b[i], b[j]) by {}
    }
    vstd::seq_lib::lemma_sorted_unique(a, b, leq);
}

/// Entries have a solid order.
pub proof fn lemma_solid_order_exists(es: Seq<SourceView>)
    ensures
        exists|order: Seq<int>| is_solid_order(es, order),
{
    let leq = |p: int, q: int|
        key_lt(key_of(es[p]), key_of(es[q])) || (key_of(es[p]) == key_of(es[q]) && p <= q);
    assert forall|p: int, q: int| #[trigger] leq(p, q) || #[trigger] leq(q, p) by {
        lemma_key_total(key_of(es[p]), key_of(es[q]));
    }
    assert forall|p: int, q: int| #[trigger] leq(p, q) && #[trigger] leq(q, p) implies p == q by {
        lemma_key_total(key_of(es[p]), key_of(es[q]));
    }
    assert forall|p: int, q: int, r: int| #[trigger] leq(p, q) && #[trigger] leq(q, r) implies leq(
        p,
        r,
    ) by {
        if key_lt(key_of(es[p]), key_of(es[q])) && key_lt(key_of(es[q]), key_of(es[r])) {
            lemma_key_transitive(key_of(es[p]), key_of(es[q]), key_of(es[r]));
        }
    }
    let places = Seq::new(es.len(), |i: int| i);
    places.lemma_sort_by_ensures(leq);
    let order = places.sort_by(leq);
    places.to_multiset_ensures();
    order.to_multiset_ensures();
    assert(places.no_duplicates());
    places.lemma_multiset_has_no_duplicates();
    order.lemma_multiset_has_no_duplicates_conv();
    assert(order.len() == es.len()) by {
        assert(order.len() == order.to_multiset().len());
        assert(places.len() == places.to_multiset().len());
    }
    assert forall|i: int| 0 <= i < es.len() implies 0 <= #[trigger] order[i] < es.len() by {
        assert(order.contains(order[i]));
        assert(places.contains(order[i]));
    }
    assert(is_solid_order(es, order)) by {
        assert forall|i: int, j: int| 0 <= i < j < es.len() implies {
            let a = key_of(es[#[trigger] order[i]]);
            let b = key_of(es[#[trigger] order[j]]);
            key_lt(a, b) || (a == b && order[i] < order[j])
        } by {
            assert(leq(order[i], order[j]));
            assert(order[i] != order[j]);
        }
    }
}

/// Sorting loses no entry and invents none, and every entry is there as often as it
/// was.
pub proof fn lemma_arranged_keeps(es: Seq<SourceView>, order: Seq<int>)
    requires
        is_order(order, es.len()),
    ensures
        arranged(es, order).len() == es.len(),
        forall|e: SourceView| #[trigger] arranged(es, order).contains(e) <==> es.contains(e),
        arranged(es, order).to_multiset() == es.to_multiset(),
{
    lemma_arranged_multiset(es, order);
    let s = arranged(es, order);
    s.to_multiset_ensures();
    es.to_multiset_ensures();
    assert forall|e: SourceView| #[trigger] s.contains(e) <==> es.contains(e) by {
        assert(s.contains(e) <==> s.to_multiset().count(e) > 0);
        assert(es.contains(e) <==> es.to_multiset().count(e) > 0);
    }
}

/// Entries in the places of an order without repetition, up to the last place, are as
/// a multiset those that were there.
proof fn lemma_arranged_multiset(es: Seq<SourceView>, order: Seq<int>)
    requires
        is_order(order, es.len()),
    ensures
        arranged(es, order).to_multiset() == es.to_multiset(),
    decreases es.len(),
{
    broadcast use vstd::seq_lib::seq_to_set_is_finite;

    let s = arranged(es, order);
    let n = es.len() as int;
    s.to_multiset_ensures();
    es.to_multiset_ensures();
    if n == 0 {
        assert(s =~= es);
    } else {
        let all = vstd::set_lib::set_int_range(0, n);
        vstd::set_lib::lemma_int_range(0, n);
        order.unique_seq_to_set();
        assert(order.to_set().subset_of(all));
        vstd::set_lib::lemma_subset_equality(order.to_set(), all);
        assert(order.to_set().contains(n - 1));
        let m = choose|m: int| 0 <= m < order.len() && order[m] == n - 1;
        let rest = order.remove(m);
        let front = es.drop_last();
        assert(rest.no_duplicates()) by {
            assert forall|i: int, j: int|
                0 <= i < rest.len() && 0 <= j < rest.len() && i != j implies rest[i] != rest[j] by {
                let a = if i < m {
                    i
                } else {
                    i + 1
                };
                let b = if j < m {
                    j
                } else {
                    j + 1
                };
                assert(rest[i] == order[a] && rest[j] == order[b]);
            }
        }
        assert forall|i: int| 0 <= i < n - 1 implies 0 <= #[trigger] rest[i] < n - 1 by {
            let a = if i < m {
                i
            } else {
                i + 1
            };
            assert(rest[i] == order[a]);
            assert(a != m);
        }
        lemma_arranged_multiset(front, rest);
        let t = arranged(front, rest);
        assert(s.remove(m) =~= t) by {
            assert forall|i: int| 0 <= i < t.len() implies s.remove(m)[i] == t[i] by {
                assert(0 <= rest[i] < n - 1);
            }
        }
        assert(s[m] == es[n - 1]);
        assert(es =~= front.push(es[n - 1]));
        front.to_multiset_ensures();
        t.to_multiset_ensures();
        assert(s =~= t.insert(m, s[m]));
        assert(t.insert(m, s[m]).to_multiset() =~= t.to_multiset().insert(s[m]));
        assert(es.to_multiset() =~= front.to_multiset().insert(es[n - 1]));
    }
}

/// The order of a solid stream: directories, then symbolic links, then files. Files
/// of one extension stand together, of these files those in one directory, and of
/// these no greater file comes before a smaller one.
pub proof fn lemma_solid_order_tells(es: Seq<SourceView>, order: Seq<int>, i: int, j: int)
    requires
        is_solid_order(es, order),
        0 <= i < j < es.len(),
    ensures
        ({
            let a = arranged(es, order)[i];
            let b = arranged(es, order)[j];
            let ext = |x: SourceView|
                match extension_of(x.path) {
                    Some(e) => ascii_lowered(e),
                    None => Seq::empty(),
                };
            let files = a.kind == SourceKind::File && b.kind == SourceKind::File;
            &&& a.kind == SourceKind::File ==> b.kind == SourceKind::File
            &&& a.kind == SourceKind::Symlink ==> b.kind != SourceKind::Dir
            &&& files && ext(a) == ext(b) ==> forall|k: int|
                i < k < j ==> (#[trigger] arranged(es, order)[k]).kind == SourceKind::File && ext(
                    arranged(es, order)[k],
                ) == ext(a)
            &&& files && ext(a) == ext(b) && lowercase_of(parent_of(a.path)) == lowercase_of(
                parent_of(b.path),
            ) ==> a.size <= b.size
            &&& files && ext(a) == ext(b) && lowercase_of(parent_of(a.path)) == lowercase_of(
                parent_of(b.path),
            ) && a.size == b.size && a.path == b.path ==> order[i] < order[j]
        }),
{
    let s = arranged(es, order);
    let a = key_of(es[order[i]]);
    let b = key_of(es[order[j]]);
    assert(key_lt(a, b) || (a == b && order[i] < order[j]));
    lemma_text_total(a.path, b.path, false);
    if a.rank == 2 && a.ext == b.ext {
        assert forall|k: int| i < k < j implies (#[trigger] s[k]).kind == SourceKind::File
            && key_of(s[k]).ext == a.ext by {
            let c = key_of(es[order[k]]);
            assert(key_lt(a, c) || (a == c && order[i] < order[k]));
            assert(key_lt(c, b) || (c == b && order[k] < order[j]));
            lemma_text_total(a.ext, c.ext, false);
        }
    }
}

/// How texts are ordered: the first byte in which they differ decides, the lower one
/// first, and a text comes before those that it starts. For paths a slash is lower
/// than any other byte.
pub proof fn lemma_text_order(s: Seq<char>, t: Seq<char>, path: bool, i: int)
    requires
        0 <= i <= encode_utf8(s).len(),
        i <= encode_utf8(t).len(),
        forall|k: int| 0 <= k < i ==> #[trigger] encode_utf8(s)[k] == encode_utf8(t)[k],
    ensures
        i == encode_utf8(s).len() && i < encode_utf8(t).len() ==> text_lt(s, t, path) && !text_lt(
            t,
            s,
            path,
        ),
        i < encode_utf8(s).len() && i < encode_utf8(t).len() && encode_utf8(s)[i] < encode_utf8(
            t,
        )[i] && (!path || encode_utf8(t)[i] != 0x2F) ==> text_lt(s, t, path) && !text_lt(t, s, path),
        i < encode_utf8(s).len() && i < encode_utf8(t).len() && encode_utf8(s)[i] != encode_utf8(
            t,
        )[i] && path && encode_utf8(s)[i] == 0x2F ==> text_lt(s, t, path) && !text_lt(t, s, path),
{
    let a = ranks(s, path);
    let b = ranks(t, path);
    assert forall|k: int| 0 <= k < i implies #[trigger] a[k] == b[k] by {
        assert(encode_utf8(s)[k] == encode_utf8(t)[k]);
    }
    lemma_lex_step(a, b, i);
    lemma_lex_step(b, a, i);
    lemma_text_total(s, t, path);
}

proof fn lemma_lex_step(a: Seq<int>, b: Seq<int>, i: int)
    requires
        0 <= i <= a.len(),
        i <= b.len(),
        forall|k: int| 0 <= k < i ==> #[trigger] a[k] == b[k],
    ensures
        i == a.len() && i < b.len() ==> lex_lt(a, b),
        i < a.len() && i < b.len() && a[i] < b[i] ==> lex_lt(a, b),
    decreases i,
{
    if i > 0 {
        assert forall|k: int| 0 <= k < i - 1 implies #[trigger] a.skip(1)[k] == b.skip(1)[k] by {
            assert(a[k + 1] == b[k + 1]);
        }
        assert(a[0] == b[0]);
        lemma_lex_step(a.skip(1), b.skip(1), i - 1);
    }
}

} // verus!
