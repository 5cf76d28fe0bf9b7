//! Numbers as text: decimal digits with padding and grouping, and reading
//! integers and sizes from arguments.

use vstd::prelude::*;
use vstd::utf8::encode_utf8;
use crate::text::lemma_utf8_joined;

verus! {

/// The character of a decimal digit.
pub open spec fn digit_char(d: int) -> char {
    (48 + d) as char
}

/// The decimal digits of a number.
pub open spec fn decimal(n: int) -> Seq<char>
    decreases n,
{
    if n < 10 {
        seq![digit_char(n)]
    } else {
        decimal(n / 10).push(digit_char(n % 10))
    }
}

/// The last `w` decimal digits, with zeros in front.
pub open spec fn low_digits(n: int, w: nat) -> Seq<char>
    decreases w,
{
    if w == 0 {
        Seq::empty()
    } else {
        low_digits(n / 10, (w - 1) as nat).push(digit_char(n % 10))
    }
}

/// 10 to the power `w`.
pub open spec fn pow10(w: nat) -> int
    decreases w,
{
    if w == 0 {
        1
    } else {
        10 * pow10((w - 1) as nat)
    }
}

/// The decimal digits, with zeros in front up to a width.
pub open spec fn padded(n: int, w: nat) -> Seq<char> {
    if n < pow10(w) {
        low_digits(n, w)
    } else {
        decimal(n)
    }
}

/// The decimal digits in groups of three, with dots between the groups.
pub open spec fn grouped(n: int) -> Seq<char>
    decreases n,
{
    if n < 1000 {
        decimal(n)
    } else {
        grouped(n / 1000).push('.') + low_digits(n % 1000, 3)
    }
}

fn push_digit(out: &mut String, d: u64)
    requires
        d < 10,
    ensures
        final(out)@ == old(out)@.push(digit_char(d as int)),
{
    let b: u8 = 48 + d as u8;
    out.push(b as char);
}

/// Appends the decimal digits of `n`.
pub fn push_decimal(out: &mut String, n: u64)
    ensures
        final(out)@ == old(out)@ + decimal(n as int),
    decreases n,
{
    if n >= 10 {
        push_decimal(out, n / 10);
    }
    push_digit(out, n % 10);
    assert(out@ =~= old(out)@ + decimal(n as int));
}

/// Appends the last `w` digits of `n`.
pub fn push_low_digits(out: &mut String, n: u64, w: usize)
    ensures
        final(out)@ == old(out)@ + low_digits(n as int, w as nat),
    decreases w,
{
    if w > 0 {
        push_low_digits(out, n / 10, w - 1);
        push_digit(out, n % 10);
    }
    assert(out@ =~= old(out)@ + low_digits(n as int, w as nat));
}

/// Appends `n` with at least `w` digits, `w` at most 19.
pub fn push_padded(out: &mut String, n: u64, w: usize)
    requires
        w <= 19,
    ensures
        final(out)@ == old(out)@ + padded(n as int, w as nat),
{
    let mut limit: u64 = 1;
    let mut k: usize = 0;
    while k < w
        invariant
            k <= w <= 19,
            limit == pow10(k as nat),
        decreases w - k,
    {
        proof {
            lemma_pow10_bound((k + 1) as nat);
        }
        limit = limit * 10;
        k = k + 1;
    }
    if n < limit {
        push_low_digits(out, n, w);
    } else {
        push_decimal(out, n);
    }
}

proof fn lemma_pow10_bound(k: nat)
    requires
        k <= 19,
    ensures
        1 <= pow10(k) <= 10_000_000_000_000_000_000,
{
    reveal_with_fuel(pow10, 20);
}

/// Thousands separated by dots: 131858 becomes `131.858`.
pub fn eu_num(n: u64) -> (s: String)
    ensures
        s@ == grouped(n as int),
    decreases n,
{
    let mut out = String::new();
    if n < 1000 {
        push_decimal(&mut out, n);
        assert(out@ =~= decimal(n as int));
    } else {
        out = eu_num(n / 1000);
        out.push('.');
        push_low_digits(&mut out, n % 1000, 3);
    }
    out
}

/// Hours, minutes and seconds.
pub open spec fn clock(secs: int) -> Seq<char> {
    padded(secs / 3600, 2).push(':') + padded((secs / 60) % 60, 2).push(':') + padded(secs % 60, 2)
}

/// A duration as `HH:MM:SS`.
pub fn hms(secs: u64) -> (s: String)
    ensures
        s@ == clock(secs as int),
{
    let mut out = String::new();
    push_padded(&mut out, secs / 3600, 2);
    out.push(':');
    push_padded(&mut out, (secs / 60) % 60, 2);
    out.push(':');
    push_padded(&mut out, secs % 60, 2);
    assert(out@ =~= clock(secs as int));
    out
}

/// Whether a byte is a decimal digit.
pub open spec fn is_digit(b: u8) -> bool {
    48 <= b <= 57
}

/// Whether all bytes are decimal digits.
pub open spec fn all_digits(s: Seq<u8>) -> bool {
    forall|k: int| 0 <= k < s.len() ==> is_digit(#[trigger] s[k])
}

/// The number behind decimal digits.
pub open spec fn digits_value(s: Seq<u8>) -> int
    decreases s.len(),
{
    if s.len() == 0 {
        0
    } else {
        10 * digits_value(s.drop_last()) + (s.last() - 48)
    }
}

/// The number that digits, perhaps behind a plus sign, stand for.
pub open spec fn unsigned_value(s: Seq<u8>) -> Option<int> {
    let t = if s.len() > 0 && s[0] == 43 {
        s.skip(1)
    } else {
        s
    };
    if t.len() > 0 && all_digits(t) {
        Some(digits_value(t))
    } else {
        None
    }
}

/// The number that digits, perhaps behind a sign, stand for.
pub open spec fn signed_value(s: Seq<u8>) -> Option<int> {
    if s.len() > 0 && s[0] == 45 {
        let t = s.skip(1);
        if t.len() > 0 && all_digits(t) {
            Some(-digits_value(t))
        } else {
            None
        }
    } else {
        unsigned_value(s)
    }
}

/// A value within bounds, or nothing.
pub open spec fn within(v: Option<int>, lo: int, hi: int) -> Option<int> {
    match v {
        Some(x) if lo <= x <= hi => Some(x),
        _ => None,
    }
}

pub proof fn lemma_digits_value(s: Seq<u8>)
    requires
        all_digits(s),
    ensures
        digits_value(s) >= 0,
    decreases s.len(),
{
    if s.len() > 0 {
        assert(is_digit(s[s.len() - 1]));
        assert forall|k: int| 0 <= k < s.drop_last().len() implies is_digit(
            #[trigger] s.drop_last()[k],
        ) by {
            assert(is_digit(s[k]));
        }
        lemma_digits_value(s.drop_last());
    }
}

proof fn lemma_digits_grow(s: Seq<u8>, k: int)
    requires
        all_digits(s),
        0 <= k <= s.len(),
    ensures
        digits_value(s.take(k)) <= digits_value(s),
    decreases s.len() - k,
{
    if k == s.len() {
        assert(s.take(k) =~= s);
    } else {
        lemma_digits_grow(s, k + 1);
        assert(s.take(k + 1).drop_last() =~= s.take(k));
        assert(is_digit(s[k]));
        assert forall|j: int| 0 <= j < k implies is_digit(#[trigger] s.take(k)[j]) by {
            assert(is_digit(s[j]));
        }
        lemma_digits_value(s.take(k));
    }
}

/// The number behind decimal digits, where it is at most `max`.
fn read_digits(s: &[u8], max: u64) -> (r: Option<u64>)
    ensures
        match within(
            if s@.len() > 0 && all_digits(s@) {
                Some(digits_value(s@))
            } else {
                None
            },
            0,
            max as int,
        ) {
            Some(v) => r matches Some(x) && x == v,
            None => r is None,
        },
{
    if s.len() == 0 {
        return None;
    }
    let mut i: usize = 0;
    while i < s.len()
        invariant
            i <= s@.len(),
            forall|k: int| 0 <= k < i ==> is_digit(#[trigger] s@[k]),
        decreases s@.len() - i,
    {
        if s[i] < 48 || s[i] > 57 {
            assert(!is_digit(s@[i as int]));
            return None;
        }
        i = i + 1;
    }
    proof {
        lemma_digits_value(s@);
    }
    let mut v: u64 = 0;
    let mut i: usize = 0;
    assert(s@.take(0) =~= Seq::empty());
    while i < s.len()
        invariant
            i <= s@.len(),
            all_digits(s@),
            s@.len() > 0,
            v == digits_value(s@.take(i as int)),
            v <= max,
        decreases s@.len() - i,
    {
        proof {
            assert(s@.take(i + 1).drop_last() =~= s@.take(i as int));
            assert(is_digit(s@[i as int]));
            lemma_digits_grow(s@, i + 1);
        }
        let d: u64 = (s[i] - 48) as u64;
        if v > (u64::MAX - d) / 10 {
            return None;
        }
        v = 10 * v + d;
        if v > max {
            return None;
        }
        i = i + 1;
    }
    assert(s@.take(i as int) =~= s@);
    Some(v)
}

/// An unsigned integer of at most `max`.
pub fn parse_unsigned(s: &[u8], max: u64) -> (r: Option<u64>)
    ensures
        match within(unsigned_value(s@), 0, max as int) {
            Some(v) => r matches Some(x) && x == v,
            None => r is None,
        },
        r matches Some(x) ==> unsigned_value(s@) == Some(x as int) && x <= max,
        unsigned_value(s@) matches Some(v) ==> (0 <= v <= max ==> (r matches Some(x) && x == v)),
{
    if s.len() > 0 && s[0] == 43 {
        let t = vstd::slice::slice_subrange(s, 1, s.len());
        assert(t@ =~= s@.skip(1));
        read_digits(t, max)
    } else {
        read_digits(s, max)
    }
}

/// A signed integer between `-max - 1` and `max`.
pub fn parse_signed(s: &[u8], max: i64) -> (r: Option<i64>)
    requires
        max >= 0,
    ensures
        match within(signed_value(s@), -max - 1, max as int) {
            Some(v) => r matches Some(x) && x == v,
            None => r is None,
        },
        r matches Some(x) ==> signed_value(s@) == Some(x as int) && -max - 1 <= x <= max,
        signed_value(s@) matches Some(v) ==> (-max - 1 <= v <= max ==> (r matches Some(x) && x == v)),
{
    if s.len() > 0 && s[0] == 45 {
        let t = vstd::slice::slice_subrange(s, 1, s.len());
        assert(t@ =~= s@.skip(1));
        proof {
            if all_digits(t@) {
                lemma_digits_value(t@);
            }
        }
        match read_digits(t, max as u64 + 1) {
            Some(v) => {
                if v == max as u64 + 1 {
                    Some(-max - 1)
                } else {
                    Some(-(v as i64))
                }
            },
            None => None,
        }
    } else {
        proof {
            let t = if s@.len() > 0 && s@[0] == 43 {
                s@.skip(1)
            } else {
                s@
            };
            if all_digits(t) {
                lemma_digits_value(t);
            }
        }
        match parse_unsigned(s, max as u64) {
            Some(v) => Some(v as i64),
            None => None,
        }
    }
}

/// The characters are digits, and their bytes are the digits' codes, which stand for `n`.
spec fn spells(t: Seq<char>, n: int) -> bool {
    &&& forall|k: int| 0 <= k < t.len() ==> '0' <= #[trigger] t[k] <= '9'
    &&& all_digits(encode_utf8(t))
    &&& encode_utf8(t).len() == t.len()
    &&& digits_value(encode_utf8(t)) == n
}

proof fn lemma_spells_push(t: Seq<char>, n: int, d: int)
    requires
        spells(t, n),
        0 <= d < 10,
    ensures
        spells(t.push(digit_char(d)), 10 * n + d),
{
    let c = digit_char(d);
    let one = seq![c];
    let u = t.push(c);
    assert('0' <= c <= '9');
    assert(u =~= t + one);
    lemma_utf8_joined(t, one);
    vstd::utf8::is_ascii_chars_encode_utf8(one);
    let b = encode_utf8(t);
    let last = encode_utf8(one)[0];
    assert(encode_utf8(one) =~= seq![last]);
    assert(last == 48 + d);
    let e = encode_utf8(u);
    assert(e =~= b.push(last));
    assert(e.drop_last() =~= b);
    assert forall|k: int| 0 <= k < e.len() implies is_digit(#[trigger] e[k]) by {
        if k < b.len() {
            assert(is_digit(b[k]));
        }
    }
}

proof fn lemma_spells_nothing()
    ensures
        spells(Seq::empty(), 0),
{
    assert(encode_utf8(Seq::<char>::empty()) =~= Seq::empty());
}

proof fn lemma_low_digits_spell(n: int, w: nat)
    requires
        0 <= n < pow10(w),
    ensures
        spells(low_digits(n, w), n),
        low_digits(n, w).len() == w,
    decreases w,
{
    if w == 0 {
        lemma_spells_nothing();
    } else {
        lemma_low_digits_spell(n / 10, (w - 1) as nat);
        lemma_spells_push(low_digits(n / 10, (w - 1) as nat), n / 10, n % 10);
    }
}

proof fn lemma_decimal_spells(n: int)
    requires
        0 <= n,
    ensures
        spells(decimal(n), n),
        decimal(n).len() >= 1,
        n > 0 ==> decimal(n)[0] != '0',
        n == 0 ==> decimal(n) == seq!['0'],
    decreases n,
{
    if n < 10 {
        lemma_spells_nothing();
        lemma_spells_push(Seq::empty(), 0, n);
        assert(Seq::<char>::empty().push(digit_char(n)) =~= seq![digit_char(n)]);
    } else {
        lemma_decimal_spells(n / 10);
        lemma_spells_push(decimal(n / 10), n / 10, n % 10);
    }
}

/// A number in digits reads back as the number, and has no zero in front.
pub proof fn lemma_decimal_reads(n: int)
    requires
        0 <= n,
    ensures
        decimal(n).len() >= 1,
        forall|k: int| 0 <= k < decimal(n).len() ==> '0' <= #[trigger] decimal(n)[k] <= '9',
        n > 0 ==> decimal(n)[0] != '0',
        unsigned_value(encode_utf8(decimal(n))) == Some(n),
        signed_value(encode_utf8(decimal(n))) == Some(n),
        signed_value(seq![45u8] + encode_utf8(decimal(n))) == Some(-n),
{
    lemma_decimal_spells(n);
    let b = encode_utf8(decimal(n));
    assert(is_digit(b[0]));
    assert((seq![45u8] + b).skip(1) =~= b);
}

/// A number in at least `w` digits reads back as the number, and has exactly `w` digits
/// where it is below that power of ten.
pub proof fn lemma_padded_reads(n: int, w: nat)
    requires
        0 <= n,
        1 <= w,
    ensures
        padded(n, w).len() >= 1,
        forall|k: int| 0 <= k < padded(n, w).len() ==> '0' <= #[trigger] padded(n, w)[k] <= '9',
        unsigned_value(encode_utf8(padded(n, w))) == Some(n),
        w == 2 && n < 100 ==> padded(n, w).len() == 2,
        w == 3 && n < 1000 ==> padded(n, w).len() == 3,
        w == 4 && n < 10000 ==> padded(n, w).len() == 4,
{
    reveal_with_fuel(pow10, 5);
    if n < pow10(w) {
        lemma_low_digits_spell(n, w);
    } else {
        lemma_decimal_spells(n);
    }
    let b = encode_utf8(padded(n, w));
    assert(is_digit(b[0]));
}

/// A number in groups is the number in digits with dots between them: every fourth
/// character from the right is a dot, and no other.
pub proof fn lemma_grouped_reads(n: int)
    requires
        0 <= n,
    ensures
        grouped(n).filter(|c: char| c != '.') == decimal(n),
        forall|k: int|
            0 <= k < grouped(n).len() ==> (#[trigger] grouped(n)[k] == '.' <==> (grouped(n).len() - k)
                % 4 == 0),
        grouped(n)[0] != '.',
    decreases n,
{
    let digit = |c: char| c != '.';
    if n < 1000 {
        lemma_decimal_spells(n);
        lemma_no_dots(decimal(n));
        lemma_short_decimal(n);
    } else {
        let g = grouped(n / 1000);
        let low = low_digits(n % 1000, 3);
        lemma_grouped_reads(n / 1000);
        reveal_with_fuel(pow10, 4);
        lemma_low_digits_spell(n % 1000, 3);
        lemma_no_dots(low);
        let all = grouped(n);
        assert(all =~= g.push('.') + low);
        lemma_filter_joined(g.push('.'), low, digit);
        assert(g.push('.').filter(digit) == g.filter(digit)) by {
            reveal(Seq::filter);
            assert(g.push('.').drop_last() =~= g);
        }
        lemma_decimal_split(n);
        assert forall|k: int| 0 <= k < all.len() implies (#[trigger] all[k] == '.' <==> (all.len()
            - k) % 4 == 0) by {
            if k < g.len() {
                assert(all[k] == g[k]);
                assert((all.len() - k) % 4 == (g.len() - k) % 4);
            } else if k > g.len() {
                assert(all[k] == low[k - g.len() - 1]);
            }
        }
    }
}

proof fn lemma_short_decimal(n: int)
    requires
        0 <= n < 1000,
    ensures
        decimal(n).len() <= 3,
{
    reveal_with_fuel(decimal, 4);
}

/// The digits of a number are those of its thousands and its last three.
proof fn lemma_decimal_split(n: int)
    requires
        n >= 1000,
    ensures
        decimal(n / 1000) + low_digits(n % 1000, 3) == decimal(n),
{
    let t = decimal(n / 1000);
    let a = digit_char((n / 100) % 10);
    let b = digit_char((n / 10) % 10);
    let c = digit_char(n % 10);
    assert(decimal(n) == decimal(n / 10).push(c));
    assert(decimal(n / 10) == decimal(n / 100).push(b)) by {
        assert((n / 10) / 10 == n / 100);
    }
    assert(decimal(n / 100) == t.push(a)) by {
        assert((n / 100) / 10 == n / 1000);
    }
    let m = n % 1000;
    assert(low_digits(m, 3) == low_digits(m / 10, 2).push(c)) by {
        assert(m % 10 == n % 10);
    }
    assert(low_digits(m / 10, 2) == low_digits(m / 10 / 10, 1).push(b)) by {
        assert((m / 10) % 10 == (n / 10) % 10);
    }
    assert(low_digits(m / 10 / 10, 1) == low_digits(m / 10 / 10 / 10, 0).push(a)) by {
        assert((m / 10 / 10) % 10 == (n / 100) % 10);
    }
    assert(low_digits(m / 10 / 10 / 10, 0) =~= Seq::empty());
    assert(t + low_digits(m, 3) =~= t.push(a).push(b).push(c));
}

proof fn lemma_no_dots(t: Seq<char>)
    requires
        forall|k: int| 0 <= k < t.len() ==> '0' <= #[trigger] t[k] <= '9',
    ensures
        t.filter(|c: char| c != '.') == t,
    decreases t.len(),
{
    reveal(Seq::filter);
    if t.len() > 0 {
        lemma_no_dots(t.drop_last());
        assert('0' <= t[t.len() - 1] <= '9');
        assert(t.drop_last().push(t.last()) =~= t);
    }
}

proof fn lemma_filter_joined(a: Seq<char>, b: Seq<char>, keep: spec_fn(char) -> bool)
    ensures
        (a + b).filter(keep) == a.filter(keep) + b.filter(keep),
    decreases b.len(),
{
    reveal(Seq::filter);
    if b.len() == 0 {
        assert(a + b =~= a);
        assert(a.filter(keep) + b.filter(keep) =~= a.filter(keep));
    } else {
        lemma_filter_joined(a, b.drop_last(), keep);
        assert((a + b).drop_last() =~= a + b.drop_last());
        assert((a + b).last() == b.last());
        assert((a + b).filter(keep) =~= a.filter(keep) + b.filter(keep));
    }
}

/// A duration of hours, minutes and seconds shows these, each in at least two digits.
pub proof fn lemma_clock_shows(h: int, m: int, s: int)
    requires
        0 <= h,
        0 <= m < 60,
        0 <= s < 60,
    ensures
        clock(3600 * h + 60 * m + s) == padded(h, 2).push(':') + padded(m, 2).push(':') + padded(
            s,
            2,
        ),
{
    let t = 3600 * h + 60 * m + s;
    assert(t / 3600 == h);
    assert((t / 60) % 60 == m);
    assert(t % 60 == s);
}

/// A number is digits, at least one, with or without a plus sign in front; nothing else is
/// one.
pub proof fn lemma_number_needs_digits(s: Seq<u8>, k: int)
    ensures
        unsigned_value(Seq::empty()) is None,
        s.len() == 1 && !is_digit(s[0]) ==> unsigned_value(s) is None,
        1 <= k < s.len() && !(48 <= s[k] <= 57) ==> unsigned_value(s) is None,
        s.len() > 0 && !(48 <= s[0] <= 57) && s[0] != '+' as u8 ==> unsigned_value(s) is None,
        s.len() > 0 && all_digits(s) ==> unsigned_value(seq!['+' as u8] + s) == unsigned_value(s),
        s.len() > 0 && all_digits(s) ==> unsigned_value(s) is Some,
{
    if s.len() > 0 && all_digits(s) {
        assert((seq!['+' as u8] + s).skip(1) =~= s);
        assert(is_digit(s[0]));
    }
    if 1 <= k < s.len() {
        assert(s.skip(1)[k - 1] == s[k]);
    }
    if s.len() == 1 {
        assert(s.skip(1) =~= Seq::empty());
    }
}

} // verus!
