//! The command line: commands, flags and their values.

use vstd::prelude::*;
use vstd::utf8::encode_utf8;
use crate::archive::chars_of;
use crate::dates::{DateError, date_value, parse_date_arg};
use crate::delta::{is_valid_stride, valid_stride};
use crate::numbers::{
    all_digits, digits_value, parse_signed, parse_unsigned, pow10, signed_value, unsigned_value,
    within,
};
use crate::text::{str_eq, trimmed};

verus! {

/// The flags that stand alone, and whether each was given.
#[derive(Clone, Copy, Debug, PartialEq, Eq, Structural)]
pub struct Switches {
    pub verbose: bool,
    pub summary: bool,
    pub force: bool,
    pub store: bool,
    pub nochecksum: bool,
    pub nosort: bool,
    pub dict: bool,
    pub nodict: bool,
    pub xattrs: bool,
    pub append: bool,
    pub route: bool,
    pub dedup: bool,
    pub noprogress: bool,
    pub nolong: bool,
    pub nopreproc: bool,
    pub lzp: bool,
    pub fastcdc: bool,
    pub snapshot: bool,
    pub nocolor: bool,
}

/// No flag given.
pub open spec fn all_off() -> Switches {
    Switches {
        verbose: false,
        summary: false,
        force: false,
        store: false,
        nochecksum: false,
        nosort: false,
        dict: false,
        nodict: false,
        xattrs: false,
        append: false,
        route: false,
        dedup: false,
        noprogress: false,
        nolong: false,
        nopreproc: false,
        lzp: false,
        fastcdc: false,
        snapshot: false,
        nocolor: false,
    }
}

impl Switches {
    /// No flag given.
    pub fn new() -> (s: Self)
        ensures
            s == all_off(),
    {
        Switches {
            verbose: false,
            summary: false,
            force: false,
            store: false,
            nochecksum: false,
            nosort: false,
            dict: false,
            nodict: false,
            xattrs: false,
            append: false,
            route: false,
            dedup: false,
            noprogress: false,
            nolong: false,
            nopreproc: false,
            lzp: false,
            fastcdc: false,
            snapshot: false,
            nocolor: false,
        }
    }
}

/// The flags and their values.
#[derive(Debug)]
pub struct Opts {
    pub level: i32,
    pub threads: u32,
    pub to: Option<String>,
    pub find: Option<String>,
    pub bcj: Option<String>,
    pub exec_ok: Option<String>,
    pub exec_error: Option<String>,
    pub exclude: Vec<String>,
    pub minsize: Option<u64>,
    pub maxsize: Option<u64>,
    pub filelist: Option<String>,
    pub datefrom: Option<i64>,
    pub dateto: Option<i64>,
    pub chunk_bytes: Option<u64>,
    pub comment: Option<String>,
    pub hash: Option<String>,
    pub delta: Option<u8>,
    pub on: Switches,
}

pub struct OptsView {
    pub level: int,
    pub threads: int,
    pub to: Option<Seq<char>>,
    pub find: Option<Seq<char>>,
    pub bcj: Option<Seq<char>>,
    pub exec_ok: Option<Seq<char>>,
    pub exec_error: Option<Seq<char>>,
    pub exclude: Seq<Seq<char>>,
    pub minsize: Option<int>,
    pub maxsize: Option<int>,
    pub filelist: Option<Seq<char>>,
    pub datefrom: Option<int>,
    pub dateto: Option<int>,
    pub chunk_bytes: Option<int>,
    pub comment: Option<Seq<char>>,
    pub hash: Option<Seq<char>>,
    pub delta: Option<int>,
    pub on: Switches,
}

/// The characters of several strings.
pub open spec fn texts(v: Seq<String>) -> Seq<Seq<char>> {
    Seq::new(v.len(), |k: int| v[k]@)
}

/// An unsigned number that may be missing.
pub open spec fn int_of_u64(v: Option<u64>) -> Option<int> {
    match v {
        Some(x) => Some(x as int),
        None => None,
    }
}

/// A signed number that may be missing.
pub open spec fn int_of_i64(v: Option<i64>) -> Option<int> {
    match v {
        Some(x) => Some(x as int),
        None => None,
    }
}

impl View for Opts {
    type V = OptsView;

    open spec fn view(&self) -> OptsView {
        OptsView {
            level: self.level as int,
            threads: self.threads as int,
            to: chars_of(self.to),
            find: chars_of(self.find),
            bcj: chars_of(self.bcj),
            exec_ok: chars_of(self.exec_ok),
            exec_error: chars_of(self.exec_error),
            exclude: texts(self.exclude@),
            minsize: int_of_u64(self.minsize),
            maxsize: int_of_u64(self.maxsize),
            filelist: chars_of(self.filelist),
            datefrom: int_of_i64(self.datefrom),
            dateto: int_of_i64(self.dateto),
            chunk_bytes: int_of_u64(self.chunk_bytes),
            comment: chars_of(self.comment),
            hash: chars_of(self.hash),
            delta: match self.delta {
                Some(x) => Some(x as int),
                None => None,
            },
            on: self.on,
        }
    }
}

/// The options where no flag is given: level 5 and nothing else.
pub open spec fn no_flags() -> OptsView {
    OptsView {
        level: 5,
        threads: 0,
        to: None,
        find: None,
        bcj: None,
        exec_ok: None,
        exec_error: None,
        exclude: Seq::empty(),
        minsize: None,
        maxsize: None,
        filelist: None,
        datefrom: None,
        dateto: None,
        chunk_bytes: None,
        comment: None,
        hash: None,
        delta: None,
        on: all_off(),
    }
}

impl Opts {
    /// The options where no flag is given.
    pub fn new() -> (o: Self)
        ensures
            o@ == no_flags(),
    {
        let o = Opts {
            level: 5,
            threads: 0,
            to: None,
            find: None,
            bcj: None,
            exec_ok: None,
            exec_error: None,
            exclude: Vec::new(),
            minsize: None,
            maxsize: None,
            filelist: None,
            datefrom: None,
            dateto: None,
            chunk_bytes: None,
            comment: None,
            hash: None,
            delta: None,
            on: Switches::new(),
        };
        assert(o.exclude@.len() == 0);
        assert(texts(o.exclude@) =~= Seq::empty());
        o
    }
}

/// Why a command line is not understood.
#[derive(Debug)]
pub enum CliError {
    UnknownCommand(String),
    UnknownFlag(String),
    MissingValue(String),
    BadNumber,
    BadSize,
    BadDate(DateError),
    BadStride(u8),
    NeedsArchive,
    NeedsSource,
    NeedsArchiveAndDir,
    NeedsDir,
    NeedsTwoDirs,
}

pub enum CliErrorView {
    UnknownCommand(Seq<char>),
    UnknownFlag(Seq<char>),
    MissingValue(Seq<char>),
    BadNumber,
    BadSize,
    BadDate(DateError),
    BadStride(int),
    NeedsArchive,
    NeedsSource,
    NeedsArchiveAndDir,
    NeedsDir,
    NeedsTwoDirs,
}

impl View for CliError {
    type V = CliErrorView;

    open spec fn view(&self) -> CliErrorView {
        match self {
            CliError::UnknownCommand(s) => CliErrorView::UnknownCommand(s@),
            CliError::UnknownFlag(s) => CliErrorView::UnknownFlag(s@),
            CliError::MissingValue(s) => CliErrorView::MissingValue(s@),
            CliError::BadNumber => CliErrorView::BadNumber,
            CliError::BadSize => CliErrorView::BadSize,
            CliError::BadDate(e) => CliErrorView::BadDate(*e),
            CliError::BadStride(v) => CliErrorView::BadStride(*v as int),
            CliError::NeedsArchive => CliErrorView::NeedsArchive,
            CliError::NeedsSource => CliErrorView::NeedsSource,
            CliError::NeedsArchiveAndDir => CliErrorView::NeedsArchiveAndDir,
            CliError::NeedsDir => CliErrorView::NeedsDir,
            CliError::NeedsTwoDirs => CliErrorView::NeedsTwoDirs,
        }
    }
}

/// Whether a byte is a letter of ASCII.
pub open spec fn letter(b: u8) -> bool {
    65 <= b <= 90 || 97 <= b <= 122
}

/// The place of the first letter at or after `i`, or the end.
pub open spec fn letter_from(s: Seq<u8>, i: int) -> int
    decreases s.len() - i,
{
    if i >= s.len() {
        s.len() as int
    } else if letter(s[i]) {
        i
    } else {
        letter_from(s, i + 1)
    }
}

/// The place of the first dot at or after `i`, or the end.
pub open spec fn dot_from(s: Seq<u8>, i: int) -> int
    decreases s.len() - i,
{
    if i >= s.len() {
        s.len() as int
    } else if s[i] == 46 {
        i
    } else {
        dot_from(s, i + 1)
    }
}

/// What a letter multiplies by: K, M, G and T are powers of 1024.
pub open spec fn scale_of(b: u8) -> Option<int> {
    if b == 75 {
        Some(1024)
    } else if b == 77 {
        Some(1_048_576)
    } else if b == 71 {
        Some(1_073_741_824)
    } else if b == 84 {
        Some(1_099_511_627_776)
    } else {
        None
    }
}

/// The unit behind a number: `B`, or a scale, alone or with `B` or `iB`.
pub open spec fn unit_of(s: Seq<u8>) -> Option<int> {
    if s.len() == 1 && s[0] == 66 {
        Some(1)
    } else if s.len() == 1 || (s.len() == 2 && s[1] == 66) || (s.len() == 3 && s[1] == 105 && s[2]
        == 66) {
        scale_of(s[0])
    } else {
        None
    }
}

/// The size that a number and a unit make: a whole number of units, or a
/// decimal fraction of them, rounded down.
pub open spec fn scaled(num: Seq<u8>, unit: int) -> Option<int> {
    let dot = dot_from(num, 0);
    if dot >= num.len() {
        match unsigned_value(num) {
            Some(v) => Some(v * unit),
            None => None,
        }
    } else {
        let whole = num.take(dot);
        let frac = num.skip(dot + 1);
        if whole.len() > 0 && frac.len() > 0 && all_digits(whole) && all_digits(frac) {
            Some(digits_value(whole + frac) * unit / pow10(frac.len()))
        } else {
            None
        }
    }
}

/// A size argument in bytes, and whether it has no unit. A number without a unit
/// is a whole one.
#[verifier::opaque]
pub open spec fn size_value(s: Seq<u8>) -> Option<(int, bool)> {
    let p = letter_from(s, 0);
    if p >= s.len() {
        match within(unsigned_value(s), 0, u64::MAX as int) {
            Some(v) => Some((v, true)),
            None => None,
        }
    } else {
        match unit_of(s.skip(p)) {
            None => None,
            Some(unit) => match within(scaled(s.take(p), unit), 0, u64::MAX as int) {
                Some(v) => Some((v, false)),
                None => None,
            },
        }
    }
}

fn scale_value(b: u8) -> (r: Option<u64>)
    ensures
        match scale_of(b) {
            Some(v) => r matches Some(x) && x == v,
            None => r is None,
        },
{
    if b == 75 {
        Some(1024)
    } else if b == 77 {
        Some(1_048_576)
    } else if b == 71 {
        Some(1_073_741_824)
    } else if b == 84 {
        Some(1_099_511_627_776)
    } else {
        None
    }
}

fn unit_value(s: &[u8]) -> (r: Option<u64>)
    ensures
        match unit_of(s@) {
            Some(v) => r matches Some(x) && x == v && 1 <= x <= 1_099_511_627_776,
            None => r is None,
        },
{
    if s.len() == 1 && s[0] == 66 {
        Some(1)
    } else if s.len() == 1 || (s.len() == 2 && s[1] == 66) || (s.len() == 3 && s[1] == 105 && s[2]
        == 66) {
        scale_value(s[0])
    } else {
        None
    }
}

fn find_letter(s: &[u8]) -> (p: usize)
    ensures
        p == letter_from(s@, 0),
        p <= s@.len(),
{
    let mut i: usize = 0;
    while i < s.len() && !((65 <= s[i] && s[i] <= 90) || (97 <= s[i] && s[i] <= 122))
        invariant
            i <= s@.len(),
            letter_from(s@, i as int) == letter_from(s@, 0),
        decreases s@.len() - i,
    {
        i = i + 1;
    }
    i
}

fn find_dot(s: &[u8]) -> (p: usize)
    ensures
        p == dot_from(s@, 0),
        p <= s@.len(),
{
    let mut i: usize = 0;
    while i < s.len() && s[i] != 46
        invariant
            i <= s@.len(),
            dot_from(s@, i as int) == dot_from(s@, 0),
        decreases s@.len() - i,
    {
        i = i + 1;
    }
    i
}

fn only_digits(s: &[u8]) -> (r: bool)
    ensures
        r == (s@.len() > 0 && all_digits(s@)),
{
    let mut i: usize = 0;
    while i < s.len()
        invariant
            i <= s@.len(),
            forall|k: int| 0 <= k < i ==> crate::numbers::is_digit(#[trigger] s@[k]),
        decreases s@.len() - i,
    {
        if s[i] < 48 || s[i] > 57 {
            assert(!crate::numbers::is_digit(s@[i as int]));
            return false;
        }
        i = i + 1;
    }
    s.len() > 0
}

proof fn lemma_digits_bound(s: Seq<u8>)
    requires
        all_digits(s),
    ensures
        0 <= digits_value(s) < pow10(s.len()),
    decreases s.len(),
{
    if s.len() > 0 {
        assert(crate::numbers::is_digit(s[s.len() - 1]));
        assert forall|k: int| 0 <= k < s.drop_last().len() implies crate::numbers::is_digit(
            #[trigger] s.drop_last()[k],
        ) by {
            assert(crate::numbers::is_digit(s[k]));
        }
        lemma_digits_bound(s.drop_last());
    }
}

proof fn lemma_pow10_positive(n: nat)
    ensures
        pow10(n) >= 1,
    decreases n,
{
    if n > 0 {
        lemma_pow10_positive((n - 1) as nat);
    }
}

/// The number behind digits in two pieces.
proof fn lemma_digits_joined(a: Seq<u8>, b: Seq<u8>)
    ensures
        digits_value(a + b) == digits_value(a) * pow10(b.len()) + digits_value(b),
    decreases b.len(),
{
    if b.len() == 0 {
        assert(a + b =~= a);
    } else {
        let c = b.drop_last();
        assert((a + b).drop_last() =~= a + c);
        lemma_digits_joined(a, c);
        let (x, p) = (digits_value(a), pow10(c.len()));
        assert(10 * (x * p) == x * (10 * p)) by (nonlinear_arith);
    }
}

/// The part of a unit that the digits behind a decimal point stand for, rounded
/// down.
spec fn fraction(frac: Seq<u8>, unit: int) -> int {
    digits_value(frac) * unit / pow10(frac.len())
}

/// One more digit in front: a tenth of its units and of the fraction behind it.
proof fn lemma_fraction_step(d: u8, rest: Seq<u8>, unit: int)
    requires
        unit >= 0,
        48 <= d <= 57,
        all_digits(rest),
    ensures
        fraction(seq![d] + rest, unit) == ((d - 48) * unit + fraction(rest, unit)) / 10,
{
    let p = pow10(rest.len());
    let f = digits_value(rest);
    let m = (d - 48) * unit;
    lemma_pow10_positive(rest.len());
    lemma_digits_joined(seq![d], rest);
    assert(seq![d].drop_last() =~= Seq::empty());
    assert(digits_value(seq![d]) == d - 48) by {
        reveal_with_fuel(digits_value, 2);
    }
    let x = ((d - 48) * p + f) * unit;
    assert(x == f * unit + m * p) by (nonlinear_arith)
        requires
            x == ((d - 48) * p + f) * unit,
            m == (d - 48) * unit,
    ;
    assert((seq![d] + rest).len() == rest.len() + 1);
    assert(pow10((rest.len() + 1) as nat) == p * 10);
    vstd::arithmetic::div_mod::lemma_hoist_over_denominator(f * unit, m, p as nat);
    lemma_digits_bound(rest);
    assert(x >= 0) by (nonlinear_arith)
        requires
            x == ((d - 48) * p + f) * unit,
            d >= 48,
            p >= 1,
            f >= 0,
            unit >= 0,
    ;
    vstd::arithmetic::div_mod::lemma_div_denominator(x, p, 10);
}

/// The part of a unit that the digits behind a decimal point stand for.
fn scale_fraction(frac: &[u8], unit: u64) -> (r: u64)
    requires
        all_digits(frac@),
        1 <= unit <= 1_099_511_627_776,
    ensures
        r == fraction(frac@, unit as int),
        r < unit,
{
    let mut i: usize = frac.len();
    let mut v: u64 = 0;
    assert(frac@.skip(i as int) =~= Seq::empty());
    while i > 0
        invariant
            i <= frac@.len(),
            all_digits(frac@),
            1 <= unit <= 1_099_511_627_776,
            v == fraction(frac@.skip(i as int), unit as int),
            v < unit,
        decreases i,
    {
        i = i - 1;
        let d: u64 = (frac[i] - 48) as u64;
        proof {
            assert(crate::numbers::is_digit(frac@[i as int]));
            assert(frac@.skip(i as int) =~= seq![frac@[i as int]] + frac@.skip(i + 1));
            lemma_fraction_step(frac@[i as int], frac@.skip(i + 1), unit as int);
            assert(0 <= d * unit <= 9 * unit) by (nonlinear_arith)
                requires
                    0 <= d <= 9,
                    unit >= 1,
            ;
        }
        v = (d * unit + v) / 10;
    }
    assert(frac@.skip(0) =~= frac@);
    v
}

/// A decimal number of units is the whole ones and the part of one.
proof fn lemma_decimal(whole: Seq<u8>, frac: Seq<u8>, unit: int)
    requires
        unit >= 1,
        all_digits(whole),
        all_digits(frac),
    ensures
        digits_value(whole + frac) * unit / pow10(frac.len()) == digits_value(whole) * unit
            + fraction(frac, unit),
{
    let p = pow10(frac.len());
    let (w, f) = (digits_value(whole), digits_value(frac));
    lemma_pow10_positive(frac.len());
    lemma_digits_joined(whole, frac);
    assert((w * p + f) * unit == f * unit + (w * unit) * p) by (nonlinear_arith);
    vstd::arithmetic::div_mod::lemma_hoist_over_denominator(f * unit, w * unit, p as nat);
}

fn scale_number(num: &[u8], unit: u64) -> (r: Option<u64>)
    requires
        1 <= unit <= 1_099_511_627_776,
    ensures
        match within(scaled(num@, unit as int), 0, u64::MAX as int) {
            Some(v) => r matches Some(x) && x == v,
            None => r is None,
        },
{
    let dot: usize = find_dot(num);
    if dot >= num.len() {
        match parse_unsigned(num, u64::MAX) {
            Some(v) => {
                proof {
                    assert(v * unit >= 0) by (nonlinear_arith)
                        requires
                            0 <= v,
                            1 <= unit,
                    ;
                }
                v.checked_mul(unit)
            },
            None => {
                proof {
                    lemma_out_of_range(num@, unit as int);
                }
                None
            },
        }
    } else {
        let whole = vstd::slice::slice_subrange(num, 0, dot);
        let frac = vstd::slice::slice_subrange(num, dot + 1, num.len());
        assert(whole@ =~= num@.take(dot as int));
        assert(frac@ =~= num@.skip(dot + 1));
        if !only_digits(whole) || !only_digits(frac) {
            return None;
        }
        proof {
            lemma_decimal(whole@, frac@, unit as int);
            lemma_digits_bound(whole@);
            assert(crate::numbers::is_digit(whole@[0]));
        }
        let part: u64 = scale_fraction(frac, unit);
        let units: u64 = match parse_unsigned(whole, u64::MAX) {
            Some(v) => v,
            None => {
                proof {
                    lemma_out_of_range(whole@, unit as int);
                }
                return None;
            },
        };
        proof {
            assert(units * unit >= 0) by (nonlinear_arith)
                requires
                    0 <= units,
                    1 <= unit,
            ;
        }
        match units.checked_mul(unit) {
            Some(v) => v.checked_add(part),
            None => None,
        }
    }
}

/// A number that is too great by itself is too great in any unit.
proof fn lemma_out_of_range(num: Seq<u8>, unit: int)
    requires
        unit >= 1,
        within(unsigned_value(num), 0, u64::MAX as int) is None,
    ensures
        match unsigned_value(num) {
            Some(v) => within(Some(v * unit), 0, u64::MAX as int) is None,
            None => true,
        },
{
    if let Some(v) = unsigned_value(num) {
        let t = if num.len() > 0 && num[0] == 43 {
            num.skip(1)
        } else {
            num
        };
        lemma_digits_bound(t);
        assert(v * unit >= v) by (nonlinear_arith)
            requires
                v >= 0,
                unit >= 1,
        ;
    }
}

/// Reads a size argument: its bytes, and whether it has no unit.
pub fn parse_size(s: &str) -> (r: Option<(u64, bool)>)
    ensures
        match size_value(encode_utf8(s@)) {
            Some((v, bare)) => r matches Some((x, b)) && x == v && b == bare,
            None => r is None,
        },
{
    reveal(size_value);
    let b = s.as_bytes();
    let p: usize = find_letter(b);
    if p >= b.len() {
        return match parse_unsigned(b, u64::MAX) {
            Some(v) => Some((v, true)),
            None => None,
        };
    }
    let suffix = vstd::slice::slice_subrange(b, p, b.len());
    assert(suffix@ =~= b@.skip(p as int));
    let num = vstd::slice::slice_subrange(b, 0, p);
    assert(num@ =~= b@.take(p as int));
    match unit_value(suffix) {
        None => None,
        Some(unit) => match scale_number(num, unit) {
            Some(v) => Some((v, false)),
            None => None,
        },
    }
}

/// A flag that stands alone.
#[derive(Clone, Copy, Debug, PartialEq, Eq, Structural)]
pub enum Switch {
    Verbose,
    Summary,
    Force,
    Store,
    NoChecksum,
    NoSort,
    Dict,
    NoDict,
    Xattrs,
    Append,
    Route,
    Dedup,
    NoProgress,
    NoLong,
    NoPreproc,
    Lzp,
    FastCdc,
    Snapshot,
    NoColor,
}

/// A flag that takes a text.
#[derive(Clone, Copy, Debug, PartialEq, Eq, Structural)]
pub enum TextFlag {
    To,
    Find,
    Bcj,
    ExecOk,
    ExecError,
    FileList,
    Comment,
    Hash,
}

/// A flag that takes a value.
#[derive(Clone, Copy, Debug, PartialEq, Eq, Structural)]
pub enum Setting {
    Level,
    Threads,
    Exclude,
    MinSize,
    MaxSize,
    DateFrom,
    DateTo,
    Chunk,
    Delta,
    Text(TextFlag),
}

/// A flag.
#[derive(Clone, Copy, Debug, PartialEq, Eq, Structural)]
pub enum Flag {
    Switch(Switch),
    Setting(Setting),
}

/// The flag with a name.
pub open spec fn flag_of(name: Seq<char>) -> Option<Flag> {
    if name == "verbose"@ {
        Some(Flag::Switch(Switch::Verbose))
    } else if name == "summary"@ {
        Some(Flag::Switch(Switch::Summary))
    } else if name == "force"@ {
        Some(Flag::Switch(Switch::Force))
    } else if name == "store"@ {
        Some(Flag::Switch(Switch::Store))
    } else if name == "nochecksum"@ {
        Some(Flag::Switch(Switch::NoChecksum))
    } else if name == "nosort"@ {
        Some(Flag::Switch(Switch::NoSort))
    } else if name == "dict"@ {
        Some(Flag::Switch(Switch::Dict))
    } else if name == "nodict"@ {
        Some(Flag::Switch(Switch::NoDict))
    } else if name == "xattrs"@ {
        Some(Flag::Switch(Switch::Xattrs))
    } else if name == "append"@ {
        Some(Flag::Switch(Switch::Append))
    } else if name == "route"@ {
        Some(Flag::Switch(Switch::Route))
    } else if name == "dedup"@ {
        Some(Flag::Switch(Switch::Dedup))
    } else if name == "noprogress"@ || name == "noeta"@ {
        Some(Flag::Switch(Switch::NoProgress))
    } else if name == "nolong"@ {
        Some(Flag::Switch(Switch::NoLong))
    } else if name == "nopreproc"@ {
        Some(Flag::Switch(Switch::NoPreproc))
    } else if name == "lzp"@ {
        Some(Flag::Switch(Switch::Lzp))
    } else if name == "fastcdc"@ {
        Some(Flag::Switch(Switch::FastCdc))
    } else if name == "snapshot"@ {
        Some(Flag::Switch(Switch::Snapshot))
    } else if name == "nocolor"@ || name == "nc"@ {
        Some(Flag::Switch(Switch::NoColor))
    } else if name == "level"@ || name == "m"@ {
        Some(Flag::Setting(Setting::Level))
    } else if name == "threads"@ || name == "j"@ {
        Some(Flag::Setting(Setting::Threads))
    } else if name == "to"@ {
        Some(Flag::Setting(Setting::Text(TextFlag::To)))
    } else if name == "find"@ {
        Some(Flag::Setting(Setting::Text(TextFlag::Find)))
    } else if name == "bcj"@ {
        Some(Flag::Setting(Setting::Text(TextFlag::Bcj)))
    } else if name == "exec_ok"@ {
        Some(Flag::Setting(Setting::Text(TextFlag::ExecOk)))
    } else if name == "exec_error"@ {
        Some(Flag::Setting(Setting::Text(TextFlag::ExecError)))
    } else if name == "exclude"@ {
        Some(Flag::Setting(Setting::Exclude))
    } else if name == "minsize"@ {
        Some(Flag::Setting(Setting::MinSize))
    } else if name == "maxsize"@ {
        Some(Flag::Setting(Setting::MaxSize))
    } else if name == "filelist"@ {
        Some(Flag::Setting(Setting::Text(TextFlag::FileList)))
    } else if name == "datefrom"@ {
        Some(Flag::Setting(Setting::DateFrom))
    } else if name == "dateto"@ {
        Some(Flag::Setting(Setting::DateTo))
    } else if name == "chunk"@ {
        Some(Flag::Setting(Setting::Chunk))
    } else if name == "comment"@ {
        Some(Flag::Setting(Setting::Text(TextFlag::Comment)))
    } else if name == "hash"@ {
        Some(Flag::Setting(Setting::Text(TextFlag::Hash)))
    } else if name == "delta"@ {
        Some(Flag::Setting(Setting::Delta))
    } else {
        None
    }
}

pub fn lookup_flag(name: &str) -> (r: Option<Flag>)
    ensures
        r == flag_of(name@),
{
    if str_eq(name, "verbose") {
        Some(Flag::Switch(Switch::Verbose))
    } else if str_eq(name, "summary") {
        Some(Flag::Switch(Switch::Summary))
    } else if str_eq(name, "force") {
        Some(Flag::Switch(Switch::Force))
    } else if str_eq(name, "store") {
        Some(Flag::Switch(Switch::Store))
    } else if str_eq(name, "nochecksum") {
        Some(Flag::Switch(Switch::NoChecksum))
    } else if str_eq(name, "nosort") {
        Some(Flag::Switch(Switch::NoSort))
    } else if str_eq(name, "dict") {
        Some(Flag::Switch(Switch::Dict))
    } else if str_eq(name, "nodict") {
        Some(Flag::Switch(Switch::NoDict))
    } else if str_eq(name, "xattrs") {
        Some(Flag::Switch(Switch::Xattrs))
    } else if str_eq(name, "append") {
        Some(Flag::Switch(Switch::Append))
    } else if str_eq(name, "route") {
        Some(Flag::Switch(Switch::Route))
    } else if str_eq(name, "dedup") {
        Some(Flag::Switch(Switch::Dedup))
    } else if str_eq(name, "noprogress") || str_eq(name, "noeta") {
        Some(Flag::Switch(Switch::NoProgress))
    } else if str_eq(name, "nolong") {
        Some(Flag::Switch(Switch::NoLong))
    } else if str_eq(name, "nopreproc") {
        Some(Flag::Switch(Switch::NoPreproc))
    } else if str_eq(name, "lzp") {
        Some(Flag::Switch(Switch::Lzp))
    } else if str_eq(name, "fastcdc") {
        Some(Flag::Switch(Switch::FastCdc))
    } else if str_eq(name, "snapshot") {
        Some(Flag::Switch(Switch::Snapshot))
    } else if str_eq(name, "nocolor") || str_eq(name, "nc") {
        Some(Flag::Switch(Switch::NoColor))
    } else if str_eq(name, "level") || str_eq(name, "m") {
        Some(Flag::Setting(Setting::Level))
    } else if str_eq(name, "threads") || str_eq(name, "j") {
        Some(Flag::Setting(Setting::Threads))
    } else if str_eq(name, "to") {
        Some(Flag::Setting(Setting::Text(TextFlag::To)))
    } else if str_eq(name, "find") {
        Some(Flag::Setting(Setting::Text(TextFlag::Find)))
    } else if str_eq(name, "bcj") {
        Some(Flag::Setting(Setting::Text(TextFlag::Bcj)))
    } else if str_eq(name, "exec_ok") {
        Some(Flag::Setting(Setting::Text(TextFlag::ExecOk)))
    } else if str_eq(name, "exec_error") {
        Some(Flag::Setting(Setting::Text(TextFlag::ExecError)))
    } else if str_eq(name, "exclude") {
        Some(Flag::Setting(Setting::Exclude))
    } else if str_eq(name, "minsize") {
        Some(Flag::Setting(Setting::MinSize))
    } else if str_eq(name, "maxsize") {
        Some(Flag::Setting(Setting::MaxSize))
    } else if str_eq(name, "filelist") {
        Some(Flag::Setting(Setting::Text(TextFlag::FileList)))
    } else if str_eq(name, "datefrom") {
        Some(Flag::Setting(Setting::DateFrom))
    } else if str_eq(name, "dateto") {
        Some(Flag::Setting(Setting::DateTo))
    } else if str_eq(name, "chunk") {
        Some(Flag::Setting(Setting::Chunk))
    } else if str_eq(name, "comment") {
        Some(Flag::Setting(Setting::Text(TextFlag::Comment)))
    } else if str_eq(name, "hash") {
        Some(Flag::Setting(Setting::Text(TextFlag::Hash)))
    } else if str_eq(name, "delta") {
        Some(Flag::Setting(Setting::Delta))
    } else {
        None
    }
}

/// The switches once one more was given.
pub open spec fn switched(f: Switch, o: Switches) -> Switches {
    match f {
        Switch::Verbose => Switches { verbose: true, ..o },
        Switch::Summary => Switches { summary: true, ..o },
        Switch::Force => Switches { force: true, ..o },
        Switch::Store => Switches { store: true, ..o },
        Switch::NoChecksum => Switches { nochecksum: true, ..o },
        Switch::NoSort => Switches { nosort: true, ..o },
        Switch::Dict => Switches { dict: true, ..o },
        Switch::NoDict => Switches { nodict: true, ..o },
        Switch::Xattrs => Switches { xattrs: true, ..o },
        Switch::Append => Switches { append: true, ..o },
        Switch::Route => Switches { route: true, ..o },
        Switch::Dedup => Switches { dedup: true, ..o },
        Switch::NoProgress => Switches { noprogress: true, ..o },
        Switch::NoLong => Switches { nolong: true, ..o },
        Switch::NoPreproc => Switches { nopreproc: true, ..o },
        Switch::Lzp => Switches { lzp: true, ..o },
        Switch::FastCdc => Switches { fastcdc: true, ..o },
        Switch::Snapshot => Switches { snapshot: true, ..o },
        Switch::NoColor => Switches { nocolor: true, ..o },
    }
}

fn apply_switch(f: Switch, o: Switches) -> (r: Switches)
    ensures
        r == switched(f, o),
{
    match f {
        Switch::Verbose => Switches { verbose: true, ..o },
        Switch::Summary => Switches { summary: true, ..o },
        Switch::Force => Switches { force: true, ..o },
        Switch::Store => Switches { store: true, ..o },
        Switch::NoChecksum => Switches { nochecksum: true, ..o },
        Switch::NoSort => Switches { nosort: true, ..o },
        Switch::Dict => Switches { dict: true, ..o },
        Switch::NoDict => Switches { nodict: true, ..o },
        Switch::Xattrs => Switches { xattrs: true, ..o },
        Switch::Append => Switches { append: true, ..o },
        Switch::Route => Switches { route: true, ..o },
        Switch::Dedup => Switches { dedup: true, ..o },
        Switch::NoProgress => Switches { noprogress: true, ..o },
        Switch::NoLong => Switches { nolong: true, ..o },
        Switch::NoPreproc => Switches { nopreproc: true, ..o },
        Switch::Lzp => Switches { lzp: true, ..o },
        Switch::FastCdc => Switches { fastcdc: true, ..o },
        Switch::Snapshot => Switches { snapshot: true, ..o },
        Switch::NoColor => Switches { nocolor: true, ..o },
    }
}

/// The chunk size that a size argument asks for: without a unit it counts
/// mebibytes; no chunk is empty.
pub open spec fn chunk_size(v: int, bare: bool) -> int {
    let bytes = if bare {
        if v * 1_048_576 > u64::MAX {
            u64::MAX as int
        } else {
            v * 1_048_576
        }
    } else {
        v
    };
    if bytes < 1 {
        1
    } else {
        bytes
    }
}

/// The options once a flag was given a text.
pub open spec fn set_text(f: TextFlag, value: Seq<char>, o: OptsView) -> OptsView {
    match f {
        TextFlag::To => OptsView { to: Some(value), ..o },
        TextFlag::Find => OptsView { find: Some(value), ..o },
        TextFlag::Bcj => OptsView { bcj: Some(value), ..o },
        TextFlag::ExecOk => OptsView { exec_ok: Some(value), ..o },
        TextFlag::ExecError => OptsView { exec_error: Some(value), ..o },
        TextFlag::FileList => OptsView { filelist: Some(value), ..o },
        TextFlag::Comment => OptsView { comment: Some(value), ..o },
        TextFlag::Hash => OptsView { hash: Some(value), ..o },
    }
}

fn apply_text(f: TextFlag, value: &str, o: Opts) -> (r: Opts)
    ensures
        r@ == set_text(f, value@, o@),
{
    let text = Some(value.to_owned());
    match f {
        TextFlag::To => {
            return Opts { to: text, ..o };
        },
        TextFlag::Find => {
            return Opts { find: text, ..o };
        },
        TextFlag::Bcj => {
            return Opts { bcj: text, ..o };
        },
        TextFlag::ExecOk => {
            return Opts { exec_ok: text, ..o };
        },
        TextFlag::ExecError => {
            return Opts { exec_error: text, ..o };
        },
        TextFlag::FileList => {
            return Opts { filelist: text, ..o };
        },
        TextFlag::Comment => {
            return Opts { comment: text, ..o };
        },
        TextFlag::Hash => {
            return Opts { hash: text, ..o };
        },
    }
}

/// The options once a setting was given a value.
pub open spec fn set(f: Setting, value: Seq<char>, o: OptsView) -> Result<OptsView, CliErrorView> {
    let b = encode_utf8(value);
    match f {
        Setting::Level => match within(signed_value(b), i32::MIN as int, i32::MAX as int) {
            Some(v) => Ok(OptsView { level: v, ..o }),
            None => Err(CliErrorView::BadNumber),
        },
        Setting::Threads => match within(unsigned_value(b), 0, u32::MAX as int) {
            Some(v) => Ok(OptsView { threads: v, ..o }),
            None => Err(CliErrorView::BadNumber),
        },
        Setting::Exclude => Ok(OptsView { exclude: o.exclude.push(value), ..o }),
        Setting::MinSize => match size_value(b) {
            Some((v, _)) => Ok(OptsView { minsize: Some(v), ..o }),
            None => Err(CliErrorView::BadSize),
        },
        Setting::MaxSize => match size_value(b) {
            Some((v, _)) => Ok(OptsView { maxsize: Some(v), ..o }),
            None => Err(CliErrorView::BadSize),
        },
        Setting::Chunk => match size_value(b) {
            Some((v, bare)) => Ok(OptsView { chunk_bytes: Some(chunk_size(v, bare)), ..o }),
            None => Err(CliErrorView::BadSize),
        },
        Setting::DateFrom => match date_value(encode_utf8(trimmed(value))) {
            Ok(v) => Ok(OptsView { datefrom: Some(v), ..o }),
            Err(e) => Err(CliErrorView::BadDate(e)),
        },
        Setting::DateTo => match date_value(encode_utf8(trimmed(value))) {
            Ok(v) => Ok(OptsView { dateto: Some(v), ..o }),
            Err(e) => Err(CliErrorView::BadDate(e)),
        },
        Setting::Delta => match within(unsigned_value(b), 0, u8::MAX as int) {
            Some(v) => if valid_stride(v) {
                Ok(OptsView { delta: Some(v), ..o })
            } else {
                Err(CliErrorView::BadStride(v))
            },
            None => Err(CliErrorView::BadNumber),
        },
        Setting::Text(t) => Ok(set_text(t, value, o)),
    }
}

fn chunk_size_of(v: u64, bare: bool) -> (r: u64)
    ensures
        r == chunk_size(v as int, bare),
{
    let bytes: u64 = if bare {
        match v.checked_mul(1_048_576) {
            Some(b) => b,
            None => u64::MAX,
        }
    } else {
        v
    };
    if bytes < 1 {
        1
    } else {
        bytes
    }
}

fn apply_setting(f: Setting, value: &str, o: Opts) -> (res: Result<Opts, CliError>)
    ensures
        match set(f, value@, o@) {
            Ok(v) => res matches Ok(r) && r@ == v,
            Err(e) => res matches Err(x) && x@ == e,
        },
{
    let b = value.as_bytes();
    match f {
        Setting::Level => match parse_signed(b, i32::MAX as i64) {
            Some(v) => {
                return Ok(Opts { level: v as i32, ..o });
            },
            None => {
                return Err(CliError::BadNumber);
            },
        },
        Setting::Threads => match parse_unsigned(b, u32::MAX as u64) {
            Some(v) => {
                return Ok(Opts { threads: v as u32, ..o });
            },
            None => {
                return Err(CliError::BadNumber);
            },
        },
        Setting::Exclude => {
            let mut exclude = o.exclude;
            let ghost before = texts(exclude@);
            exclude.push(value.to_owned());
            assert(texts(exclude@) =~= before.push(value@));
            return Ok(Opts { exclude, ..o });
        },
        Setting::MinSize => match parse_size(value) {
            Some((v, _)) => {
                return Ok(Opts { minsize: Some(v), ..o });
            },
            None => {
                return Err(CliError::BadSize);
            },
        },
        Setting::MaxSize => match parse_size(value) {
            Some((v, _)) => {
                return Ok(Opts { maxsize: Some(v), ..o });
            },
            None => {
                return Err(CliError::BadSize);
            },
        },
        Setting::Chunk => match parse_size(value) {
            Some((v, bare)) => {
                return Ok(Opts { chunk_bytes: Some(chunk_size_of(v, bare)), ..o });
            },
            None => {
                return Err(CliError::BadSize);
            },
        },
        Setting::DateFrom => match parse_date_arg(value) {
            Ok(v) => {
                return Ok(Opts { datefrom: Some(v), ..o });
            },
            Err(e) => {
                return Err(CliError::BadDate(e));
            },
        },
        Setting::DateTo => match parse_date_arg(value) {
            Ok(v) => {
                return Ok(Opts { dateto: Some(v), ..o });
            },
            Err(e) => {
                return Err(CliError::BadDate(e));
            },
        },
        Setting::Delta => match parse_unsigned(b, u8::MAX as u64) {
            Some(v) => {
                if is_valid_stride(v as u8) {
                    return Ok(Opts { delta: Some(v as u8), ..o });
                } else {
                    return Err(CliError::BadStride(v as u8));
                }
            },
            None => {
                return Err(CliError::BadNumber);
            },
        },
        Setting::Text(t) => {
            return Ok(apply_text(t, value, o));
        },
    }
}

/// What the arguments from `i` on make of the words and options before them:
/// words without a dash, and a dash alone, are kept; flags change the options.
pub open spec fn split_from(
    args: Seq<Seq<char>>,
    i: int,
    words: Seq<Seq<char>>,
    o: OptsView,
) -> Result<(Seq<Seq<char>>, OptsView), CliErrorView>
    decreases args.len() - i,
{
    if i >= args.len() {
        Ok((words, o))
    } else {
        let a = args[i];
        if a.len() == 0 || a[0] != '-' || a == "-"@ {
            split_from(args, i + 1, words.push(a), o)
        } else {
            match flag_of(a.skip(1)) {
                None => Err(CliErrorView::UnknownFlag(a.skip(1))),
                Some(Flag::Switch(f)) => split_from(
                    args,
                    i + 1,
                    words,
                    OptsView { on: switched(f, o.on), ..o },
                ),
                Some(Flag::Setting(f)) => if i + 1 >= args.len() {
                    Err(CliErrorView::MissingValue(a.skip(1)))
                } else {
                    match set(f, args[i + 1], o) {
                        Err(e) => Err(e),
                        Ok(next) => split_from(args, i + 2, words, next),
                    }
                },
            }
        }
    }
}

/// The words and the options of some arguments.
pub open spec fn split(args: Seq<Seq<char>>) -> Result<(Seq<Seq<char>>, OptsView), CliErrorView> {
    split_from(args, 0, Seq::empty(), no_flags())
}

/// The characters of an argument behind its dash; nothing for a word.
fn flag_name(a: &str) -> (r: Option<String>)
    ensures
        match r {
            Some(n) => a@.len() > 0 && a@[0] == '-' && n@ == a@.skip(1),
            None => a@.len() == 0 || a@[0] != '-',
        },
{
    let mut out = String::new();
    let mut dash: bool = false;
    for c in it: a.chars()
        invariant
            it.seq() == a@,
            it.index() == 0 ==> !dash && out@.len() == 0,
            it.index() > 0 ==> a@[0] == '-' && dash && out@ == a@.subrange(1, it.index()),
    {
        if !dash {
            if c != '-' {
                return None;
            }
            dash = true;
            assert(a@.subrange(1, 1) =~= Seq::empty());
            assert(out@ =~= a@.subrange(1, 1));
        } else {
            let ghost n = it.index();
            assert(a@.subrange(1, n + 1) =~= a@.subrange(1, n).push(c));
            out.push(c);
        }
    }
    if dash {
        assert(a@.subrange(1, a@.len() as int) =~= a@.skip(1));
        Some(out)
    } else {
        None
    }
}

/// Separates words from flags.
pub fn split_flags(args: &[String]) -> (res: Result<(Vec<String>, Opts), CliError>)
    ensures
        match split(texts(args@)) {
            Ok((w, o)) => res matches Ok(r) && texts(r.0@) == w && r.1@ == o,
            Err(e) => res matches Err(x) && x@ == e,
        },
{
    let ghost all = texts(args@);
    let mut words: Vec<String> = Vec::new();
    let mut opts = Opts::new();
    let mut i: usize = 0;
    assert(texts(words@) =~= Seq::empty());
    while i < args.len()
        invariant
            i <= args@.len(),
            all == texts(args@),
            split_from(all, i as int, texts(words@), opts@) == split(all),
        decreases args@.len() - i,
    {
        let a = args[i].as_str();
        let ghost before = texts(words@);
        assert(all[i as int] == a@);
        let name = if str_eq(a, "-") {
            None
        } else {
            flag_name(a)
        };
        match name {
            None => {
                words.push(args[i].clone());
                assert(texts(words@) =~= before.push(a@));
                i = i + 1;
            },
            Some(n) => match lookup_flag(n.as_str()) {
                None => {
                    return Err(CliError::UnknownFlag(n));
                },
                Some(Flag::Switch(f)) => {
                    opts.on = apply_switch(f, opts.on);
                    i = i + 1;
                },
                Some(Flag::Setting(f)) => {
                    if args.len() - i < 2 {
                        return Err(CliError::MissingValue(n));
                    }
                    let value = args[i + 1].as_str();
                    assert(all[i + 1] == value@);
                    opts = match apply_setting(f, value, opts) {
                        Ok(o) => o,
                        Err(e) => {
                            return Err(e);
                        },
                    };
                    i = i + 2;
                },
            },
        }
    }
    Ok((words, opts))
}

/// A command with its arguments.
#[derive(Debug)]
pub enum Cmd {
    Add { archive: String, sources: Vec<String>, opts: Opts },
    Extract { archive: String, opts: Opts },
    List { archive: String, opts: Opts },
    Test { archive: String, opts: Opts },
    Compare { left: String, right: String, opts: Opts },
    Dedupe { root: String, opts: Opts },
    Verify { archive: String, source: String, opts: Opts },
    Help { topic: Option<String> },
    Version,
    Banner,
}

pub enum CmdView {
    Add { archive: Seq<char>, sources: Seq<Seq<char>>, opts: OptsView },
    Extract { archive: Seq<char>, opts: OptsView },
    List { archive: Seq<char>, opts: OptsView },
    Test { archive: Seq<char>, opts: OptsView },
    Compare { left: Seq<char>, right: Seq<char>, opts: OptsView },
    Dedupe { root: Seq<char>, opts: OptsView },
    Verify { archive: Seq<char>, source: Seq<char>, opts: OptsView },
    Help { topic: Option<Seq<char>> },
    Version,
    Banner,
}

impl View for Cmd {
    type V = CmdView;

    open spec fn view(&self) -> CmdView {
        match self {
            Cmd::Add { archive, sources, opts } => CmdView::Add {
                archive: archive@,
                sources: texts(sources@),
                opts: opts@,
            },
            Cmd::Extract { archive, opts } => CmdView::Extract { archive: archive@, opts: opts@ },
            Cmd::List { archive, opts } => CmdView::List { archive: archive@, opts: opts@ },
            Cmd::Test { archive, opts } => CmdView::Test { archive: archive@, opts: opts@ },
            Cmd::Compare { left, right, opts } => CmdView::Compare {
                left: left@,
                right: right@,
                opts: opts@,
            },
            Cmd::Dedupe { root, opts } => CmdView::Dedupe { root: root@, opts: opts@ },
            Cmd::Verify { archive, source, opts } => CmdView::Verify {
                archive: archive@,
                source: source@,
                opts: opts@,
            },
            Cmd::Help { topic } => CmdView::Help { topic: chars_of(*topic) },
            Cmd::Version => CmdView::Version,
            Cmd::Banner => CmdView::Banner,
        }
    }
}

/// A command word.
#[derive(Clone, Copy, Debug, PartialEq, Eq, Structural)]
pub enum Verb {
    Help,
    Version,
    Add,
    Extract,
    List,
    Test,
    Verify,
    Dedupe,
    Compare,
}

/// The command with a name.
pub open spec fn verb_of(name: Seq<char>) -> Option<Verb> {
    if name == "h"@ || name == "help"@ || name == "-h"@ || name == "--help"@ {
        Some(Verb::Help)
    } else if name == "-v"@ || name == "--version"@ {
        Some(Verb::Version)
    } else if name == "a"@ || name == "add"@ {
        Some(Verb::Add)
    } else if name == "x"@ || name == "extract"@ {
        Some(Verb::Extract)
    } else if name == "l"@ || name == "list"@ {
        Some(Verb::List)
    } else if name == "t"@ || name == "test"@ {
        Some(Verb::Test)
    } else if name == "v"@ || name == "verify"@ {
        Some(Verb::Verify)
    } else if name == "d"@ || name == "dedupe"@ {
        Some(Verb::Dedupe)
    } else if name == "c"@ || name == "compare"@ {
        Some(Verb::Compare)
    } else {
        None
    }
}

pub fn lookup_verb(name: &str) -> (r: Option<Verb>)
    ensures
        r == verb_of(name@),
{
    if str_eq(name, "h") || str_eq(name, "help") || str_eq(name, "-h") || str_eq(name, "--help") {
        Some(Verb::Help)
    } else if str_eq(name, "-v") || str_eq(name, "--version") {
        Some(Verb::Version)
    } else if str_eq(name, "a") || str_eq(name, "add") {
        Some(Verb::Add)
    } else if str_eq(name, "x") || str_eq(name, "extract") {
        Some(Verb::Extract)
    } else if str_eq(name, "l") || str_eq(name, "list") {
        Some(Verb::List)
    } else if str_eq(name, "t") || str_eq(name, "test") {
        Some(Verb::Test)
    } else if str_eq(name, "v") || str_eq(name, "verify") {
        Some(Verb::Verify)
    } else if str_eq(name, "d") || str_eq(name, "dedupe") {
        Some(Verb::Dedupe)
    } else if str_eq(name, "c") || str_eq(name, "compare") {
        Some(Verb::Compare)
    } else {
        None
    }
}

/// The command that a verb, words and options make. Extra words are passed
/// over.
pub open spec fn built(verb: Verb, w: Seq<Seq<char>>, o: OptsView) -> Result<
    CmdView,
    CliErrorView,
> {
    match verb {
        Verb::Help => Ok(CmdView::Help { topic: None }),
        Verb::Version => Ok(CmdView::Version),
        Verb::Add => if w.len() == 0 {
            Err(CliErrorView::NeedsArchive)
        } else if w.len() == 1 && o.filelist is None {
            Err(CliErrorView::NeedsSource)
        } else {
            Ok(CmdView::Add { archive: w[0], sources: w.skip(1), opts: o })
        },
        Verb::Extract => if w.len() == 0 {
            Err(CliErrorView::NeedsArchive)
        } else {
            Ok(CmdView::Extract { archive: w[0], opts: o })
        },
        Verb::List => if w.len() == 0 {
            Err(CliErrorView::NeedsArchive)
        } else {
            Ok(CmdView::List { archive: w[0], opts: o })
        },
        Verb::Test => if w.len() == 0 {
            Err(CliErrorView::NeedsArchive)
        } else {
            Ok(CmdView::Test { archive: w[0], opts: o })
        },
        Verb::Verify => if w.len() < 2 {
            Err(CliErrorView::NeedsArchiveAndDir)
        } else {
            Ok(CmdView::Verify { archive: w[0], source: w[1], opts: o })
        },
        Verb::Dedupe => if w.len() == 0 {
            Err(CliErrorView::NeedsDir)
        } else {
            Ok(CmdView::Dedupe { root: w[0], opts: o })
        },
        Verb::Compare => if w.len() < 2 {
            Err(CliErrorView::NeedsTwoDirs)
        } else {
            Ok(CmdView::Compare { left: w[0], right: w[1], opts: o })
        },
    }
}

/// The command that some arguments ask for; the first is the program's name.
/// Without a command the banner is asked for. Help looks only at the argument
/// behind it.
pub open spec fn command(args: Seq<Seq<char>>) -> Result<CmdView, CliErrorView> {
    if args.len() < 2 {
        Ok(CmdView::Banner)
    } else {
        match verb_of(args[1]) {
            None => Err(CliErrorView::UnknownCommand(args[1])),
            Some(Verb::Help) => Ok(
                CmdView::Help {
                    topic: if args.len() > 2 {
                        Some(args[2])
                    } else {
                        None
                    },
                },
            ),
            Some(Verb::Version) => Ok(CmdView::Version),
            Some(verb) => match split(args.skip(2)) {
                Err(e) => Err(e),
                Ok((w, o)) => built(verb, w, o),
            },
        }
    }
}

/// The strings of a slice from `from` on.
fn tail_of(v: &[String], from: usize) -> (r: Vec<String>)
    requires
        from <= v@.len(),
    ensures
        texts(r@) == texts(v@).skip(from as int),
{
    let mut out: Vec<String> = Vec::new();
    let mut i: usize = from;
    while i < v.len()
        invariant
            from <= i <= v@.len(),
            texts(out@) == texts(v@).subrange(from as int, i as int),
        decreases v@.len() - i,
    {
        let ghost before = texts(out@);
        out.push(v[i].clone());
        assert(texts(out@) =~= before.push(v@[i as int]@));
        assert(texts(v@).subrange(from as int, i + 1) =~= before.push(v@[i as int]@));
        i = i + 1;
    }
    assert(texts(out@) =~= texts(v@).skip(from as int));
    out
}

fn build(verb: Verb, words: Vec<String>, opts: Opts) -> (res: Result<Cmd, CliError>)
    ensures
        match built(verb, texts(words@), opts@) {
            Ok(c) => res matches Ok(r) && r@ == c,
            Err(e) => res matches Err(x) && x@ == e,
        },
{
    let n: usize = words.len();
    match verb {
        Verb::Help => Ok(Cmd::Help { topic: None }),
        Verb::Version => Ok(Cmd::Version),
        Verb::Add => {
            if n == 0 {
                return Err(CliError::NeedsArchive);
            }
            if n == 1 && opts.filelist.is_none() {
                return Err(CliError::NeedsSource);
            }
            let sources = tail_of(&words, 1);
            Ok(Cmd::Add { archive: words[0].clone(), sources, opts })
        },
        Verb::Extract => {
            if n == 0 {
                return Err(CliError::NeedsArchive);
            }
            Ok(Cmd::Extract { archive: words[0].clone(), opts })
        },
        Verb::List => {
            if n == 0 {
                return Err(CliError::NeedsArchive);
            }
            Ok(Cmd::List { archive: words[0].clone(), opts })
        },
        Verb::Test => {
            if n == 0 {
                return Err(CliError::NeedsArchive);
            }
            Ok(Cmd::Test { archive: words[0].clone(), opts })
        },
        Verb::Verify => {
            if n < 2 {
                return Err(CliError::NeedsArchiveAndDir);
            }
            Ok(Cmd::Verify { archive: words[0].clone(), source: words[1].clone(), opts })
        },
        Verb::Dedupe => {
            if n == 0 {
                return Err(CliError::NeedsDir);
            }
            Ok(Cmd::Dedupe { root: words[0].clone(), opts })
        },
        Verb::Compare => {
            if n < 2 {
                return Err(CliError::NeedsTwoDirs);
            }
            Ok(Cmd::Compare { left: words[0].clone(), right: words[1].clone(), opts })
        },
    }
}

/// Reads a command line.
pub fn parse(args: Vec<String>) -> (res: Result<Cmd, CliError>)
    ensures
        match command(texts(args@)) {
            Ok(c) => res matches Ok(r) && r@ == c,
            Err(e) => res matches Err(x) && x@ == e,
        },
{
    if args.len() < 2 {
        return Ok(Cmd::Banner);
    }
    assert(texts(args@)[1] == args@[1]@);
    let verb = match lookup_verb(args[1].as_str()) {
        Some(v) => v,
        None => {
            return Err(CliError::UnknownCommand(args[1].clone()));
        },
    };
    match verb {
        Verb::Help => {
            let topic: Option<String> = if args.len() > 2 {
                Some(args[2].clone())
            } else {
                None
            };
            return Ok(Cmd::Help { topic });
        },
        Verb::Version => {
            return Ok(Cmd::Version);
        },
        _ => {},
    }
    let rest = vstd::slice::slice_subrange(args.as_slice(), 2, args.len());
    assert(texts(rest@) =~= texts(args@).skip(2));
    match split_flags(rest) {
        Ok((words, opts)) => build(verb, words, opts),
        Err(e) => Err(e),
    }
}

/// The names of the flags, as far as it takes to tell them apart.
proof fn lemma_flag_names()
    ensures
        "verbose"@.len() == 7,
        "verbose"@[0] == 'v',
        "verbose"@[1] == 'e',
        "verbose"@[2] == 'r',
        "summary"@.len() == 7,
        "summary"@[0] == 's',
        "summary"@[1] == 'u',
        "summary"@[2] == 'm',
        "force"@.len() == 5,
        "force"@[0] == 'f',
        "force"@[1] == 'o',
        "force"@[2] == 'r',
        "store"@.len() == 5,
        "store"@[0] == 's',
        "store"@[1] == 't',
        "store"@[2] == 'o',
        "nochecksum"@.len() == 10,
        "nochecksum"@[0] == 'n',
        "nochecksum"@[1] == 'o',
        "nochecksum"@[2] == 'c',
        "nosort"@.len() == 6,
        "nosort"@[0] == 'n',
        "nosort"@[1] == 'o',
        "nosort"@[2] == 's',
        "dict"@.len() == 4,
        "dict"@[0] == 'd',
        "dict"@[1] == 'i',
        "dict"@[2] == 'c',
        "nodict"@.len() == 6,
        "nodict"@[0] == 'n',
        "nodict"@[1] == 'o',
        "nodict"@[2] == 'd',
        "xattrs"@.len() == 6,
        "xattrs"@[0] == 'x',
        "xattrs"@[1] == 'a',
        "xattrs"@[2] == 't',
        "append"@.len() == 6,
        "append"@[0] == 'a',
        "append"@[1] == 'p',
        "append"@[2] == 'p',
        "route"@.len() == 5,
        "route"@[0] == 'r',
        "route"@[1] == 'o',
        "route"@[2] == 'u',
        "dedup"@.len() == 5,
        "dedup"@[0] == 'd',
        "dedup"@[1] == 'e',
        "dedup"@[2] == 'd',
        "noprogress"@.len() == 10,
        "noprogress"@[0] == 'n',
        "noprogress"@[1] == 'o',
        "noprogress"@[2] == 'p',
        "noeta"@.len() == 5,
        "noeta"@[0] == 'n',
        "noeta"@[1] == 'o',
        "noeta"@[2] == 'e',
        "nolong"@.len() == 6,
        "nolong"@[0] == 'n',
        "nolong"@[1] == 'o',
        "nolong"@[2] == 'l',
        "nopreproc"@.len() == 9,
        "nopreproc"@[0] == 'n',
        "nopreproc"@[1] == 'o',
        "nopreproc"@[2] == 'p',
        "lzp"@.len() == 3,
        "lzp"@[0] == 'l',
        "lzp"@[1] == 'z',
        "lzp"@[2] == 'p',
        "fastcdc"@.len() == 7,
        "fastcdc"@[0] == 'f',
        "fastcdc"@[1] == 'a',
        "fastcdc"@[2] == 's',
        "snapshot"@.len() == 8,
        "snapshot"@[0] == 's',
        "snapshot"@[1] == 'n',
        "snapshot"@[2] == 'a',
        "nocolor"@.len() == 7,
        "nocolor"@[0] == 'n',
        "nocolor"@[1] == 'o',
        "nocolor"@[2] == 'c',
        "nc"@.len() == 2,
        "nc"@[0] == 'n',
        "nc"@[1] == 'c',
        "level"@.len() == 5,
        "level"@[0] == 'l',
        "level"@[1] == 'e',
        "level"@[2] == 'v',
        "m"@.len() == 1,
        "m"@[0] == 'm',
        "threads"@.len() == 7,
        "threads"@[0] == 't',
        "threads"@[1] == 'h',
        "threads"@[2] == 'r',
        "j"@.len() == 1,
        "j"@[0] == 'j',
        "to"@.len() == 2,
        "to"@[0] == 't',
        "to"@[1] == 'o',
        "find"@.len() == 4,
        "find"@[0] == 'f',
        "find"@[1] == 'i',
        "find"@[2] == 'n',
        "bcj"@.len() == 3,
        "bcj"@[0] == 'b',
        "bcj"@[1] == 'c',
        "bcj"@[2] == 'j',
        "exec_ok"@.len() == 7,
        "exec_ok"@[0] == 'e',
        "exec_ok"@[1] == 'x',
        "exec_ok"@[2] == 'e',
        "exec_error"@.len() == 10,
        "exec_error"@[0] == 'e',
        "exec_error"@[1] == 'x',
        "exec_error"@[2] == 'e',
        "exclude"@.len() == 7,
        "exclude"@[0] == 'e',
        "exclude"@[1] == 'x',
        "exclude"@[2] == 'c',
        "minsize"@.len() == 7,
        "minsize"@[0] == 'm',
        "minsize"@[1] == 'i',
        "minsize"@[2] == 'n',
        "maxsize"@.len() == 7,
        "maxsize"@[0] == 'm',
        "maxsize"@[1] == 'a',
        "maxsize"@[2] == 'x',
        "filelist"@.len() == 8,
        "filelist"@[0] == 'f',
        "filelist"@[1] == 'i',
        "filelist"@[2] == 'l',
        "datefrom"@.len() == 8,
        "datefrom"@[0] == 'd',
        "datefrom"@[1] == 'a',
        "datefrom"@[2] == 't',
        "dateto"@.len() == 6,
        "dateto"@[0] == 'd',
        "dateto"@[1] == 'a',
        "dateto"@[2] == 't',
        "chunk"@.len() == 5,
        "chunk"@[0] == 'c',
        "chunk"@[1] == 'h',
        "chunk"@[2] == 'u',
        "comment"@.len() == 7,
        "comment"@[0] == 'c',
        "comment"@[1] == 'o',
        "comment"@[2] == 'm',
        "hash"@.len() == 4,
        "hash"@[0] == 'h',
        "hash"@[1] == 'a',
        "hash"@[2] == 's',
        "delta"@.len() == 5,
        "delta"@[0] == 'd',
        "delta"@[1] == 'e',
        "delta"@[2] == 'l',
{
    reveal_strlit("verbose");
    reveal_strlit("summary");
    reveal_strlit("force");
    reveal_strlit("store");
    reveal_strlit("nochecksum");
    reveal_strlit("nosort");
    reveal_strlit("dict");
    reveal_strlit("nodict");
    reveal_strlit("xattrs");
    reveal_strlit("append");
    reveal_strlit("route");
    reveal_strlit("dedup");
    reveal_strlit("noprogress");
    reveal_strlit("noeta");
    reveal_strlit("nolong");
    reveal_strlit("nopreproc");
    reveal_strlit("lzp");
    reveal_strlit("fastcdc");
    reveal_strlit("snapshot");
    reveal_strlit("nocolor");
    reveal_strlit("nc");
    reveal_strlit("level");
    reveal_strlit("m");
    reveal_strlit("threads");
    reveal_strlit("j");
    reveal_strlit("to");
    reveal_strlit("find");
    reveal_strlit("bcj");
    reveal_strlit("exec_ok");
    reveal_strlit("exec_error");
    reveal_strlit("exclude");
    reveal_strlit("minsize");
    reveal_strlit("maxsize");
    reveal_strlit("filelist");
    reveal_strlit("datefrom");
    reveal_strlit("dateto");
    reveal_strlit("chunk");
    reveal_strlit("comment");
    reveal_strlit("hash");
    reveal_strlit("delta");
}

/// Without flags the level is 5, and nothing else is asked for.
pub proof fn lemma_no_flags_tell()
    ensures
        ({
            let o = no_flags();
            &&& o.level == 5 && o.threads == 0 && o.exclude.len() == 0
            &&& o.to is None && o.find is None && o.bcj is None && o.exec_ok is None && o.exec_error
                is None && o.filelist is None && o.comment is None && o.hash is None
            &&& o.minsize is None && o.maxsize is None && o.datefrom is None && o.dateto is None
                && o.chunk_bytes is None && o.delta is None
            &&& !o.on.verbose && !o.on.summary && !o.on.force && !o.on.store && !o.on.nochecksum
                && !o.on.nosort && !o.on.dict && !o.on.nodict && !o.on.xattrs && !o.on.append
                && !o.on.route && !o.on.dedup && !o.on.noprogress && !o.on.nolong && !o.on.nopreproc
                && !o.on.lzp && !o.on.fastcdc && !o.on.snapshot && !o.on.nocolor
        }),
{
}

/// An argument that does not start with a dash, and a dash alone, is kept as a word, and
/// changes no option.
pub proof fn lemma_words_are_kept(args: Seq<Seq<char>>, i: int, words: Seq<Seq<char>>, o: OptsView)
    requires
        0 <= i < args.len(),
        args[i].len() <= 1 || args[i][0] != '-',
    ensures
        split_from(args, i, words, o) == split_from(args, i + 1, words.push(args[i]), o),
{
    reveal_strlit("-");
    if args[i].len() == 1 && args[i][0] == '-' {
        assert(args[i] =~= "-"@);
    }
}

/// A flag that stands alone sets its own switch, wherever it is given, and nothing else.
pub proof fn lemma_switch_sets_its_own(
    args: Seq<Seq<char>>,
    i: int,
    words: Seq<Seq<char>>,
    o: OptsView,
)
    requires
        0 <= i < args.len(),
        args[i].len() > 1,
        args[i][0] == '-',
    ensures
        args[i].skip(1) == "verbose"@ ==> split_from(args, i, words, o) == split_from(
            args,
            i + 1,
            words,
            OptsView { on: Switches { verbose: true, ..o.on }, ..o },
        ),
        args[i].skip(1) == "summary"@ ==> split_from(args, i, words, o) == split_from(
            args,
            i + 1,
            words,
            OptsView { on: Switches { summary: true, ..o.on }, ..o },
        ),
        args[i].skip(1) == "force"@ ==> split_from(args, i, words, o) == split_from(
            args,
            i + 1,
            words,
            OptsView { on: Switches { force: true, ..o.on }, ..o },
        ),
        args[i].skip(1) == "store"@ ==> split_from(args, i, words, o) == split_from(
            args,
            i + 1,
            words,
            OptsView { on: Switches { store: true, ..o.on }, ..o },
        ),
        args[i].skip(1) == "nochecksum"@ ==> split_from(args, i, words, o) == split_from(
            args,
            i + 1,
            words,
            OptsView { on: Switches { nochecksum: true, ..o.on }, ..o },
        ),
        args[i].skip(1) == "nosort"@ ==> split_from(args, i, words, o) == split_from(
            args,
            i + 1,
            words,
            OptsView { on: Switches { nosort: true, ..o.on }, ..o },
        ),
        args[i].skip(1) == "dict"@ ==> split_from(args, i, words, o) == split_from(
            args,
            i + 1,
            words,
            OptsView { on: Switches { dict: true, ..o.on }, ..o },
        ),
        args[i].skip(1) == "nodict"@ ==> split_from(args, i, words, o) == split_from(
            args,
            i + 1,
            words,
            OptsView { on: Switches { nodict: true, ..o.on }, ..o },
        ),
        args[i].skip(1) == "xattrs"@ ==> split_from(args, i, words, o) == split_from(
            args,
            i + 1,
            words,
            OptsView { on: Switches { xattrs: true, ..o.on }, ..o },
        ),
        args[i].skip(1) == "append"@ ==> split_from(args, i, words, o) == split_from(
            args,
            i + 1,
            words,
            OptsView { on: Switches { append: true, ..o.on }, ..o },
        ),
        args[i].skip(1) == "route"@ ==> split_from(args, i, words, o) == split_from(
            args,
            i + 1,
            words,
            OptsView { on: Switches { route: true, ..o.on }, ..o },
        ),
        args[i].skip(1) == "dedup"@ ==> split_from(args, i, words, o) == split_from(
            args,
            i + 1,
            words,
            OptsView { on: Switches { dedup: true, ..o.on }, ..o },
        ),
        args[i].skip(1) == "noprogress"@ ==> split_from(args, i, words, o) == split_from(
            args,
            i + 1,
            words,
            OptsView { on: Switches { noprogress: true, ..o.on }, ..o },
        ),
        args[i].skip(1) == "noeta"@ ==> split_from(args, i, words, o) == split_from(
            args,
            i + 1,
            words,
            OptsView { on: Switches { noprogress: true, ..o.on }, ..o },
        ),
        args[i].skip(1) == "nolong"@ ==> split_from(args, i, words, o) == split_from(
            args,
            i + 1,
            words,
            OptsView { on: Switches { nolong: true, ..o.on }, ..o },
        ),
        args[i].skip(1) == "nopreproc"@ ==> split_from(args, i, words, o) == split_from(
            args,
            i + 1,
            words,
            OptsView { on: Switches { nopreproc: true, ..o.on }, ..o },
        ),
        args[i].skip(1) == "lzp"@ ==> split_from(args, i, words, o) == split_from(
            args,
            i + 1,
            words,
            OptsView { on: Switches { lzp: true, ..o.on }, ..o },
        ),
        args[i].skip(1) == "fastcdc"@ ==> split_from(args, i, words, o) == split_from(
            args,
            i + 1,
            words,
            OptsView { on: Switches { fastcdc: true, ..o.on }, ..o },
        ),
        args[i].skip(1) == "snapshot"@ ==> split_from(args, i, words, o) == split_from(
            args,
            i + 1,
            words,
            OptsView { on: Switches { snapshot: true, ..o.on }, ..o },
        ),
        args[i].skip(1) == "nocolor"@ ==> split_from(args, i, words, o) == split_from(
            args,
            i + 1,
            words,
            OptsView { on: Switches { nocolor: true, ..o.on }, ..o },
        ),
        args[i].skip(1) == "nc"@ ==> split_from(args, i, words, o) == split_from(
            args,
            i + 1,
            words,
            OptsView { on: Switches { nocolor: true, ..o.on }, ..o },
        ),
{
    reveal_strlit("-");
    assert(args[i] != "-"@);
    lemma_flag_names();
}

/// A flag with a value sets its own option to the value of the argument behind it, and
/// nothing else. Parts without a unit are counted in mebibytes.
pub proof fn lemma_setting_sets_its_own(
    args: Seq<Seq<char>>,
    i: int,
    words: Seq<Seq<char>>,
    o: OptsView,
)
    requires
        0 <= i,
        i + 1 < args.len(),
        args[i].len() > 1,
        args[i][0] == '-',
    ensures
        args[i].skip(1) == "to"@ ==> split_from(args, i, words, o) == split_from(
            args,
            i + 2,
            words,
            OptsView { to: Some(args[i + 1]), ..o },
        ),
        args[i].skip(1) == "find"@ ==> split_from(args, i, words, o) == split_from(
            args,
            i + 2,
            words,
            OptsView { find: Some(args[i + 1]), ..o },
        ),
        args[i].skip(1) == "bcj"@ ==> split_from(args, i, words, o) == split_from(
            args,
            i + 2,
            words,
            OptsView { bcj: Some(args[i + 1]), ..o },
        ),
        args[i].skip(1) == "exec_ok"@ ==> split_from(args, i, words, o) == split_from(
            args,
            i + 2,
            words,
            OptsView { exec_ok: Some(args[i + 1]), ..o },
        ),
        args[i].skip(1) == "exec_error"@ ==> split_from(args, i, words, o) == split_from(
            args,
            i + 2,
            words,
            OptsView { exec_error: Some(args[i + 1]), ..o },
        ),
        args[i].skip(1) == "filelist"@ ==> split_from(args, i, words, o) == split_from(
            args,
            i + 2,
            words,
            OptsView { filelist: Some(args[i + 1]), ..o },
        ),
        args[i].skip(1) == "comment"@ ==> split_from(args, i, words, o) == split_from(
            args,
            i + 2,
            words,
            OptsView { comment: Some(args[i + 1]), ..o },
        ),
        args[i].skip(1) == "hash"@ ==> split_from(args, i, words, o) == split_from(
            args,
            i + 2,
            words,
            OptsView { hash: Some(args[i + 1]), ..o },
        ),
        args[i].skip(1) == "exclude"@ ==> split_from(args, i, words, o) == split_from(
            args,
            i + 2,
            words,
            OptsView { exclude: o.exclude.push(args[i + 1]), ..o },
        ),
        args[i].skip(1) == "level"@ ==> (signed_value(encode_utf8(args[i + 1])) matches Some(v) ==> (i32::MIN <= v
            <= i32::MAX ==> split_from(args, i, words, o) == split_from(
            args,
            i + 2,
            words,
            OptsView { level: v, ..o },
        ))),
        args[i].skip(1) == "m"@ ==> (signed_value(encode_utf8(args[i + 1])) matches Some(v) ==> (i32::MIN <= v
            <= i32::MAX ==> split_from(args, i, words, o) == split_from(
            args,
            i + 2,
            words,
            OptsView { level: v, ..o },
        ))),
        args[i].skip(1) == "threads"@ ==> (unsigned_value(encode_utf8(args[i + 1])) matches Some(v) ==> (0 <= v
            <= u32::MAX ==> split_from(args, i, words, o) == split_from(
            args,
            i + 2,
            words,
            OptsView { threads: v, ..o },
        ))),
        args[i].skip(1) == "j"@ ==> (unsigned_value(encode_utf8(args[i + 1])) matches Some(v) ==> (0 <= v
            <= u32::MAX ==> split_from(args, i, words, o) == split_from(
            args,
            i + 2,
            words,
            OptsView { threads: v, ..o },
        ))),
        args[i].skip(1) == "minsize"@ ==> (size_value(encode_utf8(args[i + 1])) matches Some((v, _))
            ==> split_from(args, i, words, o) == split_from(
            args,
            i + 2,
            words,
            OptsView { minsize: Some(v), ..o },
        )),
        args[i].skip(1) == "maxsize"@ ==> (size_value(encode_utf8(args[i + 1])) matches Some((v, _))
            ==> split_from(args, i, words, o) == split_from(
            args,
            i + 2,
            words,
            OptsView { maxsize: Some(v), ..o },
        )),
        args[i].skip(1) == "chunk"@ ==> (size_value(encode_utf8(args[i + 1])) matches Some((v, bare))
            ==> (1 <= v && v * 1_048_576 <= u64::MAX ==> split_from(args, i, words, o) == split_from(
            args,
            i + 2,
            words,
            OptsView { chunk_bytes: Some(if bare {
                v * 1_048_576
            } else {
                v
            }), ..o },
        ))),
        args[i].skip(1) == "datefrom"@ ==> (date_value(encode_utf8(trimmed(args[i + 1]))) matches Ok(v)
            ==> split_from(args, i, words, o) == split_from(
            args,
            i + 2,
            words,
            OptsView { datefrom: Some(v), ..o },
        )),
        args[i].skip(1) == "dateto"@ ==> (date_value(encode_utf8(trimmed(args[i + 1]))) matches Ok(v)
            ==> split_from(args, i, words, o) == split_from(
            args,
            i + 2,
            words,
            OptsView { dateto: Some(v), ..o },
        )),
        args[i].skip(1) == "delta"@ ==> (unsigned_value(encode_utf8(args[i + 1])) matches Some(v)
            ==> (v == 1 || v == 2 || v == 4 ==> split_from(args, i, words, o) == split_from(
            args,
            i + 2,
            words,
            OptsView { delta: Some(v), ..o },
        ))),
{
    reveal_strlit("-");
    assert(args[i] != "-"@);
    lemma_flag_names();
}

/// A size is its digits times its unit: one for `B` and for no unit, and 1024 once for
/// `K`, twice for `M`, three times for `G` and four times for `T`, with or without `B` or
/// `iB` behind it.
pub proof fn lemma_size_reads(digits: Seq<u8>, letter_of: u8, unit: int)
    requires
        digits.len() > 0,
        all_digits(digits),
        letter_of == 'K' as u8 ==> unit == 1024,
        letter_of == 'M' as u8 ==> unit == 1024 * 1024,
        letter_of == 'G' as u8 ==> unit == 1024 * 1024 * 1024,
        letter_of == 'T' as u8 ==> unit == 1024 * 1024 * 1024 * 1024,
        letter_of == 'K' as u8 || letter_of == 'M' as u8 || letter_of == 'G' as u8 || letter_of
            == 'T' as u8,
    ensures
        digits_value(digits) <= u64::MAX ==> size_value(digits) == Some((digits_value(digits), true)),
        digits_value(digits) <= u64::MAX ==> size_value(digits + seq!['B' as u8]) == Some(
            (digits_value(digits), false),
        ),
        digits_value(digits) * unit <= u64::MAX ==> size_value(digits + seq![letter_of]) == Some(
            (digits_value(digits) * unit, false),
        ),
        digits_value(digits) * unit <= u64::MAX ==> size_value(digits + seq![letter_of, 'B' as u8])
            == Some((digits_value(digits) * unit, false)),
        digits_value(digits) * unit <= u64::MAX ==> size_value(
            digits + seq![letter_of, 'i' as u8, 'B' as u8],
        ) == Some((digits_value(digits) * unit, false)),
{
    reveal(size_value);
    crate::numbers::lemma_digits_value(digits);
    let v = digits_value(digits);
    assert(v * unit >= 0) by (nonlinear_arith)
        requires
            v >= 0,
            unit >= 1024,
    ;
    assert(v * 1 == v);
    assert(crate::numbers::is_digit(digits[0]));
    lemma_unit_found(digits, Seq::empty());
    assert(digits + Seq::<u8>::empty() =~= digits);
    lemma_unit_found(digits, seq!['B' as u8]);
    lemma_unit_found(digits, seq![letter_of]);
    lemma_unit_found(digits, seq![letter_of, 'B' as u8]);
    lemma_unit_found(digits, seq![letter_of, 'i' as u8, 'B' as u8]);
}

proof fn lemma_unit_found(digits: Seq<u8>, unit: Seq<u8>)
    requires
        all_digits(digits),
        unit.len() > 0 ==> letter(unit[0]),
    ensures
        letter_from(digits + unit, 0) == digits.len(),
        (digits + unit).take(digits.len() as int) == digits,
        (digits + unit).skip(digits.len() as int) == unit,
        dot_from(digits, 0) == digits.len(),
{
    lemma_letter_at(digits + unit, 0, digits.len() as int, digits);
    lemma_no_dot(digits, 0);
    assert((digits + unit).take(digits.len() as int) =~= digits);
    assert((digits + unit).skip(digits.len() as int) =~= unit);
}

proof fn lemma_letter_at(s: Seq<u8>, i: int, n: int, digits: Seq<u8>)
    requires
        0 <= i <= n <= s.len(),
        n == digits.len(),
        all_digits(digits),
        forall|k: int| 0 <= k < n ==> #[trigger] s[k] == digits[k],
        n < s.len() ==> letter(s[n]),
    ensures
        letter_from(s, i) == n,
    decreases n - i,
{
    if i < n {
        assert(crate::numbers::is_digit(digits[i]));
        lemma_letter_at(s, i + 1, n, digits);
    }
}

proof fn lemma_no_dot(digits: Seq<u8>, i: int)
    requires
        0 <= i <= digits.len(),
        all_digits(digits),
    ensures
        dot_from(digits, i) == digits.len(),
    decreases digits.len() - i,
{
    if i < digits.len() {
        assert(crate::numbers::is_digit(digits[i]));
        lemma_no_dot(digits, i + 1);
    }
}

/// The view of options has every option as it is.
pub proof fn lemma_opts_view(o: Opts)
    ensures
        o@.level == o.level,
        o@.threads == o.threads,
        o@.on == o.on,
        o@.exclude.len() == o.exclude@.len(),
        forall|k: int| 0 <= k < o.exclude@.len() ==> #[trigger] o@.exclude[k] == o.exclude@[k]@,
        o.minsize is None <==> o@.minsize is None,
        o.minsize matches Some(v) ==> o@.minsize == Some(v as int),
        o.maxsize is None <==> o@.maxsize is None,
        o.maxsize matches Some(v) ==> o@.maxsize == Some(v as int),
        o.datefrom is None <==> o@.datefrom is None,
        o.datefrom matches Some(v) ==> o@.datefrom == Some(v as int),
        o.dateto is None <==> o@.dateto is None,
        o.dateto matches Some(v) ==> o@.dateto == Some(v as int),
        o.chunk_bytes is None <==> o@.chunk_bytes is None,
        o.chunk_bytes matches Some(v) ==> o@.chunk_bytes == Some(v as int),
        o.delta is None <==> o@.delta is None,
        o.delta matches Some(v) ==> o@.delta == Some(v as int),
        o.comment is None <==> o@.comment is None,
        o.comment matches Some(v) ==> o@.comment == Some(v@),
        o.hash is None <==> o@.hash is None,
        o.hash matches Some(v) ==> o@.hash == Some(v@),
        o.bcj is None <==> o@.bcj is None,
        o.bcj matches Some(v) ==> o@.bcj == Some(v@),
{
}

/// Which command the first argument asks for, and what it is given: the archive is the
/// first word, the sources of an archive are all behind it, and a second directory or the
/// one to compare with is the second word.
pub proof fn lemma_command_tells(args: Seq<Seq<char>>)
    requires
        args.len() >= 2,
    ensures
        args[1] == "-v"@ || args[1] == "--version"@ ==> command(args) == Ok::<CmdView, CliErrorView>(
            CmdView::Version,
        ),
        args[1] == "h"@ || args[1] == "help"@ || args[1] == "-h"@ || args[1] == "--help"@ ==> (command(
            args,
        ) matches Ok(CmdView::Help { topic }) && (topic is Some <==> args.len() > 2) && (topic
            matches Some(t) ==> t == args[2])),
        split(args.skip(2)) matches Ok((w, o)) ==> {
            &&& (args[1] == "a"@ || args[1] == "add"@) && w.len() >= 2 ==> command(args) == Ok::<
                CmdView,
                CliErrorView,
            >(CmdView::Add { archive: w[0], sources: w.skip(1), opts: o })
            &&& (args[1] == "x"@ || args[1] == "extract"@) && w.len() >= 1 ==> command(args) == Ok::<
                CmdView,
                CliErrorView,
            >(CmdView::Extract { archive: w[0], opts: o })
            &&& (args[1] == "l"@ || args[1] == "list"@) && w.len() >= 1 ==> command(args) == Ok::<
                CmdView,
                CliErrorView,
            >(CmdView::List { archive: w[0], opts: o })
            &&& (args[1] == "t"@ || args[1] == "test"@) && w.len() >= 1 ==> command(args) == Ok::<
                CmdView,
                CliErrorView,
            >(CmdView::Test { archive: w[0], opts: o })
            &&& (args[1] == "v"@ || args[1] == "verify"@) && w.len() >= 2 ==> command(args) == Ok::<
                CmdView,
                CliErrorView,
            >(CmdView::Verify { archive: w[0], source: w[1], opts: o })
            &&& (args[1] == "d"@ || args[1] == "dedupe"@) && w.len() >= 1 ==> command(args) == Ok::<
                CmdView,
                CliErrorView,
            >(CmdView::Dedupe { root: w[0], opts: o })
            &&& (args[1] == "c"@ || args[1] == "compare"@) && w.len() >= 2 ==> command(args) == Ok::<
                CmdView,
                CliErrorView,
            >(CmdView::Compare { left: w[0], right: w[1], opts: o })
        },
{
    reveal_strlit("h");
    reveal_strlit("help");
    reveal_strlit("-h");
    reveal_strlit("--help");
    reveal_strlit("-v");
    reveal_strlit("--version");
    reveal_strlit("a");
    reveal_strlit("add");
    reveal_strlit("x");
    reveal_strlit("extract");
    reveal_strlit("l");
    reveal_strlit("list");
    reveal_strlit("t");
    reveal_strlit("test");
    reveal_strlit("v");
    reveal_strlit("verify");
    reveal_strlit("d");
    reveal_strlit("dedupe");
    reveal_strlit("c");
    reveal_strlit("compare");
    assert("h"@.len() == 1 && "h"@[0] == 'h');
    assert("help"@.len() == 4 && "help"@[0] == 'h' && "help"@[1] == 'e');
    assert("-h"@.len() == 2 && "-h"@[0] == '-' && "-h"@[1] == 'h');
    assert("--help"@.len() == 6 && "--help"@[0] == '-' && "--help"@[1] == '-');
    assert("-v"@.len() == 2 && "-v"@[0] == '-' && "-v"@[1] == 'v');
    assert("--version"@.len() == 9 && "--version"@[0] == '-' && "--version"@[1] == '-');
    assert("a"@.len() == 1 && "a"@[0] == 'a');
    assert("add"@.len() == 3 && "add"@[0] == 'a' && "add"@[1] == 'd');
    assert("x"@.len() == 1 && "x"@[0] == 'x');
    assert("extract"@.len() == 7 && "extract"@[0] == 'e' && "extract"@[1] == 'x');
    assert("l"@.len() == 1 && "l"@[0] == 'l');
    assert("list"@.len() == 4 && "list"@[0] == 'l' && "list"@[1] == 'i');
    assert("t"@.len() == 1 && "t"@[0] == 't');
    assert("test"@.len() == 4 && "test"@[0] == 't' && "test"@[1] == 'e');
    assert("v"@.len() == 1 && "v"@[0] == 'v');
    assert("verify"@.len() == 6 && "verify"@[0] == 'v' && "verify"@[1] == 'e');
    assert("d"@.len() == 1 && "d"@[0] == 'd');
    assert("dedupe"@.len() == 6 && "dedupe"@[0] == 'd' && "dedupe"@[1] == 'e');
    assert("c"@.len() == 1 && "c"@[0] == 'c');
    assert("compare"@.len() == 7 && "compare"@[0] == 'c' && "compare"@[1] == 'o');
}

} // verus!
