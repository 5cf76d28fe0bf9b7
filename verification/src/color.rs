//! Coloured and numbered lines on the terminal.

use vstd::prelude::*;
use crate::numbers::{decimal, padded, push_decimal, push_padded};

verus! {

pub const RESET: &'static str = "\x1b[0m";

pub const GREEN: &'static str = "\x1b[1;32m";

pub const RED: &'static str = "\x1b[1;31m";

pub const YELLOW: &'static str = "\x1b[1;33m";

pub const CYAN: &'static str = "\x1b[1;36m";

/// Whether lines are coloured, and how many errors and warnings there were.
/// Both counts start again at zero behind the greatest number of 32 bits.
#[derive(Clone, Copy, Debug, PartialEq, Eq, Structural)]
pub struct Console {
    pub enabled: bool,
    pub errors: u32,
    pub warnings: u32,
}

/// A text between a colour and its end, or as it is without colours.
pub open spec fn coloured(enabled: bool, prefix: Seq<char>, s: Seq<char>) -> Seq<char> {
    if enabled {
        prefix + s + RESET@
    } else {
        s
    }
}

/// A number behind another, at zero after the greatest.
pub open spec fn next_number(n: u32) -> u32 {
    if n == u32::MAX {
        0
    } else {
        (n + 1) as u32
    }
}

/// A message behind its number in five digits and a mark.
pub open spec fn numbered(n: u32, mark: char, msg: Seq<char>) -> Seq<char> {
    padded(n as int, 5).push(mark).push(' ') + msg
}

fn wrap(enabled: bool, prefix: &str, s: &str) -> (r: String)
    ensures
        r@ == coloured(enabled, prefix@, s@),
{
    let mut out = String::new();
    if enabled {
        out.push_str(prefix);
        assert(out@ =~= prefix@);
        out.push_str(s);
        out.push_str(RESET);
    } else {
        out.push_str(s);
        assert(out@ =~= s@);
    }
    out
}

fn numbered_line(n: u32, mark: char, msg: &str) -> (r: String)
    ensures
        r@ == numbered(n, mark, msg@),
{
    let mut out = String::new();
    push_padded(&mut out, n as u64, 5);
    assert(out@ =~= padded(n as int, 5));
    out.push(mark);
    out.push(' ');
    out.push_str(msg);
    out
}

impl Console {
    /// Lines are coloured on a terminal, unless a flag or the environment says
    /// otherwise. Nothing was counted yet.
    pub fn init(tty: bool, flag_nocolor: bool, env_nocolor: bool) -> (c: Self)
        ensures
            c == (Console {
                enabled: tty && !flag_nocolor && !env_nocolor,
                errors: 0,
                warnings: 0,
            }),
    {
        Console { enabled: tty && !flag_nocolor && !env_nocolor, errors: 0, warnings: 0 }
    }

    /// Whether lines are coloured.
    pub fn enabled(&self) -> (r: bool)
        ensures
            r == self.enabled,
    {
        self.enabled
    }

    /// A text in green.
    pub fn g(&self, s: &str) -> (r: String)
        ensures
            r@ == coloured(self.enabled, GREEN@, s@),
    {
        wrap(self.enabled, GREEN, s)
    }

    /// A text in red.
    pub fn r(&self, s: &str) -> (r: String)
        ensures
            r@ == coloured(self.enabled, RED@, s@),
    {
        wrap(self.enabled, RED, s)
    }

    /// A text in yellow.
    pub fn y(&self, s: &str) -> (r: String)
        ensures
            r@ == coloured(self.enabled, YELLOW@, s@),
    {
        wrap(self.enabled, YELLOW, s)
    }

    /// A text in cyan.
    pub fn c(&self, s: &str) -> (r: String)
        ensures
            r@ == coloured(self.enabled, CYAN@, s@),
    {
        wrap(self.enabled, CYAN, s)
    }

    /// Counts an error and gives its line, in red: its number, `!` and the
    /// message.
    pub fn err_line(&mut self, msg: &str) -> (r: String)
        ensures
            *final(self) == (Console { errors: next_number(old(self).errors), ..*old(self) }),
            r@ == coloured(
                old(self).enabled,
                RED@,
                numbered(next_number(old(self).errors), '!', msg@),
            ),
            old(self).errors < u32::MAX ==> final(self).errors == old(self).errors + 1,
            final(self).warnings == old(self).warnings,
            !old(self).enabled ==> r@ == padded(final(self).errors as int, 5).push('!').push(' ') + msg@,
    {
        self.errors = if self.errors == u32::MAX {
            0
        } else {
            self.errors + 1
        };
        let line = numbered_line(self.errors, '!', msg);
        wrap(self.enabled, RED, line.as_str())
    }

    /// Counts a warning and gives its line, in yellow: its number, `:` and the
    /// message.
    pub fn warn_line(&mut self, msg: &str) -> (r: String)
        ensures
            *final(self) == (Console { warnings: next_number(old(self).warnings), ..*old(self) }),
            r@ == coloured(
                old(self).enabled,
                YELLOW@,
                numbered(next_number(old(self).warnings), ':', msg@),
            ),
            old(self).warnings < u32::MAX ==> final(self).warnings == old(self).warnings + 1,
            final(self).errors == old(self).errors,
            !old(self).enabled ==> r@ == padded(final(self).warnings as int, 5).push(':').push(' ')
                + msg@,
    {
        self.warnings = if self.warnings == u32::MAX {
            0
        } else {
            self.warnings + 1
        };
        let line = numbered_line(self.warnings, ':', msg);
        wrap(self.enabled, YELLOW, line.as_str())
    }

    /// How many errors were counted.
    pub fn err_count(&self) -> (n: u32)
        ensures
            n == self.errors,
    {
        self.errors
    }

    /// How many warnings were counted.
    pub fn warn_count(&self) -> (n: u32)
        ensures
            n == self.warnings,
    {
        self.warnings
    }

    /// The line at the end of a run: after a failure the errors and warnings,
    /// in red; else the warnings, in yellow, if there were any.
    pub fn footer(&self, failed: bool) -> (r: Option<String>)
        ensures
            match footer_text(*self, failed) {
                Some(t) => r matches Some(x) && x@ == t,
                None => r is None,
            },
    {
        let mut line = String::new();
        line.push('(');
        if failed {
            push_count(&mut line, self.errors, "error");
            if self.warnings > 0 {
                line.push_str(", ");
                push_count(&mut line, self.warnings, "warning");
            }
            line.push_str(", with errors)");
            let ghost middle = if self.warnings > 0 {
                ", "@ + counted(self.warnings, "warning"@)
            } else {
                Seq::empty()
            };
            assert(line@ =~= seq!['('] + counted(self.errors, "error"@) + middle
                + ", with errors)"@);
            Some(self.r(line.as_str()))
        } else if self.warnings > 0 {
            push_count(&mut line, self.warnings, "warning");
            line.push(')');
            assert(line@ =~= (seq!['('] + counted(self.warnings, "warning"@)).push(')'));
            Some(self.y(line.as_str()))
        } else {
            None
        }
    }
}

/// A number and what it counts, with an `s` unless it is one.
pub open spec fn counted(n: u32, what: Seq<char>) -> Seq<char> {
    let t = decimal(n as int).push(' ') + what;
    if n == 1 {
        t
    } else {
        t.push('s')
    }
}

/// The line at the end of a run.
pub open spec fn footer_text(c: Console, failed: bool) -> Option<Seq<char>> {
    if failed {
        let middle = if c.warnings > 0 {
            ", "@ + counted(c.warnings, "warning"@)
        } else {
            Seq::empty()
        };
        Some(
            coloured(
                c.enabled,
                RED@,
                seq!['('] + counted(c.errors, "error"@) + middle + ", with errors)"@,
            ),
        )
    } else if c.warnings > 0 {
        Some(
            coloured(
                c.enabled,
                YELLOW@,
                (seq!['('] + counted(c.warnings, "warning"@)).push(')'),
            ),
        )
    } else {
        None
    }
}

fn push_count(out: &mut String, n: u32, what: &str)
    ensures
        final(out)@ == old(out)@ + counted(n, what@),
{
    push_decimal(out, n as u64);
    out.push(' ');
    out.push_str(what);
    if n != 1 {
        out.push('s');
    }
    assert(out@ =~= old(out)@ + counted(n, what@));
}

/// Colour only goes around a text: with colours off nothing is added, and with them on
/// the text stands between the code of its colour and the code that ends it.
pub proof fn lemma_colour_goes_around(prefix: Seq<char>, s: Seq<char>)
    ensures
        coloured(false, prefix, s) == s,
        coloured(true, prefix, s) == prefix + s + seq!['\u{1b}', '[', '0', 'm'],
        GREEN@ == seq!['\u{1b}', '[', '1', ';', '3', '2', 'm'],
        RED@ == seq!['\u{1b}', '[', '1', ';', '3', '1', 'm'],
        YELLOW@ == seq!['\u{1b}', '[', '1', ';', '3', '3', 'm'],
        CYAN@ == seq!['\u{1b}', '[', '1', ';', '3', '6', 'm'],
{
    reveal_strlit("\x1b[0m");
    reveal_strlit("\x1b[1;32m");
    reveal_strlit("\x1b[1;31m");
    reveal_strlit("\x1b[1;33m");
    reveal_strlit("\x1b[1;36m");
    assert(RESET@ =~= seq!['\u{1b}', '[', '0', 'm']);
    assert(GREEN@ =~= seq!['\u{1b}', '[', '1', ';', '3', '2', 'm']);
    assert(RED@ =~= seq!['\u{1b}', '[', '1', ';', '3', '1', 'm']);
    assert(YELLOW@ =~= seq!['\u{1b}', '[', '1', ';', '3', '3', 'm']);
    assert(CYAN@ =~= seq!['\u{1b}', '[', '1', ';', '3', '6', 'm']);
}

/// The line at the end of a run: none where nothing happened, one with the number of
/// warnings where there are some, and one with the number of errors where it failed.
pub proof fn lemma_footer_tells(c: Console)
    requires
        !c.enabled,
    ensures
        c.warnings == 0 ==> footer_text(c, false) is None,
        c.warnings == 1 ==> footer_text(c, false) == Some(
            (seq!['('] + (decimal(1).push(' ') + "warning"@)).push(')'),
        ),
        c.warnings > 1 ==> footer_text(c, false) == Some(
            (seq!['('] + (decimal(c.warnings as int).push(' ') + "warning"@).push('s')).push(')'),
        ),
        c.warnings == 0 && c.errors == 1 ==> footer_text(c, true) == Some(
            seq!['('] + (decimal(1).push(' ') + "error"@) + ", with errors)"@,
        ),
        c.warnings == 0 && c.errors != 1 ==> footer_text(c, true) == Some(
            seq!['('] + (decimal(c.errors as int).push(' ') + "error"@).push('s')
                + ", with errors)"@,
        ),
{
    if c.warnings == 0 {
        let e = seq!['('] + counted(c.errors, "error"@);
        assert(e + Seq::<char>::empty() =~= e);
    }
}


} // verus!
