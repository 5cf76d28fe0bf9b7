//! How far a command has come, and when that is shown.

use vstd::prelude::*;
use crate::entry::capped;

verus! {

/// How many bytes there are, how many are done, whether the user is told, and
/// the second in which that last happened. No total means that it is unknown.
#[derive(Clone, Copy, Debug, PartialEq, Eq, Structural)]
pub struct Progress {
    pub total: u64,
    pub done: u64,
    pub enabled: bool,
    pub last_second: u64,
}

/// Bytes that must be done before a known total is shown.
pub const FIRST_SHOWN: u64 = 1_000_000;

/// Longer than this nobody is told how long it will take.
pub const ETA_LIMIT: u64 = 350_000;

impl Progress {
    /// Nothing done and nothing shown yet.
    pub fn new(total: u64, enabled: bool) -> (p: Self)
        ensures
            p == (Progress { total, done: 0, enabled, last_second: u64::MAX }),
    {
        Progress { total, done: 0, enabled, last_second: u64::MAX }
    }

    /// Whether progress is to be shown `secs` seconds after the start: at most
    /// once a second, and where the total is known not before the first
    /// megabyte.
    pub open spec fn due_at(self, secs: u64) -> bool {
        self.enabled && !(self.total > 0 && self.done < FIRST_SHOWN) && secs != self.last_second
    }

    /// Takes account of further bytes, `secs` seconds after the start, and says
    /// whether progress is to be shown now.
    pub fn advance(&mut self, n: u64, secs: u64) -> (show: bool)
        ensures
            ({
                let next = Progress { done: capped(old(self).done + n) as u64, ..*old(self) };
                &&& show == next.due_at(secs)
                &&& *final(self) == (if show {
                    Progress { last_second: secs, ..next }
                } else {
                    next
                })
            }),
            old(self).done + n <= u64::MAX ==> final(self).done == old(self).done + n,
            final(self).total == old(self).total,
            final(self).enabled == old(self).enabled,
            show <==> old(self).enabled && secs != old(self).last_second && (old(self).total == 0
                || final(self).done >= 1_000_000),
            show ==> final(self).last_second == secs,
            !show ==> final(self).last_second == old(self).last_second,
    {
        self.done = self.done.saturating_add(n);
        if !self.enabled {
            return false;
        }
        if self.total > 0 && self.done < FIRST_SHOWN {
            return false;
        }
        if secs == self.last_second {
            return false;
        }
        self.last_second = secs;
        true
    }

    /// The bytes that are shown as done: no more than there are, where that is
    /// known.
    pub open spec fn shown(self) -> u64 {
        if self.total > 0 && self.done > self.total {
            self.total
        } else {
            self.done
        }
    }

    /// The bytes that are shown as done.
    pub fn done_capped(&self) -> (n: u64)
        ensures
            n == self.shown(),
            self.total == 0 ==> n == self.done,
            self.total > 0 && self.done <= self.total ==> n == self.done,
            self.total > 0 && self.done > self.total ==> n == self.total,
    {
        if self.total > 0 && self.done > self.total {
            self.total
        } else {
            self.done
        }
    }

    /// The bytes that are left.
    pub fn remaining(&self) -> (n: u64)
        ensures
            self.total > 0 ==> n == self.total - self.shown(),
            self.total == 0 ==> n == 0,
            self.done <= self.total ==> n == self.total - self.done,
            self.done > self.total ==> n == 0,
    {
        self.total.saturating_sub(self.done_capped())
    }

    /// Whole bytes per second; the first second counts as one.
    pub fn rate(&self, secs: u64) -> (n: u64)
        ensures
            n == self.done as int / (if secs < 1 {
                1int
            } else {
                secs as int
            }),
    {
        let s: u64 = if secs < 1 {
            1
        } else {
            secs
        };
        self.done / s
    }

    /// What `compressed` bytes will grow to at the present ratio, rounded down;
    /// nothing before the start. Of greater numbers the low 64 bits are kept.
    pub fn projection(&self, compressed: u64) -> (n: u64)
        ensures
            n == (if self.shown() > 0 {
                ((compressed * self.total) as int / self.shown() as int) % 0x1_0000_0000_0000_0000
            } else {
                0
            }),
    {
        let done: u64 = self.done_capped();
        if done == 0 {
            return 0;
        }
        assert(0 <= compressed * self.total <= 0xFFFF_FFFF_FFFF_FFFF * 0xFFFF_FFFF_FFFF_FFFF)
            by (nonlinear_arith)
            requires
                0 <= compressed <= 0xFFFF_FFFF_FFFF_FFFF,
                0 <= self.total <= 0xFFFF_FFFF_FFFF_FFFF,
        ;
        let v: u128 = (compressed as u128 * self.total as u128) / done as u128;
        (v % 0x1_0000_0000_0000_0000) as u64
    }
}


} // verus!
