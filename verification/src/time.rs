//! Days and instants on a single reference clock (UTC).
//!
//! A [`Day`] is a whole calendar day, counted from 1970-01-01. An
//! [`Instant`] is a point in time: whole seconds since 1970-01-01T00:00:00,
//! and the nanoseconds past that second.

use vstd::prelude::*;
use vstd::arithmetic::div_mod::lemma_fundamental_div_mod_converse;

verus! {

/// Seconds in one day.
pub const SECONDS_PER_DAY: i64 = 86_400;

/// Seconds from midnight to noon.
pub const SECONDS_TO_NOON: i64 = 43_200;

/// A calendar day: the number of days from 1970-01-01, negative before it.
#[derive(Clone, Copy, Debug, PartialEq, Eq, Structural)]
pub struct Day {
    pub number: i32,
}

/// A point in time: whole seconds from 1970-01-01T00:00:00 (negative before
/// it) and the nanoseconds past that second.
///
/// Instants are ordered by their seconds first and by their nanoseconds
/// second, whatever the nanoseconds hold.
#[derive(Clone, Copy, Debug, PartialEq, Eq, Structural)]
pub struct Instant {
    pub seconds: i64,
    pub nanos: u32,
}

impl Instant {
    /// `self` is strictly earlier than `other`.
    pub open spec fn earlier_than(self, other: Instant) -> bool {
        self.seconds < other.seconds || (self.seconds == other.seconds && self.nanos < other.nanos)
    }

    /// The number of the day that holds this instant: its seconds divided by
    /// the length of a day, rounded down.
    pub open spec fn day_number(self) -> int {
        self.seconds as int / SECONDS_PER_DAY as int
    }

    /// An instant on a whole second.
    pub fn from_seconds(seconds: i64) -> (t: Instant)
        ensures
            t == (Instant { seconds, nanos: 0 }),
    {
        Instant { seconds, nanos: 0 }
    }

    /// Whether `self` is strictly earlier than `other`.
    pub fn is_before(&self, other: &Instant) -> (b: bool)
        ensures
            b == self.earlier_than(*other),
    {
        self.seconds < other.seconds || (self.seconds == other.seconds && self.nanos < other.nanos)
    }

    /// The number of the day that holds this instant.
    pub fn day(&self) -> (d: i64)
        ensures
            d == self.day_number(),
    {
        if self.seconds >= 0 {
            self.seconds / SECONDS_PER_DAY
        } else {
            // Rounding down, where the machine's division rounds towards zero.
            let below: i64 = (self.seconds + 1) / SECONDS_PER_DAY - 1;
            proof {
                let s = self.seconds as int;
                let q = below as int;
                lemma_fundamental_div_mod_converse(s, 86_400, q, s - q * 86_400);
            }
            below
        }
    }
}

impl Day {
    /// Noon of this day.
    pub open spec fn noon_instant(self) -> Instant {
        Instant { seconds: (self.number * SECONDS_PER_DAY + SECONDS_TO_NOON) as i64, nanos: 0 }
    }

    /// Whole days from the day that holds `start` to this day; negative
    /// where this day is the earlier one.
    pub open spec fn days_from(self, start: Instant) -> int {
        self.number - start.day_number()
    }

    /// The day `n` days after this one.
    pub open spec fn plus(self, n: int) -> Day {
        Day { number: (self.number + n) as i32 }
    }

    /// Noon of this day.
    pub fn noon(&self) -> (t: Instant)
        ensures
            t == self.noon_instant(),
            t.day_number() == self.number,
    {
        let seconds: i64 = self.number as i64 * SECONDS_PER_DAY + SECONDS_TO_NOON;
        proof {
            lemma_fundamental_div_mod_converse(seconds as int, 86_400, self.number as int, 43_200);
        }
        Instant { seconds, nanos: 0 }
    }

    /// Whole days from the day that holds `start` to this day.
    pub fn days_since(&self, start: &Instant) -> (n: i64)
        ensures
            n == self.days_from(*start),
    {
        let first: i64 = start.day();
        self.number as i64 - first
    }

    /// The day `n` days after this one.
    pub fn add_days(&self, n: i32) -> (d: Day)
        requires
            i32::MIN <= self.number + n <= i32::MAX,
        ensures
            d == self.plus(n as int),
    {
        Day { number: self.number + n }
    }
}

} // verus!
