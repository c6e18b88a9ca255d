//! Rotation schedules and the duty that one has on a given day.
//!
//! A schedule repeats a cycle of duties. The cycle is a map from day
//! offsets to duties, and its length is the number of its entries. The
//! offset of a day is the number of whole days since the schedule's start,
//! modulo the cycle's length, counted from zero and never negative: a day
//! before the start is on the cycle too.

use vstd::prelude::*;
use vstd::arithmetic::div_mod::{
    lemma_fundamental_div_mod_converse, lemma_mod_multiples_vanish, lemma_mod_bound,
    lemma_small_mod,
};
use std::collections::HashMap;
use crate::roster::names_of;
use crate::time::{Day, Instant};

verus! {

broadcast use vstd::std_specs::hash::group_hash_axioms;

/// What a schedule's members do on a day.
#[derive(Clone, Copy, Debug, PartialEq, Eq, Structural)]
pub enum DutyType {
    Education,
    /// Leave by rotation: every member of the schedule is away.
    StandingLeave,
    DayShift,
    NightShift,
}

impl DutyType {
    /// The name of the duty, as it is written out.
    pub open spec fn name_text(self) -> Seq<char> {
        match self {
            DutyType::Education => "Education"@,
            DutyType::StandingLeave => "StandingLeave"@,
            DutyType::DayShift => "DayShift"@,
            DutyType::NightShift => "NightShift"@,
        }
    }

    /// The name of the duty, as it is written out.
    pub fn name(&self) -> (text: &'static str)
        ensures
            text@ == self.name_text(),
    {
        match self {
            DutyType::Education => "Education",
            DutyType::StandingLeave => "StandingLeave",
            DutyType::DayShift => "DayShift",
            DutyType::NightShift => "NightShift",
        }
    }
}

/// A cycle of duties that repeats from `start` on, and the people on it.
#[derive(Debug)]
pub struct RotationSchedule {
    pub name: String,
    /// The instant whose day has offset zero.
    pub start: Instant,
    /// The duty of each day offset. A usable cycle has an entry for every
    /// offset from zero up to its length.
    pub cycle: HashMap<i64, DutyType>,
    pub members: Vec<String>,
}

/// What a [`RotationSchedule`] records.
pub struct ScheduleModel {
    pub name: Seq<char>,
    pub start: Instant,
    pub cycle: Map<i64, DutyType>,
    pub members: Seq<Seq<char>>,
}

impl View for RotationSchedule {
    type V = ScheduleModel;

    open spec fn view(&self) -> ScheduleModel {
        ScheduleModel {
            name: self.name@,
            start: self.start,
            cycle: self.cycle@,
            members: names_of(self.members@),
        }
    }
}

/// A schedule's cycle has no entry for the offset of a day.
#[derive(Debug)]
pub struct ScheduleConfigError {
    /// The name of the schedule.
    pub schedule_name: String,
    /// The offset that has no entry.
    pub offset: u64,
    /// The day that was asked for.
    pub date: Day,
}

impl ScheduleConfigError {
    /// The error says that `schedule` has no duty on `date`: the cycle has
    /// no entry for the day's offset, and the error holds the schedule's
    /// name, that offset and the day.
    pub open spec fn reports(&self, schedule: ScheduleModel, date: Day) -> bool {
        &&& schedule.duty_at(date.number as int) is None
        &&& self.schedule_name@ == schedule.name
        &&& self.offset == schedule.offset_at(date.number as int)
        &&& self.date == date
    }
}

impl ScheduleModel {
    /// The number of entries of the cycle.
    pub open spec fn cycle_length(self) -> nat {
        self.cycle.len()
    }

    /// The offset of day number `day` on the cycle. A cycle without
    /// entries has no offsets; its days are given offset zero, which it
    /// lacks like any other.
    pub open spec fn offset_at(self, day: int) -> int {
        if self.cycle_length() == 0 {
            0
        } else {
            (day - self.start.day_number()) % (self.cycle_length() as int)
        }
    }

    /// The cycle has an entry for offset `k`.
    pub open spec fn has_entry(self, k: int) -> bool {
        i64::MIN <= k <= i64::MAX && self.cycle.contains_key(k as i64)
    }

    /// The duty of day number `day`, if the cycle has an entry for that
    /// day's offset.
    pub open spec fn duty_at(self, day: int) -> Option<DutyType> {
        let k = self.offset_at(day);
        if self.has_entry(k) {
            Some(self.cycle[k as i64])
        } else {
            None
        }
    }

    /// The cycle is not empty and has an entry for every offset below its
    /// length.
    pub open spec fn is_complete(self) -> bool {
        &&& self.cycle_length() > 0
        &&& forall|k: int| 0 <= k < self.cycle_length() ==> self.has_entry(k)
    }
}

impl RotationSchedule {
    /// The offset of `date` on the cycle.
    pub fn offset_of(&self, date: Day) -> (k: u64)
        ensures
            k == self@.offset_at(date.number as int),
    {
        let len: usize = self.cycle.len();
        if len == 0 {
            return 0;
        }
        let days: i64 = date.days_since(&self.start);
        let m: u64 = len as u64;
        proof {
            lemma_mod_bound(days as int, m as int);
        }
        if days >= 0 {
            (days as u64) % m
        } else {
            // days == -(back + 1), so its offset counts down from the
            // cycle's last one.
            let back: u64 = (-(days + 1)) as u64;
            let r: u64 = back % m;
            proof {
                let q = (back / m) as int;
                assert(back == q * m + r) by {
                    vstd::arithmetic::div_mod::lemma_fundamental_div_mod(back as int, m as int);
                    assert(m * q == q * m) by (nonlinear_arith);
                }
                assert((-(q + 1)) * m == -(q * m) - m) by (nonlinear_arith);
                lemma_fundamental_div_mod_converse(days as int, m as int, -(q + 1), m - 1 - r);
            }
            m - 1 - r
        }
    }
}

/// The duty that `schedule` has on `date`.
///
/// Fails exactly when the cycle has no entry for the day's offset; the
/// error names the schedule, that offset and the day.
pub fn resolve(schedule: &RotationSchedule, date: Day) -> (r: Result<DutyType, ScheduleConfigError>)
    ensures
        match r {
            Ok(duty) => schedule@.duty_at(date.number as int) == Some(duty),
            Err(e) => e.reports(schedule@, date),
        },
{
    let offset: u64 = schedule.offset_of(date);
    if offset <= i64::MAX as u64 {
        let key: i64 = offset as i64;
        match schedule.cycle.get(&key) {
            Some(duty) => {
                return Ok(*duty);
            },
            None => {},
        }
    }
    Err(ScheduleConfigError { schedule_name: schedule.name.clone(), offset, date })
}

/// Periodicity: a whole number of cycles later or earlier, the offset is
/// the same, and so is the duty.
pub proof fn lemma_resolve_periodic(schedule: ScheduleModel, day: int, k: int)
    ensures
        schedule.offset_at(day + k * schedule.cycle_length()) == schedule.offset_at(day),
        schedule.duty_at(day + k * schedule.cycle_length()) == schedule.duty_at(day),
{
    let m = schedule.cycle_length() as int;
    if m > 0 {
        let d = day - schedule.start.day_number();
        assert(day + k * m - schedule.start.day_number() == m * k + d) by (nonlinear_arith)
            requires
                d == day - schedule.start.day_number(),
        ;
        lemma_mod_multiples_vanish(k, d, m);
    }
}

/// A whole number of cycles from the start, the schedule has the duty of
/// its first day.
pub proof fn lemma_resolve_periodic_from_start(schedule: ScheduleModel, k: int)
    ensures
        schedule.duty_at(schedule.start.day_number() + k * schedule.cycle_length())
            == schedule.duty_at(schedule.start.day_number()),
        schedule.offset_at(schedule.start.day_number() + k * schedule.cycle_length()) == 0,
{
    lemma_resolve_periodic(schedule, schedule.start.day_number(), k);
    if schedule.cycle_length() > 0 {
        lemma_small_mod(0, schedule.cycle_length());
    }
}

/// The offset of a day is a place on the cycle: at least zero and, unless
/// the cycle is empty, below its length.
pub proof fn lemma_offset_in_cycle(schedule: ScheduleModel, day: int)
    ensures
        0 <= schedule.offset_at(day),
        schedule.cycle_length() > 0 ==> schedule.offset_at(day) < schedule.cycle_length(),
{
    if schedule.cycle_length() > 0 {
        lemma_mod_bound(day - schedule.start.day_number(), schedule.cycle_length() as int);
    }
}

/// A complete cycle gives every day a duty; a cycle that lacks the offset
/// of a day gives that day none.
pub proof fn lemma_complete_cycle_resolves(schedule: ScheduleModel, day: int)
    ensures
        schedule.is_complete() ==> schedule.duty_at(day) is Some,
        schedule.duty_at(day) is Some <==> schedule.has_entry(schedule.offset_at(day)),
{
    lemma_offset_in_cycle(schedule, day);
}

/// A cycle that lacks an offset below its length fails on a day: the one
/// that many days after the start, and every day a whole number of cycles
/// from it.
pub proof fn lemma_missing_offset_fails(schedule: ScheduleModel, k: int, cycles: int)
    requires
        0 <= k < schedule.cycle_length(),
        !schedule.has_entry(k),
    ensures
        schedule.offset_at(schedule.start.day_number() + k + cycles * schedule.cycle_length()) == k,
        schedule.duty_at(schedule.start.day_number() + k + cycles * schedule.cycle_length())
            is None,
{
    let first = schedule.start.day_number() + k;
    lemma_resolve_periodic(schedule, first, cycles);
    lemma_small_mod(k as nat, schedule.cycle_length());
}

} // verus!
