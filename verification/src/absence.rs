//! Absence intervals and the registry that answers who is away at an
//! instant.
//!
//! An interval counts at an instant that lies strictly between its two
//! ends: an absence that begins or ends exactly at the instant asked for
//! does not count.

use vstd::prelude::*;
use crate::time::Instant;

verus! {

/// One recorded absence of one person.
#[derive(Debug)]
pub struct AbsenceInterval {
    pub person: String,
    pub from: Instant,
    pub to: Instant,
    pub reason: Option<String>,
}

/// What an [`AbsenceInterval`] records.
pub struct AbsenceModel {
    pub person: Seq<char>,
    pub from: Instant,
    pub to: Instant,
    pub reason: Option<Seq<char>>,
}

/// A person who is away at the instant asked for, and why, if that was
/// recorded.
#[derive(Debug)]
pub struct ActiveAbsence {
    pub person: String,
    pub reason: Option<String>,
}

/// What an [`ActiveAbsence`] records.
pub struct ActiveModel {
    pub person: Seq<char>,
    pub reason: Option<Seq<char>>,
}

/// An interval does not begin before it ends.
#[derive(Debug)]
pub struct IntervalConfigError {
    /// The place of the interval in the list that was given.
    pub index: usize,
    /// The person whom the interval names.
    pub person: String,
}

/// The text of a reason, if there is one.
pub open spec fn reason_text(reason: Option<String>) -> Option<Seq<char>> {
    match reason {
        Some(s) => Some(s@),
        None => None,
    }
}

impl AbsenceModel {
    /// The interval begins before it ends.
    pub open spec fn is_valid(self) -> bool {
        self.from.earlier_than(self.to)
    }

    /// The instant `t` lies strictly between the interval's ends.
    pub open spec fn covers(self, t: Instant) -> bool {
        self.from.earlier_than(t) && t.earlier_than(self.to)
    }

    /// The person and the reason of the interval.
    pub open spec fn as_active(self) -> ActiveModel {
        ActiveModel { person: self.person, reason: self.reason }
    }
}

impl View for AbsenceInterval {
    type V = AbsenceModel;

    open spec fn view(&self) -> AbsenceModel {
        AbsenceModel {
            person: self.person@,
            from: self.from,
            to: self.to,
            reason: reason_text(self.reason),
        }
    }
}

impl View for ActiveAbsence {
    type V = ActiveModel;

    open spec fn view(&self) -> ActiveModel {
        ActiveModel { person: self.person@, reason: reason_text(self.reason) }
    }
}

/// What a list of intervals records, in the list's order.
pub open spec fn interval_models(intervals: Seq<AbsenceInterval>) -> Seq<AbsenceModel> {
    intervals.map_values(|iv: AbsenceInterval| iv@)
}

/// What a list of active absences records, in the list's order.
pub open spec fn active_models(active: Seq<ActiveAbsence>) -> Seq<ActiveModel> {
    active.map_values(|a: ActiveAbsence| a@)
}

/// Keeps an interval that covers `t`, as person and reason.
pub open spec fn active_if(t: Instant) -> spec_fn(AbsenceModel) -> Option<ActiveModel> {
    |iv: AbsenceModel|
        if iv.covers(t) {
            Some(iv.as_active())
        } else {
            None
        }
}

/// The absences that count at `t`: person and reason of each interval that
/// covers `t`, in the order of the intervals. A person with several such
/// intervals is there once for each.
pub open spec fn active_in(intervals: Seq<AbsenceModel>, t: Instant) -> Seq<ActiveModel> {
    intervals.filter_map(active_if(t))
}

/// `person` has an interval among `intervals` that covers `t`.
pub open spec fn is_away(intervals: Seq<AbsenceModel>, t: Instant, person: Seq<char>) -> bool {
    exists|i: int|
        0 <= i < intervals.len() && (#[trigger] intervals[i]).person == person
            && intervals[i].covers(t)
}

/// A copy of a reason.
pub fn clone_reason(reason: &Option<String>) -> (out: Option<String>)
    ensures
        reason_text(out) == reason_text(*reason),
{
    match reason {
        Some(s) => Some(s.clone()),
        None => None,
    }
}

impl AbsenceInterval {
    /// Whether `t` lies strictly between the interval's ends.
    pub fn is_active_at(&self, t: Instant) -> (b: bool)
        ensures
            b == self@.covers(t),
            t == self.from || t == self.to ==> !b,
    {
        self.from.is_before(&t) && t.is_before(&self.to)
    }
}

/// The absence intervals of a run. Each begins before it ends.
#[derive(Debug)]
pub struct AbsenceRegistry {
    intervals: Vec<AbsenceInterval>,
}

impl View for AbsenceRegistry {
    type V = Seq<AbsenceModel>;

    closed spec fn view(&self) -> Seq<AbsenceModel> {
        interval_models(self.intervals@)
    }
}

impl AbsenceRegistry {
    #[verifier::type_invariant]
    spec fn every_interval_valid(self) -> bool {
        forall|i: int| 0 <= i < self.intervals.len() ==> (#[trigger] self.intervals[i])@.is_valid()
    }

    /// A registry of `intervals`, in their order.
    ///
    /// Fails exactly when an interval does not begin before it ends; the
    /// error names the first such interval.
    pub fn new(intervals: Vec<AbsenceInterval>) -> (r: Result<AbsenceRegistry, IntervalConfigError>)
        ensures
            match r {
                Ok(registry) => {
                    &&& registry@ == interval_models(intervals@)
                    &&& forall|i: int|
                        0 <= i < intervals.len() ==> (#[trigger] intervals[i])@.is_valid()
                },
                Err(e) => {
                    &&& e.index < intervals.len()
                    &&& !intervals[e.index as int]@.is_valid()
                    &&& forall|j: int| 0 <= j < e.index ==> (#[trigger] intervals[j])@.is_valid()
                    &&& e.person@ == intervals[e.index as int].person@
                },
            },
    {
        let n: usize = intervals.len();
        let mut i: usize = 0;
        while i < n
            invariant
                n == intervals.len(),
                i <= n,
                forall|j: int| 0 <= j < i ==> (#[trigger] intervals[j])@.is_valid(),
            decreases n - i,
        {
            if !intervals[i].from.is_before(&intervals[i].to) {
                return Err(IntervalConfigError { index: i, person: intervals[i].person.clone() });
            }
            i += 1;
        }
        Ok(AbsenceRegistry { intervals })
    }

    /// The number of intervals.
    pub fn len(&self) -> (n: usize)
        ensures
            n == self@.len(),
    {
        self.intervals.len()
    }

    /// The intervals, in the order in which they were given.
    pub fn intervals(&self) -> (out: &Vec<AbsenceInterval>)
        ensures
            interval_models(out@) == self@,
            forall|i: int| 0 <= i < out.len() ==> (#[trigger] out[i])@.is_valid(),
    {
        proof {
            use_type_invariant(self);
        }
        &self.intervals
    }

    /// The absences that count at `t`: one entry for each interval that
    /// `t` lies strictly between the ends of, in the order of the
    /// intervals.
    pub fn active_at(&self, t: Instant) -> (out: Vec<ActiveAbsence>)
        ensures
            active_models(out@) == active_in(self@, t),
    {
        let n: usize = self.intervals.len();
        let mut out: Vec<ActiveAbsence> = Vec::new();
        let mut i: usize = 0;
        while i < n
            invariant
                n == self.intervals.len(),
                i <= n,
                active_models(out@) == active_in(self@.take(i as int), t),
            decreases n - i,
        {
            let interval = &self.intervals[i];
            proof {
                self@.lemma_filter_map_take_succ(active_if(t), i as int);
            }
            if interval.is_active_at(t) {
                let ghost before = out@;
                let entry = ActiveAbsence {
                    person: interval.person.clone(),
                    reason: clone_reason(&interval.reason),
                };
                out.push(entry);
                assert(active_models(out@) =~= active_models(before) + seq![interval@.as_active()]);
            }
            i += 1;
        }
        assert(self@.take(n as int) =~= self@);
        out
    }
}

/// The absences that count at `t` name exactly the persons with an interval
/// that `t` lies strictly between the ends of.
pub proof fn lemma_active_exactly(intervals: Seq<AbsenceModel>, t: Instant, person: Seq<char>)
    ensures
        (exists|j: int|
            0 <= j < active_in(intervals, t).len() && (#[trigger] active_in(intervals, t)[j]).person
                == person) <==> is_away(intervals, t, person),
    decreases intervals.len(),
{
    let active = active_in(intervals, t);
    if intervals.len() > 0 {
        let rest = intervals.drop_last();
        let last = intervals.last();
        let before = active_in(rest, t);
        lemma_active_exactly(rest, t, person);
        if is_away(intervals, t, person) {
            let i = choose|i: int|
                0 <= i < intervals.len() && (#[trigger] intervals[i]).person == person
                    && intervals[i].covers(t);
            if i < rest.len() {
                assert(rest[i] == intervals[i]);
                assert(is_away(rest, t, person));
                let j = choose|j: int| 0 <= j < before.len() && (#[trigger] before[j]).person == person;
                assert(active[j] == before[j]);
            } else {
                assert(active[active.len() - 1] == last.as_active());
            }
        }
        if exists|j: int| 0 <= j < active.len() && (#[trigger] active[j]).person == person {
            let j = choose|j: int| 0 <= j < active.len() && (#[trigger] active[j]).person == person;
            if j < before.len() {
                assert(before[j] == active[j]);
                assert(is_away(rest, t, person));
                let i = choose|i: int|
                    0 <= i < rest.len() && (#[trigger] rest[i]).person == person && rest[i].covers(t);
                assert(intervals[i] == rest[i]);
            } else {
                assert(intervals[intervals.len() - 1] == last);
            }
        }
    }
}

/// An interval does not count at either of its own ends.
pub proof fn lemma_ends_are_excluded(interval: AbsenceModel)
    ensures
        !interval.covers(interval.from),
        !interval.covers(interval.to),
{
}

} // verus!
