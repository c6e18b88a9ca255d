//! The report of one day: the duty of every schedule, its members with
//! those who are away marked, and the head counts.
//!
//! The absences of a day are those that count at noon of that day. A person
//! on two schedules is listed, and counted, once for each.

use vstd::prelude::*;
use crate::absence::{active_in, active_models, AbsenceModel, AbsenceRegistry, ActiveAbsence, ActiveModel};
use crate::roster::{lemma_listing_of, listing_of, names_of, sorted_names};
use crate::schedule::{
    resolve, DutyType, RotationSchedule, ScheduleConfigError, ScheduleModel,
};
use crate::status::{
    away_among, count_away, lemma_away_among_bound, member_status, status_models, statuses_of,
    MemberStatus, StatusModel,
};
use crate::time::Day;

verus! {

/// One schedule on one day: its duty, and its members in the order of
/// their names, each with their status.
#[derive(Debug)]
pub struct ResolvedDay {
    pub schedule_name: String,
    pub duty_type: DutyType,
    pub date: Day,
    pub members: Vec<MemberStatus>,
}

/// What a [`ResolvedDay`] records.
pub struct DayModel {
    pub schedule_name: Seq<char>,
    pub duty_type: DutyType,
    pub date: Day,
    pub members: Seq<StatusModel>,
}

impl View for ResolvedDay {
    type V = DayModel;

    open spec fn view(&self) -> DayModel {
        DayModel {
            schedule_name: self.schedule_name@,
            duty_type: self.duty_type,
            date: self.date,
            members: status_models(self.members@),
        }
    }
}

/// What a list of resolved days records, in the list's order.
pub open spec fn day_views(days: Seq<ResolvedDay>) -> Seq<DayModel> {
    days.map_values(|d: ResolvedDay| d@)
}

/// What a list of schedules records, in the list's order.
pub open spec fn schedule_models(schedules: Seq<RotationSchedule>) -> Seq<ScheduleModel> {
    schedules.map_values(|s: RotationSchedule| s@)
}

/// `schedule` on `date`, given the absences that count on that day; nothing
/// where the schedule has no duty on that day.
pub open spec fn day_of(schedule: ScheduleModel, active: Seq<ActiveModel>, date: Day) -> Option<
    DayModel,
> {
    match schedule.duty_at(date.number as int) {
        Some(duty) => Some(
            DayModel {
                schedule_name: schedule.name,
                duty_type: duty,
                date,
                members: statuses_of(duty, active, listing_of(schedule.members)),
            },
        ),
        None => None,
    }
}

/// Every one of `schedules` has a duty on `date`.
pub open spec fn days_resolve(schedules: Seq<ScheduleModel>, date: Day) -> bool {
    forall|i: int|
        0 <= i < schedules.len() ==> (#[trigger] schedules[i]).duty_at(date.number as int) is Some
}

/// The place of the first of `schedules` that has no duty on `date`, if
/// there is one.
pub open spec fn first_unresolved(schedules: Seq<ScheduleModel>, date: Day) -> Option<int>
    decreases schedules.len(),
{
    if schedules.len() == 0 {
        None
    } else {
        match first_unresolved(schedules.drop_last(), date) {
            Some(i) => Some(i),
            None => if schedules.last().duty_at(date.number as int) is None {
                Some(schedules.len() - 1)
            } else {
                None
            },
        }
    }
}

/// Each of `schedules` on `date`, in their order, where each has a duty.
pub open spec fn day_models(schedules: Seq<ScheduleModel>, active: Seq<ActiveModel>, date: Day)
    -> Seq<DayModel> {
    schedules.map_values(|s: ScheduleModel| day_of(s, active, date).unwrap())
}

/// The sizes of all rosters, added up. A person on two rosters counts
/// twice.
pub open spec fn total_members(schedules: Seq<ScheduleModel>) -> nat
    decreases schedules.len(),
{
    if schedules.len() == 0 {
        0
    } else {
        total_members(schedules.drop_last()) + schedules.last().members.len()
    }
}

/// The members listed on all of `days`, added up.
pub open spec fn total_listed(days: Seq<DayModel>) -> nat
    decreases days.len(),
{
    if days.len() == 0 {
        0
    } else {
        total_listed(days.drop_last()) + days.last().members.len()
    }
}

/// The members away on all of `days`, added up.
pub open spec fn total_away(days: Seq<DayModel>) -> nat
    decreases days.len(),
{
    if days.len() == 0 {
        0
    } else {
        total_away(days.drop_last()) + away_among(days.last().members)
    }
}

/// What a [`DailyReport`] records.
pub struct ReportModel {
    pub date: Day,
    pub schedules: Seq<DayModel>,
    pub on_base_count: int,
    pub away_count: int,
}

impl ReportModel {
    /// The counts fit the lists: `away_count` is the number of members
    /// marked away, and with `on_base_count` it makes up the number of
    /// members listed.
    pub open spec fn is_consistent(self) -> bool {
        &&& self.away_count == total_away(self.schedules)
        &&& self.on_base_count >= 0
        &&& self.on_base_count + self.away_count == total_listed(self.schedules)
    }
}

/// The report of `date` for `schedules`, given the absence intervals, where
/// every schedule has a duty on that day.
pub open spec fn report_of(schedules: Seq<ScheduleModel>, intervals: Seq<AbsenceModel>, date: Day)
    -> ReportModel {
    let active = active_in(intervals, date.noon_instant());
    let days = day_models(schedules, active, date);
    ReportModel {
        date,
        schedules: days,
        on_base_count: total_members(schedules) - total_away(days),
        away_count: total_away(days) as int,
    }
}

/// The first schedule without a duty is one, the schedules before it have
/// a duty, and there is none exactly when every schedule has a duty.
pub proof fn lemma_first_unresolved(schedules: Seq<ScheduleModel>, date: Day)
    ensures
        first_unresolved(schedules, date) is None <==> days_resolve(schedules, date),
        first_unresolved(schedules, date) matches Some(i) ==> {
            &&& 0 <= i < schedules.len()
            &&& schedules[i].duty_at(date.number as int) is None
            &&& forall|j: int|
                0 <= j < i ==> (#[trigger] schedules[j]).duty_at(date.number as int) is Some
        },
    decreases schedules.len(),
{
    if schedules.len() > 0 {
        let rest = schedules.drop_last();
        lemma_first_unresolved(rest, date);
        assert forall|j: int| 0 <= j < rest.len() implies rest[j] == schedules[j] by {}
        if days_resolve(schedules, date) {
            assert forall|j: int| 0 <= j < rest.len() implies (#[trigger] rest[j]).duty_at(
                date.number as int,
            ) is Some by {
                assert(rest[j] == schedules[j]);
            }
        }
        match first_unresolved(rest, date) {
            Some(i) => {
                assert(rest[i] == schedules[i]);
                assert forall|j: int| 0 <= j < i implies (#[trigger] schedules[j]).duty_at(
                    date.number as int,
                ) is Some by {
                    assert(rest[j] == schedules[j]);
                }
            },
            None => {
                assert forall|j: int| 0 <= j < rest.len() implies (#[trigger] schedules[j]).duty_at(
                    date.number as int,
                ) is Some by {
                    assert(rest[j] == schedules[j]);
                }
            },
        }
    }
}

/// The rosters of the first schedules are no larger than those of all.
pub proof fn lemma_total_members_take(schedules: Seq<ScheduleModel>, i: int)
    requires
        0 <= i <= schedules.len(),
    ensures
        total_members(schedules.take(i)) <= total_members(schedules),
        i < schedules.len() ==> total_members(schedules.take(i + 1)) == total_members(
            schedules.take(i),
        ) + schedules[i].members.len(),
    decreases schedules.len(),
{
    if i < schedules.len() {
        assert(schedules.take(i + 1).drop_last() =~= schedules.take(i));
        assert(schedules.drop_last().take(i) =~= schedules.take(i));
        lemma_total_members_take(schedules.drop_last(), i);
    } else {
        assert(schedules.take(i) =~= schedules);
    }
}

/// Each day lists the members of its schedule, so the days together list
/// as many as the rosters hold; and no more are away than are listed.
pub proof fn lemma_day_models_totals(
    schedules: Seq<ScheduleModel>,
    active: Seq<ActiveModel>,
    date: Day,
)
    requires
        days_resolve(schedules, date),
    ensures
        total_listed(day_models(schedules, active, date)) == total_members(schedules),
        total_away(day_models(schedules, active, date)) <= total_members(schedules),
    decreases schedules.len(),
{
    let days = day_models(schedules, active, date);
    if schedules.len() > 0 {
        let rest = schedules.drop_last();
        assert forall|j: int| 0 <= j < rest.len() implies (#[trigger] rest[j]).duty_at(
            date.number as int,
        ) is Some by {
            assert(rest[j] == schedules[j]);
        }
        lemma_day_models_totals(rest, active, date);
        assert(days.drop_last() =~= day_models(rest, active, date));
        let last = schedules.last();
        assert(schedules[schedules.len() - 1].duty_at(date.number as int) is Some);
        lemma_listing_of(last.members);
        lemma_away_among_bound(days.last().members);
    }
}

/// The counts of a report reconcile: those on base and those away make up
/// the sizes of all rosters, those away are the members marked away, and
/// neither count is negative.
pub proof fn lemma_report_counts(
    schedules: Seq<ScheduleModel>,
    intervals: Seq<AbsenceModel>,
    date: Day,
)
    requires
        days_resolve(schedules, date),
    ensures
        report_of(schedules, intervals, date).is_consistent(),
        report_of(schedules, intervals, date).on_base_count + report_of(
            schedules,
            intervals,
            date,
        ).away_count == total_members(schedules),
        report_of(schedules, intervals, date).on_base_count >= 0,
        report_of(schedules, intervals, date).away_count >= 0,
{
    lemma_day_models_totals(schedules, active_in(intervals, date.noon_instant()), date);
}

/// `schedule` on `date`: its duty, and its members in the order of their
/// names, each with their status given the absences `active`.
///
/// Fails exactly when the schedule has no duty on `date`.
pub fn resolve_day(schedule: &RotationSchedule, active: &Vec<ActiveAbsence>, date: Day) -> (r:
    Result<ResolvedDay, ScheduleConfigError>)
    ensures
        match r {
            Ok(day) => day_of(schedule@, active_models(active@), date) == Some(day@),
            Err(e) => e.reports(schedule@, date),
        },
{
    let duty = match resolve(schedule, date) {
        Ok(duty) => duty,
        Err(e) => {
            return Err(e);
        },
    };
    let names = sorted_names(&schedule.members);
    let n: usize = names.len();
    let ghost listed = listing_of(schedule@.members);
    let ghost wanted = statuses_of(duty, active_models(active@), listed);
    let mut members: Vec<MemberStatus> = Vec::new();
    let mut i: usize = 0;
    while i < n
        invariant
            n == names.len(),
            i <= n,
            listed == names_of(names@),
            wanted == statuses_of(duty, active_models(active@), listed),
            status_models(members@) == wanted.take(i as int),
        decreases n - i,
    {
        let status = member_status(duty, active, &names[i]);
        let ghost before = members@;
        members.push(status);
        proof {
            assert(listed[i as int] == names[i as int]@);
            assert(wanted[i as int] == status@);
            assert(status_models(members@) =~= status_models(before).push(status@));
            assert(wanted.take(i as int + 1) =~= wanted.take(i as int).push(wanted[i as int]));
        }
        i += 1;
    }
    assert(wanted.take(n as int) =~= wanted);
    Ok(ResolvedDay { schedule_name: schedule.name.clone(), duty_type: duty, date, members })
}

/// The report of one day: every schedule with its duty and members, how
/// many members are on base and how many are away.
///
/// The two counts always make up the number of members listed, and
/// `away_count` is the number of members marked away.
#[derive(Debug)]
pub struct DailyReport {
    date: Day,
    schedules: Vec<ResolvedDay>,
    on_base_count: usize,
    away_count: usize,
}

impl View for DailyReport {
    type V = ReportModel;

    closed spec fn view(&self) -> ReportModel {
        ReportModel {
            date: self.date,
            schedules: day_views(self.schedules@),
            on_base_count: self.on_base_count as int,
            away_count: self.away_count as int,
        }
    }
}

impl DailyReport {
    #[verifier::type_invariant]
    spec fn counts_fit(self) -> bool {
        self@.is_consistent()
    }

    /// The day of the report.
    pub fn date(&self) -> (d: Day)
        ensures
            d == self@.date,
    {
        self.date
    }

    /// The schedules on that day, in the order in which they were given.
    pub fn schedules(&self) -> (days: &Vec<ResolvedDay>)
        ensures
            day_views(days@) == self@.schedules,
    {
        &self.schedules
    }

    /// How many members are on base: the members listed less those away.
    pub fn on_base_count(&self) -> (n: usize)
        ensures
            n == self@.on_base_count,
            n + self@.away_count == total_listed(self@.schedules),
    {
        proof {
            use_type_invariant(self);
        }
        self.on_base_count
    }

    /// How many members are away: the members marked away on the
    /// schedules of the report.
    pub fn away_count(&self) -> (n: usize)
        ensures
            n == self@.away_count,
            n == total_away(self@.schedules),
            self@.on_base_count + n == total_listed(self@.schedules),
    {
        proof {
            use_type_invariant(self);
        }
        self.away_count
    }
}

/// The sizes of all rosters, added up; nothing where the sum is beyond the
/// machine's numbers.
pub fn roster_total(schedules: &Vec<RotationSchedule>) -> (total: Option<usize>)
    ensures
        match total {
            Some(n) => n == total_members(schedule_models(schedules@)),
            None => total_members(schedule_models(schedules@)) > usize::MAX,
        },
{
    let len: usize = schedules.len();
    let ghost models = schedule_models(schedules@);
    let mut sum: usize = 0;
    let mut i: usize = 0;
    assert(models.take(0) =~= Seq::<ScheduleModel>::empty());
    while i < len
        invariant
            len == schedules.len(),
            models == schedule_models(schedules@),
            i <= len,
            sum == total_members(models.take(i as int)),
        decreases len - i,
    {
        proof {
            lemma_total_members_take(models, i as int);
            lemma_total_members_take(models, i as int + 1);
            assert(models[i as int] == schedules[i as int]@);
        }
        match sum.checked_add(schedules[i].members.len()) {
            Some(more) => {
                sum = more;
            },
            None => {
                return None;
            },
        }
        i += 1;
    }
    assert(models.take(len as int) =~= models);
    Some(sum)
}

/// The report of `date`: every schedule resolved, the absences that count
/// at noon of that day laid over the rosters, and the counts.
///
/// Fails exactly when a schedule has no duty on `date`; the error is that
/// of the first such schedule, and no report is made.
pub fn build_report(schedules: &Vec<RotationSchedule>, registry: &AbsenceRegistry, date: Day) -> (r:
    Result<DailyReport, ScheduleConfigError>)
    requires
        total_members(schedule_models(schedules@)) <= usize::MAX,
    ensures
        match r {
            Ok(report) => {
                &&& days_resolve(schedule_models(schedules@), date)
                &&& report@ == report_of(schedule_models(schedules@), registry@, date)
                &&& report@.on_base_count + report@.away_count == total_members(
                    schedule_models(schedules@),
                )
            },
            Err(e) => match first_unresolved(schedule_models(schedules@), date) {
                Some(i) => {
                    &&& 0 <= i < schedules.len()
                    &&& e.reports(schedules[i]@, date)
                    &&& forall|j: int|
                        0 <= j < i ==> (#[trigger] schedules[j])@.duty_at(date.number as int)
                            is Some
                },
                None => false,
            },
        },
{
    let active = registry.active_at(date.noon());
    let len: usize = schedules.len();
    let ghost models = schedule_models(schedules@);
    let ghost counted = active_models(active@);
    let mut days: Vec<ResolvedDay> = Vec::new();
    let mut total: usize = 0;
    let mut away: usize = 0;
    let mut i: usize = 0;
    proof {
        assert(models.take(0) =~= Seq::<ScheduleModel>::empty());
        assert(day_views(days@) =~= day_models(models.take(0), counted, date));
    }
    while i < len
        invariant
            len == schedules.len(),
            models == schedule_models(schedules@),
            i <= len,
            counted == active_models(active@),
            total_members(models) <= usize::MAX,
            first_unresolved(models.take(i as int), date) is None,
            day_views(days@) == day_models(models.take(i as int), counted, date),
            total == total_members(models.take(i as int)),
            away == total_away(day_views(days@)),
            away <= total,
        decreases len - i,
    {
        proof {
            lemma_total_members_take(models, i as int);
            lemma_total_members_take(models, i as int + 1);
            assert(models.take(i as int + 1).drop_last() =~= models.take(i as int));
            assert(models[i as int] == schedules[i as int]@);
        }
        match resolve_day(&schedules[i], &active, date) {
            Ok(day) => {
                let gone: usize = count_away(&day.members);
                proof {
                    lemma_away_among_bound(day@.members);
                    lemma_listing_of(models[i as int].members);
                    let before = day_views(days@);
                    assert(day_views(days@.push(day)) =~= before.push(day@));
                    assert(before.push(day@).drop_last() =~= before);
                    assert(day_models(models.take(i as int + 1), counted, date) =~= day_models(
                        models.take(i as int),
                        counted,
                        date,
                    ).push(day@));
                }
                total = total + schedules[i].members.len();
                away = away + gone;
                days.push(day);
            },
            Err(e) => {
                proof {
                    lemma_first_unresolved(models, date);
                    lemma_first_unresolved(models.take(i as int), date);
                    assert forall|j: int| 0 <= j < i implies (#[trigger] models[j]).duty_at(
                        date.number as int,
                    ) is Some by {
                        assert(models.take(i as int)[j] == models[j]);
                    }
                    assert forall|j: int| 0 <= j < i implies (#[trigger] schedules[j])@.duty_at(
                        date.number as int,
                    ) is Some by {
                        assert(models[j] == schedules[j]@);
                    }
                }
                return Err(e);
            },
        }
        i += 1;
    }
    proof {
        assert(models.take(len as int) =~= models);
        lemma_first_unresolved(models, date);
        lemma_day_models_totals(models, counted, date);
    }
    Ok(DailyReport { date, schedules: days, on_base_count: total - away, away_count: away })
}

/// The reports of `count` days in a row, `first` and those after it, in
/// that order; none where `count` is not positive.
///
/// Fails exactly when a schedule has no duty on one of the days; the error
/// is that of the first such day, and no report is handed out.
pub fn build_reports(
    schedules: &Vec<RotationSchedule>,
    registry: &AbsenceRegistry,
    first: Day,
    count: i32,
) -> (r: Result<Vec<DailyReport>, ScheduleConfigError>)
    requires
        total_members(schedule_models(schedules@)) <= usize::MAX,
        first.number + count - 1 <= i32::MAX,
    ensures
        match r {
            Ok(reports) => {
                &&& reports.len() == if count > 0 {
                    count as int
                } else {
                    0
                }
                &&& forall|k: int|
                    0 <= k < reports.len() ==> {
                        &&& days_resolve(schedule_models(schedules@), first.plus(k))
                        &&& (#[trigger] reports[k])@ == report_of(
                            schedule_models(schedules@),
                            registry@,
                            first.plus(k),
                        )
                    }
            },
            Err(e) => {
                let k = e.date.number - first.number;
                &&& 0 <= k < count
                &&& forall|j: int|
                    0 <= j < k ==> days_resolve(
                        schedule_models(schedules@),
                        #[trigger] first.plus(j),
                    )
                &&& match first_unresolved(schedule_models(schedules@), first.plus(k)) {
                    Some(i) => 0 <= i < schedules.len() && e.reports(schedules[i]@, first.plus(k)),
                    None => false,
                }
            },
        },
{
    let ghost models = schedule_models(schedules@);
    let mut reports: Vec<DailyReport> = Vec::new();
    let mut k: i32 = 0;
    while k < count
        invariant
            0 <= k,
            k <= count || k == 0,
            models == schedule_models(schedules@),
            total_members(models) <= usize::MAX,
            first.number + count - 1 <= i32::MAX,
            reports.len() == k,
            forall|j: int|
                0 <= j < k ==> (#[trigger] reports[j])@ == report_of(
                    models,
                    registry@,
                    first.plus(j),
                ),
            forall|j: int| 0 <= j < k ==> days_resolve(models, #[trigger] first.plus(j)),
        decreases count - k,
    {
        let day = first.add_days(k);
        match build_report(schedules, registry, day) {
            Ok(report) => {
                reports.push(report);
            },
            Err(e) => {
                return Err(e);
            },
        }
        k += 1;
    }
    Ok(reports)
}

} // verus!
