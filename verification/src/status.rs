//! The status of one member of a schedule on one day.
//!
//! A member of a schedule that is on standing leave is away, whatever the
//! absences of the day hold. A member of any other schedule is away exactly
//! when one of the day's absences names that person; the reason is the one
//! recorded with the first such absence, or [`NO_REASON`] where none was
//! recorded.

use vstd::prelude::*;
use crate::absence::{active_models, reason_text, ActiveAbsence, ActiveModel};
use crate::schedule::DutyType;

verus! {

/// The reason given for an absence that was recorded without one.
pub const NO_REASON: &'static str = "ingen god grunn";

/// One member of a schedule on one day.
#[derive(Debug)]
pub struct MemberStatus {
    pub member: String,
    /// Whether the member is away on that day.
    pub absent: bool,
    /// Why the member is away: nothing for a member who is present or on
    /// standing leave.
    pub reason: Option<String>,
}

/// What a [`MemberStatus`] records.
pub struct StatusModel {
    pub member: Seq<char>,
    pub absent: bool,
    pub reason: Option<Seq<char>>,
}

impl View for MemberStatus {
    type V = StatusModel;

    open spec fn view(&self) -> StatusModel {
        StatusModel { member: self.member@, absent: self.absent, reason: reason_text(self.reason) }
    }
}

/// What a list of statuses records, in the list's order.
pub open spec fn status_models(statuses: Seq<MemberStatus>) -> Seq<StatusModel> {
    statuses.map_values(|s: MemberStatus| s@)
}

/// The first of `active` that names `member`, if any does.
pub open spec fn first_absence(active: Seq<ActiveModel>, member: Seq<char>) -> Option<ActiveModel>
    decreases active.len(),
{
    if active.len() == 0 {
        None
    } else if active[0].person == member {
        Some(active[0])
    } else {
        first_absence(active.drop_first(), member)
    }
}

/// The status of `member` on a day with duty `duty`, given the absences
/// that count on that day.
pub open spec fn status_of(duty: DutyType, active: Seq<ActiveModel>, member: Seq<char>)
    -> StatusModel {
    if duty == DutyType::StandingLeave {
        StatusModel { member, absent: true, reason: None }
    } else {
        match first_absence(active, member) {
            Some(absence) => StatusModel {
                member,
                absent: true,
                reason: Some(
                    match absence.reason {
                        Some(text) => text,
                        None => NO_REASON@,
                    },
                ),
            },
            None => StatusModel { member, absent: false, reason: None },
        }
    }
}

/// The statuses of `names`, in their order.
pub open spec fn statuses_of(duty: DutyType, active: Seq<ActiveModel>, names: Seq<Seq<char>>)
    -> Seq<StatusModel> {
    names.map_values(|member: Seq<char>| status_of(duty, active, member))
}

/// How many of `statuses` are away.
pub open spec fn away_among(statuses: Seq<StatusModel>) -> nat {
    statuses.filter(|s: StatusModel| s.absent).len()
}

/// Some absence among `active` names `member` exactly when a first one
/// does.
pub proof fn lemma_first_absence(active: Seq<ActiveModel>, member: Seq<char>)
    ensures
        first_absence(active, member) is Some <==> exists|j: int|
            0 <= j < active.len() && (#[trigger] active[j]).person == member,
        first_absence(active, member) matches Some(a) ==> a.person == member && active.contains(a),
    decreases active.len(),
{
    if active.len() > 0 {
        let rest = active.drop_first();
        lemma_first_absence(rest, member);
        if active[0].person != member {
            if first_absence(rest, member) is Some {
                let j = choose|j: int| 0 <= j < rest.len() && (#[trigger] rest[j]).person == member;
                assert(active[j + 1] == rest[j]);
                let a = first_absence(rest, member).unwrap();
                let i = choose|i: int| 0 <= i < rest.len() && rest[i] == a;
                assert(active[i + 1] == a);
            }
            if exists|j: int| 0 <= j < active.len() && (#[trigger] active[j]).person == member {
                let j = choose|j: int|
                    0 <= j < active.len() && (#[trigger] active[j]).person == member;
                assert(rest[j - 1] == active[j]);
            }
        } else {
            assert(active.contains(active[0]));
        }
    }
}

/// Off standing leave, a member is marked absent exactly when one of the
/// day's absences names that member; the reason is then that of the first
/// such absence, or the fixed one where it has none.
pub proof fn lemma_marked_absent_exactly(
    duty: DutyType,
    active: Seq<ActiveModel>,
    member: Seq<char>,
)
    requires
        duty != DutyType::StandingLeave,
    ensures
        status_of(duty, active, member).member == member,
        status_of(duty, active, member).absent <==> exists|j: int|
            0 <= j < active.len() && (#[trigger] active[j]).person == member,
        status_of(duty, active, member).absent ==> status_of(duty, active, member).reason is Some,
        !status_of(duty, active, member).absent ==> status_of(duty, active, member).reason is None,
{
    lemma_first_absence(active, member);
}

/// One more status adds one to the number of those away if it is away, and
/// nothing if it is not.
pub proof fn lemma_away_among_push(statuses: Seq<StatusModel>, next: StatusModel)
    ensures
        away_among(statuses.push(next)) == away_among(statuses) + if next.absent {
            1nat
        } else {
            0nat
        },
{
    reveal(Seq::filter);
    assert(statuses.push(next).drop_last() =~= statuses);
}

/// Of nobody, nobody is away.
pub proof fn lemma_away_among_empty()
    ensures
        away_among(Seq::<StatusModel>::empty()) == 0,
{
    reveal(Seq::filter);
}

/// No more are away than there are.
pub proof fn lemma_away_among_bound(statuses: Seq<StatusModel>)
    ensures
        away_among(statuses) <= statuses.len(),
{
    statuses.lemma_filter_len(|s: StatusModel| s.absent);
}

/// On standing leave every member is away.
pub proof fn lemma_standing_leave_all_away(active: Seq<ActiveModel>, names: Seq<Seq<char>>)
    ensures
        away_among(statuses_of(DutyType::StandingLeave, active, names)) == names.len(),
    decreases names.len(),
{
    let all = statuses_of(DutyType::StandingLeave, active, names);
    if names.len() == 0 {
        assert(all =~= Seq::<StatusModel>::empty());
        lemma_away_among_empty();
    } else {
        let rest = names.drop_last();
        let last = status_of(DutyType::StandingLeave, active, names.last());
        lemma_standing_leave_all_away(active, rest);
        assert(all =~= statuses_of(DutyType::StandingLeave, active, rest).push(last));
        lemma_away_among_push(statuses_of(DutyType::StandingLeave, active, rest), last);
    }
}

/// The place of the first of `active` that names `member`, if any does.
pub fn find_absence(active: &Vec<ActiveAbsence>, member: &String) -> (found: Option<usize>)
    ensures
        match found {
            Some(i) => {
                &&& i < active.len()
                &&& active[i as int].person@ == member@
                &&& forall|j: int| 0 <= j < i ==> (#[trigger] active[j]).person@ != member@
                &&& first_absence(active_models(active@), member@) == Some(active[i as int]@)
            },
            None => {
                &&& forall|j: int| 0 <= j < active.len() ==> (#[trigger] active[j]).person@ != member@
                &&& first_absence(active_models(active@), member@) is None
            },
        },
{
    let n: usize = active.len();
    let ghost models = active_models(active@);
    let mut i: usize = 0;
    assert(models.skip(0) =~= models);
    while i < n
        invariant
            n == active.len(),
            i <= n,
            models == active_models(active@),
            forall|j: int| 0 <= j < i ==> (#[trigger] active[j]).person@ != member@,
            first_absence(models, member@) == first_absence(models.skip(i as int), member@),
        decreases n - i,
    {
        proof {
            assert(models.skip(i as int)[0] == active[i as int]@);
            assert(models.skip(i as int).drop_first() =~= models.skip(i as int + 1));
        }
        if active[i].person == *member {
            return Some(i);
        }
        i += 1;
    }
    None
}

/// The status of `member` on a day with duty `duty`, given the absences
/// that count on that day.
pub fn member_status(duty: DutyType, active: &Vec<ActiveAbsence>, member: &String) -> (status:
    MemberStatus)
    ensures
        status@ == status_of(duty, active_models(active@), member@),
{
    match duty {
        DutyType::StandingLeave => MemberStatus { member: member.clone(), absent: true, reason: None },
        _ => match find_absence(active, member) {
            Some(i) => {
                let reason = match &active[i].reason {
                    Some(text) => text.clone(),
                    None => NO_REASON.to_owned(),
                };
                MemberStatus { member: member.clone(), absent: true, reason: Some(reason) }
            },
            None => MemberStatus { member: member.clone(), absent: false, reason: None },
        },
    }
}

/// How many of `statuses` are away.
pub fn count_away(statuses: &Vec<MemberStatus>) -> (n: usize)
    ensures
        n == away_among(status_models(statuses@)),
{
    let len: usize = statuses.len();
    let ghost models = status_models(statuses@);
    let mut n: usize = 0;
    let mut i: usize = 0;
    proof {
        assert(models.take(0) =~= Seq::<StatusModel>::empty());
        lemma_away_among_empty();
    }
    while i < len
        invariant
            len == statuses.len(),
            models == status_models(statuses@),
            i <= len,
            n == away_among(models.take(i as int)),
            n <= i,
        decreases len - i,
    {
        proof {
            assert(models.take(i as int + 1) =~= models.take(i as int).push(models[i as int]));
            lemma_away_among_push(models.take(i as int), models[i as int]);
        }
        if statuses[i].absent {
            n += 1;
        }
        i += 1;
    }
    assert(models.take(len as int) =~= models);
    n
}

} // verus!
