use rota::schedule::{resolve, DutyType, RotationSchedule};
use rota::time::{Day, Instant};
use std::collections::HashMap;

const JAN_1_2024: i32 = 19_723;

fn midnight(day: i32) -> Instant {
    Instant::from_seconds(day as i64 * 86_400)
}

fn schedule(name: &str, start: Instant, cycle: &[(i64, DutyType)], members: &[&str]) -> RotationSchedule {
    let mut map = HashMap::new();
    for (offset, duty) in cycle {
        map.insert(*offset, *duty);
    }
    RotationSchedule {
        name: name.to_string(),
        start,
        cycle: map,
        members: members.iter().map(|m| m.to_string()).collect(),
    }
}

fn alpha() -> RotationSchedule {
    schedule(
        "Alpha",
        midnight(JAN_1_2024),
        &[(0, DutyType::DayShift), (1, DutyType::NightShift)],
        &["A", "B"],
    )
}

fn four_days() -> RotationSchedule {
    schedule(
        "Four",
        Instant { seconds: JAN_1_2024 as i64 * 86_400 + 3_600, nanos: 250 },
        &[
            (0, DutyType::Education),
            (1, DutyType::StandingLeave),
            (2, DutyType::DayShift),
            (3, DutyType::NightShift),
        ],
        &["X"],
    )
}

#[test]
fn two_day_cycle_resolves_the_third_day_to_day_shift() {
    let s = alpha();
    assert_eq!(s.offset_of(Day { number: JAN_1_2024 + 2 }), 0);
    assert_eq!(resolve(&s, Day { number: JAN_1_2024 + 2 }).unwrap(), DutyType::DayShift);
}

#[test]
fn two_day_cycle_alternates() {
    let s = alpha();
    assert_eq!(resolve(&s, Day { number: JAN_1_2024 }).unwrap(), DutyType::DayShift);
    assert_eq!(resolve(&s, Day { number: JAN_1_2024 + 1 }).unwrap(), DutyType::NightShift);
    assert_eq!(resolve(&s, Day { number: JAN_1_2024 + 3 }).unwrap(), DutyType::NightShift);
    assert_eq!(resolve(&s, Day { number: JAN_1_2024 + 4 }).unwrap(), DutyType::DayShift);
}

#[test]
fn offset_is_zero_based_without_adjustment() {
    let s = four_days();
    assert_eq!(s.offset_of(Day { number: JAN_1_2024 }), 0);
    assert_eq!(s.offset_of(Day { number: JAN_1_2024 + 1 }), 1);
    assert_eq!(s.offset_of(Day { number: JAN_1_2024 + 2 }), 2);
    assert_eq!(s.offset_of(Day { number: JAN_1_2024 + 3 }), 3);
    assert_eq!(s.offset_of(Day { number: JAN_1_2024 + 4 }), 0);
    assert_eq!(s.offset_of(Day { number: JAN_1_2024 + 27 }), 3);
    assert_eq!(s.offset_of(Day { number: JAN_1_2024 + 28 }), 0);
    assert_eq!(s.offset_of(Day { number: JAN_1_2024 + 29 }), 1);
}

#[test]
fn a_day_before_the_start_is_on_the_cycle_too() {
    let s = four_days();
    assert_eq!(s.offset_of(Day { number: JAN_1_2024 - 1 }), 3);
    assert_eq!(s.offset_of(Day { number: JAN_1_2024 - 2 }), 2);
    assert_eq!(s.offset_of(Day { number: JAN_1_2024 - 3 }), 1);
    assert_eq!(s.offset_of(Day { number: JAN_1_2024 - 4 }), 0);
    assert_eq!(s.offset_of(Day { number: JAN_1_2024 - 5 }), 3);
    assert_eq!(resolve(&s, Day { number: JAN_1_2024 - 1 }).unwrap(), DutyType::NightShift);
    assert_eq!(resolve(&s, Day { number: JAN_1_2024 - 4 }).unwrap(), DutyType::Education);
    assert_eq!(resolve(&s, Day { number: JAN_1_2024 - 7 }).unwrap(), DutyType::StandingLeave);
}

#[test]
fn resolve_is_periodic() {
    for s in [alpha(), four_days()] {
        let len = s.cycle.len() as i32;
        let start_day = s.start.day() as i32;
        let at_start = resolve(&s, Day { number: start_day }).unwrap();
        for k in -50..=50 {
            let later = Day { number: start_day + k * len };
            assert_eq!(s.offset_of(later), 0);
            assert_eq!(resolve(&s, later).unwrap(), at_start);
        }
        for day in (start_day - 9)..(start_day + 9) {
            let here = resolve(&s, Day { number: day }).unwrap();
            for k in [-3, -1, 1, 2, 7] {
                assert_eq!(resolve(&s, Day { number: day + k * len }).unwrap(), here);
            }
        }
    }
}

#[test]
fn a_complete_cycle_resolves_every_day() {
    let s = four_days();
    for day in (JAN_1_2024 - 400)..(JAN_1_2024 + 400) {
        let offset = s.offset_of(Day { number: day });
        assert!(offset < 4);
        assert_eq!(resolve(&s, Day { number: day }).unwrap(), s.cycle[&(offset as i64)]);
    }
}

#[test]
fn a_cycle_without_offset_zero_is_a_config_error() {
    let s = schedule("Delta", midnight(JAN_1_2024), &[(1, DutyType::DayShift)], &["D"]);
    let date = Day { number: JAN_1_2024 + 5 };
    let e = resolve(&s, date).unwrap_err();
    assert_eq!(e.schedule_name, "Delta");
    assert_eq!(e.offset, 0);
    assert_eq!(e.date, date);
    // Every day of a cycle of length one has offset zero.
    for day in (JAN_1_2024 - 3)..(JAN_1_2024 + 3) {
        let e = resolve(&s, Day { number: day }).unwrap_err();
        assert_eq!(e.offset, 0);
        assert_eq!(e.date, Day { number: day });
    }
}

#[test]
fn an_incomplete_cycle_fails_only_on_the_missing_offset() {
    let s = schedule(
        "Gap",
        midnight(JAN_1_2024),
        &[(0, DutyType::DayShift), (2, DutyType::NightShift), (7, DutyType::Education)],
        &[],
    );
    assert_eq!(resolve(&s, Day { number: JAN_1_2024 }).unwrap(), DutyType::DayShift);
    assert_eq!(resolve(&s, Day { number: JAN_1_2024 + 2 }).unwrap(), DutyType::NightShift);
    let e = resolve(&s, Day { number: JAN_1_2024 + 1 }).unwrap_err();
    assert_eq!((e.schedule_name.as_str(), e.offset), ("Gap", 1));
    let e = resolve(&s, Day { number: JAN_1_2024 + 4 }).unwrap_err();
    assert_eq!((e.schedule_name.as_str(), e.offset), ("Gap", 1));
    let e = resolve(&s, Day { number: JAN_1_2024 - 2 }).unwrap_err();
    assert_eq!((e.schedule_name.as_str(), e.offset), ("Gap", 1));
    // The entry for offset seven is never reached: the cycle has three entries.
    assert_eq!(s.offset_of(Day { number: JAN_1_2024 + 7 }), 1);
}

#[test]
fn negative_keys_do_not_stand_for_offsets() {
    let s = schedule(
        "Neg",
        midnight(JAN_1_2024),
        &[(-1, DutyType::DayShift), (0, DutyType::NightShift)],
        &[],
    );
    assert_eq!(resolve(&s, Day { number: JAN_1_2024 }).unwrap(), DutyType::NightShift);
    let e = resolve(&s, Day { number: JAN_1_2024 - 1 }).unwrap_err();
    assert_eq!(e.offset, 1);
}

#[test]
fn an_empty_cycle_lacks_offset_zero() {
    let s = schedule("Empty", midnight(JAN_1_2024), &[], &["E"]);
    assert_eq!(s.offset_of(Day { number: JAN_1_2024 + 9 }), 0);
    let e = resolve(&s, Day { number: JAN_1_2024 + 9 }).unwrap_err();
    assert_eq!(e.schedule_name, "Empty");
    assert_eq!(e.offset, 0);
    assert_eq!(e.date, Day { number: JAN_1_2024 + 9 });
}

#[test]
fn offsets_at_the_limits_of_the_day_numbers() {
    let early = schedule(
        "Early",
        Instant::from_seconds(i64::MIN),
        &[(0, DutyType::DayShift), (1, DutyType::NightShift), (2, DutyType::Education)],
        &[],
    );
    // Day i32::MAX is 2_147_483_647 + 106_751_991_167_301 days after the start.
    assert_eq!(early.offset_of(Day { number: i32::MAX }), (2_147_483_647u64 + 106_751_991_167_301) % 3);
    let late = schedule(
        "Late",
        Instant::from_seconds(i64::MAX),
        &[(0, DutyType::DayShift), (1, DutyType::NightShift), (2, DutyType::Education)],
        &[],
    );
    // Day i32::MIN is 2_147_483_648 + 106_751_991_167_300 days before the start.
    let back: u64 = 2_147_483_648 + 106_751_991_167_300;
    assert_eq!(late.offset_of(Day { number: i32::MIN }), (3 - back % 3) % 3);
}

#[test]
fn resolving_twice_gives_the_same_answer() {
    let s = schedule("Delta", midnight(JAN_1_2024), &[(1, DutyType::DayShift)], &[]);
    let first = resolve(&s, Day { number: 5 }).unwrap_err();
    let second = resolve(&s, Day { number: 5 }).unwrap_err();
    assert_eq!(first.schedule_name, second.schedule_name);
    assert_eq!(first.offset, second.offset);
    assert_eq!(first.date, second.date);
}

#[test]
fn duties_are_written_out_by_name() {
    assert_eq!(DutyType::Education.name(), "Education");
    assert_eq!(DutyType::StandingLeave.name(), "StandingLeave");
    assert_eq!(DutyType::DayShift.name(), "DayShift");
    assert_eq!(DutyType::NightShift.name(), "NightShift");
}
