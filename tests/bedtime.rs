use bot_logic::bedtime::{Bedtime, ScheduleError, Schedules, WeekdaySet};
use chrono::{TimeDelta, TimeZone, Utc, Weekday};

fn ts(y: i32, mo: u32, d: u32, h: u32, mi: u32) -> i64 {
    Utc.with_ymd_and_hms(y, mo, d, h, mi, 0).unwrap().timestamp()
}

fn days(list: &[Weekday]) -> WeekdaySet {
    let mut set = WeekdaySet::new();
    for wd in list {
        set.toggle(wd.num_days_from_monday() as u8);
    }
    set
}

#[test]
fn currently_relevant_bedtimes_when_after_first() {
    let today = Utc.with_ymd_and_hms(2025, 1, 1, 1, 15, 0).unwrap();
    let bedtime2 = Bedtime {
        user: Default::default(),
        first: (today - TimeDelta::days(10)).timestamp(),
        repeat: days(&[Weekday::Tue, Weekday::Wed, Weekday::Sun]),
    };
    assert_eq!(
        bedtime2.currently_relevant_bedtimes((today - TimeDelta::minutes(1)).timestamp()),
        vec![
            ts(2024, 12, 22, 1, 15),
            ts(2024, 12, 31, 1, 15),
            ts(2025, 1, 1, 1, 15),
            ts(2025, 1, 5, 1, 15),
            ts(2025, 1, 7, 1, 15),
            ts(2025, 1, 8, 1, 15),
        ]
    );
}

#[test]
fn currently_relevant_bedtimes_when_before_first() {
    let today = Utc.with_ymd_and_hms(2025, 1, 1, 1, 15, 0).unwrap();
    let bedtime = Bedtime {
        user: Default::default(),
        first: today.timestamp(),
        repeat: days(&[Weekday::Tue, Weekday::Wed, Weekday::Sun]),
    };
    assert_eq!(
        bedtime.currently_relevant_bedtimes((today - TimeDelta::minutes(1)).timestamp()),
        vec![
            ts(2025, 1, 1, 1, 15),
            ts(2025, 1, 5, 1, 15),
            ts(2025, 1, 7, 1, 15),
            ts(2025, 1, 8, 1, 15),
        ]
    );
}

#[test]
fn recurrence_from_first_of_january() {
    let bedtime = Bedtime {
        user: 1,
        first: ts(2025, 1, 1, 1, 15),
        repeat: days(&[Weekday::Tue, Weekday::Wed, Weekday::Sun]),
    };
    let now = ts(2024, 12, 31, 23, 59);
    assert_eq!(
        bedtime.currently_relevant_bedtimes(now),
        vec![ts(2025, 1, 1, 1, 15), ts(2025, 1, 5, 1, 15), ts(2025, 1, 7, 1, 15)]
    );
    assert_eq!(bedtime.next(now), ts(2025, 1, 1, 1, 15));
}

#[test]
fn next_occurrence_is_stable() {
    let bedtime = Bedtime {
        user: 1,
        first: ts(2025, 1, 1, 22, 0),
        repeat: days(&[Weekday::Mon, Weekday::Fri]),
    };
    let now = ts(2025, 1, 6, 23, 0);
    let a = bedtime.next(now);
    let b = bedtime.next(now);
    assert_eq!(a, b);
    assert_eq!(a, ts(2025, 1, 10, 22, 0));
}

#[test]
fn next_falls_back_to_first_without_repeats() {
    let bedtime = Bedtime { user: 1, first: ts(2025, 1, 1, 22, 0), repeat: WeekdaySet::new() };
    assert_eq!(bedtime.next(ts(2025, 3, 1, 0, 0)), ts(2025, 1, 1, 22, 0));
    assert_eq!(bedtime.next(ts(2024, 3, 1, 0, 0)), ts(2025, 1, 1, 22, 0));
}

#[test]
fn occurrences_before_the_epoch() {
    let bedtime = Bedtime {
        user: 1,
        first: ts(1960, 1, 1, 23, 30),
        repeat: days(&[Weekday::Sat]),
    };
    // 1960-01-02 was a Saturday
    assert_eq!(bedtime.next(ts(1960, 1, 2, 0, 0)), ts(1960, 1, 2, 23, 30));
}

#[test]
fn weekday_toggle_flips_membership() {
    let mut set = WeekdaySet::new();
    assert!(set.is_empty());
    set.toggle(3);
    assert!(set.contains(3));
    assert!(!set.is_empty());
    set.toggle(3);
    assert!(!set.contains(3));
    assert!(set.is_empty());
}

#[test]
fn active_during_duration_only() {
    let bedtime = Bedtime { user: 1, first: ts(2025, 1, 1, 22, 0), repeat: WeekdaySet::new() };
    let six_hours = 6 * 3600;
    assert!(bedtime.is_active_at(ts(2025, 1, 1, 23, 0), six_hours));
    assert!(!bedtime.is_active_at(ts(2025, 1, 2, 4, 0), six_hours));
    assert!(!bedtime.is_active_at(ts(2025, 1, 1, 21, 59), six_hours));
}

#[test]
fn toggle_and_delete_check_owner() {
    let mut store = Schedules::new();
    let id = store.create(7, ts(2025, 1, 1, 22, 0)).unwrap();
    assert_eq!(store.toggle_repeat_day(id, 8, 2), Err(ScheduleError::Forbidden));
    assert_eq!(store.toggle_repeat_day(id.wrapping_add(1), 7, 2), Err(ScheduleError::NotFound));
    let toggled = store.toggle_repeat_day(id, 7, 2).unwrap();
    assert!(toggled.repeat.contains(2));
    assert_eq!(store.owned(id, 7).unwrap(), toggled);
    assert_eq!(store.delete(id, 8), Err(ScheduleError::Forbidden));
    assert_eq!(store.delete(id, 7), Ok(toggled));
    assert_eq!(store.owned(id, 7), Err(ScheduleError::NotFound));
    assert!(store.entries.is_empty());
}

#[test]
fn sweep_prunes_outdated_and_reports_enforcement() {
    let mut store = Schedules::new();
    let duration = 6 * 3600;
    let old = store.create(1, ts(2025, 1, 1, 22, 0)).unwrap();
    let current = store.create(2, ts(2025, 1, 5, 22, 0)).unwrap();
    let repeating = store.create(3, ts(2024, 12, 1, 23, 0)).unwrap();
    store.toggle_repeat_day(repeating, 3, Weekday::Sun.num_days_from_monday() as u8).unwrap();
    let now = ts(2025, 1, 5, 23, 30);

    let result = store.sweep(now, duration);
    assert_eq!(result, vec![(1, false), (2, true), (3, true)]);
    assert_eq!(store.owned(old, 1), Err(ScheduleError::NotFound));
    assert!(store.owned(current, 2).is_ok());
    assert!(store.owned(repeating, 3).is_ok());

    // the pruned bedtime is never enforced again
    assert!(!store.is_enforced(1, now, duration));
    assert!(!store.is_enforced(1, ts(2025, 1, 8, 22, 30), duration));
}

#[test]
fn intervals_merge_across_a_users_bedtimes() {
    let mut store = Schedules::new();
    store.create(5, ts(2025, 1, 5, 22, 0)).unwrap();
    store.create(9, ts(2025, 1, 5, 20, 0)).unwrap();
    store.create(5, ts(2025, 1, 6, 1, 0)).unwrap();
    let set = store.bedtime_intervals(5, ts(2025, 1, 5, 23, 0), 4 * 3600);
    let spans = set.intervals();
    assert_eq!(spans.len(), 1);
    assert_eq!(spans[0].start, ts(2025, 1, 5, 22, 0));
    assert_eq!(spans[0].end, ts(2025, 1, 6, 5, 0));
    assert_eq!(store.users(), vec![5, 9]);
}

#[test]
fn other_bedtimes_of_a_member() {
    let mut store = Schedules::new();
    let a = store.create(5, ts(2025, 1, 5, 22, 0)).unwrap();
    store.create(9, ts(2025, 1, 5, 20, 0)).unwrap();
    let c = store.create(5, ts(2025, 1, 6, 1, 0)).unwrap();
    let others = store.others_of_user(5, a);
    assert_eq!(others.len(), 1);
    assert_eq!(others[0].id, c);
    assert_eq!(others[0].bedtime.first, ts(2025, 1, 6, 1, 0));
}

#[test]
fn creating_a_bedtime_under_a_taken_id_changes_nothing() {
    let mut store = Schedules::new();
    assert_eq!(store.create_with_id(7, 1, ts(2025, 1, 1, 22, 0)), Ok(7));
    assert_eq!(store.create_with_id(7, 2, ts(2025, 1, 2, 22, 0)), Err(ScheduleError::IdInUse));
    assert_eq!(store.entries.len(), 1);
    assert_eq!(store.owned(7, 1).unwrap().first, ts(2025, 1, 1, 22, 0));
}
