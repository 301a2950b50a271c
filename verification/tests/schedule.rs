use cronlist::CronError;
use cronlist::crontab::{Crontab, Entry};
use cronlist::date_time::DateTime;
use cronlist::recurrence::{NextPeriod, Recurrence};

fn at(year: u16, month: u8, day: u8, hour: u8, minute: u8) -> DateTime {
    DateTime::new(year, month, day, hour, minute).unwrap()
}

#[test]
fn recurrence_should_construct_a_recurrence_from_parser_responses() {
    let recurrence = Recurrence::new(&["1", "2", "3", "4", "5"]).unwrap();
    assert_eq!(*recurrence.minutes(), vec![1]);
    assert_eq!(*recurrence.hours(), vec![2]);
    assert_eq!(*recurrence.days_of_month(), vec![3]);
    assert_eq!(*recurrence.months(), vec![4]);
    assert_eq!(*recurrence.days_of_week(), vec![5]);
}

#[test]
fn should_get_occurrence_next_minute() {
    let recurrence = Recurrence::new(&["0,1", "0", "1", "1", "*"]).unwrap();
    let now = at(2000, 1, 1, 0, 0);
    assert_eq!(recurrence.next_match(now), Some(at(2000, 1, 1, 0, 1)));
}

#[test]
fn should_get_occurrence_across_hour_boundary() {
    let recurrence = Recurrence::new(&["0", "1", "1", "1", "*"]).unwrap();
    let now = at(2000, 1, 1, 0, 59);
    assert_eq!(recurrence.next_match(now), Some(at(2000, 1, 1, 1, 0)));
}

#[test]
fn should_get_occurrence_across_day_boundary() {
    let recurrence = Recurrence::new(&["0", "0", "2", "1", "*"]).unwrap();
    let now = at(2000, 1, 1, 0, 0);
    assert_eq!(recurrence.next_match(now), Some(at(2000, 1, 2, 0, 0)));
}

#[test]
fn should_get_occurrence_across_year_boundary() {
    let recurrence = Recurrence::new(&["0", "0", "1", "1", "0"]).unwrap();
    let now = at(2000, 1, 1, 0, 0);
    assert_eq!(recurrence.next_match(now), Some(at(2001, 1, 1, 0, 0)));
}

#[test]
fn should_get_next_occurrence() {
    let recurrence = Recurrence::new(&["0", "0", "1", "1", "0"]).unwrap();
    let matching_datetime = at(2001, 1, 1, 0, 0);
    let now = at(2000, 1, 1, 0, 0);
    assert_eq!(recurrence.next_match(now), Some(matching_datetime));
}

#[test]
fn should_get_next_period_without_overflow() {
    let next = NextPeriod::new(&20, &vec![0, 30]);
    assert_eq!(next.period, 30);
    assert_eq!(next.overflow, 0);
}

#[test]
fn should_get_next_period_with_overflow() {
    let next = NextPeriod::new(&46, &vec![15, 45]);
    assert_eq!(next.period, 15);
    assert_eq!(next.overflow, 1);
}

#[test]
fn recurrence_should_match_occurrences() {
    let recurrence = Recurrence::new(&["0", "0", "1", "1", "0"]).unwrap();
    assert!(recurrence.matches(at(2001, 1, 1, 0, 0)));
}

#[test]
fn recurrence_should_not_match_other_date() {
    let recurrence = Recurrence::new(&["0", "0", "1", "1", "0"]).unwrap();
    assert!(!recurrence.matches(at(2000, 1, 1, 0, 0)));
}

#[test]
fn should_match_weekday_of_date() {
    // 2000-01-01 was a Saturday; days of week count 0 = Monday.
    let saturday_only = Recurrence::new(&["*", "*", "*", "*", "5"]).unwrap();
    assert!(saturday_only.matches(at(2000, 1, 1, 12, 30)));
    let monday_only = Recurrence::new(&["*", "*", "*", "*", "0"]).unwrap();
    assert!(!monday_only.matches(at(2000, 1, 1, 12, 30)));
}

#[test]
fn should_fail_recurrence_on_first_bad_field() {
    assert_eq!(Recurrence::new(&["x", "*", "*", "*", "*"]).err(), Some(CronError::MalformedField));
    assert_eq!(Recurrence::new(&["0", "24", "*", "*", "*"]).err(), Some(CronError::OutOfDomain));
    assert_eq!(Recurrence::new(&["0", "*", "*", "*/0", "*"]).err(), Some(CronError::InvalidStep));
}

#[test]
fn should_get_next_run() {
    let first = Entry::new(Recurrence::new(&["0", "*", "*", "*", "*"]).unwrap(), "first".to_string());
    let second = Entry::new(
        Recurrence::new(&["30", "*", "*", "*", "*"]).unwrap(),
        "second".to_string(),
    );
    let crontab = Crontab::new(vec![first, second]);
    let next_run = crontab.next_run(at(2000, 1, 1, 0, 10)).unwrap();
    assert_eq!(crontab.entries()[next_run.index].command, "second");
    assert_eq!(next_run.datetime, at(2000, 1, 1, 0, 30));
}

#[test]
fn should_prefer_earlier_entry_on_tied_runs() {
    let first = Entry::new(Recurrence::new(&["30", "*", "*", "*", "*"]).unwrap(), "a".to_string());
    let second = Entry::new(Recurrence::new(&["30", "*", "*", "*", "*"]).unwrap(), "b".to_string());
    let crontab = Crontab::new(vec![first, second]);
    let next_run = crontab.next_run(at(2000, 1, 1, 0, 10)).unwrap();
    assert_eq!(next_run.index, 0);
    assert_eq!(crontab.entries()[next_run.index].command, "a");
}

#[test]
fn should_fail_next_run_on_empty_schedule() {
    let crontab = Crontab::new(vec![]);
    assert_eq!(crontab.next_run(at(2000, 1, 1, 0, 0)).err(), Some(CronError::EmptyScheduleSet));
}

#[test]
fn should_handle_leap_years_in_dates() {
    assert!(DateTime::new(2000, 2, 29, 0, 0).is_some());
    assert!(DateTime::new(1900, 2, 29, 0, 0).is_none());
    assert!(DateTime::new(2001, 2, 29, 0, 0).is_none());
    assert!(DateTime::new(2000, 4, 31, 0, 0).is_none());
    assert!(DateTime::new(2000, 13, 1, 0, 0).is_none());
    assert!(DateTime::new(2000, 1, 1, 24, 0).is_none());
    assert!(DateTime::new(2000, 1, 1, 0, 60).is_none());
}

#[test]
fn should_jump_to_leap_day() {
    // Only Feb 29 matches; the scan must cross nearly four years.
    let recurrence = Recurrence::new(&["0", "0", "29", "2", "*"]).unwrap();
    let now = at(2000, 3, 1, 0, 0);
    assert_eq!(recurrence.next_match(now), Some(at(2004, 2, 29, 0, 0)));
}

#[test]
fn should_find_match_within_same_hour() {
    // Minute jumps must not skip an earlier minute of a later matching hour.
    let recurrence = Recurrence::new(&["10,50", "5", "*", "*", "*"]).unwrap();
    let now = at(2000, 1, 1, 1, 20);
    assert_eq!(recurrence.next_match(now), Some(at(2000, 1, 1, 5, 10)));
}

#[test]
fn should_compute_weekdays_of_known_dates() {
    // 0 = Monday through 6 = Sunday.
    assert_eq!(at(1970, 1, 1, 0, 0).weekday(), 3); // a Thursday
    assert_eq!(at(2000, 1, 1, 0, 0).weekday(), 5); // a Saturday
    assert_eq!(at(2000, 3, 1, 0, 0).weekday(), 2); // a Wednesday
    assert_eq!(at(2001, 1, 1, 0, 0).weekday(), 0); // a Monday
    assert_eq!(at(2024, 2, 29, 0, 0).weekday(), 3); // a Thursday
    assert_eq!(at(2026, 10, 11, 0, 0).weekday(), 6); // a Sunday
}

#[test]
fn should_wrap_week_to_next_monday() {
    // The engine counts days of week from 0 = Monday; from a Saturday the
    // scan crosses the weekend to Monday at 09:00.
    let recurrence = Recurrence::new(&["0", "9", "*", "*", "0"]).unwrap();
    let now = at(2000, 1, 1, 10, 0);
    assert_eq!(recurrence.next_match(now), Some(at(2000, 1, 3, 9, 0)));
}

#[test]
fn should_return_none_when_no_instant_ever_matches() {
    // February never has 31 days, in any representable year, so the scan
    // exhausts the calendar and reports that no instant matches.
    let recurrence = Recurrence::new(&["0", "0", "31", "2", "*"]).unwrap();
    let now = at(65000, 1, 1, 0, 0);
    assert_eq!(recurrence.next_match(now), None);
}
