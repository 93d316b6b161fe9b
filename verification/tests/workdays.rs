use worktime::config::Config;
use worktime::date::Date;
use worktime::utils::{compute_hours_and_minutes, compute_should_hours, get_num_workdays};

#[test]
fn test_get_work_days() {
    let today = Date::new(2024, 11, 01).unwrap();

    let start_day = Date::new(2024, 10, 11).unwrap();
    assert_eq!(get_num_workdays(start_day, today), 16);

    let start_day_2 = Date::new(2024, 10, 24).unwrap();
    assert_eq!(get_num_workdays(start_day_2, today), 7);

    let from = Date::new(2024, 11, 1).unwrap();
    let to = Date::new(2024, 11, 10).unwrap();
    assert_eq!(get_num_workdays(from, to), 6);

    let from = Date::new(2024, 11, 4).unwrap();
    let to = Date::new(2024, 11, 6).unwrap();
    assert_eq!(get_num_workdays(from, to), 3);
}

#[test]
fn workdays_single_day() {
    // 2024-11-04 is a Monday, 2024-11-09 a Saturday.
    let monday = Date::new(2024, 11, 4).unwrap();
    assert_eq!(get_num_workdays(monday, monday), 1);
    let saturday = Date::new(2024, 11, 9).unwrap();
    assert_eq!(get_num_workdays(saturday, saturday), 0);
}

#[test]
fn workdays_direct_and_split_agree_at_week_boundary() {
    // Spans of exactly seven elapsed days sit on the boundary between the
    // direct count and the split formula; check every weekday as start.
    for day in 4..11 {
        let from = Date::new(2024, 11, day).unwrap();
        let to = Date::new(2024, 11, day + 7).unwrap();
        let to_minus_one = Date::new(2024, 11, day + 6).unwrap();
        // six elapsed days: counted directly
        let direct = get_num_workdays(from, to_minus_one);
        let at_boundary = get_num_workdays(from, to);
        // one more calendar day adds one workday exactly when that day
        // (same weekday as `from`) is a workday
        let from_is_workday = get_num_workdays(from, from) == 1;
        let expected = direct + if from_is_workday { 1 } else { 0 };
        assert_eq!(at_boundary, expected);
    }
}

#[test]
fn should_hours_for_a_contract_week() {
    // 38.5 hours a week = 2310 minutes; one workday is 462 minutes.
    let config = Config {
        hours_week_minutes: 2310,
        start_date: Date::new(2024, 7, 1).unwrap(),
    };
    assert_eq!(config.get_workday_span(), 462);
    // 2024-07-01 is a Monday; through Friday 2024-07-05 there are five
    // workdays.
    let friday = Date::new(2024, 7, 5).unwrap();
    assert_eq!(compute_should_hours(&config, friday), 5 * 462);
    // On the start day itself a single workday is owed.
    assert_eq!(compute_should_hours(&config, config.start_date), 462);
}

#[test]
fn hours_and_minutes_split() {
    assert_eq!(compute_hours_and_minutes(462), (7, 42));
    assert_eq!(compute_hours_and_minutes(0), (0, 0));
    assert_eq!(compute_hours_and_minutes(59), (0, 59));
    assert_eq!(compute_hours_and_minutes(60), (1, 0));
}
