use worktime::date::{weekday_of_number, Date};

#[test]
fn date_validation() {
    assert!(Date::new(2024, 2, 29).is_some());
    assert!(Date::new(2023, 2, 29).is_none());
    assert!(Date::new(1900, 2, 29).is_none());
    assert!(Date::new(2000, 2, 29).is_some());
    assert!(Date::new(2024, 13, 1).is_none());
    assert!(Date::new(2024, 0, 1).is_none());
    assert!(Date::new(2024, 4, 31).is_none());
    assert!(Date::new(0, 1, 1).is_none());
    assert!(Date::new(10000, 1, 1).is_none());
}

#[test]
fn weekdays_of_known_dates() {
    // 2024-07-01 was a Monday, 2024-11-01 a Friday, 2024-11-03 a Sunday.
    let monday = Date::new(2024, 7, 1).unwrap();
    assert_eq!(weekday_of_number(monday.to_day_number()), 0);
    let friday = Date::new(2024, 11, 1).unwrap();
    assert_eq!(weekday_of_number(friday.to_day_number()), 4);
    let sunday = Date::new(2024, 11, 3).unwrap();
    assert_eq!(weekday_of_number(sunday.to_day_number()), 6);
}

#[test]
fn date_arithmetic_matches_jiff() {
    // Walk three years day by day and hold the library's day numbers and
    // weekdays against jiff's civil calendar.
    let base = Date::new(2023, 1, 1).unwrap();
    let base_number = base.to_day_number();
    let mut jiff_day = jiff::civil::date(2023, 1, 1);
    for offset in 0..1100u64 {
        let d = Date::new(
            jiff_day.year() as i64,
            jiff_day.month() as i64,
            jiff_day.day() as i64,
        )
        .unwrap();
        assert_eq!(d.to_day_number() - base_number, offset);
        let weekday = weekday_of_number(d.to_day_number());
        assert_eq!(weekday as i8, jiff_day.weekday().to_monday_zero_offset());
        jiff_day = jiff_day.tomorrow().unwrap();
    }
}
