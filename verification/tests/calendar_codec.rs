use worktime::calendar::Calendar;
use worktime::codec::{decode_calendar, encode_calendar};
use worktime::config::Config;
use worktime::date::Date;
use worktime::day::Location;
use worktime::utils::contingent;

fn sample_calendar() -> Calendar {
    let mut cal = Calendar::new();
    let d1 = Date::new(2024, 7, 1).unwrap();
    assert!(cal.start(d1, 9 * 60));
    assert!(cal.stop(d1, 12 * 60));
    assert!(cal.start(d1, 13 * 60));
    assert!(cal.stop(d1, 17 * 60));
    let d2 = Date::new(2024, 7, 2).unwrap();
    cal.get_or_create(d2);
    cal.set_location(d2, Location::Office);
    assert!(cal.set_vacation(d2, true, 462));
    cal
}

#[test]
fn calendar_start_stop_and_totals() {
    let cal = sample_calendar();
    assert_eq!(cal.len(), 2);
    let d1 = Date::new(2024, 7, 1).unwrap();
    let first = cal.day(cal.find_day(d1).unwrap());
    assert_eq!(first.sum_work(), Some(7 * 60));
    assert_eq!(first.sum_pause(), Some(60));
    // the second day carried the first day's cumulative total forward
    // and was credited one vacation span
    let d2 = Date::new(2024, 7, 2).unwrap();
    let second = cal.day(cal.find_day(d2).unwrap());
    assert_eq!(second.sum_total(), 7 * 60);
    assert_eq!(second.sum_work(), Some(462));
    assert_eq!(second.location(), Some(Location::Office));
    assert!(second.vacation());
    assert_eq!(cal.total_worked_minutes(), Some(7 * 60 + 462));
}

#[test]
fn calendar_refuses_backward_clock() {
    let mut cal = Calendar::new();
    let d1 = Date::new(2024, 7, 1).unwrap();
    assert!(cal.start(d1, 600));
    assert!(!cal.stop(d1, 500));
    assert!(cal.stop(d1, 660));
    assert!(!cal.start(d1, 100));
    assert_eq!(cal.day(0).work_duration().len(), 1);
}

#[test]
fn stop_without_day_is_refused() {
    let mut cal = Calendar::new();
    let d1 = Date::new(2024, 7, 1).unwrap();
    assert!(!cal.stop(d1, 600));
    assert_eq!(cal.len(), 0);
}

#[test]
fn codec_roundtrip_preserves_everything() {
    let cal = sample_calendar();
    let words = encode_calendar(&cal);
    let back = decode_calendar(&words).expect("a stream the library wrote must decode");
    assert_eq!(back.len(), cal.len());
    for i in 0..cal.len() {
        let a = cal.day(i);
        let b = back.day(i);
        assert_eq!(a.date(), b.date());
        assert_eq!(a.sum_work(), b.sum_work());
        assert_eq!(a.sum_pause(), b.sum_pause());
        assert_eq!(a.sum_total(), b.sum_total());
        assert_eq!(a.location(), b.location());
        assert_eq!(a.vacation(), b.vacation());
        let av = a.work_duration();
        let bv = b.work_duration();
        assert_eq!(av.len(), bv.len());
        for k in 0..av.len() {
            assert_eq!(av[k].label, bv[k].label);
            assert_eq!(av[k].start, bv[k].start);
            assert_eq!(av[k].end, bv[k].end);
            assert_eq!(av[k].duration, bv[k].duration);
            assert_eq!(av[k].pause, bv[k].pause);
        }
    }
}

#[test]
fn codec_roundtrip_of_empty_calendar() {
    let cal = Calendar::new();
    let words = encode_calendar(&cal);
    let back = decode_calendar(&words).unwrap();
    assert_eq!(back.len(), 0);
}

#[test]
fn decode_rejects_truncated_stream() {
    let cal = sample_calendar();
    let mut words = encode_calendar(&cal);
    words.pop();
    assert!(decode_calendar(&words).is_none());
    assert!(decode_calendar(&vec![]).is_none());
    assert!(decode_calendar(&vec![5]).is_none());
}

#[test]
fn decode_rejects_trailing_garbage() {
    let cal = sample_calendar();
    let mut words = encode_calendar(&cal);
    words.push(0);
    assert!(decode_calendar(&words).is_none());
}

#[test]
fn decode_rejects_duplicate_dates() {
    let mut cal = Calendar::new();
    let d1 = Date::new(2024, 7, 1).unwrap();
    cal.get_or_create(d1);
    let words = encode_calendar(&cal);
    // claim two records and repeat the one encoded day
    let mut forged: Vec<u64> = vec![2];
    forged.extend_from_slice(&words[1..]);
    forged.extend_from_slice(&words[1..]);
    assert!(decode_calendar(&forged).is_none());
}

#[test]
fn decode_rejects_invalid_date() {
    let mut cal = Calendar::new();
    let d1 = Date::new(2024, 7, 1).unwrap();
    cal.get_or_create(d1);
    let mut words = encode_calendar(&cal);
    // the month word of the single record
    words[2] = 13;
    assert!(decode_calendar(&words).is_none());
}

#[test]
fn total_overflow_is_reported() {
    // The stored form does not constrain the work sums, so a stream may
    // claim sums whose total exceeds a machine word; summing must say so
    // rather than wrap around.
    let mut cal = Calendar::new();
    let d1 = Date::new(2024, 7, 1).unwrap();
    let d2 = Date::new(2024, 7, 2).unwrap();
    assert!(cal.set_vacation(d1, true, 462));
    assert!(cal.set_vacation(d2, true, 462));
    let mut words = encode_calendar(&cal);
    for w in words.iter_mut() {
        if *w == 462 {
            *w = u64::MAX;
        }
    }
    let forged = decode_calendar(&words).expect("the sums are not constrained");
    assert_eq!(forged.total_worked_minutes(), None);
}

#[test]
fn contingent_sign_and_magnitude() {
    // 2024-07-01 is a Monday and the contract starts that day: after one
    // 7 h day against a 462-minute workday the user is 42 minutes behind.
    let cal = {
        let mut cal = Calendar::new();
        let d1 = Date::new(2024, 7, 1).unwrap();
        assert!(cal.start(d1, 9 * 60));
        assert!(cal.stop(d1, 12 * 60));
        assert!(cal.start(d1, 13 * 60));
        assert!(cal.stop(d1, 17 * 60));
        cal
    };
    let config = Config {
        hours_week_minutes: 2310,
        start_date: Date::new(2024, 7, 1).unwrap(),
    };
    let today = Date::new(2024, 7, 1).unwrap();
    assert_eq!(contingent(&cal, &config, today), Some((false, 42)));
    // crediting a vacation day on top puts the user ahead
    let mut ahead = cal;
    let d2 = Date::new(2024, 7, 2).unwrap();
    assert!(ahead.set_vacation(d2, true, 462));
    assert_eq!(contingent(&ahead, &config, today), Some((true, 420)));
}
