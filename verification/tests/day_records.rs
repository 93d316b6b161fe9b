use worktime::date::Date;
use worktime::day::{Location, OneDaysWork, State};

fn july_first() -> Date {
    Date::new(2024, 7, 1).unwrap()
}

#[test]
fn scenario_full_day() {
    // hours_week 38.5 h, start 2024-07-01: press Start 09:00, Stop 12:00,
    // Start 13:00, Stop 17:00.
    let mut day = OneDaysWork::init(july_first(), 0);
    day.start(9 * 60);
    day.stop(12 * 60);
    day.start(13 * 60);
    day.stop(17 * 60);
    assert_eq!(day.work_duration().len(), 2);
    assert_eq!(day.sum_work(), Some(7 * 60));
    assert_eq!(day.sum_pause(), Some(60));
    assert_eq!(day.sum_total(), 7 * 60);
}

#[test]
fn cumulative_total_carries_forward() {
    let mut day = OneDaysWork::init(july_first(), 100);
    day.start(540);
    day.stop(600);
    assert_eq!(day.sum_total(), 160);
}

#[test]
fn double_start_is_noop() {
    let mut day = OneDaysWork::init(july_first(), 0);
    day.start(540);
    assert_eq!(day.work_duration().len(), 1);
    day.start(545);
    assert_eq!(day.work_duration().len(), 1);
    assert_eq!(day.work_duration()[0].start, Some(540));
    assert_eq!(day.work_duration()[0].end, None);
}

#[test]
fn double_stop_is_noop() {
    let mut day = OneDaysWork::init(july_first(), 0);
    day.start(540);
    day.stop(600);
    let end_before = day.work_duration()[0].end;
    let duration_before = day.work_duration()[0].duration;
    let total_before = day.sum_total();
    day.stop(700);
    assert_eq!(day.work_duration().len(), 1);
    assert_eq!(day.work_duration()[0].end, end_before);
    assert_eq!(day.work_duration()[0].duration, duration_before);
    assert_eq!(day.sum_total(), total_before);
}

#[test]
fn sums_over_many_intervals() {
    let mut day = OneDaysWork::init(july_first(), 0);
    day.start(100);
    day.stop(160);
    day.start(200);
    day.stop(290);
    day.start(300);
    day.stop(360);
    // durations 60 + 90 + 60, pauses 40 + 10
    assert_eq!(day.sum_work(), Some(210));
    assert_eq!(day.sum_pause(), Some(50));
    // an empty day has no sums at all
    let fresh = OneDaysWork::init(july_first(), 0);
    assert_eq!(fresh.sum_work(), None);
    assert_eq!(fresh.sum_pause(), None);
}

#[test]
fn pause_is_stored_on_the_previous_interval() {
    let mut day = OneDaysWork::init(july_first(), 0);
    day.start(540);
    day.stop(600);
    day.start(660);
    assert_eq!(day.work_duration()[0].pause, Some(60));
    assert_eq!(day.work_duration()[1].pause, None);
    assert_eq!(day.work_duration()[1].label.as_deref(), Some("Work"));
}

#[test]
fn vacation_toggle_is_involutive() {
    let mut day = OneDaysWork::init(july_first(), 0);
    day.start(540);
    day.stop(600);
    assert_eq!(day.sum_work(), Some(60));
    let on = day.set_vacation(true, 462);
    assert!(on);
    assert!(day.vacation());
    assert_eq!(day.sum_work(), Some(522));
    let off = day.set_vacation(false, 462);
    assert!(off);
    assert!(!day.vacation());
    assert_eq!(day.sum_work(), Some(60));
}

#[test]
fn vacation_on_untouched_day_credits_from_zero() {
    let mut day = OneDaysWork::init(july_first(), 0);
    let on = day.set_vacation(true, 462);
    assert!(on);
    assert_eq!(day.sum_work(), Some(462));
    let off = day.set_vacation(false, 462);
    assert!(off);
    // the sum comes back as an explicit zero, not as unset
    assert_eq!(day.sum_work(), Some(0));
}

#[test]
fn vacation_debit_refused_when_sum_too_small() {
    let mut day = OneDaysWork::init(july_first(), 0);
    let on = day.set_vacation(true, 100);
    assert!(on);
    day.start(540);
    day.stop(600);
    // the stop recomputed the sum from the intervals, wiping the credit
    assert_eq!(day.sum_work(), Some(60));
    let off = day.set_vacation(false, 100);
    assert!(!off);
    assert!(day.vacation());
    assert_eq!(day.sum_work(), Some(60));
}

#[test]
fn state_derivation() {
    let mut day = OneDaysWork::init(july_first(), 0);
    assert_eq!(day.state(false), State::NotToday);
    assert_eq!(day.state(true), State::Stopped);
    day.start(540);
    assert_eq!(day.state(true), State::Started);
    day.stop(600);
    assert_eq!(day.state(true), State::Stopped);
}

#[test]
fn location_labels() {
    assert_eq!(Location::Homeoffice.label(), "home-office");
    assert_eq!(Location::Office.label(), "office");
}
