use vstd::prelude::*;
use crate::calendar::{total_minutes_of, Calendar};
use crate::config::Config;
use crate::date::{is_workday, weekday_of, weekday_of_number, Date, DAY_NUMBER_LIMIT};

verus! {

/// Number of workdays (Monday through Friday) among the day indices in
/// `[a, b]`, both ends included.
pub open spec fn workday_count(a: int, b: int) -> int
    decreases b - a + 1,
{
    if a > b {
        0
    } else {
        (if is_workday(a) {
            1int
        } else {
            0
        }) + workday_count(a + 1, b)
    }
}

/// Counting one more day on the right adds that day's contribution.
proof fn lemma_workday_count_step(a: int, i: int)
    requires
        a <= i,
    ensures
        workday_count(a, i) == workday_count(a, i - 1) + (if is_workday(i) {
            1int
        } else {
            0
        }),
    decreases i - a,
{
    if a < i {
        lemma_workday_count_step(a + 1, i);
    } else {
        reveal_with_fuel(workday_count, 3);
    }
}

/// The workday count of an inclusive range is between 0 and its length.
proof fn lemma_workday_count_bounds(a: int, b: int)
    ensures
        0 <= workday_count(a, b),
        a <= b ==> workday_count(a, b) <= b - a + 1,
    decreases b - a + 1,
{
    if a <= b {
        lemma_workday_count_bounds(a + 1, b);
    }
}

/// Workdays left in the week of a day with weekday `w` (0 is Monday),
/// that day included: Monday yields 5 down to Friday 1, the weekend 0.
pub open spec fn first_week_workdays(w: int) -> int {
    if 0 <= w <= 4 {
        5 - w
    } else {
        0
    }
}

/// Workdays already elapsed in the week of a day with weekday `w`, that
/// day included: Monday yields 1 up to Friday 5; a weekend day counts as
/// the full week of 5.
pub open spec fn last_week_workdays(w: int) -> int {
    if 0 <= w <= 4 {
        w + 1
    } else {
        5
    }
}

/// The number of workdays between two day indices, both ends included,
/// as the required-hours rule defines it: a span of less than seven days
/// is counted directly; a longer span is split into the partial first
/// week, `5 * (elapsed days / 7 - 1)` for the full weeks between, and the
/// partial last week.
pub open spec fn num_workdays_spec(a: int, b: int) -> int {
    if b - a < 7 {
        workday_count(a, b)
    } else {
        first_week_workdays(weekday_of(a)) + 5 * ((b - a) / 7 - 1) + last_week_workdays(
            weekday_of(b),
        )
    }
}

/// Shifting a day index shifts its weekday around the week.
proof fn lemma_weekday_shift(a: int, k: int)
    requires
        0 <= k,
    ensures
        weekday_of(a + k) == (weekday_of(a) + k) % 7,
{
    let w = weekday_of(a);
    vstd::arithmetic::div_mod::lemma_add_mod_noop(a + 2, k, 7);
    vstd::arithmetic::div_mod::lemma_add_mod_noop(w, k, 7);
    vstd::arithmetic::div_mod::lemma_mod_twice(a + 2, 7);
}

/// Law: the two counting paths agree where they meet. A span of exactly
/// seven elapsed days is the first one counted by the split formula, and
/// there the formula yields the same number as the direct walk over the
/// days.
pub proof fn lemma_boundary_paths_agree(a: int)
    ensures
        num_workdays_spec(a, a + 7) == workday_count(a, a + 7),
{
    let w = weekday_of(a);
    assert(0 <= w < 7) by {
        vstd::arithmetic::div_mod::lemma_mod_bound(a + 2, 7);
    }
    assert forall|k: int| 0 <= k <= 7 implies #[trigger] weekday_of(a + k) == (w + k) % 7 by {
        lemma_weekday_shift(a, k);
    }
    assert(weekday_of(a + 7) == w) by {
        vstd::arithmetic::div_mod::lemma_mod_bound(a + 2, 7);
        vstd::arithmetic::div_mod::lemma_small_mod((w + 7 - 7) as nat, 7);
        assert((w + 7) % 7 == w % 7) by {
            vstd::arithmetic::div_mod::lemma_mod_add_multiples_vanish(w, 7);
        }
        vstd::arithmetic::div_mod::lemma_small_mod(w as nat, 7);
    }
    reveal_with_fuel(workday_count, 9);
}
pub open spec fn required_minutes(config: Config, today: Date) -> int {
    num_workdays_spec(config.start_date.day_number(), today.day_number()) * (
    config.hours_week_minutes as int / 5)
}

/// Counts the weekend days among the day indices in `[a, b]`.
fn sub_for_weekend(a: u64, b: u64) -> (r: u64)
    requires
        a <= b,
        b < DAY_NUMBER_LIMIT,
    ensures
        r + workday_count(a as int, b as int) == b - a + 1,
{
    let mut num_sub: u64 = 0;
    let mut i: u64 = a;
    while i <= b
        invariant
            a <= i <= b + 1,
            b < DAY_NUMBER_LIMIT,
            num_sub + workday_count(a as int, i - 1) == i - a,
        decreases b + 1 - i,
    {
        proof {
            lemma_workday_count_step(a as int, i as int);
            lemma_workday_count_bounds(a as int, i as int);
        }
        let w = weekday_of_number(i);
        if w >= 5 {
            num_sub = num_sub + 1;
        }
        i = i + 1;
    }
    num_sub
}

/// Workdays left in the partial first week (executable form of
/// `first_week_workdays`).
fn num_workdays_first_week(workday: u64) -> (r: u64)
    requires
        workday < 7,
    ensures
        r == first_week_workdays(workday as int),
{
    match workday {
        0 => 5,
        1 => 4,
        2 => 3,
        3 => 2,
        4 => 1,
        _ => 0,
    }
}

/// Workdays elapsed in the partial last week (executable form of
/// `last_week_workdays`).
fn num_workdays_this_week_workdays(workday: u64) -> (r: u64)
    requires
        workday < 7,
    ensures
        r == last_week_workdays(workday as int),
{
    match workday {
        0 => 1,
        1 => 2,
        2 => 3,
        3 => 4,
        4 => 5,
        _ => 5,
    }
}

/// Number of workdays from `from` through `to`, both days included, by
/// the rule of `num_workdays_spec`.
pub fn get_num_workdays(from: Date, to: Date) -> (r: u64)
    requires
        from.valid(),
        to.valid(),
        from.day_number() <= to.day_number(),
    ensures
        r == num_workdays_spec(from.day_number(), to.day_number()),
        r < DAY_NUMBER_LIMIT,
{
    let a = from.to_day_number();
    let b = to.to_day_number();
    let work_days = b - a;
    if work_days < 7 {
        proof {
            lemma_workday_count_bounds(a as int, b as int);
        }
        work_days + 1 - sub_for_weekend(a, b)
    } else {
        let first_week = num_workdays_first_week(weekday_of_number(a));
        let this_week = num_workdays_this_week_workdays(weekday_of_number(b));
        let full_weeks = work_days / 7 - 1;
        first_week + full_weeks * 5 + this_week
    }
}

/// Contractual minutes owed from the contract start through `today`
/// (executable form of `required_minutes`).
pub fn compute_should_hours(config: &Config, today: Date) -> (r: u64)
    requires
        config.valid(),
        today.valid(),
        config.start_date.day_number() <= today.day_number(),
    ensures
        r == required_minutes(*config, today),
{
    let workdays = get_num_workdays(config.start_date, today);
    let span = config.get_workday_span();
    proof {
        assert(workdays * span <= 4_000_000 * 2016) by (nonlinear_arith)
            requires
                workdays < 4_000_000,
                span <= 2016,
        ;
    }
    workdays * span
}

/// Splits a whole number of minutes into hours and minutes.
pub fn compute_hours_and_minutes(minutes: u64) -> (r: (u64, u64))
    ensures
        r.0 == minutes / 60,
        r.1 == minutes % 60,
        r.1 < 60,
{
    (minutes / 60, minutes % 60)
}

/// The contingent: how far the worked total is ahead of (`true`) or
/// behind (`false`) the required minutes, as sign and magnitude, so that
/// callers render the sign separately. `None` exactly when the worked
/// total does not fit in a machine word.
pub fn contingent(calendar: &Calendar, config: &Config, today: Date) -> (r: Option<(bool, u64)>)
    requires
        config.valid(),
        today.valid(),
        config.start_date.day_number() <= today.day_number(),
    ensures
        match r {
            Some(v) => {
                let total = total_minutes_of(calendar@);
                let required = required_minutes(*config, today);
                &&& v.0 == (total >= required)
                &&& (v.0 ==> v.1 == total - required)
                &&& (!v.0 ==> v.1 == required - total)
            },
            None => total_minutes_of(calendar@) > u64::MAX,
        },
{
    match calendar.total_worked_minutes() {
        None => None,
        Some(total) => {
            let required = compute_should_hours(config, today);
            if total >= required {
                Some((true, total - required))
            } else {
                Some((false, required - total))
            }
        },
    }
}

} // verus!
