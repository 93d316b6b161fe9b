use vstd::prelude::*;
use crate::date::Date;
use crate::day::{
    can_start, can_stop, empty_day, intervals_wf, set_vacation_spec, start_spec, stop_spec,
    vacation_ok, check_intervals_wf, DayView, Location, OneDaysWork,
};

verus! {

/// The aggregate root: one record per calendar day ever touched, in the
/// order the days were first seen.
pub struct Calendar {
    pub(crate) work_days: Vec<OneDaysWork>,
}

impl View for Calendar {
    type V = Seq<DayView>;

    closed spec fn view(&self) -> Seq<DayView> {
        self.work_days.deep_view()
    }
}

/// Well-formedness of a calendar: every day record is well-formed and no
/// two records share a date.
pub open spec fn calendar_wf(days: Seq<DayView>) -> bool {
    &&& forall|i: int| 0 <= i < days.len() ==> (#[trigger] days[i]).wf()
    &&& forall|i: int, j: int|
        0 <= i < j < days.len() ==> (#[trigger] days[i]).date != (#[trigger] days[j]).date
}

/// Whether some record carries `date`.
pub open spec fn has_day(days: Seq<DayView>, date: Date) -> bool {
    exists|i: int| 0 <= i < days.len() && (#[trigger] days[i]).date == date
}

/// The index of the record carrying `date` (unique in a well-formed
/// calendar).
pub open spec fn date_index(days: Seq<DayView>, date: Date) -> int {
    choose|i: int| 0 <= i < days.len() && (#[trigger] days[i]).date == date
}

/// The cumulative total that a day created now would carry forward: the
/// total stored on the most recent record, or zero on an empty calendar.
pub open spec fn carried_total_of(days: Seq<DayView>) -> u64 {
    if days.len() > 0 {
        days.last().sum_total
    } else {
        0
    }
}

/// The calendar after `date` has been looked up: unchanged when a record
/// for it exists, else with a fresh empty record appended.
pub open spec fn ensure_day_spec(days: Seq<DayView>, date: Date) -> Seq<DayView> {
    if has_day(days, date) {
        days
    } else {
        days.push(empty_day(date, carried_total_of(days)))
    }
}

/// Sum over all records of the stored work sum (in minutes; a record
/// without one contributes nothing).
pub open spec fn total_minutes_of(days: Seq<DayView>) -> int
    decreases days.len(),
{
    if days.len() == 0 {
        0
    } else {
        total_minutes_of(days.drop_last()) + match days.last().sum_work {
            Some(w) => w as int,
            None => 0,
        }
    }
}

/// Every prefix sum is at most the sum over the whole calendar.
proof fn lemma_total_prefix(days: Seq<DayView>, i: int)
    requires
        0 <= i <= days.len(),
    ensures
        total_minutes_of(days.take(i)) <= total_minutes_of(days),
    decreases days.len() - i,
{
    if i == days.len() {
        assert(days.take(i) =~= days);
    } else {
        assert(days.take(i + 1).drop_last() =~= days.take(i));
        assert(days.take(i + 1).last() == days[i]);
        lemma_total_prefix(days, i + 1);
    }
}

impl Calendar {
    /// An empty calendar.
    pub fn new() -> (c: Calendar)
        ensures
            c@ == Seq::<DayView>::empty(),
            calendar_wf(c@),
    {
        let c = Calendar { work_days: Vec::new() };
        proof {
            assert(c@ =~= Seq::<DayView>::empty());
        }
        c
    }

    pub fn len(&self) -> (n: usize)
        ensures
            n == self@.len(),
    {
        self.work_days.len()
    }

    /// Read access to the record at `i` (for display and export).
    pub fn day(&self, i: usize) -> (r: &OneDaysWork)
        requires
            i < self@.len(),
        ensures
            r@ == self@[i as int],
    {
        &self.work_days[i]
    }

    /// The index of the record carrying `date`, if one exists.
    pub fn find_day(&self, date: Date) -> (r: Option<usize>)
        ensures
            match r {
                Some(i) => i < self@.len() && self@[i as int].date == date,
                None => !has_day(self@, date),
            },
    {
        let n = self.work_days.len();
        let mut i: usize = 0;
        while i < n
            invariant
                i <= n,
                n == self@.len(),
                self@ == self.work_days.deep_view(),
                forall|j: int| 0 <= j < i ==> (#[trigger] self@[j]).date != date,
            decreases n - i,
        {
            if self.work_days[i].date() == date {
                return Some(i);
            }
            i = i + 1;
        }
        None
    }

    /// Returns the index of the record for `date`, creating an empty one —
    /// with the cumulative total carried forward — when none exists yet.
    pub fn get_or_create(&mut self, date: Date) -> (i: usize)
        requires
            calendar_wf(old(self)@),
            date.valid(),
        ensures
            final(self)@ == ensure_day_spec(old(self)@, date),
            calendar_wf(final(self)@),
            i < final(self)@.len(),
            final(self)@[i as int].date == date,
            i == date_index(final(self)@, date),
            has_day(old(self)@, date) ==> final(self)@ == old(self)@,
    {
        let found = self.find_day(date);
        match found {
            Some(i) => {
                proof {
                    assert(has_day(self@, date));
                    let j = date_index(self@, date);
                    if i as int != j {
                        assert(self@[i as int].date == self@[j].date);
                        assert(false);
                    }
                }
                i
            },
            None => {
                let n = self.work_days.len();
                let carried: u64 = if n > 0 {
                    self.work_days[n - 1].sum_total()
                } else {
                    0
                };
                let day = OneDaysWork::init(date, carried);
                self.work_days.push(day);
                proof {
                    let olds = old(self)@;
                    assert(self@ =~= olds.push(empty_day(date, carried_total_of(olds))));
                    let news = self@;
                    assert(intervals_wf(empty_day(date, carried_total_of(olds)).work_duration));
                    assert forall|p: int, q: int|
                        0 <= p < q < news.len() implies (#[trigger] news[p]).date != (
                    #[trigger] news[q]).date by {
                        if q == news.len() - 1 {
                            assert(news[p] == olds[p]);
                            assert(!has_day(olds, date));
                        }
                    }
                    assert(has_day(news, date)) by {
                        assert(news[news.len() - 1].date == date);
                    }
                    let j = date_index(news, date);
                    if j != news.len() - 1 {
                        assert(news[j].date == news[news.len() - 1].date);
                        assert(false);
                    }
                }
                n
            },
        }
    }

    /// Records a start press for `date` at clock reading `now`: the day is
    /// created if need be, and the press is applied exactly when the clock
    /// has not run backwards (see `can_start`); otherwise the calendar
    /// keeps the looked-up day but records nothing.
    pub fn start(&mut self, date: Date, now: u64) -> (ok: bool)
        requires
            calendar_wf(old(self)@),
            date.valid(),
        ensures
            calendar_wf(final(self)@),
            ({
                let mid = ensure_day_spec(old(self)@, date);
                let j = date_index(mid, date);
                &&& ok == can_start(mid[j], now)
                &&& ok ==> final(self)@ == mid.update(j, start_spec(mid[j], now))
                &&& !ok ==> final(self)@ == mid
            }),
    {
        let i = self.get_or_create(date);
        let ghost mid = self@;
        if self.work_days[i].can_start_now(now) {
            let day = &mut self.work_days[i];
            day.start(now);
            proof {
                assert(self@ =~= mid.update(i as int, start_spec(mid[i as int], now)));
                assert forall|p: int| 0 <= p < self@.len() implies (#[trigger] self@[p]).wf() by {
                    if p != i as int {
                        assert(self@[p] == mid[p]);
                    }
                }
                assert forall|p: int, q: int|
                    0 <= p < q < self@.len() implies (#[trigger] self@[p]).date != (
                #[trigger] self@[q]).date by {
                    assert(self@[p].date == mid[p].date);
                    assert(self@[q].date == mid[q].date);
                }
            }
            true
        } else {
            false
        }
    }

    /// Records a stop press for `date` at clock reading `now`: applied
    /// exactly when the day exists, and if an interval is open the clock
    /// has not run backwards and the cumulative total cannot overflow (see
    /// `can_stop`).
    #[verifier::rlimit(60)]
    pub fn stop(&mut self, date: Date, now: u64) -> (ok: bool)
        requires
            calendar_wf(old(self)@),
        ensures
            calendar_wf(final(self)@),
            !has_day(old(self)@, date) ==> final(self)@ == old(self)@ && !ok,
            has_day(old(self)@, date) ==> ({
                let j = date_index(old(self)@, date);
                &&& ok == can_stop(old(self)@[j], now)
                &&& ok ==> final(self)@ == old(self)@.update(j, stop_spec(old(self)@[j], now))
                &&& !ok ==> final(self)@ == old(self)@
            }),
    {
        let ghost olds = self@;
        let found = self.find_day(date);
        match found {
            None => false,
            Some(i) => {
                proof {
                    assert(has_day(olds, date));
                    let j = date_index(olds, date);
                    if i as int != j {
                        assert(olds[i as int].date == olds[j].date);
                        assert(false);
                    }
                }
                if self.work_days[i].can_stop_now(now) {
                    let day = &mut self.work_days[i];
                    day.stop(now);
                    proof {
                        assert(self@ =~= olds.update(i as int, stop_spec(olds[i as int], now)));
                        assert forall|p: int| 0 <= p < self@.len() implies (
                        #[trigger] self@[p]).wf() by {
                            if p != i as int {
                                assert(self@[p] == olds[p]);
                            }
                        }
                        assert forall|p: int, q: int|
                            0 <= p < q < self@.len() implies (#[trigger] self@[p]).date != (
                        #[trigger] self@[q]).date by {
                            assert(self@[p].date == olds[p].date);
                            assert(self@[q].date == olds[q].date);
                        }
                    }
                    true
                } else {
                    false
                }
            },
        }
    }

    /// Sets the location of the record for `date`, creating the record if
    /// need be.
    pub fn set_location(&mut self, date: Date, location: Location)
        requires
            calendar_wf(old(self)@),
            date.valid(),
        ensures
            calendar_wf(final(self)@),
            ({
                let mid = ensure_day_spec(old(self)@, date);
                let j = date_index(mid, date);
                final(self)@ == mid.update(
                    j,
                    DayView { location: Some(location), ..mid[j] },
                )
            }),
    {
        let i = self.get_or_create(date);
        let ghost mid = self@;
        let day = &mut self.work_days[i];
        day.set_location(location);
        proof {
            assert(self@ =~= mid.update(
                i as int,
                DayView { location: Some(location), ..mid[i as int] },
            ));
            assert forall|p: int| 0 <= p < self@.len() implies (#[trigger] self@[p]).wf() by {
                if p != i as int {
                    assert(self@[p] == mid[p]);
                }
            }
            assert forall|p: int, q: int|
                0 <= p < q < self@.len() implies (#[trigger] self@[p]).date != (
            #[trigger] self@[q]).date by {
                assert(self@[p].date == mid[p].date);
                assert(self@[q].date == mid[q].date);
            }
        }
    }

    /// Applies a vacation toggle to the record for `date`, creating the
    /// record if need be. `workday_span` is the contractual workday length
    /// in minutes (see `Config::get_workday_span`). Returns whether the
    /// toggle was applied (see `vacation_ok`).
    pub fn set_vacation(&mut self, date: Date, is_vacation: bool, workday_span: u64) -> (ok: bool)
        requires
            calendar_wf(old(self)@),
            date.valid(),
        ensures
            calendar_wf(final(self)@),
            ({
                let mid = ensure_day_spec(old(self)@, date);
                let j = date_index(mid, date);
                &&& ok == vacation_ok(mid[j], is_vacation, workday_span)
                &&& ok ==> final(self)@ == mid.update(
                    j,
                    set_vacation_spec(mid[j], is_vacation, workday_span),
                )
                &&& !ok ==> final(self)@ == mid
            }),
    {
        let i = self.get_or_create(date);
        let ghost mid = self@;
        let day = &mut self.work_days[i];
        let ok = day.set_vacation(is_vacation, workday_span);
        proof {
            if ok {
                assert(self@ =~= mid.update(
                    i as int,
                    set_vacation_spec(mid[i as int], is_vacation, workday_span),
                ));
            } else {
                assert(self@ =~= mid);
            }
            assert forall|p: int| 0 <= p < self@.len() implies (#[trigger] self@[p]).wf() by {
                if p != i as int {
                    assert(self@[p] == mid[p]);
                }
            }
            assert forall|p: int, q: int|
                0 <= p < q < self@.len() implies (#[trigger] self@[p]).date != (
            #[trigger] self@[q]).date by {
                assert(self@[p].date == mid[p].date);
                assert(self@[q].date == mid[q].date);
            }
        }
        ok
    }

    /// Sum of the stored work sums over all days, in minutes; `None`
    /// exactly when that total does not fit in a machine word.
    pub fn total_worked_minutes(&self) -> (r: Option<u64>)
        ensures
            match r {
                Some(t) => t == total_minutes_of(self@),
                None => total_minutes_of(self@) > u64::MAX,
            },
    {
        let ghost days = self@;
        let n = self.work_days.len();
        let mut total: u64 = 0;
        let mut i: usize = 0;
        while i < n
            invariant
                i <= n,
                n == days.len(),
                days == self@,
                self@ == self.work_days.deep_view(),
                total == total_minutes_of(days.take(i as int)),
            decreases n - i,
        {
            proof {
                assert(days.take(i + 1).drop_last() =~= days.take(i as int));
                assert(days.take(i + 1).last() == days[i as int]);
            }
            match self.work_days[i].sum_work() {
                Some(w) => {
                    if w <= u64::MAX - total {
                        total = total + w;
                    } else {
                        proof {
                            lemma_total_prefix(days, i + 1);
                        }
                        return None;
                    }
                },
                None => {},
            }
            i = i + 1;
        }
        proof {
            assert(days.take(n as int) =~= days);
        }
        Some(total)
    }

    /// Runtime check of `calendar_wf`; used to validate stored data.
    pub fn check_wf(&self) -> (b: bool)
        ensures
            b == calendar_wf(self@),
    {
        let ghost days = self@;
        let n = self.work_days.len();
        let mut i: usize = 0;
        while i < n
            invariant
                i <= n,
                n == days.len(),
                days == self@,
                self@ == self.work_days.deep_view(),
                forall|j: int| 0 <= j < i ==> (#[trigger] days[j]).wf(),
            decreases n - i,
        {
            let d = self.work_days[i].date();
            if !d.check_valid() {
                proof {
                    if calendar_wf(days) {
                        assert(days[i as int].wf());
                    }
                }
                return false;
            }
            if !check_intervals_wf(self.work_days[i].work_duration()) {
                proof {
                    if calendar_wf(days) {
                        assert(days[i as int].wf());
                    }
                }
                return false;
            }
            i = i + 1;
        }
        let mut p: usize = 0;
        while p < n
            invariant
                p <= n,
                n == days.len(),
                days == self@,
                self@ == self.work_days.deep_view(),
                forall|j: int| 0 <= j < n ==> (#[trigger] days[j]).wf(),
                forall|a: int, b: int|
                    0 <= a < b < n && a < p ==> (#[trigger] days[a]).date != (
                    #[trigger] days[b]).date,
            decreases n - p,
        {
            let date_p = self.work_days[p].date();
            let mut q: usize = p + 1;
            while q < n
                invariant
                    p < q <= n || (p + 1 == q && q > n),
                    p < n,
                    n == days.len(),
                    days == self@,
                    self@ == self.work_days.deep_view(),
                    date_p == days[p as int].date,
                    forall|b: int| p < b < q ==> (#[trigger] days[b]).date != days[p as int].date,
                decreases n - q,
            {
                if self.work_days[q].date() == date_p {
                    proof {
                        if calendar_wf(days) {
                            assert(days[p as int].date != days[q as int].date);
                        }
                    }
                    return false;
                }
                q = q + 1;
            }
            p = p + 1;
        }
        true
    }

    /// Reassembles a calendar from its records; used when reading stored
    /// data.
    pub(crate) fn from_days(work_days: Vec<OneDaysWork>) -> (c: Calendar)
        ensures
            c@ == work_days.deep_view(),
    {
        Calendar { work_days }
    }
}

} // verus!
