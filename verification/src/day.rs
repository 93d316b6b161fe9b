use vstd::prelude::*;
use crate::date::Date;
use crate::interval::{IntervalView, WorkTimes};

verus! {

/// Where the day was worked.
#[derive(Clone, Copy, PartialEq, Eq, Structural, Debug)]
pub enum Location {
    Homeoffice,
    Office,
}

impl Location {
    /// Display text of the location.
    pub fn label(&self) -> (r: &'static str)
        ensures
            *self == Location::Homeoffice ==> r@ == "home-office"@,
            *self == Location::Office ==> r@ == "office"@,
    {
        match self {
            Location::Homeoffice => "home-office",
            Location::Office => "office",
        }
    }
}

/// The state a day is in, as the interface presents it: `Started` while an
/// interval is open, `Stopped` otherwise, `NotToday` when the selected date
/// is not the current date (no interval may be opened there).
#[derive(Clone, Copy, PartialEq, Eq, Structural, Debug)]
pub enum State {
    Started,
    Stopped,
    NotToday,
}

/// One calendar day's ordered intervals together with its aggregates.
///
/// The fields are kept behind accessors so that every value of this type
/// satisfies the well-formedness predicate `DayView::wf` of its view: the
/// intervals are chronological, only the last one may be open, and the
/// stored pauses are exactly the gaps between consecutive intervals.
pub struct OneDaysWork {
    pub(crate) date: Date,
    pub(crate) work_duration: Vec<WorkTimes>,
    pub(crate) sum_work: Option<u64>,
    pub(crate) sum_pause: Option<u64>,
    pub(crate) sum_total: u64,
    pub(crate) location: Option<Location>,
    pub(crate) vacation: bool,
}

/// The mathematical image of a `OneDaysWork`.
#[verifier::ext_equal]
pub ghost struct DayView {
    pub date: Date,
    pub work_duration: Seq<IntervalView>,
    pub sum_work: Option<u64>,
    pub sum_pause: Option<u64>,
    pub sum_total: u64,
    pub location: Option<Location>,
    pub vacation: bool,
}

impl View for OneDaysWork {
    type V = DayView;

    closed spec fn view(&self) -> DayView {
        DayView {
            date: self.date,
            work_duration: self.work_duration.deep_view(),
            sum_work: self.sum_work,
            sum_pause: self.sum_pause,
            sum_total: self.sum_total,
            location: self.location,
            vacation: self.vacation,
        }
    }
}

impl DeepView for OneDaysWork {
    type V = DayView;

    open spec fn deep_view(&self) -> DayView {
        self.view()
    }
}

/// Well-formedness of a day's interval sequence: every interval has a start;
/// an interval is closed exactly when it carries a duration, and that
/// duration is `end - start`; every interval but the last is closed and
/// carries as pause exactly the gap to its successor; the last interval
/// carries no pause.
pub open spec fn intervals_wf(s: Seq<IntervalView>) -> bool {
    &&& forall|i: int|
        0 <= i < s.len() ==> (#[trigger] s[i]).start is Some
    &&& forall|i: int|
        0 <= i < s.len() ==> ((#[trigger] s[i]).end is Some <==> s[i].duration is Some)
    &&& forall|i: int|
        0 <= i < s.len() && (#[trigger] s[i]).end is Some ==> s[i].start->0 <= s[i].end->0
            && s[i].duration->0 == s[i].end->0 - s[i].start->0
    &&& forall|i: int|
        0 <= i < s.len() - 1 ==> (#[trigger] s[i]).end is Some
    &&& forall|i: int|
        0 <= i < s.len() - 1 ==> (#[trigger] s[i]).pause is Some
    &&& forall|i: int|
        0 <= i < s.len() - 1 ==> (#[trigger] s[i]).end->0 <= s[i + 1].start->0 && s[i].pause->0
            == s[i + 1].start->0 - s[i].end->0
    &&& s.len() > 0 ==> s[s.len() - 1].pause is None
}

/// Sum of the durations that are present.
pub open spec fn sum_durations_of(s: Seq<IntervalView>) -> int
    decreases s.len(),
{
    if s.len() == 0 {
        0
    } else {
        sum_durations_of(s.drop_last()) + match s.last().duration {
            Some(d) => d as int,
            None => 0,
        }
    }
}

/// Whether any interval contributes a duration.
pub open spec fn has_durations(s: Seq<IntervalView>) -> bool
    decreases s.len(),
{
    if s.len() == 0 {
        false
    } else {
        has_durations(s.drop_last()) || s.last().duration is Some
    }
}

/// Sum of the pauses that are present.
pub open spec fn sum_pauses_of(s: Seq<IntervalView>) -> int
    decreases s.len(),
{
    if s.len() == 0 {
        0
    } else {
        sum_pauses_of(s.drop_last()) + match s.last().pause {
            Some(p) => p as int,
            None => 0,
        }
    }
}

/// Whether any interval contributes a pause.
pub open spec fn has_pauses(s: Seq<IntervalView>) -> bool
    decreases s.len(),
{
    if s.len() == 0 {
        false
    } else {
        has_pauses(s.drop_last()) || s.last().pause is Some
    }
}

/// `sum_work` as recomputed from the intervals: the sum of the present
/// durations, or `None` when no interval contributes one.
pub open spec fn recomputed_sum_work(s: Seq<IntervalView>) -> Option<u64> {
    if has_durations(s) {
        Some(sum_durations_of(s) as u64)
    } else {
        None
    }
}

/// `sum_pause` as recomputed from the intervals.
pub open spec fn recomputed_sum_pause(s: Seq<IntervalView>) -> Option<u64> {
    if has_pauses(s) {
        Some(sum_pauses_of(s) as u64)
    } else {
        None
    }
}

/// The latest clock reading recorded in an interval.
spec fn interval_hi(iv: IntervalView) -> int {
    if iv.end is Some {
        iv.end->0 as int
    } else {
        iv.start->0 as int
    }
}

/// Upper bound used to show that the running sums of a well-formed interval
/// sequence fit in a machine word.
spec fn sums_upper_bound(s: Seq<IntervalView>, i: int) -> int {
    if i == 0 {
        0
    } else if i < s.len() {
        s[i].start->0 - s[0].start->0
    } else {
        interval_hi(s[s.len() - 1]) - s[0].start->0
    }
}

/// In a well-formed sequence the durations and pauses telescope: their sums
/// over a prefix never exceed the clock span that the prefix covers.
proof fn lemma_sums_bounded(s: Seq<IntervalView>, i: int)
    requires
        intervals_wf(s),
        0 <= i <= s.len(),
    ensures
        0 <= sum_durations_of(s.take(i)),
        0 <= sum_pauses_of(s.take(i)),
        sum_durations_of(s.take(i)) + sum_pauses_of(s.take(i)) <= sums_upper_bound(s, i),
    decreases i,
{
    if i == 0 {
        assert(s.take(0).len() == 0);
    } else {
        lemma_sums_bounded(s, i - 1);
        assert(s.take(i).drop_last() =~= s.take(i - 1));
        assert(s.take(i).last() == s[i - 1]);
    }
}

/// An empty record for `date`, with the cumulative total carried forward.
pub open spec fn empty_day(date: Date, carried_total: u64) -> DayView {
    DayView {
        date,
        work_duration: Seq::empty(),
        sum_work: None,
        sum_pause: None,
        sum_total: carried_total,
        location: None,
        vacation: false,
    }
}

/// The fresh interval that a start press appends.
pub open spec fn opened_interval(now: u64) -> IntervalView {
    IntervalView { label: Some("Work"@), start: Some(now), end: None, duration: None, pause: None }
}

/// When a start press may be recorded: the clock must not run backwards
/// past the end of the last closed interval.
pub open spec fn can_start(d: DayView, now: u64) -> bool {
    d.work_duration.len() > 0 && d.work_duration.last().end is Some ==> now
        >= d.work_duration.last().end->0
}

/// The day after a start press at clock reading `now`.
///
/// With no intervals yet, a fresh open interval is appended. When the last
/// interval is closed, the gap to `now` is stored as that interval's pause,
/// a fresh open interval is appended, and the pause sum is recomputed.
/// When the last interval is still open the press is a recoverable user
/// error and the day is left unchanged.
pub open spec fn start_spec(d: DayView, now: u64) -> DayView {
    let s = d.work_duration;
    if s.len() == 0 {
        DayView { work_duration: seq![opened_interval(now)], ..d }
    } else if s.last().end is Some {
        let prev = s.last();
        let upd = IntervalView { pause: Some((now - prev.end->0) as u64), ..prev };
        let s2 = s.update(s.len() - 1, upd).push(opened_interval(now));
        DayView { work_duration: s2, sum_pause: recomputed_sum_pause(s2), ..d }
    } else {
        d
    }
}

/// When a stop press may be recorded: there is an interval, and if one is
/// open the clock has not run backwards past its start and the cumulative
/// total will not overflow.
pub open spec fn can_stop(d: DayView, now: u64) -> bool {
    &&& d.work_duration.len() > 0
    &&& d.work_duration.last().end is None ==> now >= d.work_duration.last().start->0
        && d.sum_total + (now - d.work_duration.last().start->0) <= u64::MAX
}

/// The day after a stop press at clock reading `now`.
///
/// When the last interval is open it is closed at `now`, its duration
/// becomes `now - start`, the work sum is recomputed, and the elapsed
/// minutes are added to the cumulative total. When it is already closed
/// the press is a recoverable user error and the day is left unchanged.
pub open spec fn stop_spec(d: DayView, now: u64) -> DayView {
    let s = d.work_duration;
    if s.last().end is Some {
        d
    } else {
        let last = s.last();
        let dur = (now - last.start->0) as u64;
        let upd = IntervalView { end: Some(now), duration: Some(dur), ..last };
        let s2 = s.update(s.len() - 1, upd);
        DayView {
            work_duration: s2,
            sum_work: recomputed_sum_work(s2),
            sum_total: (d.sum_total + dur) as u64,
            ..d
        }
    }
}

/// Whether a vacation toggle can be applied without arithmetic failure.
pub open spec fn vacation_ok(d: DayView, is_vacation: bool, workday_span: u64) -> bool {
    if is_vacation == d.vacation {
        true
    } else if is_vacation {
        (match d.sum_work {
            Some(s) => s as int,
            None => 0,
        }) + workday_span <= u64::MAX
    } else {
        d.sum_work is Some && d.sum_work->0 >= workday_span
    }
}

/// The day after a vacation toggle. Toggling on credits one contractual
/// workday span to the work sum; toggling off debits the same span; a
/// toggle to the state already held changes nothing.
pub open spec fn set_vacation_spec(d: DayView, is_vacation: bool, workday_span: u64) -> DayView {
    if is_vacation == d.vacation {
        d
    } else if is_vacation {
        let base: int = match d.sum_work {
            Some(s) => s as int,
            None => 0,
        };
        DayView { vacation: true, sum_work: Some((base + workday_span) as u64), ..d }
    } else {
        DayView { vacation: false, sum_work: Some((d.sum_work->0 - workday_span) as u64), ..d }
    }
}

/// The interface state derived from a day.
pub open spec fn spec_state(d: DayView, selected_is_today: bool) -> State {
    if !selected_is_today {
        State::NotToday
    } else if d.work_duration.len() > 0 && d.work_duration.last().start is Some
        && d.work_duration.last().end is None {
        State::Started
    } else {
        State::Stopped
    }
}

impl DayView {
    pub open spec fn wf(self) -> bool {
        &&& self.date.valid()
        &&& intervals_wf(self.work_duration)
    }
}

/// Law: a start press immediately followed by a second start press (no
/// stop in between) changes nothing the second time; in particular the
/// interval list keeps its length.
pub proof fn lemma_start_twice(d: DayView, now1: u64, now2: u64)
    requires
        d.wf(),
        can_start(d, now1),
    ensures
        start_spec(start_spec(d, now1), now2) == start_spec(d, now1),
        start_spec(start_spec(d, now1), now2).work_duration.len() == start_spec(
            d,
            now1,
        ).work_duration.len(),
{
    let d1 = start_spec(d, now1);
    if d.work_duration.len() == 0 {
        assert(d1.work_duration.last() == opened_interval(now1));
    } else if d.work_duration.last().end is Some {
        assert(d1.work_duration.last() == opened_interval(now1));
    }
}

/// Law: a stop press immediately followed by a second stop press (no start
/// in between) changes nothing the second time; in particular every field
/// of the last interval is left as the first press left it.
pub proof fn lemma_stop_twice(d: DayView, now1: u64, now2: u64)
    requires
        d.wf(),
        d.work_duration.len() > 0,
        can_stop(d, now1),
    ensures
        stop_spec(stop_spec(d, now1), now2) == stop_spec(d, now1),
{
    let d1 = stop_spec(d, now1);
    if d.work_duration.last().end is None {
        assert(d1.work_duration.last().end is Some);
    }
}

/// Law: the vacation toggle is involutive. Toggling a non-vacation day on
/// and directly off again restores the record — its work sum in
/// particular — exactly. (A day whose work sum is still unset comes back
/// with the sum `Some(0)` instead of `None`, so such days are excluded.)
pub proof fn lemma_vacation_involutive(d: DayView, workday_span: u64)
    requires
        !d.vacation,
        d.sum_work is Some,
        d.sum_work->0 + workday_span <= u64::MAX,
    ensures
        vacation_ok(d, true, workday_span),
        vacation_ok(set_vacation_spec(d, true, workday_span), false, workday_span),
        set_vacation_spec(set_vacation_spec(d, true, workday_span), false, workday_span) == d,
{
    let d1 = set_vacation_spec(d, true, workday_span);
    assert(d1.sum_work == Some((d.sum_work->0 + workday_span) as u64));
    assert(set_vacation_spec(d1, false, workday_span) =~= d);
}

/// A start press on a day whose last interval is closed yields a
/// well-formed interval sequence again.
proof fn lemma_start_wf(s: Seq<IntervalView>, now: u64)
    requires
        intervals_wf(s),
        s.len() > 0,
        s.last().end is Some,
        now >= s.last().end->0,
    ensures
        ({
            let prev = s.last();
            let upd = IntervalView { pause: Some((now - prev.end->0) as u64), ..prev };
            intervals_wf(s.update(s.len() - 1, upd).push(opened_interval(now)))
        }),
{
    let n = s.len() as int;
    let prev = s.last();
    let upd = IntervalView { pause: Some((now - prev.end->0) as u64), ..prev };
    let s2 = s.update(n - 1, upd).push(opened_interval(now));
    assert(forall|i: int| 0 <= i < n - 1 ==> #[trigger] s2[i] == s[i]);
    assert(s2[n - 1] == upd);
    assert(s2[n] == opened_interval(now));
    assert forall|i: int| 0 <= i < s2.len() - 1 implies (#[trigger] s2[i]).end->0 <= s2[i
        + 1].start->0 && s2[i].pause->0 == s2[i + 1].start->0 - s2[i].end->0 by {
        if i < n - 2 {
            assert(s2[i] == s[i]);
            assert(s2[i + 1] == s[i + 1]);
        } else if i == n - 2 {
            assert(s2[i] == s[i]);
            assert(s2[i + 1] == upd);
        } else {
            assert(s2[i] == upd);
            assert(s2[i + 1] == opened_interval(now));
        }
    }
}

/// A stop press on a day whose last interval is open yields a well-formed
/// interval sequence again.
proof fn lemma_stop_wf(s: Seq<IntervalView>, now: u64)
    requires
        intervals_wf(s),
        s.len() > 0,
        s.last().end is None,
        now >= s.last().start->0,
    ensures
        ({
            let last = s.last();
            let upd = IntervalView {
                end: Some(now),
                duration: Some((now - last.start->0) as u64),
                ..last
            };
            intervals_wf(s.update(s.len() - 1, upd))
        }),
{
    let n = s.len() as int;
    let last = s.last();
    let upd = IntervalView { end: Some(now), duration: Some((now - last.start->0) as u64), ..last };
    let s2 = s.update(n - 1, upd);
    assert(forall|i: int| 0 <= i < n - 1 ==> #[trigger] s2[i] == s[i]);
    assert(s2[n - 1] == upd);
    assert forall|i: int| 0 <= i < s2.len() - 1 implies (#[trigger] s2[i]).end->0 <= s2[i
        + 1].start->0 && s2[i].pause->0 == s2[i + 1].start->0 - s2[i].end->0 by {
        if i < n - 2 {
            assert(s2[i] == s[i]);
            assert(s2[i + 1] == s[i + 1]);
        } else {
            assert(s2[i] == s[i]);
            assert(s2[i + 1] == upd);
        }
    }
}

impl OneDaysWork {
    /// A new, empty record for `date`; the cumulative total of the prior
    /// day is carried forward unchanged.
    pub fn init(date: Date, carried_total: u64) -> (r: OneDaysWork)
        ensures
            r@ == empty_day(date, carried_total),
    {
        let r = OneDaysWork {
            date,
            work_duration: Vec::new(),
            sum_work: None,
            sum_pause: None,
            sum_total: carried_total,
            location: None,
            vacation: false,
        };
        proof {
            assert(r@ =~= empty_day(date, carried_total));
        }
        r
    }

    pub fn set_date(&mut self, date: Date)
        ensures
            final(self)@ == (DayView { date, ..old(self)@ }),
    {
        self.date = date;
        proof {
            assert(self@ =~= (DayView { date, ..old(self)@ }));
        }
    }

    pub fn set_location(&mut self, location: Location)
        ensures
            final(self)@ == (DayView { location: Some(location), ..old(self)@ }),
    {
        self.location = Some(location);
        proof {
            assert(self@ =~= (DayView { location: Some(location), ..old(self)@ }));
        }
    }

    pub fn date(&self) -> (r: Date)
        ensures
            r == self@.date,
    {
        self.date
    }

    pub fn work_duration(&self) -> (r: &Vec<WorkTimes>)
        ensures
            r.deep_view() == self@.work_duration,
    {
        &self.work_duration
    }

    pub fn sum_work(&self) -> (r: Option<u64>)
        ensures
            r == self@.sum_work,
    {
        self.sum_work
    }

    pub fn sum_pause(&self) -> (r: Option<u64>)
        ensures
            r == self@.sum_pause,
    {
        self.sum_pause
    }

    pub fn sum_total(&self) -> (r: u64)
        ensures
            r == self@.sum_total,
    {
        self.sum_total
    }

    pub fn location(&self) -> (r: Option<Location>)
        ensures
            r == self@.location,
    {
        self.location
    }

    pub fn vacation(&self) -> (r: bool)
        ensures
            r == self@.vacation,
    {
        self.vacation
    }

    /// Recomputes `sum_work` as the sum of all durations present, or `None`
    /// when no interval carries one yet.
    pub fn sum_durations(&mut self)
        requires
            intervals_wf(old(self)@.work_duration),
        ensures
            final(self)@ == (DayView {
                sum_work: recomputed_sum_work(old(self)@.work_duration),
                ..old(self)@
            }),
    {
        let ghost s = self@.work_duration;
        let n = self.work_duration.len();
        let mut sum: u64 = 0;
        let mut found: bool = false;
        let mut i: usize = 0;
        while i < n
            invariant
                i <= n,
                n == s.len(),
                self@ == old(self)@,
                s == self@.work_duration,
                intervals_wf(s),
                sum == sum_durations_of(s.take(i as int)),
                found == has_durations(s.take(i as int)),
            decreases n - i,
        {
            proof {
                assert(s.take(i + 1).drop_last() =~= s.take(i as int));
                assert(s.take(i + 1).last() == s[i as int]);
                lemma_sums_bounded(s, i + 1);
            }
            let d_opt = self.work_duration[i].duration;
            match d_opt {
                Some(d) => {
                    sum = sum + d;
                    found = true;
                },
                None => {},
            }
            i = i + 1;
        }
        proof {
            assert(s.take(n as int) =~= s);
        }
        if found {
            self.sum_work = Some(sum);
        } else {
            self.sum_work = None;
        }
        proof {
            assert(self@ =~= (DayView { sum_work: recomputed_sum_work(s), ..old(self)@ }));
        }
    }

    /// Recomputes `sum_pause` as the sum of all pauses present, or `None`
    /// when no interval carries one yet.
    pub fn sum_pauses(&mut self)
        requires
            intervals_wf(old(self)@.work_duration),
        ensures
            final(self)@ == (DayView {
                sum_pause: recomputed_sum_pause(old(self)@.work_duration),
                ..old(self)@
            }),
    {
        let ghost s = self@.work_duration;
        let n = self.work_duration.len();
        let mut sum: u64 = 0;
        let mut found: bool = false;
        let mut i: usize = 0;
        while i < n
            invariant
                i <= n,
                n == s.len(),
                self@ == old(self)@,
                s == self@.work_duration,
                intervals_wf(s),
                sum == sum_pauses_of(s.take(i as int)),
                found == has_pauses(s.take(i as int)),
            decreases n - i,
        {
            proof {
                assert(s.take(i + 1).drop_last() =~= s.take(i as int));
                assert(s.take(i + 1).last() == s[i as int]);
                lemma_sums_bounded(s, i + 1);
            }
            let p_opt = self.work_duration[i].pause;
            match p_opt {
                Some(p) => {
                    sum = sum + p;
                    found = true;
                },
                None => {},
            }
            i = i + 1;
        }
        proof {
            assert(s.take(n as int) =~= s);
        }
        if found {
            self.sum_pause = Some(sum);
        } else {
            self.sum_pause = None;
        }
        proof {
            assert(self@ =~= (DayView { sum_pause: recomputed_sum_pause(s), ..old(self)@ }));
        }
    }

    /// Records a start press at clock reading `now` (see `start_spec`):
    /// opens a new interval, storing the elapsed gap as the previous
    /// interval's pause; a press while an interval is open is a recoverable
    /// user error and changes nothing.
    pub fn start(&mut self, now: u64)
        requires
            old(self)@.wf(),
            can_start(old(self)@, now),
        ensures
            final(self)@ == start_spec(old(self)@, now),
            final(self)@.wf(),
    {
        let ghost d = self@;
        let ghost s = d.work_duration;
        let n = self.work_duration.len();
        if n == 0 {
            let work_times = WorkTimes::build_new_work_times(now);
            self.work_duration.push(work_times);
            proof {
                assert(self@.work_duration =~= seq![opened_interval(now)]);
                assert(self@ =~= start_spec(d, now));
            }
        } else {
            let end_opt = self.work_duration[n - 1].end;
            match end_opt {
                Some(e) => {
                    let ghost prev = s.last();
                    let ghost upd = IntervalView {
                        pause: Some((now - prev.end->0) as u64),
                        ..prev
                    };
                    let ghost s2 = s.update(s.len() - 1, upd).push(opened_interval(now));
                    let pause_v = now - e;
                    let elem = &mut self.work_duration[n - 1];
                    elem.pause = Some(pause_v);
                    proof {
                        assert(self.work_duration.deep_view() =~= s.update(n - 1, upd));
                    }
                    let work_times = WorkTimes::build_new_work_times(now);
                    self.work_duration.push(work_times);
                    proof {
                        lemma_start_wf(s, now);
                        assert(self.work_duration.deep_view() =~= s2);
                        assert(self@ =~= (DayView { work_duration: s2, ..d }));
                    }
                    self.sum_pauses();
                    proof {
                        assert(self@ =~= start_spec(d, now));
                    }
                },
                None => {
                    // The last interval is still open: a second start press is a
                    // recoverable user error and leaves the day unchanged.
                },
            }
        }
    }

    /// Records a stop press at clock reading `now` (see `stop_spec`): closes
    /// the open interval, recomputes the work sum, and adds the elapsed
    /// minutes to the cumulative total; a press while no interval is open is
    /// a recoverable user error and changes nothing.
    pub fn stop(&mut self, now: u64)
        requires
            old(self)@.wf(),
            can_stop(old(self)@, now),
        ensures
            final(self)@ == stop_spec(old(self)@, now),
            final(self)@.wf(),
    {
        let ghost d = self@;
        let ghost s = d.work_duration;
        let n = self.work_duration.len();
        let end_opt = self.work_duration[n - 1].end;
        match end_opt {
            Some(_) => {
                // The last interval is already closed: a second stop press is a
                // recoverable user error and leaves the day unchanged.
            },
            None => {
                let ghost last = s.last();
                let ghost upd = IntervalView {
                    end: Some(now),
                    duration: Some((now - last.start->0) as u64),
                    ..last
                };
                let ghost s2 = s.update(s.len() - 1, upd);
                let start_v = self.work_duration[n - 1].start.unwrap();
                let dur = now - start_v;
                let elem = &mut self.work_duration[n - 1];
                elem.end = Some(now);
                elem.duration = Some(dur);
                proof {
                    lemma_stop_wf(s, now);
                    assert(self.work_duration.deep_view() =~= s2);
                    assert(self@ =~= (DayView { work_duration: s2, ..d }));
                }
                self.sum_durations();
                self.sum_total = self.sum_total + dur;
                proof {
                    assert(self@ =~= stop_spec(d, now));
                }
            },
        }
    }

    /// Applies a vacation toggle (see `set_vacation_spec`). Returns whether
    /// the toggle was applied; it is refused — leaving the day unchanged —
    /// exactly when the credit would overflow or the debit would underflow
    /// the work sum.
    pub fn set_vacation(&mut self, is_vacation: bool, workday_span: u64) -> (ok: bool)
        ensures
            ok == vacation_ok(old(self)@, is_vacation, workday_span),
            ok ==> final(self)@ == set_vacation_spec(old(self)@, is_vacation, workday_span),
            !ok ==> final(self)@ == old(self)@,
    {
        if is_vacation == self.vacation {
            true
        } else if is_vacation {
            let base = match self.sum_work {
                Some(v) => v,
                None => 0,
            };
            if workday_span <= u64::MAX - base {
                self.vacation = true;
                self.sum_work = Some(base + workday_span);
                proof {
                    assert(self@ =~= set_vacation_spec(old(self)@, is_vacation, workday_span));
                }
                true
            } else {
                false
            }
        } else {
            match self.sum_work {
                Some(v) => {
                    if v >= workday_span {
                        self.vacation = false;
                        self.sum_work = Some(v - workday_span);
                        proof {
                            assert(self@ =~= set_vacation_spec(
                                old(self)@,
                                is_vacation,
                                workday_span,
                            ));
                        }
                        true
                    } else {
                        false
                    }
                },
                None => false,
            }
        }
    }

    /// The interface state of this day: `NotToday` when another date is
    /// selected, else `Started` exactly while an interval is open.
    pub fn state(&self, selected_is_today: bool) -> (r: State)
        ensures
            r == spec_state(self@, selected_is_today),
    {
        if !selected_is_today {
            State::NotToday
        } else {
            let n = self.work_duration.len();
            if n > 0 && self.work_duration[n - 1].start.is_some() && self.work_duration[n
                - 1].end.is_none() {
                State::Started
            } else {
                State::Stopped
            }
        }
    }

    /// Whether a start press at `now` may be recorded (see `can_start`).
    pub fn can_start_now(&self, now: u64) -> (b: bool)
        ensures
            b == can_start(self@, now),
    {
        let n = self.work_duration.len();
        if n == 0 {
            true
        } else {
            match self.work_duration[n - 1].end {
                Some(e) => now >= e,
                None => true,
            }
        }
    }

    /// Whether a stop press at `now` may be recorded (see `can_stop`).
    pub fn can_stop_now(&self, now: u64) -> (b: bool)
        requires
            self@.wf(),
        ensures
            b == can_stop(self@, now),
    {
        let n = self.work_duration.len();
        if n == 0 {
            false
        } else {
            match self.work_duration[n - 1].end {
                Some(_) => true,
                None => {
                    match self.work_duration[n - 1].start {
                        Some(st) => now >= st && now - st <= u64::MAX - self.sum_total,
                        None => {
                            proof {
                                assert(false);
                            }
                            false
                        },
                    }
                },
            }
        }
    }

    /// Reassembles a record from its parts; used when reading stored data.
    pub(crate) fn from_parts(
        date: Date,
        work_duration: Vec<WorkTimes>,
        sum_work: Option<u64>,
        sum_pause: Option<u64>,
        sum_total: u64,
        location: Option<Location>,
        vacation: bool,
    ) -> (r: OneDaysWork)
        ensures
            r@ == (DayView {
                date,
                work_duration: work_duration.deep_view(),
                sum_work,
                sum_pause,
                sum_total,
                location,
                vacation,
            }),
    {
        let r = OneDaysWork {
            date,
            work_duration,
            sum_work,
            sum_pause,
            sum_total,
            location,
            vacation,
        };
        proof {
            assert(r@ =~= (DayView {
                date,
                work_duration: r.work_duration.deep_view(),
                sum_work,
                sum_pause,
                sum_total,
                location,
                vacation,
            }));
        }
        r
    }
}

/// One interval's well-formedness clauses, viewed in isolation: used to
/// check `intervals_wf` index by index.
spec fn interval_ok(s: Seq<IntervalView>, i: int) -> bool {
    &&& s[i].start is Some
    &&& (s[i].end is Some <==> s[i].duration is Some)
    &&& (s[i].end is Some ==> s[i].start->0 <= s[i].end->0 && s[i].duration->0 == s[i].end->0
        - s[i].start->0)
    &&& (i < s.len() - 1 ==> s[i].end is Some && s[i].pause is Some && s[i + 1].start is Some
        && s[i].end->0 <= s[i + 1].start->0 && s[i].pause->0 == s[i + 1].start->0 - s[i].end->0)
}

/// `intervals_wf` holds exactly when every index passes `interval_ok` and
/// the last interval carries no pause.
proof fn lemma_wf_characterization(s: Seq<IntervalView>)
    ensures
        intervals_wf(s) <==> ((forall|i: int| 0 <= i < s.len() ==> #[trigger] interval_ok(s, i))
            && (s.len() > 0 ==> s[s.len() - 1].pause is None)),
{
    if forall|i: int| 0 <= i < s.len() ==> #[trigger] interval_ok(s, i) {
        assert forall|i: int| 0 <= i < s.len() implies (#[trigger] s[i]).start is Some by {
            assert(interval_ok(s, i));
        }
        assert forall|i: int| 0 <= i < s.len() implies ((#[trigger] s[i]).end is Some <==> s[
            i
        ].duration is Some) by {
            assert(interval_ok(s, i));
        }
        assert forall|i: int|
            0 <= i < s.len() && (#[trigger] s[i]).end is Some implies s[i].start->0 <= s[i].end->0
                && s[i].duration->0 == s[i].end->0 - s[i].start->0 by {
            assert(interval_ok(s, i));
        }
        assert forall|i: int| 0 <= i < s.len() - 1 implies (#[trigger] s[i]).end is Some by {
            assert(interval_ok(s, i));
        }
        assert forall|i: int| 0 <= i < s.len() - 1 implies (#[trigger] s[i]).pause is Some by {
            assert(interval_ok(s, i));
        }
        assert forall|i: int|
            0 <= i < s.len() - 1 implies (#[trigger] s[i]).end->0 <= s[i + 1].start->0 && s[
                i
            ].pause->0 == s[i + 1].start->0 - s[i].end->0 by {
            assert(interval_ok(s, i));
        }
    }
    if intervals_wf(s) {
        assert forall|i: int| 0 <= i < s.len() implies #[trigger] interval_ok(s, i) by {
            assert(s[i].start is Some);
            if i < s.len() - 1 {
                assert(s[i].end is Some);
                assert(s[i + 1].start is Some);
            }
        }
    }
}

/// Runtime check of one index's `interval_ok` clauses.
fn check_one_interval(v: &Vec<WorkTimes>, i: usize) -> (b: bool)
    requires
        i < v@.len(),
    ensures
        b == interval_ok(v.deep_view(), i as int),
{
    let ghost s = v.deep_view();
    let n = v.len();
    if v[i].start.is_none() {
        return false;
    }
    let end_some = v[i].end.is_some();
    let dur_some = v[i].duration.is_some();
    if end_some != dur_some {
        return false;
    }
    if end_some {
        let st = v[i].start.unwrap();
        let en = v[i].end.unwrap();
        let du = v[i].duration.unwrap();
        if st > en || du != en - st {
            return false;
        }
    }
    if i + 1 < n {
        if v[i].end.is_none() || v[i].pause.is_none() {
            return false;
        }
        let en = v[i].end.unwrap();
        let pa = v[i].pause.unwrap();
        match v[i + 1].start {
            Some(ns) => {
                if en > ns || pa != ns - en {
                    return false;
                }
            },
            None => {
                return false;
            },
        }
    }
    true
}

/// Runtime check of `intervals_wf`; used to validate stored data before it
/// is accepted as a day record.
pub fn check_intervals_wf(v: &Vec<WorkTimes>) -> (b: bool)
    ensures
        b == intervals_wf(v.deep_view()),
{
    let ghost s = v.deep_view();
    let n = v.len();
    if n == 0 {
        return true;
    }
    if v[n - 1].pause.is_some() {
        proof {
            if intervals_wf(s) {
                assert(s[n - 1].pause is None);
            }
        }
        return false;
    }
    let mut i: usize = 0;
    while i < n
        invariant
            i <= n,
            n == s.len(),
            n == v@.len(),
            s == v.deep_view(),
            forall|j: int| 0 <= j < i ==> #[trigger] interval_ok(s, j),
        decreases n - i,
    {
        if !check_one_interval(v, i) {
            proof {
                lemma_wf_characterization(s);
            }
            return false;
        }
        i = i + 1;
    }
    proof {
        lemma_wf_characterization(s);
    }
    true
}


} // verus!
