use vstd::prelude::*;

verus! {

/// One contiguous start-to-stop work period.
///
/// `start` and `end` are clock readings in whole minutes since the clock's
/// epoch; `duration` is `end - start` once the interval is closed; `pause`
/// is the idle gap to the next interval of the same day, set retroactively
/// when that next interval opens.
#[derive(Debug)]
pub struct WorkTimes {
    pub label: Option<String>,
    pub start: Option<u64>,
    pub end: Option<u64>,
    pub duration: Option<u64>,
    pub pause: Option<u64>,
}

/// The mathematical image of a `WorkTimes`: the label as a character
/// sequence, every time field as it is stored.
#[verifier::ext_equal]
pub ghost struct IntervalView {
    pub label: Option<Seq<char>>,
    pub start: Option<u64>,
    pub end: Option<u64>,
    pub duration: Option<u64>,
    pub pause: Option<u64>,
}

impl View for WorkTimes {
    type V = IntervalView;

    open spec fn view(&self) -> IntervalView {
        IntervalView {
            label: match self.label {
                Some(s) => Some(s@),
                None => None,
            },
            start: self.start,
            end: self.end,
            duration: self.duration,
            pause: self.pause,
        }
    }
}

impl DeepView for WorkTimes {
    type V = IntervalView;

    open spec fn deep_view(&self) -> IntervalView {
        self.view()
    }
}

impl WorkTimes {
    /// A fresh interval with every field unset.
    pub fn init() -> (r: WorkTimes)
        ensures
            r@ == (IntervalView {
                label: None,
                start: None,
                end: None,
                duration: None,
                pause: None,
            }),
    {
        WorkTimes { label: None, start: None, end: None, duration: None, pause: None }
    }

    /// Records the clock reading at which the interval opens.
    pub fn set_start(&mut self, now: u64)
        ensures
            final(self)@ == (IntervalView { start: Some(now), ..old(self)@ }),
    {
        self.start = Some(now);
    }

    /// Records the clock reading at which the interval closes.
    pub fn set_end(&mut self, now: u64)
        ensures
            final(self)@ == (IntervalView { end: Some(now), ..old(self)@ }),
    {
        self.end = Some(now);
    }

    /// Tags the interval with a free-text label.
    pub fn set_label(&mut self, label: &str)
        ensures
            final(self)@ == (IntervalView { label: Some(label@), ..old(self)@ }),
    {
        self.label = Some(label.to_owned());
    }

    /// A newly opened interval: started at `now`, labelled "Work".
    pub fn build_new_work_times(now: u64) -> (r: WorkTimes)
        ensures
            r@ == (IntervalView {
                label: Some("Work"@),
                start: Some(now),
                end: None,
                duration: None,
                pause: None,
            }),
    {
        let mut work_times = WorkTimes::init();
        work_times.set_start(now);
        work_times.set_label("Work");
        work_times
    }
}

} // verus!
