use vstd::prelude::*;
use crate::date::Date;

verus! {

/// Minutes in one week; no contract can ask for more.
pub const WEEK_MINUTES: u64 = 10080;

/// The session's contract: weekly hours (held in minutes, so that all
/// accounting stays exact) and the contract's start date. Reading and
/// writing the configuration file is the caller's concern; the library
/// only computes with the plain values.
#[derive(Clone, Copy, PartialEq, Eq, Structural, Debug)]
pub struct Config {
    pub hours_week_minutes: u64,
    pub start_date: Date,
}

impl Config {
    pub open spec fn valid(self) -> bool {
        &&& self.hours_week_minutes <= WEEK_MINUTES
        &&& self.start_date.valid()
    }

    /// One contractual workday in minutes: a fifth of the week's minutes,
    /// rounded down to whole minutes.
    pub fn get_workday_span(&self) -> (r: u64)
        ensures
            r == self.hours_week_minutes / 5,
    {
        self.hours_week_minutes / 5
    }
}

} // verus!
