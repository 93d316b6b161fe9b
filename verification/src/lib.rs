//! A work-time accounting core: days of start/stop intervals, their work
//! and break sums, required hours from a weekly contract, and the signed
//! difference between the two. All times are whole minutes; every public
//! operation carries a contract, and the stored form of a calendar is
//! written and read by a codec proved to round-trip.

pub mod calendar;
pub mod codec;
pub mod config;
pub mod date;
pub mod day;
pub mod interval;
pub mod utils;
