//! Conflict-free weekly class scheduling.
//!
//! The crate builds weekly schedules from a catalog of course sections:
//! sections are grouped into requirement groups, pruned by constraints,
//! deduplicated, and then a backtracking enumerator produces every
//! assignment of one section per group with no time overlap. A scoring
//! stage summarises each complete schedule so callers can rank results.

pub mod classes;
pub mod days;
pub mod schedule;
pub mod score;
pub mod solver;
pub mod time;
pub mod timeseries;

pub use classes::{
    Class, ClassBank, CreditHours, Crn, CrossList, Enrollment, Faculty, Session, SmallClass,
};
pub use days::{day_to_idx, Day, Days};
pub use schedule::Schedule;
pub use score::Breakdown;
pub use time::{Time, TimeError};
pub use timeseries::TimeSeries;
