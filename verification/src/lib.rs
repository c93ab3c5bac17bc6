//! Expansion of an academic semester into a day-by-day class schedule.
//!
//! Given explicit day-label overrides, holiday ranges and closure notices,
//! the library produces the ordered table mapping each school day to its
//! position in a five-label rotation together with a running cycle number,
//! and decides from recorded modification stamps whether a department's
//! table must be recomputed.

pub mod cache;
pub mod calendar;
pub mod engine;
