//! Graduation-requirement checking for an academic transcript.
//!
//! Transcript rows become [`unit::Unit`] records; ordered, regex-based
//! classification rules ([`unitgroup::UnitGroup`]) assign each record to a
//! named credit bucket; a tree of requirement nodes ([`require::Req`])
//! evaluates minimum thresholds with optional credit caps over those buckets;
//! and [`user::User`] accumulates the overall grade-point average.
//!
//! Credits and grade points are held as fixed-point integers: credits in
//! tenths of a credit, grade values in tenths of a grade point, so that every
//! sum and threshold comparison is exact.

pub mod pattern;
pub mod require;
pub mod sums;
pub mod unit;
pub mod unitgroup;
pub mod user;

