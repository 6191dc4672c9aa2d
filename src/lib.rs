//! Funnel analytics over tagged, timestamped reports.
//!
//! Reports carry a set of tag names and a millisecond timestamp; sessions own
//! an ordered list of reports. Callers define tag groups, and the library
//! matches reports to groups, collapses a session into funnel steps, and
//! aggregates durations, percentages and group rankings over many sessions.

pub mod error;
pub mod percentage;
pub mod tag_group;
pub mod report;
pub mod session;
pub mod analysis;
pub mod steps_analytics;
pub mod user;
