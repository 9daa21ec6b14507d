//! Profile connection scan over a static public-transit timetable.
//!
//! For a set of destinations, `algo::compute` gives every stop its profiles:
//! the ways to leave it and when each of them arrives, the latest first.
//!
//! - `structures`: the timetable, what the solver asks of it, and a builder.
//! - `frontier`: lists of profiles, and what offering a candidate does to
//!   them.
//! - `sweep`: what the solver computes, connection by connection, and what
//!   holds of it at every point: every profile is a journey.
//! - `cover`: where nobody walks, every journey has its profile.
//! - `algo`: the solver.
//! - `journey`: the connections of a journey, read from the profiles.
//! - `gtfs_structures`, `records`, `feed`: feeds, and timetables made of
//!   them.
//! - `dates`, `text`, `sort`: days, times of day, and stable ordering.

pub mod algo;
pub mod cover;
pub mod dates;
pub mod feed;
pub mod frontier;
pub mod gtfs_structures;
pub mod journey;
pub mod records;
pub mod sort;
pub mod structures;
pub mod sweep;
pub mod text;
