//! Follower analytics: reconciles two time-stamped identity lists — accounts
//! that follow a subject and accounts the subject follows — and derives
//! set-difference and calendar-bucketed growth figures from them.
//!
//! Relations are equal iff their identities match; timestamps are payload,
//! consulted only for date bucketing. All derivations are pure functions over
//! immutable snapshots.

pub mod date;
pub mod engine;
pub mod model;
pub mod order;
