//! Strength-of-schedule ratings for a league: team discovery over a paginated
//! listing, the per-team schedule model, and the opponent-adjusted rating engine.
pub mod discovery;
pub mod schedule;
pub mod rating;
