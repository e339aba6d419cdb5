//! A rotation engine for volunteer duty rosters.
//!
//! Given people, jobs, sibling groups, unavailability intervals and the
//! ledger of past commitments, the engine builds a draft schedule for the
//! Sundays of a month, and offers the manual edits (reassign, clear, swap,
//! move) that keep the assignment table and the ledger in step.

pub mod calendar;
pub mod candidates;
pub mod edits;
pub mod eligibility;
pub mod fairness;
pub mod generator;
pub mod model;
pub mod names;
pub mod rotation;
pub mod siblings;
pub mod util;
