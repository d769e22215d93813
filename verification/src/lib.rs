//! A verified periodic order scheduler.
//!
//! The library accepts recurring trade orders, places each execution into a
//! future time slot under a per-slot capacity limit, custodies the funds a
//! schedule can still spend under a schedule-derived reservation tag, drives
//! execution slot by slot through a caller-supplied routing collaborator, and
//! retries or terminates schedules whose executions fail.

pub mod ledger;
pub mod scheduler;
pub mod table;
pub mod types;
pub mod weights;
