//! Planning core of a personal goal tracker: splitting goals into daily
//! tasks, re-planning, dependency ordering, streaks, progress roll-ups and
//! the rules that guard every write.
//!
//! Quantities are fixed-point integers counted in hundredths of a unit
//! (`250` stands for `2.5`); calendar dates are day numbers in the proleptic
//! Gregorian calendar with 0001-01-01 as day 1.

pub mod error;
pub mod util;
pub mod models;
pub mod split;
pub mod dependency;
pub mod textorder;
pub mod replan;
pub mod progress;
pub mod goals;
pub mod tasks;
pub mod streak;
pub mod encourage;
pub mod backup;
pub mod settings;
pub mod portable;
pub mod laws;
pub mod behaviour_laws;
