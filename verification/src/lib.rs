//! Core of a small time tracker: named tasks, one running timer,
//! duration accounting, and a day-keyed snapshot of completed work.
pub mod daykey;
pub mod display;
pub mod laws;
pub mod snapshot;
pub mod store;
pub mod text;
pub mod time;
