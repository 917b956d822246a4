//! Turns a production plan (phase templates, recipes made of phases, and a pool of typed
//! resources) into a schedule: each phase gets a start, its resources and the phase that
//! follows it.

pub mod calendar;
pub mod duration;
pub mod phases;
pub mod pla;
pub mod recipes;
pub mod resources;
pub mod schedule;
mod text;

pub use schedule::{ProductionSchedule, ProductionTimeline, ScheduleError};
