//! Observation-driven CPU contention relief: policy checks, candidate
//! selection, priority bookkeeping and the text formats around them.
pub mod clock;
pub mod controller;
pub mod laws;
pub mod models;
pub mod platform;
pub mod ranking;
pub mod report;
pub mod text;

pub use controller::Controller;
pub use models::{ActionResult, Policy, PriorityChange, ProcessSnapshot, SystemSnapshot, WatchEvent};
