//! A verified data engine for a process monitor: fixed-capacity rolling
//! metric windows, per-process history stores, parent/child relation
//! resolution over a process snapshot, and the per-tick refresh engine.

pub mod circular_buffer;
pub mod process;
pub mod monitor;
pub mod history;
pub mod metrics;
