//! Scheduling of requests onto workers.

pub mod admission;
pub mod config;
pub mod overlap;
pub mod policy_config;
pub mod policy_queue;
pub mod prefill_load;
pub mod queue;
pub mod types;
