//! The state and the rules of the standalone services.

pub mod access_log;
pub mod indexer;
pub mod listener;
pub mod replica_sync;
pub mod selection;
pub mod shared_cache;
pub mod slot_tracker;
