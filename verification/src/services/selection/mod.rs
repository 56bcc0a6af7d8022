//! The selection service: it knows workers, picks one for a request and keeps the
//! reservations, and forwards nothing itself.

pub mod catalog;
pub mod error;
pub mod listeners;
pub mod prompt;
pub mod scoring;
pub mod service;
pub mod types;
