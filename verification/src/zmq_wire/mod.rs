//! Cache events as inference engines publish them.

pub mod convert;
pub mod filter;
pub mod types;
