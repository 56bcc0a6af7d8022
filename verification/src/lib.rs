//! Verified core of a KV-cache aware request router.

use vstd::prelude::*;

pub mod collections;
pub mod hashing;
pub mod indexer;
pub mod protocols;
pub mod scheduling;
pub mod seqs;
pub mod sequences;
pub mod services;
pub mod sorting;
pub mod test_utils;
pub mod text;
pub mod zmq_wire;

verus! {

} // verus!
