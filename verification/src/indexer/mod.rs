//! Indexes of the blocks that workers hold.

pub mod compressed_radix;
pub mod concurrent_radix_tree_compressed;
pub mod kv_indexer;
pub mod lookup_update;
pub mod lower_tier;
pub mod pruning;
pub mod thread_pool;
