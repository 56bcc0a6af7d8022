//! Cache events in the shape in which engines send them.

use vstd::prelude::*;

use crate::protocols::BlockExtraInfo;

verus! {

/// A block hash as engines write it: a signed or an unsigned number.
#[derive(Clone, Copy, Debug, PartialEq, Eq, Structural)]
pub enum BlockHashValue {
    Signed(i64),
    Unsigned(u64),
}

impl BlockHashValue {
    /// The hash as an unsigned number, signed ones bit for bit.
    pub open spec fn spec_into_u64(self) -> u64 {
        match self {
            BlockHashValue::Signed(value) => value as u64,
            BlockHashValue::Unsigned(value) => value,
        }
    }

    /// The hash as an unsigned number, signed ones bit for bit.
    #[verifier::when_used_as_spec(spec_into_u64)]
    pub fn into_u64(self) -> (r: u64)
        ensures
            r == self.spec_into_u64(),
    {
        match self {
            BlockHashValue::Signed(value) => {
                #[verifier::truncate]
                (value as u64)
            },
            BlockHashValue::Unsigned(value) => value,
        }
    }
}

/// Model of a list of block hashes.
pub open spec fn block_hash_values(hashes: Seq<BlockHashValue>) -> Seq<u64> {
    hashes.map_values(|h: BlockHashValue| h.spec_into_u64())
}

/// The kind of attention cache that a block belongs to.
#[derive(Clone, Copy, Debug, PartialEq, Eq, Structural)]
pub enum KvCacheSpecKind {
    FullAttention,
    MlaAttention,
    SlidingWindow,
    ChunkedLocalAttention,
    Mamba,
    CrossAttention,
    Unknown,
}

impl KvCacheSpecKind {
    /// Whether blocks of this kind hold the attention that routing looks at.
    pub open spec fn spec_is_main(self) -> bool {
        self == KvCacheSpecKind::FullAttention || self == KvCacheSpecKind::MlaAttention
    }

    /// Whether blocks of this kind hold the attention that routing looks at.
    #[verifier::when_used_as_spec(spec_is_main)]
    pub fn is_main(self) -> (r: bool)
        ensures
            r == self.spec_is_main(),
    {
        match self {
            KvCacheSpecKind::FullAttention | KvCacheSpecKind::MlaAttention => true,
            _ => false,
        }
    }
}

/// A cache event as an engine sends it.
#[derive(Debug, PartialEq, Eq)]
pub enum RawKvEvent {
    BlockStored {
        block_hashes: Vec<BlockHashValue>,
        parent_block_hash: Option<BlockHashValue>,
        token_ids: Vec<u32>,
        block_size: usize,
        medium: Option<String>,
        lora_name: Option<String>,
        block_mm_infos: Option<Vec<Option<BlockExtraInfo>>>,
        is_eagle: Option<bool>,
        group_idx: Option<u32>,
        kv_cache_spec_kind: Option<KvCacheSpecKind>,
        kv_cache_spec_sliding_window: Option<u32>,
    },
    BlockRemoved {
        block_hashes: Vec<BlockHashValue>,
        medium: Option<String>,
        group_idx: Option<u32>,
        kv_cache_spec_kind: Option<KvCacheSpecKind>,
        kv_cache_spec_sliding_window: Option<u32>,
    },
    AllBlocksCleared,
    Ignored,
}

/// What an event says of the cache group it belongs to.
#[derive(Clone, Copy, Debug, PartialEq, Eq, Structural)]
pub struct RawEventMetadata {
    pub group_idx: Option<u32>,
    pub kv_cache_spec_kind: Option<KvCacheSpecKind>,
    pub kv_cache_spec_sliding_window: Option<u32>,
}

impl RawKvEvent {
    /// What the event says of its cache group.
    pub open spec fn spec_metadata(&self) -> RawEventMetadata {
        match *self {
            RawKvEvent::BlockStored {
                group_idx,
                kv_cache_spec_kind,
                kv_cache_spec_sliding_window,
                ..
            } => RawEventMetadata { group_idx, kv_cache_spec_kind, kv_cache_spec_sliding_window },
            RawKvEvent::BlockRemoved {
                group_idx,
                kv_cache_spec_kind,
                kv_cache_spec_sliding_window,
                ..
            } => RawEventMetadata { group_idx, kv_cache_spec_kind, kv_cache_spec_sliding_window },
            _ => RawEventMetadata {
                group_idx: None,
                kv_cache_spec_kind: None,
                kv_cache_spec_sliding_window: None,
            },
        }
    }

    /// What the event says of its cache group.
    #[verifier::when_used_as_spec(spec_metadata)]
    pub fn metadata(&self) -> (r: RawEventMetadata)
        ensures
            r == self.spec_metadata(),
    {
        match self {
            RawKvEvent::BlockStored {
                group_idx,
                kv_cache_spec_kind,
                kv_cache_spec_sliding_window,
                ..
            } => RawEventMetadata {
                group_idx: *group_idx,
                kv_cache_spec_kind: *kv_cache_spec_kind,
                kv_cache_spec_sliding_window: *kv_cache_spec_sliding_window,
            },
            RawKvEvent::BlockRemoved {
                group_idx,
                kv_cache_spec_kind,
                kv_cache_spec_sliding_window,
                ..
            } => RawEventMetadata {
                group_idx: *group_idx,
                kv_cache_spec_kind: *kv_cache_spec_kind,
                kv_cache_spec_sliding_window: *kv_cache_spec_sliding_window,
            },
            _ => RawEventMetadata {
                group_idx: None,
                kv_cache_spec_kind: None,
                kv_cache_spec_sliding_window: None,
            },
        }
    }
}

} // verus!
