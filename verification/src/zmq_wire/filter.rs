//! Filtering of engine events down to the cache groups that routing looks at.

use vstd::prelude::*;

use crate::collections::{fx_get, fx_insert, fx_remove, FxMap};
use crate::protocols::{PlacementEvent, WorkerWithDpRank};
use crate::zmq_wire::convert::{
    convert_event, converts_to, convertible, next_count, tier_of_raw,
};
use crate::zmq_wire::types::{RawEventMetadata, RawKvEvent};

verus! {

/// Why an engine event is not indexed.
#[derive(Clone, Copy, Debug, PartialEq, Eq, Structural)]
pub enum ZmqEventFilterReason {
    /// The event belongs to a cache that is not the main attention cache.
    NonMainAttentionKind,
    /// The event names a cache group of which nothing is known.
    UnlearnedGroupIdx,
}

/// What is known of the cache groups of one worker rank: whether a group is the
/// main attention cache.
pub open spec fn known_group(
    learned: Map<(u64, u32), Map<u64, bool>>,
    worker: WorkerWithDpRank,
    group_idx: u32,
) -> Option<bool> {
    if learned.dom().contains(worker.spec_key()) && learned[worker.spec_key()].dom().contains(
        group_idx as u64,
    ) {
        Some(learned[worker.spec_key()][group_idx as u64])
    } else {
        None
    }
}

/// Whether an engine event becomes a worker event, and what a normalizer is
/// afterwards.
pub open spec fn normalizes(
    before: ZmqEventNormalizer,
    raw: RawKvEvent,
    event_id: u64,
    worker: WorkerWithDpRank,
    event: Option<PlacementEvent>,
    after: ZmqEventNormalizer,
) -> bool {
    &&& after.block_size() == before.block_size()
    &&& after.image_token() == before.image_token()
    &&& forall|asked: WorkerWithDpRank, group_idx: u32|
        #[trigger] after.knows(asked, group_idx) == before.learns(raw, worker, asked, group_idx)
    &&& event is Some <==> raw !is Ignored && before.verdict(raw.spec_metadata(), worker) is None
    &&& event is Some ==> {
        &&& event->0.placement.worker == worker
        &&& event->0.placement.tier == tier_of_raw(raw)
        &&& event->0.event.event_id == event_id
        &&& event->0.event.dp_rank == worker.dp_rank
        &&& converts_to(
            raw,
            before.block_size() as nat,
            before.image_token(),
            event->0.event.data@,
        )
    }
    &&& after.warnings() == if event is Some && raw is BlockStored && event->0.event.data@ is Stored
        && event->0.event.data@->blocks.len() < raw->BlockStored_block_hashes@.len() {
        next_count(before.warnings())
    } else {
        before.warnings()
    }
}

/// Turns engine events into worker events. Store events teach it which cache
/// groups of a worker rank are main attention, and events that name a group
/// only are judged by that.
pub struct ZmqEventNormalizer {
    kv_block_size: u32,
    warning_count: u32,
    image_token_id: Option<u32>,
    learned: FxMap<(u64, u32), FxMap<u64, bool>>,
}

impl ZmqEventNormalizer {
    /// Block size of the router.
    pub closed spec fn block_size(&self) -> u32 {
        self.kv_block_size
    }

    /// Number of blocks that could not be published so far.
    pub closed spec fn warnings(&self) -> u32 {
        self.warning_count
    }

    /// The routing image token, where the model has one.
    pub closed spec fn image_token(&self) -> Option<u32> {
        self.image_token_id
    }

    /// Whether a cache group of a worker rank is main attention, where a store
    /// event said so.
    pub closed spec fn knows(&self, worker: WorkerWithDpRank, group_idx: u32) -> Option<bool> {
        known_group(
            self.learned@.map_values(|groups: FxMap<u64, bool>| groups@),
            worker,
            group_idx,
        )
    }

    /// A normalizer that has learned nothing yet.
    pub fn new(kv_block_size: u32) -> (r: Self)
        ensures
            r.block_size() == kv_block_size,
            r.warnings() == 0,
            r.image_token() is None,
            forall|worker: WorkerWithDpRank, group_idx: u32| r.knows(worker, group_idx) is None,
    {
        ZmqEventNormalizer {
            kv_block_size,
            warning_count: 0,
            image_token_id: None,
            learned: FxMap::default(),
        }
    }

    /// The same normalizer for a model with a routing image token.
    pub fn with_image_token_id(self, image_token_id: Option<u32>) -> (r: Self)
        ensures
            r.block_size() == self.block_size(),
            r.warnings() == self.warnings(),
            r.image_token() == image_token_id,
            forall|worker: WorkerWithDpRank, group_idx: u32|
                r.knows(worker, group_idx) == self.knows(worker, group_idx),
    {
        ZmqEventNormalizer {
            kv_block_size: self.kv_block_size,
            warning_count: self.warning_count,
            image_token_id,
            learned: self.learned,
        }
    }

    /// Whether the event is indexed, and if not why. Its own attention kind
    /// decides; an event without one is judged by what was learned of its
    /// group, and without that only the first group is taken.
    pub open spec fn verdict(&self, metadata: RawEventMetadata, worker: WorkerWithDpRank) -> Option<
        ZmqEventFilterReason,
    > {
        match metadata.kv_cache_spec_kind {
            Some(kind) => if kind.spec_is_main() {
                None
            } else {
                Some(ZmqEventFilterReason::NonMainAttentionKind)
            },
            None => match metadata.group_idx {
                None => None,
                Some(group_idx) => match self.knows(worker, group_idx) {
                    Some(true) => None,
                    Some(false) => Some(ZmqEventFilterReason::NonMainAttentionKind),
                    None => if group_idx == 0 {
                        None
                    } else {
                        Some(ZmqEventFilterReason::UnlearnedGroupIdx)
                    },
                },
            },
        }
    }

    /// What the normalizer learns from an event: a store event that gives both
    /// its group and its attention kind binds the two for that worker rank.
    pub open spec fn learns(
        &self,
        raw: RawKvEvent,
        worker: WorkerWithDpRank,
        asked: WorkerWithDpRank,
        group_idx: u32,
    ) -> Option<bool> {
        let metadata = raw.spec_metadata();
        if raw is BlockStored && metadata.kv_cache_spec_kind is Some && metadata.group_idx == Some(
            group_idx,
        ) && asked == worker {
            Some(metadata.kv_cache_spec_kind->0.spec_is_main())
        } else {
            self.knows(asked, group_idx)
        }
    }

    fn learn(&mut self, worker: WorkerWithDpRank, group_idx: u32, main: bool)
        ensures
            final(self).block_size() == old(self).block_size(),
            final(self).warnings() == old(self).warnings(),
            final(self).image_token() == old(self).image_token(),
            forall|w: WorkerWithDpRank, g: u32|
                #[trigger] final(self).knows(w, g) == if w == worker && g == group_idx {
                    Some(main)
                } else {
                    old(self).knows(w, g)
                },
    {
        let mut groups = match fx_remove(&mut self.learned, &worker.key()) {
            Some(groups) => groups,
            None => FxMap::default(),
        };
        fx_insert(&mut groups, group_idx as u64, main);
        fx_insert(&mut self.learned, worker.key(), groups);
        assert forall|w: WorkerWithDpRank, g: u32|
            self.knows(w, g) == if w == worker && g == group_idx {
                Some(main)
            } else {
                old(self).knows(w, g)
            } by {
            if w != worker {
                assert(w.spec_key() != worker.spec_key());
            }
        }
    }

    /// Lets an event through, or says why it is filtered out. Store events that
    /// name their group's attention kind are learned from either way.
    pub fn preprocess_with_reason(&mut self, raw: RawKvEvent, worker: WorkerWithDpRank) -> (r:
        Result<RawKvEvent, ZmqEventFilterReason>)
        ensures
            final(self).block_size() == old(self).block_size(),
            final(self).warnings() == old(self).warnings(),
            final(self).image_token() == old(self).image_token(),
            forall|asked: WorkerWithDpRank, group_idx: u32|
                #[trigger] final(self).knows(asked, group_idx) == old(self).learns(
                    raw,
                    worker,
                    asked,
                    group_idx,
                ),
            r == (match old(self).verdict(raw.spec_metadata(), worker) {
                None => Ok::<RawKvEvent, ZmqEventFilterReason>(raw),
                Some(reason) => Err(reason),
            }),
    {
        let metadata = raw.metadata();
        let is_store = matches!(&raw, RawKvEvent::BlockStored { .. });
        match metadata.kv_cache_spec_kind {
            Some(kind) => {
                let main = kind.is_main();
                if is_store {
                    if let Some(group_idx) = metadata.group_idx {
                        self.learn(worker, group_idx, main);
                    }
                }
                if main {
                    Ok(raw)
                } else {
                    Err(ZmqEventFilterReason::NonMainAttentionKind)
                }
            },
            None => {
                match metadata.group_idx {
                    None => Ok(raw),
                    Some(group_idx) => {
                        let known: Option<bool> = match fx_get(&self.learned, &worker.key()) {
                            Some(groups) => match fx_get(groups, &(group_idx as u64)) {
                                Some(main) => Some(*main),
                                None => None,
                            },
                            None => None,
                        };
                        match known {
                            Some(true) => Ok(raw),
                            Some(false) => Err(ZmqEventFilterReason::NonMainAttentionKind),
                            None => {
                                if group_idx == 0 {
                                    Ok(raw)
                                } else {
                                    Err(ZmqEventFilterReason::UnlearnedGroupIdx)
                                }
                            },
                        }
                    },
                }
            },
        }
    }

    /// Lets an event through or drops it.
    pub fn preprocess(&mut self, raw: RawKvEvent, worker: WorkerWithDpRank) -> (r: Option<
        RawKvEvent,
    >)
        ensures
            final(self).block_size() == old(self).block_size(),
            final(self).warnings() == old(self).warnings(),
            final(self).image_token() == old(self).image_token(),
            forall|asked: WorkerWithDpRank, group_idx: u32|
                #[trigger] final(self).knows(asked, group_idx) == old(self).learns(
                    raw,
                    worker,
                    asked,
                    group_idx,
                ),
            r == (match old(self).verdict(raw.spec_metadata(), worker) {
                None => Some(raw),
                Some(_) => None,
            }),
    {
        match self.preprocess_with_reason(raw, worker) {
            Ok(raw) => Some(raw),
            Err(_) => None,
        }
    }

    /// Filters an engine event and converts what is left.
    pub fn normalize(&mut self, raw: RawKvEvent, event_id: u64, worker: WorkerWithDpRank) -> (r:
        Option<PlacementEvent>)
        requires
            convertible(raw, old(self).block_size()),
        ensures
            normalizes(*old(self), raw, event_id, worker, r, *final(self)),
    {
        let passed = self.preprocess(raw, worker);
        let ghost filtered = *self;
        let mut warning_count = self.warning_count;
        let event = match passed {
            None => None,
            Some(raw) => convert_event(
                raw,
                event_id,
                self.kv_block_size,
                worker,
                &mut warning_count,
                self.image_token_id,
            ),
        };
        self.warning_count = warning_count;
        assert forall|asked: WorkerWithDpRank, group_idx: u32| #[trigger]
            self.knows(asked, group_idx) == filtered.knows(asked, group_idx) by {}
        event
    }
}

/// Whether routing looks at blocks of a kind.
pub open spec fn routed_kind(kind: crate::zmq_wire::types::KvCacheSpecKind) -> bool {
    kind == crate::zmq_wire::types::KvCacheSpecKind::FullAttention || kind
        == crate::zmq_wire::types::KvCacheSpecKind::MlaAttention
}

/// What a rank's store event says of a cache group decides over the rank's later events of
/// that group which do not say it themselves: they are let through where the group is main
/// attention, and dropped where it is not.
pub proof fn store_events_teach_their_group(
    before: ZmqEventNormalizer,
    raw: RawKvEvent,
    event_id: u64,
    worker: WorkerWithDpRank,
    event: Option<PlacementEvent>,
    after: ZmqEventNormalizer,
    later: RawEventMetadata,
)
    requires
        normalizes(before, raw, event_id, worker, event, after),
        raw is BlockStored,
        raw->BlockStored_group_idx is Some,
        raw->BlockStored_kv_cache_spec_kind is Some,
        later.group_idx == raw->BlockStored_group_idx,
        later.kv_cache_spec_kind is None,
    ensures
        routed_kind(raw->BlockStored_kv_cache_spec_kind->0) ==> after.verdict(later, worker) is None,
        !routed_kind(raw->BlockStored_kv_cache_spec_kind->0) ==> after.verdict(later, worker)
            == Some(ZmqEventFilterReason::NonMainAttentionKind),
{
    let group = later.group_idx->0;
    assert(after.knows(worker, group) == before.learns(raw, worker, worker, group));
}

/// Nothing is learned of a rank from another rank's events, nor of a group from another
/// group's, nor from events that store nothing.
pub proof fn nothing_else_is_learned(
    before: ZmqEventNormalizer,
    raw: RawKvEvent,
    event_id: u64,
    worker: WorkerWithDpRank,
    event: Option<PlacementEvent>,
    after: ZmqEventNormalizer,
    asked: WorkerWithDpRank,
    later: RawEventMetadata,
)
    requires
        normalizes(before, raw, event_id, worker, event, after),
        asked != worker || !(raw is BlockStored) || raw->BlockStored_kv_cache_spec_kind is None
            || raw->BlockStored_group_idx is None || later.group_idx
            != raw->BlockStored_group_idx,
    ensures
        after.verdict(later, asked) == before.verdict(later, asked),
{
    if later.group_idx is Some {
        let group = later.group_idx->0;
        assert(after.knows(asked, group) == before.learns(raw, worker, asked, group));
    }
}

/// An event that names its kind is judged by it, whatever was learned; one that names
/// neither kind nor group is let through; and of groups that nothing is known of only the
/// first is let through.
pub proof fn events_are_judged_by_kind_then_group(
    normalizer: ZmqEventNormalizer,
    metadata: RawEventMetadata,
    worker: WorkerWithDpRank,
)
    ensures
        metadata.kv_cache_spec_kind matches Some(kind) ==> (normalizer.verdict(
            metadata,
            worker,
        ) is None <==> routed_kind(kind)),
        metadata.kv_cache_spec_kind is None && metadata.group_idx is None ==> normalizer.verdict(
            metadata,
            worker,
        ) is None,
        metadata.kv_cache_spec_kind is None && metadata.group_idx is Some && normalizer.knows(
            worker,
            metadata.group_idx->0,
        ) is None ==> (normalizer.verdict(metadata, worker) is None <==> metadata.group_idx
            == Some(0u32)),
{
}

/// An event that is let through becomes one of the rank that sent it, with the number it
/// came with; only events that are filtered out or that mean nothing become none.
pub proof fn no_event_is_lost(
    before: ZmqEventNormalizer,
    raw: RawKvEvent,
    event_id: u64,
    worker: WorkerWithDpRank,
    event: Option<PlacementEvent>,
    after: ZmqEventNormalizer,
)
    requires
        normalizes(before, raw, event_id, worker, event, after),
        !(raw is Ignored),
        before.verdict(raw.spec_metadata(), worker) is None,
    ensures
        event matches Some(placed) && placed.placement.worker == worker && placed.event.event_id
            == event_id && placed.event.dp_rank == worker.dp_rank,
        raw is AllBlocksCleared ==> event->0.event.data@ is Cleared,
        raw is BlockRemoved ==> event->0.event.data@ is Removed,
{
}

} // verus!
