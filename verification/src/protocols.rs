//! The vocabulary of the router: workers, blocks, cache events and matches.

use std::collections::HashMap;
use std::ops::Range;

use rustc_hash::FxBuildHasher;
use vstd::prelude::*;

use crate::scheduling::config::F64Bits;
use crate::text::str_eq;

verus! {

/// Identifier of a worker instance.
pub type WorkerId = u64;

/// Rank of a worker within its data-parallel group.
pub type DpRank = u32;

/// Rolling hash of a block together with all blocks before it.
pub type SequenceHash = u64;

/// A worker instance at one data-parallel rank.
#[derive(Clone, Copy, Debug, PartialEq, Eq, Hash, PartialOrd, Ord, Structural)]
pub struct WorkerWithDpRank {
    pub worker_id: WorkerId,
    pub dp_rank: DpRank,
}

impl WorkerWithDpRank {
    pub fn new(worker_id: WorkerId, dp_rank: DpRank) -> (r: Self)
        ensures
            r.worker_id == worker_id,
            r.dp_rank == dp_rank,
    {
        WorkerWithDpRank { worker_id, dp_rank }
    }

    /// The pair by which hash maps find this worker.
    pub open spec fn spec_key(self) -> (u64, u32) {
        (self.worker_id, self.dp_rank)
    }

    /// The pair by which hash maps find this worker.
    #[verifier::when_used_as_spec(spec_key)]
    pub fn key(self) -> (r: (u64, u32))
        ensures
            r == self.spec_key(),
    {
        (self.worker_id, self.dp_rank)
    }
}

/// Hash of the tokens of one block.
#[derive(Clone, Copy, Debug, PartialEq, Eq, Hash, PartialOrd, Ord, Structural)]
pub struct LocalBlockHash(pub u64);

/// Hash by which the engine names a block and everything before it.
#[derive(Clone, Copy, Debug, PartialEq, Eq, Hash, PartialOrd, Ord, Structural)]
pub struct ExternalSequenceBlockHash(pub u64);

/// A multimodal object that overlaps a block.
#[derive(Debug, PartialEq, Eq)]
pub struct BlockMmObjectInfo {
    pub mm_hash: u64,
    pub offsets: Vec<(usize, usize)>,
}

/// Model of [`BlockMmObjectInfo`].
pub struct MmObjectView {
    pub mm_hash: u64,
    pub offsets: Seq<(usize, usize)>,
}

impl View for BlockMmObjectInfo {
    type V = MmObjectView;

    open spec fn view(&self) -> MmObjectView {
        MmObjectView { mm_hash: self.mm_hash, offsets: self.offsets@ }
    }
}

impl Clone for BlockMmObjectInfo {
    fn clone(&self) -> (r: Self)
        ensures
            r@ == self@,
    {
        let mut offsets: Vec<(usize, usize)> = Vec::new();
        for i in 0..self.offsets.len()
            invariant
                offsets@ =~= self.offsets@.take(i as int),
        {
            offsets.push(self.offsets[i]);
        }
        assert(offsets@ =~= self.offsets@);
        BlockMmObjectInfo { mm_hash: self.mm_hash, offsets }
    }
}

/// The multimodal objects that overlap one block.
#[derive(Debug, PartialEq, Eq)]
pub struct BlockExtraInfo {
    pub mm_objects: Vec<BlockMmObjectInfo>,
}

impl View for BlockExtraInfo {
    type V = Seq<MmObjectView>;

    open spec fn view(&self) -> Seq<MmObjectView> {
        self.mm_objects@.map_values(|o: BlockMmObjectInfo| o@)
    }
}

impl BlockExtraInfo {
    /// The hashes of the objects, in order.
    pub fn mm_hashes(&self) -> (hashes: Vec<u64>)
        ensures
            hashes@ == mm_hashes_of(self@),
    {
        let mut hashes: Vec<u64> = Vec::new();
        for i in 0..self.mm_objects.len()
            invariant
                hashes@ =~= mm_hashes_of(self@).take(i as int),
        {
            hashes.push(self.mm_objects[i].mm_hash);
        }
        assert(hashes@ =~= mm_hashes_of(self@));
        hashes
    }
}

/// The hashes of multimodal objects, in order.
pub open spec fn mm_hashes_of(objects: Seq<MmObjectView>) -> Seq<u64> {
    objects.map_values(|o: MmObjectView| o.mm_hash)
}

impl Clone for BlockExtraInfo {
    fn clone(&self) -> (r: Self)
        ensures
            r@ == self@,
    {
        let mut mm_objects: Vec<BlockMmObjectInfo> = Vec::new();
        for i in 0..self.mm_objects.len()
            invariant
                mm_objects.len() == i,
                forall|j: int| 0 <= j < i ==> mm_objects[j]@ == #[trigger] self.mm_objects[j]@,
        {
            mm_objects.push(self.mm_objects[i].clone());
        }
        let r = BlockExtraInfo { mm_objects };
        assert(r@ =~= self@);
        r
    }
}

/// Model of an optional [`BlockExtraInfo`].
pub open spec fn extra_info_view(info: Option<BlockExtraInfo>) -> Option<Seq<MmObjectView>> {
    match info {
        Some(info) => Some(info@),
        None => None,
    }
}

/// Copies an optional [`BlockExtraInfo`].
pub fn clone_extra_info(info: &Option<BlockExtraInfo>) -> (r: Option<BlockExtraInfo>)
    ensures
        extra_info_view(r) == extra_info_view(*info),
{
    match info {
        Some(info) => Some(info.clone()),
        None => None,
    }
}

/// A block that a worker has stored.
#[derive(Debug, PartialEq, Eq)]
pub struct KvCacheStoredBlockData {
    pub block_hash: ExternalSequenceBlockHash,
    pub tokens_hash: LocalBlockHash,
    pub mm_extra_info: Option<BlockExtraInfo>,
}

/// Model of [`KvCacheStoredBlockData`].
pub struct StoredBlockView {
    pub block_hash: u64,
    pub tokens_hash: u64,
    pub mm_extra_info: Option<Seq<MmObjectView>>,
}

impl View for KvCacheStoredBlockData {
    type V = StoredBlockView;

    open spec fn view(&self) -> StoredBlockView {
        StoredBlockView {
            block_hash: self.block_hash.0,
            tokens_hash: self.tokens_hash.0,
            mm_extra_info: extra_info_view(self.mm_extra_info),
        }
    }
}

impl Clone for KvCacheStoredBlockData {
    fn clone(&self) -> (r: Self)
        ensures
            r@ == self@,
    {
        KvCacheStoredBlockData {
            block_hash: self.block_hash,
            tokens_hash: self.tokens_hash,
            mm_extra_info: clone_extra_info(&self.mm_extra_info),
        }
    }
}

/// Model of a list of stored blocks.
pub open spec fn stored_blocks_view(blocks: Seq<KvCacheStoredBlockData>) -> Seq<StoredBlockView> {
    blocks.map_values(|b: KvCacheStoredBlockData| b@)
}

/// Blocks that a worker stored below a parent block.
#[derive(Debug, PartialEq, Eq)]
pub struct KvCacheStoreData {
    pub parent_hash: Option<ExternalSequenceBlockHash>,
    pub start_position: Option<u32>,
    pub blocks: Vec<KvCacheStoredBlockData>,
}

/// Blocks that a worker removed.
#[derive(Debug, PartialEq, Eq)]
pub struct KvCacheRemoveData {
    pub block_hashes: Vec<ExternalSequenceBlockHash>,
}

/// What happened to a worker's cache.
#[derive(Debug, PartialEq, Eq)]
pub enum KvCacheEventData {
    Stored(KvCacheStoreData),
    Removed(KvCacheRemoveData),
    Cleared,
}

/// Model of [`KvCacheEventData`].
pub enum EventDataView {
    Stored {
        parent_hash: Option<ExternalSequenceBlockHash>,
        start_position: Option<u32>,
        blocks: Seq<StoredBlockView>,
    },
    Removed { block_hashes: Seq<ExternalSequenceBlockHash> },
    Cleared,
}

impl View for KvCacheEventData {
    type V = EventDataView;

    open spec fn view(&self) -> EventDataView {
        match *self {
            KvCacheEventData::Stored(store) => EventDataView::Stored {
                parent_hash: store.parent_hash,
                start_position: store.start_position,
                blocks: stored_blocks_view(store.blocks@),
            },
            KvCacheEventData::Removed(remove) => EventDataView::Removed {
                block_hashes: remove.block_hashes@,
            },
            KvCacheEventData::Cleared => EventDataView::Cleared,
        }
    }
}

/// A numbered cache event of one data-parallel rank.
#[derive(Debug, PartialEq, Eq)]
pub struct KvCacheEvent {
    pub event_id: u64,
    pub data: KvCacheEventData,
    pub dp_rank: DpRank,
}

/// The kind of memory that holds a block.
#[derive(Clone, Copy, Debug, PartialEq, Eq, Hash, PartialOrd, Ord, Structural)]
pub enum StorageTier {
    Device,
    HostPinned,
    Disk,
    External,
}

impl StorageTier {
    /// The tier that an engine's medium name stands for: the device unless the
    /// name is one of another tier.
    pub fn from_kv_medium_or_default(medium: Option<&str>) -> (tier: Self)
        ensures
            tier == tier_of_medium(opt_str_view(medium)),
            tier == StorageTier::HostPinned <==> (medium matches Some(m) && (m@ == "CPU"@ || m@
                == "CPU_PINNED"@ || m@ == "CPU_TIER1"@)),
            tier == StorageTier::Disk <==> (medium matches Some(m) && (m@ == "DISK"@ || m@
                == "CPU_TIER2"@)),
            tier == StorageTier::External <==> (medium matches Some(m) && m@ == "EXTERNAL"@),
    {
        proof {
            reveal_strlit("CPU");
            reveal_strlit("CPU_PINNED");
            reveal_strlit("CPU_TIER1");
            reveal_strlit("CPU_TIER2");
            reveal_strlit("DISK");
            reveal_strlit("EXTERNAL");
            assert("CPU"@.len() == 3 && "CPU_PINNED"@.len() == 10 && "CPU_TIER1"@.len() == 9);
            assert("CPU_TIER2"@.len() == 9 && "DISK"@.len() == 4 && "EXTERNAL"@.len() == 8);
            assert("CPU_TIER1"@[8] == '1' && "CPU_TIER2"@[8] == '2');
        }
        match medium {
            None => StorageTier::Device,
            Some(medium) => {
                if str_eq(medium, "CPU") || str_eq(medium, "CPU_PINNED") || str_eq(
                    medium,
                    "CPU_TIER1",
                ) {
                    StorageTier::HostPinned
                } else if str_eq(medium, "DISK") || str_eq(medium, "CPU_TIER2") {
                    StorageTier::Disk
                } else if str_eq(medium, "EXTERNAL") {
                    StorageTier::External
                } else {
                    StorageTier::Device
                }
            },
        }
    }
}

/// Model of an optional string slice.
pub open spec fn opt_str_view(s: Option<&str>) -> Option<Seq<char>> {
    match s {
        Some(s) => Some(s@),
        None => None,
    }
}

/// Model of an optional owned string.
pub open spec fn opt_string_view(s: Option<String>) -> Option<Seq<char>> {
    match s {
        Some(s) => Some(s@),
        None => None,
    }
}

/// Borrows an optional string.
pub fn opt_as_str(s: &Option<String>) -> (r: Option<&str>)
    ensures
        opt_str_view(r) == opt_string_view(*s),
{
    match s {
        Some(s) => Some(s.as_str()),
        None => None,
    }
}

/// The storage tier that a medium name stands for.
pub open spec fn tier_of_medium(medium: Option<Seq<char>>) -> StorageTier {
    match medium {
        Some(m) => if m == "CPU"@ || m == "CPU_PINNED"@ || m == "CPU_TIER1"@ {
            StorageTier::HostPinned
        } else if m == "DISK"@ || m == "CPU_TIER2"@ {
            StorageTier::Disk
        } else if m == "EXTERNAL"@ {
            StorageTier::External
        } else {
            StorageTier::Device
        },
        None => StorageTier::Device,
    }
}

/// A cache event together with the worker and the tier it concerns.
#[derive(Debug, PartialEq, Eq)]
pub struct RouterEvent {
    pub worker_id: WorkerId,
    pub storage_tier: StorageTier,
    pub event: KvCacheEvent,
}

/// Model of [`RouterEvent`].
pub struct RouterEventView {
    pub worker_id: WorkerId,
    pub storage_tier: StorageTier,
    pub event_id: u64,
    pub dp_rank: DpRank,
    pub data: EventDataView,
}

impl View for RouterEvent {
    type V = RouterEventView;

    open spec fn view(&self) -> RouterEventView {
        RouterEventView {
            worker_id: self.worker_id,
            storage_tier: self.storage_tier,
            event_id: self.event.event_id,
            dp_rank: self.event.dp_rank,
            data: self.event.data@,
        }
    }
}

/// Model of a list of router events.
pub open spec fn router_events_view(events: Seq<RouterEvent>) -> Seq<RouterEventView> {
    events.map_values(|e: RouterEvent| e@)
}

impl RouterEvent {
    /// An event on the device tier.
    pub fn new(worker_id: WorkerId, event: KvCacheEvent) -> (r: Self)
        ensures
            r.worker_id == worker_id,
            r.storage_tier == StorageTier::Device,
            r.event == event,
    {
        RouterEvent { worker_id, storage_tier: StorageTier::Device, event }
    }
}

/// Where a block is placed: a tier of a local worker.
#[derive(Clone, Copy, Debug, PartialEq, Eq, Hash, Structural)]
pub struct Placement {
    pub worker: WorkerWithDpRank,
    pub tier: StorageTier,
}

impl Placement {
    pub fn local_worker(worker_id: WorkerId, dp_rank: DpRank, tier: StorageTier) -> (r: Self)
        ensures
            r.worker.worker_id == worker_id,
            r.worker.dp_rank == dp_rank,
            r.tier == tier,
    {
        Placement { worker: WorkerWithDpRank { worker_id, dp_rank }, tier }
    }
}

/// A cache event with its placement.
#[derive(Debug, PartialEq, Eq)]
pub struct PlacementEvent {
    pub placement: Placement,
    pub event: KvCacheEvent,
}

impl PlacementEvent {
    pub fn new(placement: Placement, event: KvCacheEvent) -> (r: Self)
        ensures
            r.placement == placement,
            r.event == event,
    {
        PlacementEvent { placement, event }
    }

    /// The same event addressed to the router's index.
    pub fn into_router_event(self) -> (r: RouterEvent)
        ensures
            r.worker_id == self.placement.worker.worker_id,
            r.storage_tier == self.placement.tier,
            r.event == self.event,
    {
        RouterEvent {
            worker_id: self.placement.worker.worker_id,
            storage_tier: self.placement.tier,
            event: self.event,
        }
    }
}

/// How many leading blocks of a query each worker holds.
#[derive(Debug)]
pub struct OverlapScores {
    pub scores: HashMap<(u64, u32), u32, FxBuildHasher>,
    pub frequencies: Vec<usize>,
}

impl OverlapScores {
    pub fn new() -> (r: Self)
        ensures
            r.scores@ == Map::<(u64, u32), u32>::empty(),
            r.frequencies@ == Seq::<usize>::empty(),
    {
        OverlapScores { scores: HashMap::default(), frequencies: Vec::new() }
    }
}

/// Matches on the device tier, with the last block each worker matched.
#[derive(Debug)]
pub struct MatchDetails {
    pub overlap_scores: OverlapScores,
    pub last_matched_hashes: HashMap<(u64, u32), ExternalSequenceBlockHash, FxBuildHasher>,
}

impl MatchDetails {
    pub fn new() -> (r: Self)
        ensures
            r.overlap_scores.scores@ == Map::<(u64, u32), u32>::empty(),
            r.overlap_scores.frequencies@ == Seq::<usize>::empty(),
            r.last_matched_hashes@ == Map::<(u64, u32), ExternalSequenceBlockHash>::empty(),
    {
        MatchDetails { overlap_scores: OverlapScores::new(), last_matched_hashes: HashMap::default() }
    }
}

/// What a request asks of the worker that it goes to.
#[derive(Debug)]
pub struct RoutingConstraints {
    /// Taints that the worker must have.
    pub required_taints: Vec<String>,
    /// Taints that the worker had better have, each with its weight.
    pub preferred_taints: Vec<(String, F64Bits)>,
}

/// Prefill work that a request brings to its worker.
#[derive(Clone, Copy, Debug, PartialEq, Eq, Structural)]
pub struct PrefillLoadHint {
    pub initial_effective_prefill_tokens: usize,
    /// Expected duration in microseconds, where an estimator gave one.
    pub expected_prefill_duration: Option<u64>,
}

/// Positions of a query that a shared cache holds, as sorted disjoint ranges.
#[derive(Debug, PartialEq, Eq)]
pub struct SharedCacheHits {
    pub ranges: Vec<Range<u32>>,
    pub total_hits: u32,
}

/// Whether a position is in one of some ranges.
pub open spec fn in_ranges(ranges: Seq<Range<u32>>, position: int) -> bool {
    exists|i: int|
        0 <= i < ranges.len() && (#[trigger] ranges[i]).start <= position < ranges[i].end
}

/// Whether ranges are the runs of hits: none is empty, none touches the next, and
/// together they hold the hits and nothing else.
pub open spec fn are_runs_of(ranges: Seq<Range<u32>>, hits: Seq<bool>) -> bool {
    &&& forall|i: int|
        0 <= i < ranges.len() ==> (#[trigger] ranges[i]).start < ranges[i].end <= hits.len()
    &&& forall|i: int, j: int|
        0 <= i < j < ranges.len() ==> (#[trigger] ranges[i]).end < (#[trigger] ranges[j]).start
    &&& forall|p: int|
        0 <= p < hits.len() ==> (#[trigger] hits[p] <==> in_ranges(ranges, p))
}

/// Number of hits.
pub open spec fn hit_count(hits: Seq<bool>) -> nat
    decreases hits.len(),
{
    if hits.len() == 0 {
        0
    } else {
        hit_count(hits.drop_last()) + if hits.last() {
            1nat
        } else {
            0
        }
    }
}

/// The lengths of some ranges together.
pub open spec fn total_length(ranges: Seq<Range<u32>>) -> int
    decreases ranges.len(),
{
    if ranges.len() == 0 {
        0
    } else {
        total_length(ranges.drop_last()) + (ranges.last().end - ranges.last().start)
    }
}

/// The runs of hits are together as long as there are hits.
pub proof fn runs_are_as_long_as_there_are_hits(ranges: Seq<Range<u32>>, hits: Seq<bool>)
    requires
        are_runs_of(ranges, hits),
    ensures
        hit_count(hits) == total_length(ranges),
    decreases hits.len(),
{
    if hits.len() == 0 {
        if ranges.len() > 0 {
            assert(ranges[0].start < ranges[0].end <= hits.len());
        }
    } else {
        let end = hits.len() - 1;
        let fewer = hits.drop_last();
        if !hits[end] {
            assert forall|i: int| 0 <= i < ranges.len() implies (#[trigger] ranges[i]).end
                <= fewer.len() by {
                if ranges[i].end == hits.len() {
                    assert(in_ranges(ranges, end));
                }
            }
            assert forall|p: int| 0 <= p < fewer.len() implies (#[trigger] fewer[p] <==> in_ranges(
                ranges,
                p,
            )) by {
                assert(fewer[p] == hits[p]);
            }
            runs_are_as_long_as_there_are_hits(ranges, fewer);
        } else {
            assert(in_ranges(ranges, end));
            let k = choose|k: int|
                0 <= k < ranges.len() && (#[trigger] ranges[k]).start <= end < ranges[k].end;
            let n = ranges.len() - 1;
            if k < n {
                assert(ranges[k].end < ranges[n].start);
            }
            let last = ranges[n];
            let others = ranges.drop_last();
            let shorter = if last.start == end {
                others
            } else {
                others.push(Range { start: last.start, end: end as u32 })
            };
            assert forall|i: int, j: int| 0 <= i < j < shorter.len() implies (
            #[trigger] shorter[i]).end < (#[trigger] shorter[j]).start by {
                assert(ranges[i].end < ranges[j].start);
            }
            assert forall|i: int| 0 <= i < shorter.len() implies (#[trigger] shorter[i]).start
                < shorter[i].end <= fewer.len() by {
                if i < n {
                    assert(ranges[i].end < ranges[n].start);
                }
            }
            assert forall|p: int| 0 <= p < fewer.len() implies (#[trigger] fewer[p] <==> in_ranges(
                shorter,
                p,
            )) by {
                assert(fewer[p] == hits[p]);
                if in_ranges(ranges, p) {
                    let i = choose|i: int|
                        0 <= i < ranges.len() && (#[trigger] ranges[i]).start <= p < ranges[i].end;
                    assert(shorter[i].start <= p < shorter[i].end);
                }
                if in_ranges(shorter, p) {
                    let i = choose|i: int|
                        0 <= i < shorter.len() && (#[trigger] shorter[i]).start <= p
                            < shorter[i].end;
                    assert(ranges[i].start <= p < ranges[i].end);
                }
            }
            runs_are_as_long_as_there_are_hits(shorter, fewer);
            if last.start != end {
                assert(shorter.drop_last() =~= others);
            }
        }
    }
}

proof fn lemma_hit_count_bounded(hits: Seq<bool>)
    ensures
        hit_count(hits) <= hits.len(),
    decreases hits.len(),
{
    if hits.len() > 0 {
        lemma_hit_count_bounded(hits.drop_last());
    }
}

impl SharedCacheHits {
    /// The hits as ranges.
    #[verifier::rlimit(60)]
    pub fn from_hits(hits: &Vec<bool>) -> (r: Self)
        requires
            hits@.len() <= u32::MAX,
        ensures
            are_runs_of(r.ranges@, hits@),
            r.total_hits == hit_count(hits@),
            r.total_hits == total_length(r.ranges@),
    {
        let mut ranges: Vec<Range<u32>> = Vec::new();
        let mut total_hits: u32 = 0;
        let mut i: usize = 0;
        assert(hits@.take(0) =~= Seq::<bool>::empty());
        while i < hits.len()
            invariant
                i <= hits@.len() <= u32::MAX,
                are_runs_of(ranges@, hits@.take(i as int)),
                total_hits == hit_count(hits@.take(i as int)),
                i > 0 && ranges@.len() > 0 && ranges@.last().end == i ==> hits@[i - 1],
                i > 0 && hits@[i - 1] ==> ranges@.len() > 0 && ranges@.last().end == i,
            decreases hits@.len() - i,
        {
            let ghost before = ranges@;
            let ghost seen = hits@.take(i as int);
            let ghost more = hits@.take(i + 1);
            proof {
                assert(more.drop_last() =~= seen);
                lemma_hit_count_bounded(seen);
            }
            if hits[i] {
                total_hits = total_hits + 1;
                let at = i as u32;
                let extends = match ranges.last() {
                    Some(last) => last.end == at,
                    None => false,
                };
                if extends {
                    let last = ranges.len() - 1;
                    let start = ranges[last].start;
                    ranges.set(last, start..at + 1);
                    proof {
                        let after = ranges@;
                        assert forall|p: int| 0 <= p < more.len() implies (#[trigger] more[p]
                            <==> in_ranges(after, p)) by {
                            if p < i {
                                assert(seen[p] == more[p]);
                                if in_ranges(before, p) {
                                    let k = choose|k: int|
                                        0 <= k < before.len() && (#[trigger] before[k]).start <= p
                                            < before[k].end;
                                    assert(after[k].start <= p < after[k].end);
                                }
                                if in_ranges(after, p) {
                                    let k = choose|k: int|
                                        0 <= k < after.len() && (#[trigger] after[k]).start <= p
                                            < after[k].end;
                                    assert(before[k].start <= p < before[k].end);
                                }
                            } else {
                                assert(after[last as int].start <= p < after[last as int].end);
                            }
                        }
                        assert forall|a: int, b: int| 0 <= a < b < after.len() implies (
                        #[trigger] after[a]).end < (#[trigger] after[b]).start by {
                            assert(before[a].end < before[b].start);
                        }
                    }
                } else {
                    ranges.push(at..at + 1);
                    proof {
                        let after = ranges@;
                        assert forall|p: int| 0 <= p < more.len() implies (#[trigger] more[p]
                            <==> in_ranges(after, p)) by {
                            if p < i {
                                assert(seen[p] == more[p]);
                                if in_ranges(before, p) {
                                    let k = choose|k: int|
                                        0 <= k < before.len() && (#[trigger] before[k]).start <= p
                                            < before[k].end;
                                    assert(after[k].start <= p < after[k].end);
                                }
                                if in_ranges(after, p) {
                                    let k = choose|k: int|
                                        0 <= k < after.len() && (#[trigger] after[k]).start <= p
                                            < after[k].end;
                                    assert(k < before.len());
                                    assert(before[k].start <= p < before[k].end);
                                }
                            } else {
                                assert(after[before.len() as int].start <= p
                                    < after[before.len() as int].end);
                            }
                        }
                        assert forall|a: int, b: int| 0 <= a < b < after.len() implies (
                        #[trigger] after[a]).end < (#[trigger] after[b]).start by {
                            if b < before.len() {
                                assert(before[a].end < before[b].start);
                            } else if a < before.len() - 1 {
                                assert(before[a].end < before[before.len() - 1].start);
                            }
                        }
                    }
                }
            } else {
                proof {
                    assert forall|p: int| 0 <= p < more.len() implies (#[trigger] more[p]
                        <==> in_ranges(before, p)) by {
                        if p < i {
                            assert(seen[p] == more[p]);
                        } else if in_ranges(before, p) {
                            let k = choose|k: int|
                                0 <= k < before.len() && (#[trigger] before[k]).start <= p
                                    < before[k].end;
                        }
                    }
                }
            }
            i += 1;
        }
        proof {
            assert(hits@.take(hits@.len() as int) =~= hits@);
            runs_are_as_long_as_there_are_hits(ranges@, hits@);
        }
        SharedCacheHits { ranges, total_hits }
    }
}

/// The runs of hits are the only ranges of their kind.
pub proof fn runs_are_unique(a: Seq<Range<u32>>, b: Seq<Range<u32>>, hits: Seq<bool>, i: int)
    requires
        are_runs_of(a, hits),
        are_runs_of(b, hits),
        0 <= i < a.len(),
    ensures
        i < b.len(),
        a[i].start == b[i].start,
        a[i].end == b[i].end,
    decreases i,
{
    if i > 0 {
        runs_are_unique(a, b, hits, i - 1);
        assert(a[i - 1].end < a[i].start);
    }
    let start = a[i].start as int;
    assert(in_ranges(a, start));
    assert(hits[start]);
    assert(in_ranges(b, start));
    let k = choose|k: int| 0 <= k < b.len() && (#[trigger] b[k]).start <= start < b[k].end;
    if k < i {
        if k < i - 1 {
            assert(b[k].end < b[i - 1].start);
        }
        assert(b[i - 1].end == a[i - 1].end);
    }
    // No run of `b` lies between the earlier runs and this one.
    let first = b[i].start as int;
    if k > i {
        assert(b[i].end < b[k].start);
    }
    if first < start {
        assert(in_ranges(b, first));
        assert(hits[first]);
        assert(in_ranges(a, first));
        let m = choose|m: int| 0 <= m < a.len() && (#[trigger] a[m]).start <= first < a[m].end;
        if m > i {
            assert(a[i].end < a[m].start);
        } else if m < i {
            if m < i - 1 {
                assert(a[m].end < a[i - 1].start);
            }
            assert(b[i - 1].end < b[i].start);
        }
    }
    assert(b[i].start <= start);
    if k > i {
        assert(b[i].end < b[k].start);
        assert(b[i].start < b[i].end);
        assert(first >= start);
    }
    lemma_same_end(a, b, hits, i);
    lemma_same_end(b, a, hits, i);
}

proof fn lemma_same_end(a: Seq<Range<u32>>, b: Seq<Range<u32>>, hits: Seq<bool>, i: int)
    requires
        are_runs_of(a, hits),
        are_runs_of(b, hits),
        0 <= i < a.len(),
        i < b.len(),
        a[i].start == b[i].start,
    ensures
        a[i].end <= b[i].end,
{
    if a[i].end > b[i].end {
        let p = b[i].end as int;
        assert(in_ranges(a, p));
        assert(hits[p]);
        assert(in_ranges(b, p));
        let k = choose|k: int| 0 <= k < b.len() && (#[trigger] b[k]).start <= p < b[k].end;
        if k < i {
            assert(b[k].end < b[i].start);
        } else if k > i {
            assert(b[i].end < b[k].start);
        }
    }
}

} // verus!
