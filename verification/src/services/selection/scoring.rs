//! How much of a prompt each worker has.

use vstd::prelude::*;

use crate::collections::{fx_insert, fx_worker_keys, FxMap};
use crate::indexer::lower_tier::{LowerTierMatchDetails, TieredMatchDetails};
use crate::protocols::{DpRank, StorageTier, WorkerId, WorkerWithDpRank};
use crate::scheduling::config::{F64Bits, KvRouterConfig, RouterConfigOverride};
use crate::scheduling::overlap::{hits_of, tier_hits, tier_overlap_blocks_from_tiered_matches};
use crate::services::indexer::{
    blocks_of, device_blocks, disk_blocks, host_blocks, note_workers,
};
use crate::sorting::{
    distinct_ranks_sort_strictly, lex_lt, sorting_keeps_items, stable_sort, SortKey,
};

verus! {

/// What a rank has of a prompt, in blocks. What it has up to a tier counts what it
/// has in the tiers before.
#[derive(Clone, Copy, Debug, PartialEq, Eq, Structural)]
pub struct WorkerOverlapScore {
    pub worker_id: WorkerId,
    pub dp_rank: DpRank,
    pub device_blocks: usize,
    pub host_pinned_blocks: usize,
    pub disk_blocks: usize,
    pub host_pinned_extension_blocks: usize,
    pub disk_extension_blocks: usize,
    pub shared_beyond_device_blocks: Option<u32>,
}

/// What a shared cache has of a prompt.
#[derive(Debug, PartialEq, Eq)]
pub struct SharedCacheOverlapScore {
    pub enabled: bool,
    pub total_hit_blocks: u32,
    pub ranges: Vec<(u32, u32)>,
    pub error: Option<String>,
}

/// What each rank has of a prompt, and what blocks count.
#[derive(Debug, PartialEq, Eq)]
pub struct OverlapScoresResponse {
    pub block_size: u32,
    pub num_blocks: usize,
    pub workers: Vec<WorkerOverlapScore>,
    pub shared_cache: SharedCacheOverlapScore,
    /// What a block counts on the device, in pinned memory and on disk.
    pub device_credit: F64Bits,
    pub host_weight: F64Bits,
    pub disk_weight: F64Bits,
}

impl WorkerOverlapScore {
    /// The rank.
    pub open spec fn worker(&self) -> (u64, u32) {
        (self.worker_id, self.dp_rank)
    }
}

impl SortKey for WorkerOverlapScore {
    open spec fn rank(&self) -> Seq<int> {
        seq![self.worker_id as int, self.dp_rank as int]
    }

    fn is_before(&self, other: &Self) -> (r: bool) {
        proof {
            reveal_with_fuel(lex_lt, 4);
            let x = self.rank();
            let y = other.rank();
            assert(x.skip(1) =~= seq![self.dp_rank as int]);
            assert(y.skip(1) =~= seq![other.dp_rank as int]);
            assert(x.skip(1).skip(1) =~= Seq::<int>::empty());
            assert(y.skip(1).skip(1) =~= Seq::<int>::empty());
        }
        self.worker_id < other.worker_id || (self.worker_id == other.worker_id && self.dp_rank
            < other.dp_rank)
    }
}

/// Whether a row says what a rank has.
pub open spec fn scores_rank(tiered: TieredMatchDetails, row: WorkerOverlapScore) -> bool {
    &&& row.device_blocks == device_blocks(tiered, row.worker())
    &&& row.host_pinned_blocks == host_blocks(tiered, row.worker())
    &&& row.disk_blocks == disk_blocks(tiered, row.worker())
    &&& row.host_pinned_extension_blocks == hits_of(
        tier_hits(tiered.lower_tier@, StorageTier::HostPinned),
        row.worker(),
    )
    &&& row.disk_extension_blocks == hits_of(
        tier_hits(tiered.lower_tier@, StorageTier::Disk),
        row.worker(),
    ) + hits_of(tier_hits(tiered.lower_tier@, StorageTier::External), row.worker())
    &&& row.shared_beyond_device_blocks is None
}

/// Whether a rank is among some rows.
pub open spec fn has_row(rows: Seq<WorkerOverlapScore>, worker: (u64, u32)) -> bool {
    exists|i: int| 0 <= i < rows.len() && (#[trigger] rows[i]).worker() == worker
}

/// Whether a rank is among some.
pub open spec fn has_key(workers: Seq<WorkerWithDpRank>, worker: (u64, u32)) -> bool {
    exists|i: int| 0 <= i < workers.len() && (#[trigger] workers[i]).spec_key() == worker
}

/// Whether a rank is named by one of the first `n` entries for tiers below the device.
pub open spec fn named_below(
    matches: Seq<(StorageTier, LowerTierMatchDetails)>,
    n: int,
    worker: (u64, u32),
) -> bool {
    exists|k: int| 0 <= k < n && (#[trigger] matches[k]).1.hits@.dom().contains(worker)
}

/// Whether a rank is named by what was matched, on the device or in any entry for a
/// tier.
pub open spec fn named_anywhere(tiered: TieredMatchDetails, worker: (u64, u32)) -> bool {
    ||| tiered.device.overlap_scores.scores@.dom().contains(worker)
    ||| named_below(tiered.lower_tier@, tiered.lower_tier@.len() as int, worker)
}

/// What each rank has of a prompt, by worker and rank: those that take requests, and
/// those that what was matched names.
pub fn build_overlap_scores_response(
    config: &KvRouterConfig,
    config_override: Option<&RouterConfigOverride>,
    tiered: &TieredMatchDetails,
    block_size: u32,
    schedulable_workers: &Vec<WorkerWithDpRank>,
) -> (response: OverlapScoresResponse)
    requires
        forall|w: (u64, u32)| (#[trigger] disk_blocks(*tiered, w)) <= usize::MAX,
    ensures
        response.block_size == block_size,
        response.num_blocks == tiered.device.overlap_scores.frequencies@.len(),
        response.device_credit == match config_override {
            Some(o) => match o.overlap_score_credit {
                Some(credit) => credit,
                None => config.overlap_score_credit,
            },
            None => config.overlap_score_credit,
        },
        response.host_weight == config.host_cache_hit_weight,
        response.disk_weight == config.disk_cache_hit_weight,
        !response.shared_cache.enabled,
        response.shared_cache.total_hit_blocks == 0,
        response.shared_cache.ranges@.len() == 0,
        response.shared_cache.error is None,
        forall|i: int|
            0 <= i < response.workers@.len() ==> scores_rank(
                *tiered,
                #[trigger] response.workers@[i],
            ),
        forall|w: (u64, u32)|
            has_key(schedulable_workers@, w) || named_anywhere(*tiered, w) <==> #[trigger] has_row(
                response.workers@,
                w,
            ),
        forall|i: int, j: int|
            0 <= i < j < response.workers@.len() ==> lex_lt(
                (#[trigger] response.workers@[i]).rank(),
                (#[trigger] response.workers@[j]).rank(),
            ),
{
    proof {
        assert forall|w: (u64, u32)| #[trigger]
            hits_of(tier_hits(tiered.lower_tier@, StorageTier::Disk), w) + hits_of(
                tier_hits(tiered.lower_tier@, StorageTier::External),
                w,
            ) <= usize::MAX by {
            assert(disk_blocks(*tiered, w) <= usize::MAX);
        }
    }
    let blocks = tier_overlap_blocks_from_tiered_matches(tiered);
    let mut seen: FxMap<(u64, u32), ()> = FxMap::default();
    for i in 0..schedulable_workers.len()
        invariant
            forall|w: (u64, u32)| #[trigger]
                seen@.dom().contains(w) <==> has_key(schedulable_workers@.take(i as int), w),
    {
        let ghost before = seen@;
        fx_insert(&mut seen, schedulable_workers[i].key(), ());
        proof {
            let shorter = schedulable_workers@.take(i as int);
            let longer = schedulable_workers@.take(i + 1);
            assert forall|w: (u64, u32)| #[trigger] seen@.dom().contains(w) <==> has_key(
                longer,
                w,
            ) by {
                if has_key(shorter, w) {
                    let k = choose|k: int|
                        0 <= k < shorter.len() && (#[trigger] shorter[k]).spec_key() == w;
                    assert(longer[k].spec_key() == w);
                }
                if has_key(longer, w) {
                    let k = choose|k: int|
                        0 <= k < longer.len() && (#[trigger] longer[k]).spec_key() == w;
                    if k < i {
                        assert(shorter[k].spec_key() == w);
                    }
                }
                assert(longer[i as int].spec_key() == schedulable_workers@[i as int].spec_key());
                assert(before.dom().contains(w) <==> has_key(shorter, w));
            }
        }
    }
    assert(schedulable_workers@.take(schedulable_workers@.len() as int) =~= schedulable_workers@);
    note_workers(&mut seen, &blocks.device);
    let ghost above = seen@.dom();
    for k in 0..tiered.lower_tier.len()
        invariant
            forall|w: (u64, u32)| #[trigger]
                seen@.dom().contains(w) <==> above.contains(w) || named_below(
                    tiered.lower_tier@,
                    k as int,
                    w,
                ),
    {
        let ghost before = seen@.dom();
        note_workers(&mut seen, &tiered.lower_tier[k].1.hits);
        proof {
            let all = tiered.lower_tier@;
            assert forall|w: (u64, u32)| #[trigger] seen@.dom().contains(w) <==> above.contains(w)
                || named_below(all, k + 1, w) by {
                assert(before.contains(w) <==> above.contains(w) || named_below(all, k as int, w));
                if named_below(all, k as int, w) {
                    let j = choose|j: int|
                        0 <= j < k && (#[trigger] all[j]).1.hits@.dom().contains(w);
                    assert(all[j].1.hits@.dom().contains(w));
                }
                if named_below(all, k + 1, w) {
                    let j = choose|j: int|
                        0 <= j < k + 1 && (#[trigger] all[j]).1.hits@.dom().contains(w);
                    assert(j < k ==> named_below(all, k as int, w));
                }
                assert(all[k as int].1.hits@.dom().contains(w) ==> named_below(all, k + 1, w));
            }
        }
    }
    let workers = fx_worker_keys(&seen);
    let mut rows: Vec<WorkerOverlapScore> = Vec::new();
    for i in 0..workers.len()
        invariant
            workers@.no_duplicates(),
            workers@.to_set() == seen@.dom(),
            forall|w: (u64, u32)| (#[trigger] disk_blocks(*tiered, w)) <= usize::MAX,
            blocks.device@.dom() == tiered.device.overlap_scores.scores@.dom(),
            forall|w: (u64, u32)| #[trigger]
                blocks.device@.dom().contains(w) ==> blocks.device@[w]
                    == tiered.device.overlap_scores.scores@[w],
            blocks.host_pinned@ == tier_hits(tiered.lower_tier@, StorageTier::HostPinned),
            blocks.disk@.dom() == tier_hits(tiered.lower_tier@, StorageTier::Disk).dom().union(
                tier_hits(tiered.lower_tier@, StorageTier::External).dom(),
            ),
            forall|w: (u64, u32)| #[trigger]
                blocks.disk@.dom().contains(w) ==> blocks.disk@[w] == hits_of(
                    tier_hits(tiered.lower_tier@, StorageTier::Disk),
                    w,
                ) + hits_of(tier_hits(tiered.lower_tier@, StorageTier::External), w),
            rows@.len() == i,
            forall|j: int|
                0 <= j < i ==> scores_rank(*tiered, #[trigger] rows@[j]) && rows@[j].worker()
                    == workers@[j],
    {
        let worker = workers[i];
        let device = blocks_of(&blocks.device, worker);
        let host = blocks_of(&blocks.host_pinned, worker);
        let disk = blocks_of(&blocks.disk, worker);
        proof {
            assert(disk_blocks(*tiered, worker) <= usize::MAX);
            if !blocks.disk@.dom().contains(worker) {
                assert(!tier_hits(tiered.lower_tier@, StorageTier::Disk).dom().contains(worker));
            }
        }
        rows.push(
            WorkerOverlapScore {
                worker_id: worker.0,
                dp_rank: worker.1,
                device_blocks: device,
                host_pinned_blocks: device + host,
                disk_blocks: device + host + disk,
                host_pinned_extension_blocks: host,
                disk_extension_blocks: disk,
                shared_beyond_device_blocks: None,
            },
        );
    }
    let ghost all = rows@;
    let rows = stable_sort(rows);
    proof {
        assert forall|a: int, b: int| 0 <= a < b < all.len() implies (#[trigger] all[a]).rank() != (
        #[trigger] all[b]).rank() by {
            assert(all[a].worker() == workers@[a]);
            assert(all[b].worker() == workers@[b]);
            if all[a].rank() == all[b].rank() {
                assert(all[a].rank()[0] == all[b].rank()[0]);
                assert(all[a].rank()[1] == all[b].rank()[1]);
            }
        }
        distinct_ranks_sort_strictly(all, rows@);
        sorting_keeps_items(all, rows@);
        assert forall|i: int| 0 <= i < rows@.len() implies scores_rank(
            *tiered,
            #[trigger] rows@[i],
        ) by {
            assert(rows@.contains(rows@[i]));
            let j = choose|j: int| 0 <= j < all.len() && all[j] == rows@[i];
            assert(scores_rank(*tiered, all[j]));
        }
        assert forall|w: (u64, u32)|
            has_key(schedulable_workers@, w) || named_anywhere(*tiered, w) <==> #[trigger] has_row(
                rows@,
                w,
            ) by {
            assert(seen@.dom().contains(w) <==> has_key(schedulable_workers@, w)
                || named_anywhere(*tiered, w));
            assert(workers@.to_set().contains(w) == workers@.contains(w));
            if workers@.contains(w) {
                let k = choose|k: int| 0 <= k < workers@.len() && workers@[k] == w;
                assert(all[k].worker() == w);
                assert(all.contains(all[k]));
                assert(rows@.contains(all[k]));
                let m = choose|m: int| 0 <= m < rows@.len() && rows@[m] == all[k];
                assert(rows@[m].worker() == w);
            }
            if has_row(rows@, w) {
                let m = choose|m: int| 0 <= m < rows@.len() && (#[trigger] rows@[m]).worker() == w;
                assert(rows@.contains(rows@[m]));
                let k = choose|k: int| 0 <= k < all.len() && all[k] == rows@[m];
                assert(all[k].worker() == workers@[k]);
            }
        }
    }
    OverlapScoresResponse {
        block_size,
        num_blocks: tiered.device.overlap_scores.frequencies.len(),
        workers: rows,
        shared_cache: SharedCacheOverlapScore {
            enabled: false,
            total_hit_blocks: 0,
            ranges: Vec::new(),
            error: None,
        },
        device_credit: match config_override {
            Some(o) => match o.overlap_score_credit {
                Some(credit) => credit,
                None => config.overlap_score_credit,
            },
            None => config.overlap_score_credit,
        },
        host_weight: config.host_cache_hit_weight,
        disk_weight: config.disk_cache_hit_weight,
    }
}

/// What a rank has up to a tier is what it has up to the tier before and what the tier
/// adds, and on its device it has what was matched there.
pub proof fn tiers_add_up(tiered: TieredMatchDetails, row: WorkerOverlapScore)
    requires
        scores_rank(tiered, row),
    ensures
        row.host_pinned_blocks == row.device_blocks + row.host_pinned_extension_blocks,
        row.disk_blocks == row.host_pinned_blocks + row.disk_extension_blocks,
        tiered.device.overlap_scores.scores@.dom().contains((row.worker_id, row.dp_rank))
            ==> row.device_blocks == tiered.device.overlap_scores.scores@[(
            row.worker_id,
            row.dp_rank,
        )],
        !tiered.device.overlap_scores.scores@.dom().contains((row.worker_id, row.dp_rank))
            ==> row.device_blocks == 0,
        row.shared_beyond_device_blocks is None,
{
}

/// What each tier below the device adds for a rank is what was matched there; what is
/// beyond the disk counts with it.
pub proof fn tiers_add_what_they_match(tiered: TieredMatchDetails, row: WorkerOverlapScore)
    requires
        scores_rank(tiered, row),
    ensures
        ({
            let worker = (row.worker_id, row.dp_rank);
            let host = tier_hits(tiered.lower_tier@, StorageTier::HostPinned);
            let disk = tier_hits(tiered.lower_tier@, StorageTier::Disk);
            let beyond = tier_hits(tiered.lower_tier@, StorageTier::External);
            &&& host.dom().contains(worker) ==> row.host_pinned_extension_blocks == host[worker]
            &&& !host.dom().contains(worker) ==> row.host_pinned_extension_blocks == 0
            &&& disk.dom().contains(worker) && beyond.dom().contains(worker)
                ==> row.disk_extension_blocks == disk[worker] + beyond[worker]
            &&& disk.dom().contains(worker) && !beyond.dom().contains(worker)
                ==> row.disk_extension_blocks == disk[worker]
            &&& !disk.dom().contains(worker) && beyond.dom().contains(worker)
                ==> row.disk_extension_blocks == beyond[worker]
            &&& !disk.dom().contains(worker) && !beyond.dom().contains(worker)
                ==> row.disk_extension_blocks == 0
        }),
{
}

} // verus!
