//! From matches in each tier to what a scheduler works with.

use vstd::prelude::*;

use crate::collections::{fx_get, fx_insert, fx_worker_keys, FxMap};
use crate::indexer::lower_tier::{LowerTierMatchDetails, TieredMatchDetails};
use crate::protocols::StorageTier;
use crate::scheduling::config::{F64Bits, KvRouterConfig, ONE};
use crate::scheduling::types::TierOverlapBlocks;
use crate::seqs::lemma_push_contains;

verus! {

/// What each worker matches in a tier, by the tier's first entry in a list.
pub open spec fn tier_hits(
    matches: Seq<(StorageTier, LowerTierMatchDetails)>,
    tier: StorageTier,
) -> Map<(u64, u32), usize>
    decreases matches.len(),
{
    if matches.len() == 0 {
        Map::empty()
    } else if matches[0].0 == tier {
        matches[0].1.hits@
    } else {
        tier_hits(matches.skip(1), tier)
    }
}

/// What a worker matches, and 0 where it has no entry.
pub open spec fn hits_of(hits: Map<(u64, u32), usize>, worker: (u64, u32)) -> nat {
    if hits.dom().contains(worker) {
        hits[worker] as nat
    } else {
        0
    }
}

/// The place of a tier's first entry in a list.
pub(crate) fn find_tier(matches: &Vec<(StorageTier, LowerTierMatchDetails)>, tier: StorageTier) -> (place: Option<
    usize,
>)
    ensures
        place matches Some(i) ==> i < matches@.len() && tier_hits(matches@, tier)
            == matches@[i as int].1.hits@,
        place is None ==> tier_hits(matches@, tier) == Map::<(u64, u32), usize>::empty(),
{
    assert(matches@.skip(0) =~= matches@);
    for i in 0..matches.len()
        invariant
            tier_hits(matches@, tier) == tier_hits(matches@.skip(i as int), tier),
    {
        assert(matches@.skip(i as int)[0] == matches@[i as int]);
        assert(matches@.skip(i as int).skip(1) =~= matches@.skip(i + 1));
        if matches[i].0 == tier {
            return Some(i);
        }
    }
    None
}

fn copy_hits(hits: &FxMap<(u64, u32), usize>) -> (copy: FxMap<(u64, u32), usize>)
    ensures
        copy@ == hits@,
{
    let mut copy: FxMap<(u64, u32), usize> = FxMap::default();
    add_hits(&mut copy, hits);
    assert(copy@ =~= hits@);
    copy
}

/// Adds what one tier has to what another has.
fn add_hits(sum: &mut FxMap<(u64, u32), usize>, hits: &FxMap<(u64, u32), usize>)
    requires
        forall|w: (u64, u32)| #[trigger] hits_of(old(sum)@, w) + hits_of(hits@, w) <= usize::MAX,
    ensures
        final(sum)@.dom() == old(sum)@.dom().union(hits@.dom()),
        forall|w: (u64, u32)| #[trigger]
            final(sum)@.dom().contains(w) ==> final(sum)@[w] == hits_of(old(sum)@, w) + hits_of(
                hits@,
                w,
            ),
{
    let ghost before = sum@;
    let keys = fx_worker_keys(hits);
    for i in 0..keys.len()
        invariant
            keys@.no_duplicates(),
            keys@.to_set() == hits@.dom(),
            forall|w: (u64, u32)| #[trigger] hits_of(before, w) + hits_of(hits@, w) <= usize::MAX,
            forall|w: (u64, u32)| #[trigger]
                sum@.dom().contains(w) <==> before.dom().contains(w) || keys@.take(
                    i as int,
                ).contains(w),
            forall|w: (u64, u32)| #[trigger]
                sum@.dom().contains(w) ==> sum@[w] == hits_of(before, w) + if keys@.take(
                    i as int,
                ).contains(w) {
                    hits_of(hits@, w)
                } else {
                    0
                },
    {
        let key = keys[i];
        proof {
            let done = keys@.take(i as int);
            assert(keys@.take(i + 1) =~= done.push(key));
            lemma_push_contains(done, key);
            assert(!done.contains(key));
            assert(keys@.to_set().contains(key));
            assert(hits_of(before, key) + hits_of(hits@, key) <= usize::MAX);
        }
        if let Some(n) = fx_get(hits, &key) {
            let so_far = match fx_get(sum, &key) {
                Some(m) => *m,
                None => 0,
            };
            fx_insert(sum, key, so_far + *n);
        }
    }
    proof {
        assert(keys@.take(keys@.len() as int) =~= keys@);
        assert forall|w: (u64, u32)| keys@.contains(w) == hits@.dom().contains(w) by {
            assert(keys@.to_set().contains(w) == keys@.contains(w));
        }
        assert(sum@.dom() =~= before.dom().union(hits@.dom()));
    }
}

/// The blocks that each worker has of a request, tier by tier. What is outside the
/// node counts as on disk.
pub fn tier_overlap_blocks_from_tiered_matches(tiered: &TieredMatchDetails) -> (blocks:
    TierOverlapBlocks)
    requires
        forall|w: (u64, u32)| #[trigger]
            hits_of(tier_hits(tiered.lower_tier@, StorageTier::Disk), w) + hits_of(
                tier_hits(tiered.lower_tier@, StorageTier::External),
                w,
            ) <= usize::MAX,
    ensures
        blocks.device@.dom() == tiered.device.overlap_scores.scores@.dom(),
        forall|w: (u64, u32)| #[trigger]
            blocks.device@.dom().contains(w) ==> blocks.device@[w]
                == tiered.device.overlap_scores.scores@[w],
        blocks.host_pinned@ == tier_hits(tiered.lower_tier@, StorageTier::HostPinned),
        blocks.disk@.dom() == tier_hits(tiered.lower_tier@, StorageTier::Disk).dom().union(
            tier_hits(tiered.lower_tier@, StorageTier::External).dom(),
        ),
        forall|w: (u64, u32)| #[trigger]
            blocks.disk@.dom().contains(w) ==> blocks.disk@[w] == hits_of(
                tier_hits(tiered.lower_tier@, StorageTier::Disk),
                w,
            ) + hits_of(tier_hits(tiered.lower_tier@, StorageTier::External), w),
{
    let mut device: FxMap<(u64, u32), usize> = FxMap::default();
    let scores = &tiered.device.overlap_scores.scores;
    let keys = fx_worker_keys(scores);
    for i in 0..keys.len()
        invariant
            scores@ == tiered.device.overlap_scores.scores@,
            keys@.to_set() == scores@.dom(),
            forall|w: (u64, u32)| #[trigger]
                device@.dom().contains(w) <==> keys@.take(i as int).contains(w),
            forall|w: (u64, u32)| #[trigger]
                device@.dom().contains(w) ==> device@[w] == scores@[w],
    {
        let key = keys[i];
        proof {
            let done = keys@.take(i as int);
            assert(keys@.take(i + 1) =~= done.push(key));
            lemma_push_contains(done, key);
            assert(keys@.to_set().contains(key));
        }
        if let Some(score) = fx_get(scores, &key) {
            fx_insert(&mut device, key, *score as usize);
        }
    }
    proof {
        assert(keys@.take(keys@.len() as int) =~= keys@);
        assert(device@.dom() =~= scores@.dom()) by {
            assert forall|w: (u64, u32)| keys@.contains(w) == scores@.dom().contains(w) by {
                assert(keys@.to_set().contains(w) == keys@.contains(w));
            }
        }
    }
    let host_pinned = match find_tier(&tiered.lower_tier, StorageTier::HostPinned) {
        Some(i) => copy_hits(&tiered.lower_tier[i].1.hits),
        None => FxMap::default(),
    };
    let mut disk: FxMap<(u64, u32), usize> = match find_tier(
        &tiered.lower_tier,
        StorageTier::Disk,
    ) {
        Some(i) => copy_hits(&tiered.lower_tier[i].1.hits),
        None => FxMap::default(),
    };
    assert(disk@ == tier_hits(tiered.lower_tier@, StorageTier::Disk));
    match find_tier(&tiered.lower_tier, StorageTier::External) {
        Some(i) => {
            proof {
                assert forall|w: (u64, u32)| #[trigger]
                    hits_of(disk@, w) + hits_of(
                        tiered.lower_tier@[i as int].1.hits@,
                        w,
                    ) <= usize::MAX by {
                    assert(hits_of(tier_hits(tiered.lower_tier@, StorageTier::Disk), w) + hits_of(
                        tier_hits(tiered.lower_tier@, StorageTier::External),
                        w,
                    ) <= usize::MAX);
                }
            }
            add_hits(&mut disk, &tiered.lower_tier[i].1.hits);
        },
        None => {
            assert(disk@.dom() =~= disk@.dom().union(Set::<(u64, u32)>::empty()));
        },
    }
    TierOverlapBlocks { device, host_pinned, disk }
}

/// What a block in a tier counts, as a fraction of one on the device.
pub fn cache_hit_weight_for_tier(config: &KvRouterConfig, tier: StorageTier) -> (weight: F64Bits)
    ensures
        weight == match tier {
            StorageTier::Device => F64Bits(ONE),
            StorageTier::HostPinned => config.host_cache_hit_weight,
            StorageTier::Disk => config.disk_cache_hit_weight,
            StorageTier::External => config.disk_cache_hit_weight,
        },
{
    match tier {
        StorageTier::Device => F64Bits(ONE),
        StorageTier::HostPinned => config.host_cache_hit_weight,
        StorageTier::Disk => config.disk_cache_hit_weight,
        StorageTier::External => config.disk_cache_hit_weight,
    }
}

/// What a tier matched is what its first entry says, and nothing where it has none.
pub proof fn first_entry_of_a_tier_counts(
    matches: Seq<(StorageTier, LowerTierMatchDetails)>,
    tier: StorageTier,
    first: int,
)
    requires
        0 <= first <= matches.len(),
        forall|i: int| 0 <= i < first ==> (#[trigger] matches[i]).0 != tier,
    ensures
        first < matches.len() && matches[first].0 == tier ==> tier_hits(matches, tier)
            == matches[first].1.hits@,
        first == matches.len() ==> tier_hits(matches, tier) == Map::<(u64, u32), usize>::empty(),
    decreases matches.len(),
{
    if first > 0 {
        let rest = matches.skip(1);
        assert(matches[0].0 != tier);
        assert forall|i: int| 0 <= i < first - 1 implies (#[trigger] rest[i]).0 != tier by {
            assert(rest[i] == matches[i + 1]);
        }
        first_entry_of_a_tier_counts(rest, tier, first - 1);
        if first < matches.len() {
            assert(rest[first - 1] == matches[first]);
        }
    }
}

} // verus!
