//! Indexers around the tree, lower tiers, and what expires.

use kv_router::hashing::{compute_block_hash_for_seq, compute_seq_hash_for_block, BlockHashOptions};
use kv_router::indexer::compressed_radix::append_dump_events;
use kv_router::indexer::concurrent_radix_tree_compressed::KvCacheEventError;
use kv_router::indexer::kv_indexer::{
    next_task, EventKind, IndexerTask, KvIndexer, KvRouterError, PendingMutations,
    RoutingDecisionRequest, WaitingTasks,
};
use kv_router::indexer::lower_tier::{
    lower_tier_query_order, query_lower_tiers, LowerTierContinuation, LowerTierIndexers,
    LowerTierLink, LowerTierMatchDetails, LowerTierRemoval, TieredMatchDetails,
    WireTieredMatchDetails,
};
use kv_router::indexer::pruning::{
    block_entries_for_hashes, removes_by_hash, removes_by_position, BlockEntry,
};
use kv_router::indexer::lookup_update::update_lookup_for_keys;
use kv_router::indexer::thread_pool::{collect_dumps, ThreadPoolIndexer, WorkerLookupStats};
use kv_router::collections::FxMap;
use kv_router::protocols::{
    ExternalSequenceBlockHash, KvCacheEvent, KvCacheEventData, KvCacheRemoveData,
    KvCacheStoreData, KvCacheStoredBlockData, LocalBlockHash, MatchDetails, OverlapScores, RouterEvent, StorageTier, WorkerWithDpRank,
};
use kv_router::test_utils::{
    add_blocks, assert_overlap_scores_eq, create_remove_event, create_store_event,
    create_store_event_with_start_position, make_clear_event_with_dp_rank, make_remove_event,
    make_remove_event_with_dp_rank, make_store_event, make_store_event_full,
    make_store_event_with_start_position, router_event, snapshot_events, SimpleWorkerConfig,
};

fn locals(values: &[u64]) -> Vec<LocalBlockHash> {
    values.iter().copied().map(LocalBlockHash).collect()
}

fn store_event_for(worker_id: u64, dp_rank: u32, values: &[u64]) -> RouterEvent {
    let locals = locals(values);
    let seq_hashes = compute_seq_hash_for_block(&locals);
    router_event(
        worker_id,
        0,
        dp_rank,
        KvCacheEventData::Stored(KvCacheStoreData {
            parent_hash: None,
            start_position: None,
            blocks: locals
                .iter()
                .zip(seq_hashes.iter())
                .map(|(&tokens_hash, &hash)| KvCacheStoredBlockData {
                    tokens_hash,
                    block_hash: ExternalSequenceBlockHash(hash),
                    mm_extra_info: None,
                })
                .collect(),
        }),
    )
}

#[test]
fn remove_worker_dp_rank_preserves_sibling_dp_ranks() {
    let mut indexer = KvIndexer::new(32);
    indexer.apply_event_with_counters(&store_event_for(7, 0, &[1, 2, 3])).1.unwrap();
    indexer.apply_event_with_counters(&store_event_for(7, 1, &[4, 5, 6])).1.unwrap();

    assert!(indexer.find_matches(&locals(&[1, 2, 3])).scores.contains_key(&(7, 0)));
    assert!(indexer.find_matches(&locals(&[4, 5, 6])).scores.contains_key(&(7, 1)));

    indexer.remove_worker_dp_rank(7, 0);

    assert!(!indexer.find_matches(&locals(&[1, 2, 3])).scores.contains_key(&(7, 0)));
    assert!(indexer.find_matches(&locals(&[4, 5, 6])).scores.contains_key(&(7, 1)));
}

#[test]
fn query_lower_tiers_returns_empty_when_no_tiers_allocated() {
    let indexers = LowerTierIndexers::new(1, 4);
    let mut overlap_scores = OverlapScores::new();
    overlap_scores.scores.insert(WorkerWithDpRank::new(99, 0).key(), 3);
    let device_matches =
        MatchDetails { overlap_scores, last_matched_hashes: Default::default() };

    let sequence = vec![LocalBlockHash(1), LocalBlockHash(2)];
    let result = query_lower_tiers(&indexers, &sequence, &device_matches);
    assert!(result.is_empty());
}

#[test]
fn lower_tiers_go_on_where_the_one_above_ended() {
    let mut indexers = LowerTierIndexers::new(1, 4);
    let link = |worker, parent, local, hash| LowerTierLink { worker, parent, local, hash };
    indexers.store(StorageTier::HostPinned, link((1, 0), Some(101), 2, 102));
    indexers.store(StorageTier::Disk, link((1, 0), Some(102), 3, 103));
    indexers.store(StorageTier::Disk, link((2, 0), None, 1, 201));
    let mut device = MatchDetails::new();
    device.overlap_scores.scores.insert((1, 0), 1);
    device.last_matched_hashes.insert((1, 0), ExternalSequenceBlockHash(101));

    let matches = query_lower_tiers(&indexers, &locals(&[1, 2, 3, 4]), &device);

    assert_eq!(matches.len(), 2);
    assert_eq!(matches[0].0, StorageTier::HostPinned);
    assert_eq!(matches[0].1.hits[&(1, 0)], 1);
    assert_eq!(matches[1].0, StorageTier::Disk);
    assert_eq!(matches[1].1.hits[&(1, 0)], 1);
    assert_eq!(matches[1].1.hits[&(2, 0)], 1);
    assert_eq!(matches[1].1.next_continuations[&(1, 0)].start_pos, 3);
    assert_eq!(
        lower_tier_query_order(),
        [StorageTier::HostPinned, StorageTier::Disk, StorageTier::External]
    );
    assert!(indexers.get(StorageTier::External).is_none());
}

#[test]
fn the_most_urgent_task_goes_first() {
    let nothing = WaitingTasks {
        shutdown: false,
        remove_worker: false,
        remove_worker_dp_rank: false,
        event: false,
        get_workers: false,
        dump: false,
        flush: false,
        routing: false,
        prune: false,
        matches: false,
        match_details: false,
    };
    assert_eq!(next_task(nothing), None);
    assert_eq!(
        next_task(WaitingTasks { matches: true, event: true, ..nothing }),
        Some(IndexerTask::ApplyEvent)
    );
    assert_eq!(
        next_task(WaitingTasks { shutdown: true, remove_worker: true, ..nothing }),
        Some(IndexerTask::Shutdown)
    );
    assert_eq!(
        next_task(WaitingTasks { match_details: true, prune: true, ..nothing }),
        Some(IndexerTask::Prune)
    );
}

#[test]
fn events_are_counted_by_kind_and_outcome() {
    let mut indexer = KvIndexer::new(4);
    assert_eq!(
        indexer.apply_event_with_counters(&make_store_event(1, &[1, 2])),
        (EventKind::Stored, Ok(()))
    );
    assert_eq!(
        indexer.apply_event_with_counters(&make_remove_event(9, &[1])),
        (EventKind::Removed, Err(KvCacheEventError::BlockNotFound))
    );
    assert_eq!(
        indexer.apply_event_with_counters(&make_clear_event_with_dp_rank(1, 0)),
        (EventKind::Cleared, Ok(()))
    );
    assert!(indexer.find_matches(&locals(&[1, 2])).scores.is_empty());
    assert_eq!(indexer.block_size(), 4);
}

#[test]
fn the_tokens_of_a_request_are_hashed_block_by_block() {
    let mut indexer = KvIndexer::new(2);
    let tokens = [5, 6, 7, 8, 9];
    let blocks = compute_block_hash_for_seq(&tokens, 2, BlockHashOptions::default());
    let hashes: Vec<u64> = blocks.iter().map(|block| block.0).collect();
    assert_eq!(hashes.len(), 2);
    indexer.apply_event_with_counters(&make_store_event(3, &hashes)).1.unwrap();
    let scores = indexer.find_matches_for_request(&tokens, None, None);
    assert_eq!(scores.scores[&(3, 0)], 2);
    let other = indexer.find_matches_for_request(&tokens, Some("adapter"), None);
    assert!(other.scores.is_empty());
    assert_eq!(indexer.get_workers(), vec![3]);
}

#[test]
fn routing_decisions_are_kept_until_they_expire() {
    let mut indexer = KvIndexer::new_with_pruning(4, true);
    let local_hashes = locals(&[1, 2, 3]);
    let sequence_hashes = compute_seq_hash_for_block(&local_hashes);
    let entries = indexer.apply_routing_decision_with_prune_tracking(&RoutingDecisionRequest {
        worker: WorkerWithDpRank::new(4, 0),
        local_hashes: local_hashes.clone(),
        sequence_hashes,
    });
    assert_eq!(entries.len(), 3);
    assert_eq!(indexer.find_matches(&local_hashes).scores[&(4, 0)], 3);

    indexer.apply_prune_removes(&entries[2..].to_vec());
    assert_eq!(indexer.find_matches(&local_hashes).scores[&(4, 0)], 2);
    indexer.apply_prune_removes(&entries);
    assert!(indexer.find_matches(&local_hashes).scores.is_empty());
}

#[test]
fn routing_decisions_are_not_kept_without_pruning() {
    let mut indexer = KvIndexer::new(4);
    let entries = indexer.apply_routing_decision_with_prune_tracking(&RoutingDecisionRequest {
        worker: WorkerWithDpRank::new(4, 0),
        local_hashes: locals(&[1]),
        sequence_hashes: vec![11],
    });
    assert!(entries.is_empty());
    assert!(indexer.find_matches(&locals(&[1])).scores.is_empty());
}

#[test]
fn waiting_changes_are_made_removals_first() {
    let mut indexer = KvIndexer::new(4);
    indexer.apply_event_with_counters(&make_store_event(1, &[1, 2])).1.unwrap();
    let drained = indexer.drain_pending_mutations(&PendingMutations {
        removed_workers: vec![1],
        removed_ranks: vec![],
        events: vec![make_store_event(1, &[1]), make_store_event(2, &[1, 2])],
        routing: vec![],
    });
    assert!(drained.entries.is_empty());
    assert_eq!(drained.outcomes.len(), 2);
    assert!(drained.outcomes.iter().all(|(kind, r)| *kind == EventKind::Stored && r.is_ok()));
    let scores = indexer.find_matches(&locals(&[1, 2])).scores;
    assert_eq!(scores[&(1, 0)], 1);
    assert_eq!(scores[&(2, 0)], 2);
    indexer.remove_worker(2);
    assert!(!indexer.find_matches(&locals(&[1, 2])).scores.contains_key(&(2, 0)));
}

#[test]
fn each_waiting_event_has_its_outcome() {
    let mut indexer = KvIndexer::new_with_pruning(4, true);
    let drained = indexer.drain_pending_mutations(&PendingMutations {
        removed_workers: vec![],
        removed_ranks: vec![],
        events: vec![
            make_store_event(1, &[1, 2]),
            create_store_event(2, 0, vec![3], Some(ExternalSequenceBlockHash(999))),
            make_remove_event(1, &[1, 2]),
            make_clear_event_with_dp_rank(1, 0),
        ],
        routing: vec![RoutingDecisionRequest {
            worker: WorkerWithDpRank::new(4, 0),
            local_hashes: locals(&[1]),
            sequence_hashes: vec![11],
        }],
    });
    let kinds: Vec<EventKind> = drained.outcomes.iter().map(|(kind, _)| *kind).collect();
    let applied: Vec<bool> = drained.outcomes.iter().map(|(_, r)| r.is_ok()).collect();
    let expected =
        vec![EventKind::Stored, EventKind::Stored, EventKind::Removed, EventKind::Cleared];
    assert_eq!(kinds, expected);
    assert_eq!(applied, vec![true, false, true, true]);
    assert_eq!(drained.entries.len(), 1);
    assert_eq!(indexer.find_matches(&locals(&[1])).scores.len(), 1);
}

#[test]
fn snapshots_of_one_state_are_equal() {
    let mut first = make_store_event(2, &[1]);
    first.event.event_id = 5;
    let mut again = make_store_event(2, &[1]);
    again.event.event_id = 8;
    let a = snapshot_events(vec![first, make_store_event(1, &[4])]);
    let b = snapshot_events(vec![make_store_event(1, &[4]), again]);
    assert_eq!(a, b);
    assert!(a.iter().all(|event| event.event.event_id == 0));
    assert_eq!(snapshot_events(a), b);
}

fn in_tier(mut event: RouterEvent, tier: StorageTier) -> RouterEvent {
    event.storage_tier = tier;
    event
}

fn tier_hits(indexers: &LowerTierIndexers, blocks: &[u64], worker: (u64, u32)) -> Option<usize> {
    let matches = query_lower_tiers(indexers, &locals(blocks), &MatchDetails::new());
    matches.first().and_then(|(_, details)| details.hits.get(&worker).copied())
}

#[test]
fn events_of_a_tier_store_and_remove_its_blocks() {
    let mut indexers = LowerTierIndexers::new(1, 4);
    let tier = StorageTier::HostPinned;
    indexers.apply_event(in_tier(make_store_event(1, &[1, 2, 3]), tier));
    indexers.apply_event(in_tier(make_store_event(2, &[1, 2]), tier));
    assert_eq!(tier_hits(&indexers, &[1, 2, 3], (1, 0)), Some(3));
    indexers.apply_event(in_tier(
        RouterEvent::new(1, last_block_removed(&[1, 2, 3])),
        tier,
    ));
    assert_eq!(tier_hits(&indexers, &[1, 2, 3], (1, 0)), Some(2));
    assert_eq!(tier_hits(&indexers, &[1, 2, 3], (2, 0)), Some(2));
    indexers.apply_event(in_tier(make_clear_event_with_dp_rank(1, 0), tier));
    assert_eq!(tier_hits(&indexers, &[1, 2, 3], (1, 0)), None);
    assert_eq!(tier_hits(&indexers, &[1, 2, 3], (2, 0)), Some(2));
    indexers.remove_everywhere(&LowerTierRemoval::Rank((2, 1)));
    assert_eq!(tier_hits(&indexers, &[1, 2, 3], (2, 0)), Some(2));
    indexers.remove_everywhere(&LowerTierRemoval::Rank((2, 0)));
    assert_eq!(tier_hits(&indexers, &[1, 2, 3], (2, 0)), None);
}

fn last_block_removed(local_hashes: &[u64]) -> KvCacheEvent {
    let stored = make_store_event(1, local_hashes);
    let KvCacheEventData::Stored(op) = stored.event.data else { unreachable!("a store event") };
    let block_hashes = vec![op.blocks[op.blocks.len() - 1].block_hash];
    KvCacheEvent {
        event_id: 0,
        data: KvCacheEventData::Removed(KvCacheRemoveData { block_hashes }),
        dp_rank: 0,
    }
}

#[test]
fn tiers_are_listed_as_they_are_walked() {
    let mut indexers = LowerTierIndexers::new(1, 4);
    assert!(indexers.entries().is_empty());
    assert!(indexers.all().is_empty());
    indexers.apply_event(in_tier(make_remove_event(1, &[1]), StorageTier::External));
    indexers.apply_event(in_tier(make_store_event(1, &[1]), StorageTier::HostPinned));
    let tiers: Vec<StorageTier> = indexers.entries().iter().map(|entry| entry.0).collect();
    assert_eq!(tiers, vec![StorageTier::HostPinned, StorageTier::External]);
    let first = LocalBlockHash(1);
    let roots: Vec<usize> =
        indexers.all().iter().map(|indexer| indexer.root_workers(first).len()).collect();
    assert_eq!(roots, vec![1, 0]);
}

fn hits_of(worker: (u64, u32), hits: usize) -> LowerTierMatchDetails {
    let mut details =
        LowerTierMatchDetails { hits: FxMap::default(), next_continuations: FxMap::default() };
    details.hits.insert(worker, hits);
    details.next_continuations.insert(worker, LowerTierContinuation::from_root(hits));
    details
}

#[test]
fn sent_matches_are_read_back() {
    let mut device = MatchDetails::new();
    device.overlap_scores.scores.insert((1, 0), 2);
    device.overlap_scores.frequencies = vec![1, 1];
    device.last_matched_hashes.insert((1, 0), ExternalSequenceBlockHash(102));
    let details = TieredMatchDetails {
        device,
        lower_tier: vec![
            (StorageTier::HostPinned, hits_of((1, 0), 3)),
            (StorageTier::Disk, hits_of((2, 0), 1)),
        ],
    };
    let read = TieredMatchDetails::from_wire(details.to_wire());
    assert_eq!(read.device.overlap_scores.scores[&(1, 0)], 2);
    assert_eq!(read.device.overlap_scores.frequencies, vec![1, 1]);
    assert!(read.device.last_matched_hashes.is_empty());
    assert_eq!(read.lower_tier.len(), 2);
    for (tier, worker, hits) in
        [(StorageTier::HostPinned, (1, 0), 3), (StorageTier::Disk, (2, 0), 1)]
    {
        let found = &read.lower_tier.iter().find(|entry| entry.0 == tier).unwrap().1;
        assert_eq!(found.hits[&worker], hits);
        assert_eq!(found.next_continuations[&worker].start_pos, hits);
    }
}

#[test]
fn what_comes_last_for_a_tier_counts() {
    let read = TieredMatchDetails::from_wire(WireTieredMatchDetails {
        device: OverlapScores::new(),
        lower_tier: vec![
            (StorageTier::Disk, hits_of((1, 0), 1)),
            (StorageTier::External, hits_of((1, 0), 4)),
            (StorageTier::Disk, hits_of((1, 0), 2)),
        ],
    });
    assert_eq!(read.lower_tier.len(), 2);
    let disk = read.lower_tier.iter().find(|entry| entry.0 == StorageTier::Disk).unwrap();
    assert_eq!(disk.1.hits[&(1, 0)], 2);
}

#[test]
fn threads_take_turns_and_workers_stay_with_theirs() {
    let mut pool = ThreadPoolIndexer::new(2, 32);
    assert_eq!(pool.get_or_assign_thread_idx(10), 0);
    assert_eq!(pool.get_or_assign_thread_idx(11), 1);
    assert_eq!(pool.get_or_assign_thread_idx(12), 0);
    assert_eq!(pool.get_or_assign_thread_idx(11), 1);
    assert_eq!(pool.removal_targets(11), (vec![1], 1));
    assert_eq!(pool.removal_targets(99), (vec![0, 1], 0));
    assert_eq!(pool.all_threads(), vec![0, 1]);
    assert_eq!(pool.block_size(), 32);
}

#[test]
fn a_routing_decision_goes_to_the_thread_of_its_worker() {
    let mut pool = ThreadPoolIndexer::new_with_pruning(2, 32, true);
    let worker = WorkerWithDpRank::new(5, 1);
    let refused = pool.record_routing_decision_hashes(worker, &locals(&[1, 2]), &[11]);
    assert!(matches!(refused, Err(KvRouterError::IndexerDroppedRequest)));
    let record = pool
        .record_routing_decision_hashes(worker, &locals(&[1, 2]), &[11, 12])
        .ok()
        .unwrap()
        .unwrap();
    assert_eq!(record.task.thread, pool.get_or_assign_thread_idx(5));
    assert_eq!(record.task.event.event.dp_rank, 1);
    assert_eq!(record.entries.len(), 2);
    let tasks = pool.enqueue_prune_removes(&record.entries);
    assert_eq!(tasks.len(), 1);
    assert_eq!(tasks[0].thread, record.task.thread);
    match &tasks[0].event.event.data {
        KvCacheEventData::Removed(op) => assert_eq!(op.block_hashes.len(), 2),
        _ => unreachable!("a removal"),
    }
    let mut plain = ThreadPoolIndexer::new(2, 32);
    assert!(matches!(
        plain.record_routing_decision_hashes(worker, &locals(&[1]), &[11]),
        Ok(None)
    ));
}

#[test]
fn dumps_of_all_threads_are_numbered_through() {
    let events = collect_dumps(vec![
        vec![make_store_event(1, &[1]), make_store_event(2, &[1])],
        vec![],
        vec![make_store_event(3, &[1])],
    ]);
    let ids: Vec<u64> = events.iter().map(|event| event.event.event_id).collect();
    assert_eq!(ids, vec![0, 1, 2]);
    assert_eq!(events[2].worker_id, 3);
}

#[test]
fn lookup_sizes_are_summed_over_the_threads() {
    let stats = WorkerLookupStats::from_parts(&vec![
        vec![((1, 0), 2), ((2, 0), 5)],
        vec![((1, 0), 3)],
    ]);
    assert_eq!(stats.worker_count(), 2);
    assert_eq!(stats.worker_blocks[&(1, 0)], 5);
    assert_eq!(stats.worker_blocks[&(2, 0)], 5);
}

#[test]
fn expired_blocks_are_grouped_by_worker() {
    let worker = WorkerWithDpRank::new(2, 0);
    let other = WorkerWithDpRank::new(1, 0);
    let entry = |worker, key, seq_position| BlockEntry {
        key: ExternalSequenceBlockHash(key),
        worker,
        seq_position,
    };
    let entries = vec![
        entry(worker, 50, 1),
        entry(other, 9, 0),
        entry(worker, 70, 0),
        entry(worker, 50, 1),
    ];
    let by_place = removes_by_position(&entries);
    assert_eq!(by_place.len(), 2);
    assert_eq!(by_place[0].worker, other);
    let hashes: Vec<u64> = by_place[1].hashes.iter().map(|hash| hash.0).collect();
    assert_eq!(hashes, vec![70, 50, 50]);
    let by_hash = removes_by_hash(&entries);
    let hashes: Vec<u64> = by_hash[1].hashes.iter().map(|hash| hash.0).collect();
    assert_eq!(hashes, vec![50, 70]);
    let made = block_entries_for_hashes(worker, &[8, 9]);
    assert_eq!((made[1].key.0, made[1].seq_position), (9, 1));
}

#[test]
fn a_lookup_says_how_many_entries_changed() {
    let mut lookup: FxMap<u64, usize> = FxMap::default();
    let keys: Vec<ExternalSequenceBlockHash> =
        [1, 2, 2].iter().copied().map(ExternalSequenceBlockHash).collect();
    assert_eq!(update_lookup_for_keys(&mut lookup, &keys, 5), 2);
    assert_eq!(update_lookup_for_keys(&mut lookup, &keys, 5), 0);
    assert_eq!(update_lookup_for_keys(&mut lookup, &keys[..1], 6), 1);
    assert_eq!((lookup[&1], lookup[&2]), (6, 5));
}

#[test]
fn an_edge_is_dumped_once_per_worker() {
    let edge = vec![
        (LocalBlockHash(1), ExternalSequenceBlockHash(11)),
        (LocalBlockHash(2), ExternalSequenceBlockHash(12)),
    ];
    let mut events = Vec::new();
    let mut event_id = 3;
    append_dump_events(
        &mut events,
        &mut event_id,
        Some(ExternalSequenceBlockHash(10)),
        &edge,
        &[WorkerWithDpRank::new(1, 0)],
        &[(WorkerWithDpRank::new(2, 0), 1)],
    );
    assert_eq!(event_id, 5);
    assert_eq!(events.len(), 2);
    let blocks = |event: &RouterEvent| match &event.event.data {
        KvCacheEventData::Stored(op) => {
            assert_eq!(op.parent_hash, Some(ExternalSequenceBlockHash(10)));
            op.blocks.len()
        }
        _ => unreachable!("a store event"),
    };
    assert_eq!((events[0].worker_id, blocks(&events[0])), (1, 2));
    assert_eq!((events[1].worker_id, blocks(&events[1])), (2, 1));
}

#[test]
fn made_events_hold_what_they_are_made_from() {
    let event = create_store_event(1, 7, vec![3], None);
    assert_eq!((event.worker_id, event.event.event_id), (1, 7));
    assert_eq!(event.event.data, add_blocks(vec![3], None));
    match event.event.data {
        KvCacheEventData::Stored(op) => {
            assert_eq!(op.blocks[0].tokens_hash, LocalBlockHash(3));
            assert_eq!(op.blocks[0].block_hash, ExternalSequenceBlockHash(300));
        }
        _ => unreachable!("a store event"),
    }
    match create_store_event_with_start_position(1, 7, vec![3], None, Some(4)).event.data {
        KvCacheEventData::Stored(op) => assert_eq!(op.start_position, Some(4)),
        _ => unreachable!("a store event"),
    }
    match create_remove_event(1, 7, vec![3]).event.data {
        KvCacheEventData::Removed(op) => {
            assert_eq!(op.block_hashes, vec![ExternalSequenceBlockHash(300)])
        }
        _ => unreachable!("a remove event"),
    }
    assert_eq!(
        make_store_event_with_start_position(1, &[1, 2], 9),
        make_store_event_full(1, &[1, 2], 0, None, Some(9))
    );
    assert_eq!(make_remove_event_with_dp_rank(1, &[1], 3).event.dp_rank, 3);
    let config = SimpleWorkerConfig::default();
    assert_eq!((config.data_parallel_start_rank, config.data_parallel_size), (0, 1));
}

#[test]
fn events_are_put_in_order_and_scores_compared() {
    let ordered = snapshot_events(vec![make_store_event(2, &[1]), make_store_event(1, &[1])]);
    assert_eq!((ordered[0].worker_id, ordered[1].worker_id), (1, 2));
    let mut left = OverlapScores::new();
    let mut right = OverlapScores::new();
    left.scores.insert((1, 0), 2);
    assert!(!assert_overlap_scores_eq(&left, &right));
    right.scores.insert((1, 0), 2);
    assert!(assert_overlap_scores_eq(&left, &right));
}

#[test]
fn a_chain_stored_in_a_tier_is_matched_to_its_end() {
    let mut indexers = LowerTierIndexers::new(1, 4);
    let blocks: Vec<KvCacheStoredBlockData> = [(2, 102), (3, 103), (4, 104)]
        .iter()
        .map(|&(local, hash)| KvCacheStoredBlockData {
            block_hash: ExternalSequenceBlockHash(hash),
            tokens_hash: LocalBlockHash(local),
            mm_extra_info: None,
        })
        .collect();
    indexers.store_chain(StorageTier::Disk, (1, 0), Some(101), &blocks);
    let mut device = MatchDetails::new();
    device.overlap_scores.scores.insert((1, 0), 1);
    device.last_matched_hashes.insert((1, 0), ExternalSequenceBlockHash(101));

    let matches = query_lower_tiers(&indexers, &locals(&[1, 2, 3, 4, 5]), &device);

    assert_eq!(matches.len(), 1);
    assert_eq!(matches[0].0, StorageTier::Disk);
    assert_eq!(matches[0].1.hits[&(1, 0)], 3);
    assert_eq!(
        matches[0].1.next_continuations[&(1, 0)].last_matched_hash,
        Some(ExternalSequenceBlockHash(104))
    );
}
