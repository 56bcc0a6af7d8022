//! Listeners, replicas, the shared cache, scores and the access log.

use kv_router::collections::FxMap;
use kv_router::hashing::{compute_block_hash_for_seq, BlockHashOptions};
use kv_router::indexer::kv_indexer::KvIndexer;
use kv_router::indexer::lower_tier::{
    query_lower_tiers, LowerTierIndexers, LowerTierLink, LowerTierMatchDetails,
    TieredMatchDetails,
};
use kv_router::protocols::{
    KvCacheEventData, LocalBlockHash, MatchDetails, OverlapScores, SharedCacheHits, StorageTier,
    WorkerWithDpRank,
};
use kv_router::scheduling::config::{F64Bits, KvRouterConfig};
use kv_router::scheduling::overlap::{
    cache_hit_weight_for_tier, tier_overlap_blocks_from_tiered_matches,
};
use kv_router::services::access_log::{
    parse_header_name, AccessLogEntry, AccessLogModel, InvalidHeaderName,
};
use kv_router::services::indexer::{
    build_score_response, no_indexer_message, scores_fit, QueryByHashRequest, QueryRequest,
    UnregisterRequest,
    UnregisterScope,
};
use kv_router::services::listener::{
    cursor_from_watermark, on_replay_message, replay_request, seq_frame, seq_of_frame,
    CursorObservation, CursorState, KvEventBatch, ListenerState, MessageStep, ReplayRecoveryProgress,
    ReplayRecoveryFailureReason, ReplayStep, WATERMARK_UNSET,
};
use kv_router::services::replica_sync::{
    deregister_peer_status, generate_process_id, register_peer_status, replica_payload,
    replica_sync_bind_endpoint, replica_sync_settings, PeerError, PeerSet, ReplicaSyncError,
    REPLICA_TOPIC,
};
use kv_router::services::shared_cache::{SharedCacheQueryRequest, SharedCacheStore};
use kv_router::test_utils::make_store_event;
use kv_router::zmq_wire::types::{BlockHashValue, RawKvEvent};

#[test]
fn initial_gap_replays_from_zero_and_replayed_seq_becomes_stale() {
    let replay_start = match cursor_from_watermark(WATERMARK_UNSET).observe(5) {
        CursorObservation::Initial { got } if got > 0 => Some(0),
        CursorObservation::Gap { expected, .. } => Some(expected),
        _ => None,
    };
    assert_eq!(replay_start, Some(0));
    assert!(matches!(
        cursor_from_watermark(5).observe(5),
        CursorObservation::Stale { got: 5, last_applied: Some(5) }
    ));
}

#[test]
fn a_cursor_tells_next_from_missing() {
    assert_eq!(cursor_from_watermark(WATERMARK_UNSET), CursorState::Initial);
    let live = cursor_from_watermark(5);
    assert_eq!(live.observe(6), CursorObservation::Contiguous { got: 6 });
    assert_eq!(live.observe(9), CursorObservation::Gap { expected: 6, got: 9 });
}

#[test]
fn sequence_numbers_are_framed_and_read_back() {
    assert_eq!(seq_frame(258), vec![0, 0, 0, 0, 0, 0, 1, 2]);
    assert_eq!(seq_of_frame(&seq_frame(u64::MAX - 1)), Some(u64::MAX - 1));
    assert_eq!(seq_of_frame(&vec![1, 2, 3]), None);
    assert!(replay_request(7).contains(&seq_frame(7)));
}

fn stored_batch(hash: u64, data_parallel_rank: Option<i32>) -> KvEventBatch {
    KvEventBatch {
        events: vec![RawKvEvent::BlockStored {
            block_hashes: vec![BlockHashValue::Unsigned(hash)],
            parent_block_hash: None,
            token_ids: vec![1, 2],
            block_size: 2,
            medium: None,
            lora_name: None,
            block_mm_infos: None,
            is_eagle: None,
            group_idx: None,
            kv_cache_spec_kind: None,
            kv_cache_spec_sliding_window: None,
        }],
        data_parallel_rank,
    }
}

#[test]
fn a_listener_applies_batches_in_order() {
    let mut listener = ListenerState::new(4, 1, 2, WATERMARK_UNSET);
    let message = |seq: u64| vec![vec![], seq_frame(seq), vec![9]];
    assert_eq!(listener.on_message(&vec![vec![]]), MessageStep::WrongFrameCount);
    assert_eq!(
        listener.on_message(&vec![vec![], vec![1], vec![]]),
        MessageStep::WrongSeqLength
    );
    assert_eq!(listener.on_message(&message(0)), MessageStep::Apply { seq: 0 });
    let events = listener.apply_live_batch(0, stored_batch(7, Some(3)));
    assert_eq!(events.len(), 1);
    assert_eq!((events[0].worker_id, events[0].event.dp_rank), (4, 3));
    assert_eq!(listener.watermark(), 0);
    assert_eq!(listener.cursor(), CursorState::Live(0));
    assert_eq!(listener.messages_processed(), 1);

    assert_eq!(listener.on_message(&message(0)), MessageStep::Stale);
    assert_eq!(
        listener.on_message(&message(3)),
        MessageStep::Replay { start_seq: 1, end_seq: 3 }
    );
    let replayed = listener.apply_replayed_batch(3, stored_batch(8, None));
    assert_eq!(replayed[0].event.dp_rank, 1);
    assert_eq!(listener.watermark(), 3);
    assert!(!listener.still_needed(3) && listener.still_needed(4));
}

#[test]
fn a_replay_ends_with_an_empty_message() {
    assert_eq!(on_replay_message(&vec![]), ReplayStep::Stop);
    assert_eq!(
        on_replay_message(&vec![vec![], seq_frame(6), vec![1]]),
        ReplayStep::Apply { seq: 6 }
    );
    assert_eq!(on_replay_message(&vec![vec![], seq_frame(6), vec![]]), ReplayStep::Stop);
}

#[test]
fn a_replay_says_what_is_missing() {
    let reason = |batches: &[u64]| {
        let mut progress = ReplayRecoveryProgress::new(3, 6);
        for seq in batches {
            progress.record_batch(*seq);
        }
        assert_eq!(progress.replayed(), batches.len() as u64);
        assert_eq!(progress.warn_if_incomplete().is_some(), progress.failure_reason().is_some());
        progress.failure_reason()
    };
    assert_eq!(reason(&[]), Some(ReplayRecoveryFailureReason::Empty));
    assert_eq!(reason(&[4, 5]), Some(ReplayRecoveryFailureReason::StartedAfterRequested));
    assert_eq!(reason(&[3, 5]), Some(ReplayRecoveryFailureReason::NonContiguous));
    assert_eq!(reason(&[3, 4]), Some(ReplayRecoveryFailureReason::EndedBeforeTarget));
    assert_eq!(reason(&[3, 4, 5]), None);
    assert_eq!(ReplayRecoveryFailureReason::Empty.as_str(), "empty");
}

#[test]
fn replica_sync_port_builds_wildcard_bind_endpoint() {
    assert_eq!(replica_sync_bind_endpoint(8092).unwrap(), "tcp://*:8092");
    assert!(replica_sync_bind_endpoint(0).is_err());
}

#[test]
fn replica_sync_requires_port_for_initial_peers() {
    let error =
        replica_sync_settings(None, &vec!["tcp://127.0.0.1:8092".to_string()]).err().unwrap();

    assert!(error
        .message()
        .contains("--replica-sync-peers requires --replica-sync-port"));
}

#[test]
fn replicas_have_numbers_of_their_own() {
    assert!(matches!(replica_sync_settings(None, &vec![]), Ok(None)));
    let settings = replica_sync_settings(Some(8092), &vec![]).ok().unwrap().unwrap();
    assert_eq!(settings.bind_endpoint, "tcp://*:8092");
    assert_ne!(settings.process_id, 0);
    assert_ne!(generate_process_id(), generate_process_id());
    assert_eq!(
        replica_sync_settings(Some(0), &vec![]).err(),
        Some(ReplicaSyncError::ZeroPort)
    );
}

#[test]
fn replica_messages_carry_their_payload_after_the_topic() {
    let topic = REPLICA_TOPIC.as_bytes().to_vec();
    assert_eq!(replica_payload(&vec![topic.clone(), vec![1, 2]]), Some(&vec![1, 2]));
    assert_eq!(replica_payload(&vec![vec![9], vec![1, 2]]), None);
    assert_eq!(replica_payload(&vec![topic]), None);
}

#[test]
fn disabled_replica_sync_lists_no_peers_and_rejects_mutation() {
    assert!(PeerSet::new().list_peers().is_empty());
    assert_eq!(register_peer_status(&None), 409);
    assert_eq!(deregister_peer_status(&None), 409);
}

#[test]
fn manages_replica_sync_peers() {
    let endpoint = "tcp://127.0.0.1:19092";
    let mut peers = PeerSet::new();
    assert_eq!(register_peer_status(&Some(Ok(peers.insert(endpoint)))), 201);
    assert_eq!(register_peer_status(&Some(Ok(peers.insert(endpoint)))), 200);
    assert_eq!(peers.list_peers(), &vec![endpoint.to_string()]);
    assert!(peers.contains(endpoint));
    let invalid = PeerError::InvalidEndpoint("invalid".to_string());
    assert!(invalid.message().contains("invalid"));
    assert_eq!(register_peer_status(&Some(Err(invalid))), 400);
    assert_eq!(deregister_peer_status(&Some(Ok(peers.remove(endpoint)))), 200);
    assert_eq!(deregister_peer_status(&Some(Ok(peers.remove(endpoint)))), 404);
    assert_eq!(register_peer_status(&Some(Err(PeerError::Unavailable))), 503);
}

#[test]
fn peers_are_listed_in_order() {
    let mut peers = PeerSet::new();
    for endpoint in ["tcp://b:1", "tcp://a:2", "tcp://a:1"] {
        assert!(peers.insert(endpoint));
    }
    assert_eq!(peers.list_peers(), &vec!["tcp://a:1", "tcp://a:2", "tcp://b:1"]);
}

#[test]
fn test_store_and_check() {
    let mut store = SharedCacheStore::new();
    store.store(&[100, 200, 300]);

    let hits = store.check_blocks(&[100, 999, 200, 300, 888]);
    assert_eq!(hits.total_hits, 3);
    assert_eq!(hits.ranges, vec![0..1, 2..4]);
    store.store(&[100, 400]);
    assert_eq!(store.len(), 4);
}

#[test]
fn test_remove_blocks() {
    let mut store = SharedCacheStore::new();
    store.store(&[10, 20, 30]);
    store.remove(&[20]);

    let hits = store.check_blocks(&[10, 20, 30]);
    assert_eq!(hits.total_hits, 2);
    assert_eq!(hits.ranges, vec![0..1, 2..3]);
}

#[test]
fn check_blocks_returns_wire_format() {
    let mut store = SharedCacheStore::new();
    assert!(store.is_empty());
    store.store(&[10, 30]);
    let response =
        store.answer(&SharedCacheQueryRequest { block_hashes: vec![10, 20, 30] });
    assert_eq!(response.ranges, vec![[0, 1], [2, 3]]);
    assert!(!store.is_empty());
}

#[test]
fn hits_are_runs_of_blocks() {
    let hits = SharedCacheHits::from_hits(&vec![true, true, false, true]);
    assert_eq!(hits.ranges, vec![0..2, 3..4]);
    assert_eq!(hits.total_hits, 3);
    assert!(SharedCacheHits::from_hits(&vec![false]).ranges.is_empty());
}

#[test]
fn there_are_as_many_hits_as_the_ranges_are_long() {
    let mut store = SharedCacheStore::new();
    store.store(&[1, 2, 4, 6, 7, 8]);
    let hits = store.check_blocks(&[1, 2, 3, 4, 5, 6, 7, 8]);
    assert_eq!(hits.ranges, vec![0..2, 3..4, 5..8]);
    let lengths: Vec<u32> = hits.ranges.iter().map(|range| range.end - range.start).collect();
    assert_eq!(lengths, vec![2, 1, 3]);
    assert_eq!(hits.total_hits, 6);
}

#[test]
fn parse_header_name_validates() {
    assert!(parse_header_name("x-trace-id").is_ok());
    assert!(parse_header_name("x-request-id").is_ok());
    assert!(parse_header_name("invalid header\n").is_err());
}

#[test]
fn header_names_are_written_small() {
    assert_eq!(parse_header_name("X-Trace-Id"), Ok("x-trace-id".to_string()));
    assert_eq!(parse_header_name(""), Err(InvalidHeaderName));
}

#[test]
fn an_access_log_entry_names_what_is_missing() {
    let entry = AccessLogEntry::new(
        "now".to_string(),
        None,
        "POST".to_string(),
        None,
        None,
        200,
        F64Bits(1.5f64.to_bits()),
    );
    assert_eq!(f64::from_bits(entry.duration_ms.0), 1.5);
    let model = AccessLogModel("m".to_string());
    let named = AccessLogEntry::new(
        "now".to_string(),
        Some("trace"),
        "POST".to_string(),
        Some("/query"),
        Some(&model),
        200,
        F64Bits(0),
    );
    assert_eq!(
        (named.trace_id.as_str(), named.path.as_str(), named.model.as_str()),
        ("trace", "/query", "m")
    );
    assert_ne!(entry.trace_id, named.trace_id);
}

fn nothing() -> LowerTierMatchDetails {
    LowerTierMatchDetails { hits: FxMap::default(), next_continuations: FxMap::default() }
}

#[test]
fn build_score_response_contains_per_instance_tier_breakdown() {
    let block_size: u32 = 4;
    let mut indexer = KvIndexer::new(block_size);
    for worker_id in [7u64, 8] {
        indexer.apply_event_with_counters(&make_store_event(worker_id, &[11, 12])).1.unwrap();
    }
    let anchor = match make_store_event(7, &[11, 12]).event.data {
        KvCacheEventData::Stored(op) => op.blocks[1].block_hash.0,
        _ => unreachable!("a store event"),
    };
    let mut lower_tiers = LowerTierIndexers::new(1, block_size);
    lower_tiers.store(
        StorageTier::HostPinned,
        LowerTierLink { worker: (7, 0), parent: Some(anchor), local: 13, hash: 99 },
    );

    let sequence = vec![LocalBlockHash(11), LocalBlockHash(12), LocalBlockHash(13)];
    let device = indexer.find_match_details(&sequence);
    let lower_tier = query_lower_tiers(&lower_tiers, &sequence, &device);
    let tiered = TieredMatchDetails { device, lower_tier };
    let response = build_score_response(&tiered, block_size);

    assert_eq!(response.scores.get(&(7, 0)).copied(), Some(2 * block_size));

    let inst_7 = response.instances.get(&7).unwrap();
    assert_eq!(inst_7.gpu, 2 * block_size);
    assert_eq!(inst_7.cpu, 3 * block_size);
    assert_eq!(inst_7.disk, 3 * block_size);
    assert_eq!(inst_7.dp.get(&0).copied(), Some(2 * block_size));
    assert_eq!(inst_7.longest_matched, 3 * block_size);

    let inst_8 = response.instances.get(&8).unwrap();
    assert_eq!(inst_8.gpu, 2 * block_size);
    assert_eq!(inst_8.cpu, 2 * block_size);
    assert_eq!(inst_8.disk, 2 * block_size);
    assert_eq!(inst_8.longest_matched, 2 * block_size);
}

#[test]
fn converts_weighted_and_raw_tier_overlap_once() {
    let worker = WorkerWithDpRank::new(7, 1);
    let mut device = OverlapScores::new();
    device.scores.insert(worker.key(), 2);
    let mut host = nothing();
    host.hits.insert(worker.key(), 3);
    let mut disk = nothing();
    disk.hits.insert(worker.key(), 4);
    let mut external = nothing();
    external.hits.insert(worker.key(), 5);
    let tiered = TieredMatchDetails {
        device: MatchDetails { overlap_scores: device, last_matched_hashes: Default::default() },
        lower_tier: vec![
            (StorageTier::HostPinned, host),
            (StorageTier::Disk, disk),
            (StorageTier::External, external),
        ],
    };
    let config = KvRouterConfig {
        host_cache_hit_weight: F64Bits(0.5f64.to_bits()),
        disk_cache_hit_weight: F64Bits(0.25f64.to_bits()),
        ..Default::default()
    };

    let tiers = tier_overlap_blocks_from_tiered_matches(&tiered);
    let weight = |tier| f64::from_bits(cache_hit_weight_for_tier(&config, tier).0);
    let effective = tiers.device[&worker.key()] as f64 * weight(StorageTier::Device)
        + tiers.host_pinned[&worker.key()] as f64 * weight(StorageTier::HostPinned)
        + tiers.disk[&worker.key()] as f64 * weight(StorageTier::Disk);

    assert_eq!(effective, 5.75);
    assert_eq!((effective * 16.0) as usize, 92);
    assert_eq!(weight(StorageTier::External), 0.25);
    assert_eq!(tiers.device[&worker.key()], 2);
    assert_eq!(tiers.host_pinned[&worker.key()], 3);
    assert_eq!(tiers.disk[&worker.key()], 9);
}

#[test]
fn unregistering_goes_as_far_as_it_says() {
    let request = |tenant_id: Option<&str>, dp_rank| UnregisterRequest {
        instance_id: 1,
        model_name: "m".to_string(),
        tenant_id: tenant_id.map(str::to_string),
        dp_rank,
    };
    assert_eq!(request(None, None).scope(), UnregisterScope::AllTenants);
    assert_eq!(request(Some("t"), None).scope(), UnregisterScope::Tenant);
    assert_eq!(request(Some("t"), Some(2)).scope(), UnregisterScope::Rank(2));
}

#[test]
fn queried_hashes_keep_their_bits() {
    let query = QueryByHashRequest {
        block_hashes: vec![-1, 5],
        model_name: "m".to_string(),
        tenant_id: "t".to_string(),
        cache_salt: None,
    };
    assert_eq!(query.local_hashes(), vec![LocalBlockHash(u64::MAX), LocalBlockHash(5)]);
}

#[test]
fn a_query_asks_for_the_blocks_of_its_tokens() {
    let mut request = QueryRequest {
        token_ids: (0..9).collect(),
        model_name: "m".to_string(),
        tenant_id: "t".to_string(),
        lora_name: None,
        cache_salt: None,
    };
    let tokens: Vec<u32> = (0..9).collect();
    let plain = compute_block_hash_for_seq(&tokens, 4, BlockHashOptions::default());
    assert_eq!(request.local_hashes(4), plain);
    assert_eq!(plain.len(), 2);
    request.lora_name = Some("adapter".to_string());
    let adapted = request.local_hashes(4);
    assert_eq!(adapted.len(), 2);
    assert_ne!(adapted, plain);
    assert!(request.local_hashes(16).is_empty());
    assert_eq!(no_indexer_message("m", "t"), "no indexer for model=m tenant=t");
}

#[test]
fn scores_fit_up_to_the_largest_count() {
    let mut host = nothing();
    host.hits.insert((1, 0), 3);
    let mut device = MatchDetails::new();
    device.overlap_scores.scores.insert((1, 0), 2);
    let tiered = TieredMatchDetails { device, lower_tier: vec![(StorageTier::HostPinned, host)] };
    assert!(scores_fit(&tiered, u32::MAX / 5));
    assert!(!scores_fit(&tiered, u32::MAX / 5 + 1));

    let mut disk = nothing();
    disk.hits.insert((9, 1), u32::MAX as usize + 1);
    let tiered =
        TieredMatchDetails { device: MatchDetails::new(), lower_tier: vec![(StorageTier::Disk, disk)] };
    assert!(!scores_fit(&tiered, 0));
}
