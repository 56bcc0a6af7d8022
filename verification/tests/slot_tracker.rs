//! Trackers of the requests that workers serve.

use kv_router::protocols::{PrefillLoadHint, WorkerWithDpRank};
use kv_router::sequences::{
    ActiveSequenceEvent, ActiveSequenceEventData, ActiveSequencesMultiWorker, SequenceError,
    SequenceRequest, WorkerDpRange, WorkerTopologyError, EXPIRY_MILLIS,
};
use kv_router::services::indexer::unsigned_hashes;
use kv_router::services::slot_tracker::registry::listing::{ActiveLoadInfo, WorkerInfo};
use kv_router::services::slot_tracker::registry::{SlotReplicaEvent, SlotTrackerRegistry};
use kv_router::services::slot_tracker::{RegistryError, ServiceError, TrackerKey};

fn registry() -> SlotTrackerRegistry {
    SlotTrackerRegistry::new()
}

fn key(tenant_id: &str) -> TrackerKey {
    TrackerKey::new("model".to_string(), Some(tenant_id.to_string()))
}

fn no_load(dp_rank: u32) -> ActiveLoadInfo {
    ActiveLoadInfo {
        model_name: "model".to_string(),
        tenant_id: "default".to_string(),
        worker_id: 1,
        dp_rank,
        active_prefill_tokens: 0,
        active_decode_blocks: 0,
    }
}

fn replica_event(
    tenant_id: &str,
    block_size: u32,
    worker: WorkerWithDpRank,
    router_id: u64,
) -> SlotReplicaEvent {
    SlotReplicaEvent {
        model_name: "model".to_string(),
        tenant_id: tenant_id.to_string(),
        block_size,
        event: ActiveSequenceEvent {
            request_id: "replica-request".to_string(),
            worker,
            data: ActiveSequenceEventData::AddRequest {
                token_sequence: Some(vec![1, 2, 3]),
                track_prefill_tokens: false,
                expected_output_tokens: None,
                prefill_load_hint: None,
            },
            router_id,
            lora_name: None,
        },
    }
}

#[test]
fn register_validates_ranges() {
    let mut registry = registry();
    assert!(matches!(
        registry.register(key("default"), 1, 0, 0, 1),
        Err(RegistryError::InvalidBlockSize)
    ));
    assert!(matches!(
        registry.register(key("default"), 1, 16, 0, 0),
        Err(RegistryError::InvalidDpSize)
    ));
    assert!(matches!(
        registry.register(key("default"), 1, 16, u32::MAX, 1),
        Err(RegistryError::InvalidDpRange { .. })
    ));
}

#[test]
fn register_expands_dp_range_and_enforces_tracker_invariants() {
    let mut registry = registry();
    registry.register(key("default"), 1, 16, 2, 2).unwrap();

    assert_eq!(registry.list_loads(None, None), vec![no_load(2), no_load(3)]);
    assert!(matches!(
        registry.register(key("default"), 1, 16, 0, 1),
        Err(RegistryError::DuplicateWorker { .. })
    ));
    assert!(matches!(
        registry.register(key("default"), 2, 32, 0, 1),
        Err(RegistryError::BlockSizeMismatch { .. })
    ));
}

#[test]
fn unregister_busy_worker_removes_tracker_and_readd_starts_empty() {
    let mut registry = registry();
    registry.register(key("default"), 1, 16, 0, 1).unwrap();
    registry
        .add_request(
            &key("default"),
            "req-1".to_string(),
            WorkerWithDpRank::new(1, 0),
            vec![1, 2],
            8,
            0,
        )
        .unwrap();

    registry.unregister(&key("default"), 1).unwrap();
    assert!(registry.list_workers(None, None).is_empty());

    registry.register(key("default"), 1, 16, 0, 1).unwrap();
    assert_eq!(registry.list_loads(None, None), vec![no_load(0)]);
}

#[test]
fn concurrent_last_worker_removal_and_registration_keep_fresh_entry() {
    let mut registry = registry();
    for turn in 0..64 {
        registry.register(key("default"), 1, 16, 0, 1).unwrap();
        if turn % 2 == 0 {
            registry.unregister(&key("default"), 1).unwrap();
            registry.register(key("default"), 2, 16, 0, 1).unwrap();
        } else {
            registry.register(key("default"), 2, 16, 0, 1).unwrap();
            registry.unregister(&key("default"), 1).unwrap();
        }

        let workers = registry.list_workers(None, None);
        assert_eq!(workers.len(), 1);
        assert_eq!(workers[0].worker_id, 2);
        registry.unregister(&key("default"), 2).unwrap();
    }
}

#[test]
fn replica_dispatch_requires_registered_worker_and_matching_configuration() {
    let mut registry = SlotTrackerRegistry::new_with_replica_sync(7);
    registry.register(key("default"), 1, 16, 0, 1).unwrap();

    for event in [
        replica_event("default", 16, WorkerWithDpRank::new(1, 1), 8),
        replica_event("default", 32, WorkerWithDpRank::new(1, 0), 8),
        replica_event("default", 16, WorkerWithDpRank::new(1, 0), 7),
    ] {
        registry.dispatch_replica_event(event, 0);
    }
    assert_eq!(registry.list_loads(None, None)[0].active_decode_blocks, 0);

    registry.dispatch_replica_event(
        replica_event("default", 16, WorkerWithDpRank::new(1, 0), 8),
        0,
    );
    assert_eq!(registry.list_loads(None, None)[0].active_decode_blocks, 3);
}

#[test]
fn worker_ids_are_scoped_by_model_and_tenant() {
    let mut registry = registry();
    registry.register(key("a"), 1, 16, 0, 1).unwrap();
    registry.register(key("b"), 1, 16, 0, 1).unwrap();
    assert_eq!(registry.list_workers(None, None).len(), 2);
}

#[test]
fn lifecycle_preserves_arrival_order_and_strict_admission() {
    let mut registry = registry();
    let key = key("default");
    registry.register(TrackerKey::new("model".to_string(), None), 1, 16, 0, 1).unwrap();

    registry.free(&key, "early-free").unwrap();
    assert!(matches!(
        registry.mark_prefill_completed(&key, "early-complete"),
        Err(ServiceError::Sequence(SequenceError::RequestNotFound { .. }))
    ));
    assert!(matches!(
        registry.add_request(
            &key,
            "bad-rank".to_string(),
            WorkerWithDpRank::new(1, 1),
            vec![1],
            0,
            0,
        ),
        Err(ServiceError::Sequence(SequenceError::WorkerNotFound { .. }))
    ));

    registry
        .add_request(
            &key,
            "early-free".to_string(),
            WorkerWithDpRank::new(1, 0),
            vec![1, 2],
            8,
            0,
        )
        .unwrap();
    assert!(matches!(
        registry.add_request(
            &key,
            "early-free".to_string(),
            WorkerWithDpRank::new(1, 0),
            vec![1, 2],
            8,
            0,
        ),
        Err(ServiceError::Sequence(SequenceError::DuplicateRequest { .. }))
    ));
    registry.mark_prefill_completed(&key, "early-free").unwrap();
    registry.mark_prefill_completed(&key, "early-free").unwrap();
    registry.free(&key, "early-free").unwrap();
    registry.free(&key, "early-free").unwrap();

    registry
        .add_request(
            &key,
            "early-complete".to_string(),
            WorkerWithDpRank::new(1, 0),
            vec![3],
            8,
            0,
        )
        .unwrap();
    assert_eq!(registry.list_loads(None, None)[0].active_prefill_tokens, 8);
    registry.free(&key, "early-complete").unwrap();

    assert_eq!(registry.list_loads(None, None)[0].active_decode_blocks, 0);
}

#[test]
fn potential_loads_reuse_active_hashes_and_add_uniform_prefill() {
    let mut registry = registry();
    registry.register(key("default"), 1, 16, 0, 1).unwrap();
    registry
        .add_request(
            &key("default"),
            "req-1".to_string(),
            WorkerWithDpRank::new(1, 0),
            vec![1, 2, 3],
            8,
            0,
        )
        .unwrap();

    let loads = registry.potential_loads(&key("default"), &[1, 2, 4], 5).unwrap();
    assert_eq!(loads.len(), 1);
    assert_eq!(loads[0].worker_id, 1);
    assert_eq!(loads[0].dp_rank, 0);
    assert_eq!(loads[0].potential_prefill_tokens, 13);
    assert_eq!(loads[0].potential_decode_blocks, 4);
}

#[test]
fn periodic_expiry_clears_requests_older_than_300_seconds() {
    let mut registry = registry();
    registry.register(key("default"), 1, 16, 0, 1).unwrap();
    registry
        .add_request(
            &key("default"),
            "req-1".to_string(),
            WorkerWithDpRank::new(1, 0),
            vec![1, 2, 3],
            8,
            0,
        )
        .unwrap();

    registry.force_expiry(EXPIRY_MILLIS);
    assert_eq!(registry.list_loads(None, None)[0].active_decode_blocks, 3);
    registry.force_expiry(331_000);
    assert_eq!(registry.list_loads(None, None)[0].active_decode_blocks, 0);
}

#[test]
fn signed_hashes_are_reinterpreted_bit_for_bit() {
    let mut registry = registry();
    registry.register(key("default"), 1, 16, 0, 1).unwrap();
    let hashes = unsigned_hashes(&vec![-1]);
    assert_eq!(hashes, vec![u64::MAX]);
    registry
        .add_request(
            &key("default"),
            "req".to_string(),
            WorkerWithDpRank::new(1, 0),
            hashes,
            4,
            0,
        )
        .unwrap();
    let loads =
        registry.potential_loads(&key("default"), &unsigned_hashes(&vec![-1]), 0).unwrap();
    assert_eq!(loads[0].potential_decode_blocks, 1);
}

#[test]
fn lists_are_filtered_and_in_order() {
    let mut registry = registry();
    registry.register(key("b"), 2, 16, 0, 1).unwrap();
    registry.register(key("b"), 1, 16, 3, 2).unwrap();
    registry.register(key("a"), 9, 16, 0, 1).unwrap();
    let ids: Vec<(String, u64)> = registry
        .list_workers(Some("model"), None)
        .into_iter()
        .map(|worker| (worker.tenant_id, worker.worker_id))
        .collect();
    assert_eq!(
        ids,
        vec![("a".to_string(), 9), ("b".to_string(), 1), ("b".to_string(), 2)]
    );
    assert_eq!(
        registry.list_workers(None, Some("a")),
        vec![WorkerInfo {
            worker_id: 9,
            model_name: "model".to_string(),
            tenant_id: "a".to_string(),
            block_size: 16,
            dp_start: 0,
            dp_size: 1,
        }]
    );
    assert!(registry.list_workers(Some("other"), None).is_empty());
    assert_eq!(registry.list_loads(None, Some("b")).len(), 3);
}

#[test]
fn errors_of_the_tracker_service_have_words_and_codes() {
    let mut registry = registry();
    registry.register(key("t"), 1, 16, 0, 1).unwrap();
    let duplicate = registry.register(key("t"), 1, 16, 0, 1).unwrap_err();
    assert_eq!(duplicate.status_code(), 409);
    let mismatch = registry.register(key("t"), 2, 32, 0, 1).unwrap_err();
    assert_eq!(mismatch.status_code(), 409);
    assert!(mismatch.message().contains("16") && mismatch.message().contains("32"));
    let unknown = registry.unregister(&key("t"), 5).unwrap_err();
    assert_eq!(unknown.status_code(), 404);
    assert!(unknown.message().contains("5"));
    assert!(matches!(
        registry.unregister(&key("u"), 5),
        Err(RegistryError::WorkerNotFound { .. })
    ));
    let untracked = registry.potential_loads(&key("u"), &[], 0).unwrap_err();
    assert!(matches!(untracked, RegistryError::TrackerNotFound { .. }));
    assert_eq!(untracked.status_code(), 404);
    let invalid = registry.register(key("v"), 1, 0, 0, 1).unwrap_err();
    assert_eq!(invalid.status_code(), 400);
    let missing = registry
        .mark_prefill_completed(&key("t"), "nobody")
        .unwrap_err();
    assert_eq!(missing.status_code(), 404);
    assert_eq!(TrackerKey::new("m".to_string(), None).tenant_id, "default");
}

fn request(id: &str, worker: WorkerWithDpRank, hashes: Vec<u64>, tokens: usize) -> SequenceRequest {
    SequenceRequest {
        request_id: id.to_string(),
        token_sequence: Some(hashes),
        track_prefill_tokens: true,
        expected_output_tokens: None,
        prefill_load_hint: Some(PrefillLoadHint {
            initial_effective_prefill_tokens: tokens,
            expected_prefill_duration: None,
        }),
        worker,
        lora_name: None,
    }
}

#[test]
fn freeing_a_request_undoes_adding_it() {
    let mut slots = ActiveSequencesMultiWorker::new();
    slots.register_worker(WorkerDpRange::new(1, 0, 2)).unwrap();
    let worker = WorkerWithDpRank::new(1, 1);
    slots.add_request_if_registered(request("a", worker, vec![1, 2], 7), 0).unwrap();
    slots.add_request_if_registered(request("b", worker, vec![2, 3], 5), 0).unwrap();
    assert_eq!(slots.potential_decode_blocks((1, 1), &[]), 3);
    assert_eq!(slots.potential_prefill_tokens((1, 1), 0), 12);
    slots.free("b");
    assert_eq!(slots.potential_decode_blocks((1, 1), &[]), 2);
    assert_eq!(slots.potential_prefill_tokens((1, 1), 0), 7);
    slots.mark_prefill_completed("a").unwrap();
    assert_eq!(slots.potential_prefill_tokens((1, 1), 0), 0);
    assert!(slots.is_active("a") && !slots.is_active("b"));
}

#[test]
fn output_blocks_count_on_top_of_the_prompt() {
    let mut slots = ActiveSequencesMultiWorker::new();
    slots.register_worker(WorkerDpRange::new(1, 0, 1)).unwrap();
    let worker = WorkerWithDpRank::new(1, 0);
    slots.add_request_if_registered(request("a", worker, vec![1], 0), 0).unwrap();
    slots.add_output_block("a").unwrap();
    slots.add_output_block("a").unwrap();
    assert_eq!(slots.potential_decode_blocks((1, 0), &[1, 9]), 4);
    assert!(slots.add_output_block("b").is_err());
    slots.free("a");
    assert_eq!(slots.potential_decode_blocks((1, 0), &[]), 0);
}

#[test]
fn new_ranks_keep_the_requests_on_them() {
    let mut slots = ActiveSequencesMultiWorker::new();
    slots.upsert_worker(WorkerDpRange::new(1, 0, 2)).unwrap();
    slots
        .add_request_if_registered(request("low", WorkerWithDpRank::new(1, 0), vec![1], 0), 0)
        .unwrap();
    slots
        .add_request_if_registered(request("high", WorkerWithDpRank::new(1, 1), vec![1], 0), 0)
        .unwrap();
    slots.upsert_worker(WorkerDpRange::new(1, 1, 2)).unwrap();
    assert!(!slots.is_active("low") && slots.is_active("high"));
    assert!(slots.has_registered_workers());
    assert_eq!(slots.worker_ranges().len(), 1);
    slots.unregister_worker(1).unwrap();
    assert!(!slots.is_active("high") && !slots.has_registered_workers());
    assert_eq!(
        slots.unregister_worker(1),
        Err(WorkerTopologyError::WorkerNotFound { worker_id: 1 })
    );
    assert_eq!(
        WorkerDpRange::new(4, 0, 0).validate(),
        Err(WorkerTopologyError::InvalidDpSize { worker_id: 4 })
    );
}

#[test]
fn replicas_report_the_whole_life_of_a_request() {
    let mut slots = ActiveSequencesMultiWorker::new();
    slots.register_worker(WorkerDpRange::new(1, 0, 1)).unwrap();
    let event = |data| ActiveSequenceEvent {
        request_id: "r".to_string(),
        worker: WorkerWithDpRank::new(1, 0),
        data,
        router_id: 8,
        lora_name: None,
    };
    slots.apply_replica_event(
        event(ActiveSequenceEventData::AddRequest {
            token_sequence: Some(vec![1, 2]),
            track_prefill_tokens: true,
            expected_output_tokens: None,
            prefill_load_hint: Some(PrefillLoadHint {
                initial_effective_prefill_tokens: 4,
                expected_prefill_duration: None,
            }),
        }),
        0,
    );
    assert_eq!(slots.potential_prefill_tokens((1, 0), 0), 4);
    slots.apply_replica_event(event(ActiveSequenceEventData::MarkPrefillCompleted), 0);
    assert_eq!(slots.potential_prefill_tokens((1, 0), 0), 0);
    assert_eq!(slots.potential_decode_blocks((1, 0), &[]), 2);
    slots.apply_replica_event(event(ActiveSequenceEventData::Free), 0);
    assert_eq!(slots.potential_decode_blocks((1, 0), &[]), 0);
}
