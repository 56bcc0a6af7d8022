//! The selection service: its workers, prompts, selections and reservations.

use kv_router::collections::FxMap;
use kv_router::hashing::{
    compute_block_hash_for_seq, compute_seq_hash_for_block, BlockHashOptions,
};
use kv_router::indexer::lower_tier::{LowerTierMatchDetails, TieredMatchDetails};
use kv_router::protocols::{
    BlockExtraInfo, BlockMmObjectInfo, LocalBlockHash, MatchDetails, OverlapScores,
    RoutingConstraints, StorageTier, WorkerWithDpRank,
};
use kv_router::scheduling::admission::{Admission, SchedulingResponse, WorkerSelection, WorkerSelector};
use kv_router::scheduling::config::{
    F64Bits, KvRouterConfig, RouterConfigOverride, RouterQueuePolicy,
};
use kv_router::scheduling::policy_config::{
    ClassRules, PolicyClassConfig, PolicyProfile, UncachedIslBucket,
};
use kv_router::scheduling::policy_queue::{QueueLimitKind, QueueRejection};
use kv_router::scheduling::prefill_load::PrefillLoadEstimator;
use kv_router::scheduling::queue::{EnqueueOutcome, RefreshedOverlap};
use kv_router::scheduling::types::{
    KvSchedulerError, PotentialLoad, RouterBackpressureReason, SchedulableWorker,
    SchedulingRequest, TierOverlapBlocks,
};
use kv_router::sequences::{ActiveSequenceEvent, ActiveSequenceEventData, SequenceError};
use kv_router::services::selection::catalog::WorkerCatalog;
use kv_router::services::selection::error::SelectionError;
use kv_router::services::selection::listeners::{bad_endpoint, listeners_by_rank};
use kv_router::services::selection::prompt::{MmRoutingInfoRequest, PromptRequest};
use kv_router::services::selection::scoring::build_overlap_scores_response;
use kv_router::services::selection::service::answers::reservation_id_or_new;
use kv_router::services::selection::service::requests::{
    SelectAndReserveRequest, SelectRequest, SelectionOperation,
};
use kv_router::services::selection::service::scheduling::NO_TOKEN_LIMIT;
use kv_router::services::selection::service::{
    ReconcileStep, ReservationRequest, SelectionCore,
};
use kv_router::services::selection::types::{
    ModelLoadResponse, SelectResponse, SelectionKey, WorkerCatalogRecord, WorkerLifecycle,
    WorkerPatchRequest, WorkerRequest,
};
use kv_router::services::slot_tracker::registry::SlotReplicaEvent;

struct FirstAllowed;

impl WorkerSelector for FirstAllowed {
    fn select_worker(
        &self,
        workers: &Vec<SchedulableWorker>,
        request: &SchedulingRequest,
        _overloaded_worker_ids: Option<&Vec<u64>>,
        _block_size: u32,
    ) -> Result<WorkerSelection, KvSchedulerError> {
        match workers.iter().find(|worker| request.allows_worker(worker)) {
            Some(worker) => {
                let at = WorkerWithDpRank::new(worker.worker_id, worker.dp_start);
                Ok(WorkerSelection {
                    worker: at,
                    effective_overlap_blocks: F64Bits(0),
                    cached_tokens: request.effective_cached_tokens_for(at),
                })
            }
            None => Err(KvSchedulerError::NoEndpoints),
        }
    }
}

struct NoEstimate;

impl PrefillLoadEstimator for NoEstimate {
    fn predict_prefill_duration(&self, _: usize, _: usize, _: usize) -> Result<u64, String> {
        Err("none".to_string())
    }
}

fn no_constraints() -> RoutingConstraints {
    RoutingConstraints { required_taints: vec![], preferred_taints: vec![] }
}

fn one_class() -> Result<PolicyProfile, String> {
    Ok(PolicyProfile::unclassified(RouterQueuePolicy::Fcfs, None))
}

fn no_overlap() -> RefreshedOverlap {
    RefreshedOverlap {
        tier_overlap_blocks: TierOverlapBlocks {
            device: FxMap::default(),
            host_pinned: FxMap::default(),
            disk: FxMap::default(),
        },
        effective_overlap_blocks: FxMap::default(),
        effective_cached_tokens: FxMap::default(),
    }
}

fn service(queueing: bool, use_kv_events: bool) -> SelectionCore {
    SelectionCore::new(queueing, use_kv_events, true)
}

fn key() -> SelectionKey {
    SelectionKey::new("model".to_string(), "default".to_string())
}

fn worker(worker_id: u64) -> WorkerRequest {
    WorkerRequest {
        worker_id,
        model_name: "model".to_string(),
        tenant_id: "default".to_string(),
        endpoint: Some(format!("http://worker-{worker_id}:8000")),
        kv_events_endpoint: None,
        kv_events_endpoints: vec![],
        replay_endpoint: None,
        block_size: Some(4),
        data_parallel_start_rank: None,
        data_parallel_size: None,
        max_num_batched_tokens: Some(1024),
        total_kv_blocks: None,
        stable_routing_id: None,
        is_eagle: None,
        taints: vec![],
        topology_domains: vec![],
        kv_transfer_domain: None,
        kv_transfer_enforcement: None,
        kv_transfer_preferred_weight: None,
    }
}

fn empty_patch() -> WorkerPatchRequest {
    WorkerPatchRequest {
        endpoint: None,
        kv_events_endpoint: None,
        kv_events_endpoints: None,
        replay_endpoint: None,
        block_size: None,
        data_parallel_start_rank: None,
        data_parallel_size: None,
        max_num_batched_tokens: None,
        total_kv_blocks: None,
        stable_routing_id: None,
        is_eagle: None,
        taints: None,
        topology_domains: None,
        kv_transfer_domain: None,
        kv_transfer_enforcement: None,
        kv_transfer_preferred_weight: None,
    }
}

fn record_of(core: &SelectionCore, worker_id: u64) -> &WorkerCatalogRecord {
    let place = core.catalog().find(worker_id).unwrap();
    core.catalog().at(place)
}

/// Makes a worker ready, with the word of whoever listens to its events.
fn reconcile(core: &mut SelectionCore, worker_id: u64, listening: Result<(), SelectionError>) {
    reconcile_with(core, worker_id, listening, one_class());
}

fn reconcile_with(
    core: &mut SelectionCore,
    worker_id: u64,
    listening: Result<(), SelectionError>,
    profile: Result<PolicyProfile, String>,
) {
    let mut step = core.begin_reconcile(worker_id, profile).unwrap();
    if step == ReconcileStep::Listen {
        step = core.finish_reconcile(worker_id, listening).unwrap();
    }
    assert_ne!(step, ReconcileStep::Listen);
    let group = record_of(core, worker_id).key();
    core.publish_scheduler_config(&group);
}

fn register(core: &mut SelectionCore, req: WorkerRequest) {
    let worker_id = req.worker_id;
    if core.upsert_worker(req).unwrap() {
        core.drain_worker(worker_id).unwrap();
    }
    reconcile(core, worker_id, Ok(()));
}

fn tokens(token_ids: Vec<u32>) -> PromptRequest {
    PromptRequest {
        token_ids: Some(token_ids),
        mm_routing_info: None,
        block_mm_infos: None,
        block_hashes: None,
        sequence_hashes: None,
        isl_tokens: None,
        lora_name: None,
        is_eagle: None,
    }
}

fn prompt() -> PromptRequest {
    tokens(vec![1, 2, 3, 4])
}

fn hashes(
    block_hashes: Option<Vec<u64>>,
    sequence_hashes: Option<Vec<u64>>,
    isl_tokens: Option<usize>,
) -> PromptRequest {
    PromptRequest {
        token_ids: None,
        mm_routing_info: None,
        block_mm_infos: None,
        block_hashes: block_hashes.map(|all| all.into_iter().map(LocalBlockHash).collect()),
        sequence_hashes,
        isl_tokens,
        lora_name: None,
        is_eagle: None,
    }
}

fn select_request() -> SelectRequest {
    SelectRequest {
        model_name: "model".to_string(),
        tenant_id: "default".to_string(),
        selection_id: None,
        prompt: prompt(),
        router_config_override: None,
        expected_output_tokens: None,
        priority_jump: None,
        strict_priority: None,
        pinned_worker: None,
        allowed_worker_ids: None,
        routing_constraints: no_constraints(),
    }
}

fn reserve_request(reservation_id: &str) -> SelectAndReserveRequest {
    SelectAndReserveRequest {
        reservation_id: Some(reservation_id.to_string()),
        select: select_request(),
    }
}

fn reservation(reservation_id: &str, worker_id: u64, effective: Option<usize>) -> ReservationRequest {
    ReservationRequest {
        model_name: "model".to_string(),
        tenant_id: "default".to_string(),
        reservation_id: reservation_id.to_string(),
        worker_id,
        dp_rank: None,
        prompt: hashes(None, Some(vec![1]), Some(4)),
        router_config_override: None,
        expected_output_tokens: None,
        effective_prefill_tokens: effective,
    }
}

/// What came of a selection: its answer, or nothing while it waits.
fn run(
    core: &mut SelectionCore,
    operation: SelectionOperation,
    book: bool,
    limits: &FxMap<u64, usize>,
) -> Option<Result<SelectResponse, SelectionError>> {
    run_in(core, operation, book, |_| limits.clone())
}

/// The same where the classes have limits of their own.
fn run_in(
    core: &mut SelectionCore,
    operation: SelectionOperation,
    book: bool,
    limits: impl Fn(Option<F64Bits>) -> FxMap<u64, usize>,
) -> Option<Result<SelectResponse, SelectionError>> {
    let prepared = match core.begin_selection(&operation, book) {
        Ok(prepared) => prepared,
        Err(error) => return Some(Err(error)),
    };
    let task = core.selection_task(operation, prepared, no_overlap(), book);
    let isl_tokens = task.request.isl_tokens;
    let policy_class = task.policy_class.as_deref();
    let workers = core.schedulable_workers(&task.key, &FxMap::default());
    let class = core.classify_selection(task.place, &task.request, policy_class, &workers);
    let limits = limits(core.class_threshold(task.place, class.class_index));
    let workers = core.schedulable_workers(&task.key, &limits);
    let outcome = core.enqueue_selection(
        task.place,
        task.request,
        policy_class,
        task.strict_priority,
        0,
        &workers,
        1,
    );
    let answer = match outcome {
        EnqueueOutcome::Queued => return None,
        EnqueueOutcome::Rejected(_, error) => Err(error),
        EnqueueOutcome::Admit(request) => {
            let workers = core.schedulable_workers(&task.key, &limits);
            let (_, admission) = core.admit_selection::<FirstAllowed, NoEstimate>(
                task.place,
                request,
                &workers,
                &FirstAllowed,
                None,
                None,
            );
            match admission {
                Admission::Answer(answer) => answer,
                Admission::Book(booking, response) => core
                    .book_selection(task.place, booking, false, 1)
                    .map(|booked| {
                        assert!(booked);
                        response
                    }),
            }
        }
    };
    Some(core.scheduled(answer).and_then(|response| {
        core.finish_selection(
            task.key,
            task.selection_id,
            task.reservation_id,
            task.block_size,
            isl_tokens,
            response,
            None,
        )
    }))
}

fn select(core: &mut SelectionCore, req: SelectRequest) -> Result<SelectResponse, SelectionError> {
    let operation = req.operation(None);
    run(core, operation, false, &FxMap::default()).unwrap()
}

fn select_and_reserve(
    core: &mut SelectionCore,
    req: SelectAndReserveRequest,
) -> Result<SelectResponse, SelectionError> {
    let operation = req.operation(None);
    run(core, operation, true, &FxMap::default()).unwrap()
}

fn only_load(core: &SelectionCore) -> PotentialLoad {
    let loads = core.loads(Some("model"), Some("default"));
    assert_eq!(loads.len(), 1);
    assert_eq!(loads[0].loads.len(), 1);
    loads[0].loads[0]
}

fn assert_shutdown_error(error: SelectionError) {
    assert!(matches!(
        error,
        SelectionError::NotReady(message)
            if message == "selection service is shutting down"
    ));
}

#[test]
fn prompt_normalization_uses_mm_routing_info_and_eagle_hashing() {
    let mm_infos = vec![Some(BlockExtraInfo {
        mm_objects: vec![BlockMmObjectInfo { mm_hash: 42, offsets: vec![(0, 2)] }],
    })];
    let request = PromptRequest {
        token_ids: Some(vec![1, 2, 3, 4]),
        mm_routing_info: Some(MmRoutingInfoRequest {
            routing_token_ids: vec![10, 11, 12, 13, 14, 15, 16, 17],
            block_mm_infos: mm_infos.clone(),
        }),
        block_mm_infos: None,
        block_hashes: None,
        sequence_hashes: None,
        isl_tokens: None,
        lora_name: Some("adapter".to_string()),
        is_eagle: Some(true),
    };

    let normalized = request.normalize_for_selection(4, false).expect("normalize prompt");
    let expected_block_hashes = compute_block_hash_for_seq(
        &[10, 11, 12, 13, 14, 15, 16, 17],
        4,
        BlockHashOptions {
            block_mm_infos: Some(&mm_infos),
            lora_name: Some("adapter"),
            is_eagle: Some(true),
        },
    );
    assert_eq!(normalized.block_hashes, expected_block_hashes);
    assert_eq!(normalized.sequence_hashes, compute_seq_hash_for_block(&expected_block_hashes));
    assert_eq!(normalized.isl_tokens, 8);
    assert!(!expected_block_hashes.is_empty());
}

#[test]
fn overlap_scores_response_honors_override_and_includes_python_shape_fields() {
    let worker = WorkerWithDpRank::new(1, 0);
    let idle_worker = WorkerWithDpRank::new(2, 0);
    let mut device_scores = OverlapScores::new();
    device_scores.scores.insert(worker.key(), 2);
    device_scores.frequencies = vec![1, 1];
    let mut host = LowerTierMatchDetails { hits: FxMap::default(), next_continuations: FxMap::default() };
    host.hits.insert(worker.key(), 1);
    let mut tiered = TieredMatchDetails {
        device: MatchDetails { overlap_scores: device_scores, last_matched_hashes: FxMap::default() },
        lower_tier: vec![],
    };
    tiered.lower_tier.push((StorageTier::HostPinned, host));

    let mut config = KvRouterConfig::default();
    config.host_cache_hit_weight = F64Bits(0.75f64.to_bits());
    let override_config = RouterConfigOverride {
        overlap_score_credit: Some(F64Bits(0.5f64.to_bits())),
        ..RouterConfigOverride::default()
    };
    let response = build_overlap_scores_response(
        &config,
        Some(&override_config),
        &tiered,
        4,
        &vec![worker, idle_worker],
    );

    assert_eq!(response.workers.len(), 2);
    let selected = response.workers.iter().find(|row| row.worker_id == 1).expect("worker row");
    assert_eq!(selected.device_blocks, 2);
    assert_eq!(selected.host_pinned_blocks, 3);
    assert_eq!(selected.disk_blocks, 3);
    assert_eq!(selected.host_pinned_extension_blocks, 1);
    assert_eq!(selected.shared_beyond_device_blocks, None);
    let credit = selected.device_blocks as f64 * f64::from_bits(response.device_credit.0)
        + selected.host_pinned_extension_blocks as f64 * f64::from_bits(response.host_weight.0)
        + selected.disk_extension_blocks as f64 * f64::from_bits(response.disk_weight.0);
    assert_eq!(credit, 1.75);
    assert!(!response.shared_cache.enabled);
}

#[test]
fn a_rank_that_only_a_device_entry_names_has_a_row() {
    let mut hits = FxMap::default();
    hits.insert((9, 1), 4);
    let tiered = TieredMatchDetails {
        device: MatchDetails { overlap_scores: OverlapScores::new(), last_matched_hashes: FxMap::default() },
        lower_tier: vec![(
            StorageTier::Device,
            LowerTierMatchDetails { hits, next_continuations: FxMap::default() },
        )],
    };
    let response = build_overlap_scores_response(
        &KvRouterConfig::default(),
        None,
        &tiered,
        4,
        &vec![WorkerWithDpRank::new(1, 0)],
    );
    let ids: Vec<_> = response.workers.iter().map(|row| (row.worker_id, row.dp_rank)).collect();
    assert_eq!(ids, vec![(1, 0), (9, 1)]);
    assert_eq!(response.workers[1].device_blocks, 0);
    assert_eq!(response.workers[1].host_pinned_extension_blocks, 0);
}

#[test]
fn a_group_that_takes_requests_tells_its_settings() {
    let mut core = service(false, false);
    let error = core.group_settings(&key()).err().unwrap();
    assert_eq!(error.message(), "no schedulable workers are available");
    let mut eagle = worker(7);
    eagle.block_size = Some(16);
    eagle.is_eagle = Some(true);
    register(&mut core, eagle);
    assert_eq!(core.group_settings(&key()).ok(), Some((16, true)));
    core.delete_worker(7).unwrap();
    assert_eq!(core.group_settings(&key()).err().unwrap().status_code(), error.status_code());
}

#[test]
fn shutdown_reports_not_ready_and_rejects_new_work() {
    let mut core = service(false, false);
    register(&mut core, worker(1));
    assert!(core.ready().0);

    core.shutdown();

    assert_eq!(core.ready(), (false, 1));
    assert_shutdown_error(core.upsert_worker(worker(2)).expect_err("upsert should fail"));
    let mut patch = empty_patch();
    patch.endpoint = Some("http://worker-1:9000".to_string());
    assert_shutdown_error(core.patch_worker(1, patch).expect_err("patch should fail"));
    assert_shutdown_error(select(&mut core, select_request()).err().expect("select should fail"));
    assert_shutdown_error(
        core.create_reservation(reservation("res-after-shutdown", 1, None), 1)
            .expect_err("reservation should fail"),
    );

    assert_eq!(core.list_workers(None, None).len(), 1);
    assert_eq!(core.loads(None, None).len(), 1);
    core.delete_worker(1).expect("delete should remain available after shutdown");
    assert_eq!(record_of(&core, 1).lifecycle, WorkerLifecycle::Unschedulable);
}

#[test]
fn queued_selection_errors_on_shutdown() {
    let mut core = service(true, false);
    register(&mut core, worker(1));
    assert_eq!(record_of(&core, 1).lifecycle, WorkerLifecycle::Schedulable);
    let mut limits: FxMap<u64, usize> = FxMap::default();
    limits.insert(1, 0);
    let first = reserve_request("res-a").operation(None);
    run(&mut core, first, true, &limits).expect("not queued").ok().expect("initial reservation");

    let second = select_request().operation(None);
    assert!(run(&mut core, second, false, &limits).is_none());
    let loads = core.loads(Some("model"), Some("default"));
    assert_eq!((loads[0].pending_count, loads[0].pending_isl_tokens), (1, 4));
    let workers = core.schedulable_workers(&key(), &limits);
    assert!(core.next_selection(0, &vec![workers]).is_none());

    core.shutdown();
    let response = SchedulingResponse {
        best_worker: WorkerWithDpRank::new(1, 0),
        effective_overlap_blocks: F64Bits(0),
        cached_tokens: 0,
    };
    assert!(matches!(
        core.scheduled(Ok(response)),
        Err(SelectionError::Scheduler(KvSchedulerError::SubscriberShutdown))
    ));
}

#[test]
fn waiting_selections_go_on_in_their_order() {
    let mut core = service(true, false);
    register(&mut core, worker(1));
    let mut limits: FxMap<u64, usize> = FxMap::default();
    limits.insert(1, 0);
    let first = reserve_request("res-a").operation(None);
    run(&mut core, first, true, &limits).unwrap().ok().unwrap();
    for isl in [4u32, 8] {
        let mut req = select_request();
        req.prompt = tokens((0..isl).collect());
        let operation = req.operation(None);
        assert!(run(&mut core, operation, false, &limits).is_none());
    }
    assert_eq!(core.active_tokens(0).get(&(1, 0)), Some(&4));
    core.prefill_complete("res-a").unwrap();
    assert_eq!(core.active_tokens(0).get(&(1, 0)), Some(&0));
    for isl in [4, 8] {
        let workers = core.schedulable_workers(&key(), &limits);
        let entry = core.next_selection(0, &vec![workers]).expect("ready");
        assert_eq!(entry.request.isl_tokens, isl);
    }
    let workers = core.schedulable_workers(&key(), &limits);
    assert!(core.next_selection(0, &vec![workers]).is_none());
    assert_eq!(core.loads(None, None)[0].pending_count, 0);
}

fn policy_class(
    name: &str,
    queue_policy: RouterQueuePolicy,
    quantum: usize,
    threshold: f64,
    request_limit: Option<usize>,
) -> PolicyClassConfig {
    PolicyClassConfig {
        name: name.to_string(),
        policy_family: name.to_string(),
        cache_bucket: "all".to_string(),
        queue_policy,
        quantum,
        prefill_busy_threshold: Some(F64Bits(threshold.to_bits())),
        request_queue_limit_per_worker: request_limit,
        raw_isl_token_queue_limit_per_worker: None,
        cached_token_queue_limit_per_worker: None,
    }
}

fn two_classes(latency_limit: Option<usize>) -> PolicyProfile {
    PolicyProfile {
        classes: vec![
            policy_class("latency", RouterQueuePolicy::Fcfs, 1, 0.0, latency_limit),
            policy_class("batch", RouterQueuePolicy::Wspt, 4, 1024.0, None),
        ],
        rules: ClassRules {
            default_policy_family: "latency".to_string(),
            uncached_isl_buckets: vec![UncachedIslBucket {
                min_tokens: 0,
                bucket: "all".to_string(),
            }],
        },
    }
}

fn busy_above(threshold: Option<F64Bits>) -> FxMap<u64, usize> {
    let mut limits: FxMap<u64, usize> = FxMap::default();
    if let Some(threshold) = threshold {
        limits.insert(1, (f64::from_bits(threshold.0) * 1024.0) as usize);
    }
    limits
}

#[test]
fn standalone_policy_classes_apply_header_thresholds_and_structured_rejection() {
    let mut core = service(true, false);
    core.upsert_worker(worker(1)).unwrap();
    reconcile_with(&mut core, 1, Ok(()), Ok(two_classes(Some(0))));
    assert_eq!(record_of(&core, 1).lifecycle, WorkerLifecycle::Schedulable);

    let reserved = reserve_request("latency-active").operation(Some("latency".to_string()));
    assert!(run_in(&mut core, reserved, true, busy_above).unwrap().is_ok());

    let mut req = select_request();
    req.prompt = tokens(vec![5, 6, 7, 8]);
    let batch = req.operation(Some("batch".to_string()));
    assert!(run_in(&mut core, batch, false, busy_above).unwrap().is_ok());

    let mut req = select_request();
    req.prompt = tokens(vec![9, 10, 11, 12]);
    let late = req.operation(Some("latency".to_string()));
    let rejected = run_in(&mut core, late, false, busy_above).unwrap().err().unwrap();
    assert_eq!(rejected.status_code(), 503);
    let details = rejected.details().unwrap();
    assert_eq!(details.policy_class, "latency");
    assert_eq!(details.limit_kind.as_str(), "requests");
    assert_eq!(details.current, 0);
    assert_eq!(details.limit, 0);
}

#[test]
fn a_higher_strict_priority_goes_first() {
    let mut core = service(true, false);
    core.upsert_worker(worker(1)).unwrap();
    reconcile_with(&mut core, 1, Ok(()), Ok(two_classes(None)));
    let reserved = reserve_request("res").operation(None);
    assert!(run_in(&mut core, reserved, true, busy_above).unwrap().is_ok());
    for (priority, isl) in [(0, 4), (7, 8)] {
        let mut req = select_request();
        req.prompt = tokens((0..isl).collect());
        req.strict_priority = Some(priority);
        let operation = req.operation(Some("latency".to_string()));
        assert!(run_in(&mut core, operation, false, busy_above).is_none());
    }
    assert_eq!((core.waiting_count(0), core.class_count(0)), (2, 2));
    let loads = core.loads(None, None);
    assert_eq!((loads[0].pending_count, loads[0].pending_isl_tokens), (2, 12));
    let by_class = |core: &SelectionCore| -> Vec<Vec<SchedulableWorker>> {
        (0..core.class_count(0))
            .map(|class| core.schedulable_workers(&key(), &busy_above(core.class_threshold(0, class))))
            .collect()
    };
    let workers = by_class(&core);
    assert!(core.next_selection(0, &workers).is_none());
    core.prefill_complete("res").unwrap();
    for isl in [8, 4] {
        let workers = by_class(&core);
        assert_eq!(core.next_selection(0, &workers).unwrap().request.isl_tokens, isl);
    }
    assert_eq!(core.waiting_count(0), 0);
}

#[test]
fn the_scheduler_is_told_what_a_request_asks() {
    let mut core = service(false, false);
    register(&mut core, worker(1));
    let mut req = select_request();
    req.priority_jump = Some(F64Bits(2.5f64.to_bits()));
    req.strict_priority = Some(3);
    req.router_config_override = Some(RouterConfigOverride {
        overlap_score_credit: Some(F64Bits(0.5f64.to_bits())),
        router_temperature: Some(F64Bits(0.25f64.to_bits())),
        ..RouterConfigOverride::default()
    });
    req.routing_constraints = RoutingConstraints {
        required_taints: vec!["gpu".to_string()],
        preferred_taints: vec![("near".to_string(), F64Bits(1.0f64.to_bits()))],
    };
    let operation = req.operation(Some("batch".to_string()));
    let prepared = core.begin_selection(&operation, false).ok().unwrap();
    let task = core.selection_task(operation, prepared, no_overlap(), false);
    assert_eq!((task.strict_priority, task.policy_class.as_deref()), (3, Some("batch")));
    assert_eq!(f64::from_bits(task.request.priority_jump.0), 2.5);
    let asked = task.request.router_config_override.unwrap();
    assert_eq!(asked.overlap_score_credit, Some(F64Bits(0.5f64.to_bits())));
    assert_eq!(asked.router_temperature, Some(F64Bits(0.25f64.to_bits())));
    assert_eq!(task.request.routing_constraints.required_taints, vec!["gpu".to_string()]);
    assert_eq!(task.request.routing_constraints.preferred_taints[0].0, "near");
    assert!(task.request.shared_cache_hits.is_none());
}

#[test]
fn a_new_group_needs_a_policy_profile() {
    let mut core = service(false, false);
    core.upsert_worker(worker(1)).unwrap();
    let missing: Result<PolicyProfile, String> = Err("no such policy file".to_string());
    reconcile_with(&mut core, 1, Ok(()), missing);
    let record = record_of(&core, 1);
    assert_eq!(record.lifecycle, WorkerLifecycle::Incomplete);
    assert_eq!(
        record.not_schedulable_reasons,
        vec!["reconciliation failed: no such policy file".to_string()]
    );
    let refused =
        core.ensure_entry(&key(), Some(4), None, Err("bad".to_string())).err().unwrap();
    assert_eq!((refused.status_code(), refused.message()), (400, "bad".to_string()));
    register(&mut core, worker(1));
    assert_eq!(core.ensure_entry(&key(), Some(4), None, Err("bad".to_string())).ok(), Some(0));
}

#[test]
fn ready_and_select_report_not_ready_without_schedulable_workers() {
    let mut core = service(false, false);
    assert_eq!(core.ready(), (false, 0));
    let mut req = select_request();
    req.selection_id = Some("s1".to_string());
    let error = select(&mut core, req).err().unwrap();
    assert_eq!(error.status_code(), 503);
    assert_eq!(error.message(), "no schedulable workers are available");
}

#[test]
fn incomplete_worker_is_accepted_but_not_schedulable() {
    let mut core = service(true, false);
    let mut req = worker(1);
    req.max_num_batched_tokens = None;
    register(&mut core, req);
    let record = record_of(&core, 1);
    assert_eq!(record.lifecycle.as_str(), "incomplete");
    assert!(record.not_schedulable_reasons[0].contains("max_num_batched_tokens"));
    assert_eq!(select(&mut core, select_request()).err().unwrap().status_code(), 503);
}

#[test]
fn select_echoes_selection_id_and_does_not_book_load() {
    let mut core = service(false, false);
    register(&mut core, worker(1));
    let mut req = select_request();
    req.selection_id = Some("sel-a".to_string());
    let answer = select(&mut core, req).ok().unwrap();
    assert_eq!(answer.selection_id.as_deref(), Some("sel-a"));
    assert_eq!(answer.worker_id, 1);
    assert_eq!(answer.effective_prefill_tokens, 4);
    assert_eq!(answer.overlap.longest_matched, 0);
    assert_eq!(answer.overlap.dp.get(&0), Some(&0));
    assert_eq!(answer.endpoint, "http://worker-1:8000");
    assert_eq!(answer.block_size, 4);
    assert_eq!(answer.reservation_id, None);
    assert_eq!(only_load(&core).active_requests, 0);
}

#[test]
fn overlap_scores_returns_all_schedulable_worker_ranks() {
    let mut core = service(false, false);
    register(&mut core, worker(1));
    let mut second = worker(2);
    second.data_parallel_start_rank = Some(2);
    second.data_parallel_size = Some(2);
    register(&mut core, second);
    let nothing = TieredMatchDetails {
        device: MatchDetails { overlap_scores: OverlapScores::new(), last_matched_hashes: FxMap::default() },
        lower_tier: vec![],
    };
    let ranks = core.catalog().schedulable_worker_ranks(&key());
    let response =
        build_overlap_scores_response(&KvRouterConfig::default(), None, &nothing, 4, &ranks);
    let ids: Vec<_> = response.workers.iter().map(|row| (row.worker_id, row.dp_rank)).collect();
    assert_eq!(ids, vec![(1, 0), (2, 2), (2, 3)]);
    assert_eq!(response.workers[0].host_pinned_blocks, 0);
    assert_eq!(response.workers[0].disk_blocks, 0);
    assert!(!response.shared_cache.enabled);
}

#[test]
fn select_and_reserve_books_and_duplicate_reservation_conflicts() {
    let mut core = service(false, false);
    register(&mut core, worker(1));
    let answer = select_and_reserve(&mut core, reserve_request("res-a")).ok().unwrap();
    assert_eq!(answer.reservation_id.as_deref(), Some("res-a"));
    assert_eq!(answer.effective_prefill_tokens, 4);
    assert_eq!(only_load(&core).potential_prefill_tokens, 4);
    assert_eq!(only_load(&core).active_requests, 1);

    let duplicate = select_and_reserve(&mut core, reserve_request("res-a")).err().unwrap();
    assert_eq!(duplicate.status_code(), 409);
    assert_eq!(only_load(&core).active_requests, 1);

    core.free_reservation("res-a").unwrap();
    assert_eq!(only_load(&core).active_requests, 0);
    let gone = core.free_reservation("res-a").unwrap_err();
    assert_eq!(gone.message(), "reservation res-a not found");
}

#[test]
fn output_block_endpoint_updates_reserved_load() {
    let mut core = service(false, false);
    register(&mut core, worker(1));
    select_and_reserve(&mut core, reserve_request("res-output")).ok().unwrap();
    let before = only_load(&core).potential_decode_blocks;
    core.add_output_block("res-output", None).unwrap();
    let invalid = core.add_output_block("res-output", Some(F64Bits(1.5f64.to_bits()))).unwrap_err();
    assert_eq!(invalid.status_code(), 400);
    assert_eq!(only_load(&core).potential_decode_blocks, before + 1);

    let nan = core.add_output_block("res-output", Some(F64Bits(f64::NAN.to_bits()))).unwrap_err();
    assert_eq!(nan.message(), "decay_fraction must be between 0.0 and 1.0");
    for fraction in [0.0f64, -0.0, 0.25, 1.0] {
        core.add_output_block("res-output", Some(F64Bits(fraction.to_bits()))).unwrap();
    }
    assert_eq!(only_load(&core).potential_decode_blocks, before + 5);
    assert_eq!(core.add_output_block("other", None).unwrap_err().status_code(), 404);
}

#[test]
fn explicit_reservation_books_after_select() {
    let mut core = service(false, false);
    register(&mut core, worker(1));
    let selected = select(&mut core, select_request()).ok().unwrap();
    let mut req =
        reservation("res-b", selected.worker_id, Some(selected.effective_prefill_tokens));
    req.dp_rank = Some(selected.dp_rank);
    let answer = core.create_reservation(req, 1).unwrap();
    assert_eq!(answer.reservation_id, "res-b");
    assert_eq!(answer.endpoint, "http://worker-1:8000");
    assert_eq!(only_load(&core).potential_prefill_tokens, 4);
    core.prefill_complete("res-b").unwrap();
    assert_eq!(only_load(&core).potential_prefill_tokens, 0);
    assert_eq!(only_load(&core).active_requests, 1);
}

#[test]
fn explicit_reservation_rejects_effective_prefill_above_isl() {
    let mut core = service(false, false);
    register(&mut core, worker(1));
    let error = core.create_reservation(reservation("res-too-large", 1, Some(5)), 1).unwrap_err();
    assert_eq!(error.status_code(), 400);
    assert!(error.message().contains("must not exceed isl_tokens"));
}

#[test]
fn explicit_reservation_rejects_unschedulable_worker() {
    let mut core = service(false, false);
    let mut incomplete = worker(1);
    incomplete.endpoint = None;
    incomplete.max_num_batched_tokens = None;
    register(&mut core, incomplete);
    assert_eq!(record_of(&core, 1).lifecycle.as_str(), "incomplete");
    register(&mut core, worker(2));
    let error = core.create_reservation(reservation("res-unschedulable", 1, None), 1).unwrap_err();
    assert_eq!(error.status_code(), 404);
    assert!(error.message().starts_with("schedulable worker 1 not found for "));
}

#[test]
fn selector_replica_sync_propagates_request_lifecycle() {
    let mut core_a = service(false, false);
    let mut core_b = service(false, false);
    register(&mut core_a, worker(1));
    register(&mut core_b, worker(1));
    let answer = select_and_reserve(&mut core_a, reserve_request("replicated")).ok().unwrap();
    let normalized = prompt().normalize_for_selection(4, false).unwrap();
    let event = |data: ActiveSequenceEventData, block_size: u32| SlotReplicaEvent {
        model_name: answer.model_name.clone(),
        tenant_id: answer.tenant_id.clone(),
        block_size,
        event: ActiveSequenceEvent {
            request_id: "replicated".to_string(),
            worker: WorkerWithDpRank::new(answer.worker_id, answer.dp_rank),
            data,
            router_id: 11,
            lora_name: None,
        },
    };
    let add = || ActiveSequenceEventData::AddRequest {
        token_sequence: Some(normalized.sequence_hashes.clone()),
        track_prefill_tokens: true,
        expected_output_tokens: None,
        prefill_load_hint: Some(kv_router::protocols::PrefillLoadHint {
            initial_effective_prefill_tokens: 4,
            expected_prefill_duration: None,
        }),
    };
    let load = |core: &SelectionCore| {
        let load = only_load(core);
        (load.active_requests, load.potential_decode_blocks, load.potential_prefill_tokens)
    };

    core_b.dispatch_replica_event(Some(11), event(add(), 4), 1);
    assert_eq!(load(&core_b), (0, 0, 0));
    core_b.dispatch_replica_event(Some(22), event(add(), 8), 1);
    assert_eq!(load(&core_b), (0, 0, 0));
    core_b.dispatch_replica_event(Some(22), event(add(), 4), 1);
    assert_eq!(load(&core_b), (1, 1, 4));
    assert_eq!(load(&core_b), load(&core_a));
    core_b.dispatch_replica_event(
        Some(22),
        event(ActiveSequenceEventData::MarkPrefillCompleted, 4),
        2,
    );
    assert_eq!(load(&core_b), (1, 1, 0));
    core_b.dispatch_replica_event(Some(22), event(ActiveSequenceEventData::Free, 4), 3);
    assert_eq!(load(&core_b), (0, 0, 0));
}

#[test]
fn reconcile_rolls_back_partial_listener_registration() {
    let mut core = service(false, true);
    let mut req = worker(7);
    req.max_num_batched_tokens = None;
    req.data_parallel_size = Some(2);
    req.kv_events_endpoints = vec![
        (1, "not-a-zmq-endpoint".to_string()),
        (0, "tcp://127.0.0.1:5557".to_string()),
    ];
    core.upsert_worker(req).unwrap();
    let ranks: Vec<u32> =
        listeners_by_rank(record_of(&core, 7)).into_iter().map(|(rank, _)| rank).collect();
    assert_eq!(ranks, vec![0, 1]);
    reconcile(&mut core, 7, Err(bad_endpoint(false, 7, 1, "unknown scheme")));
    let record = record_of(&core, 7);
    assert_eq!(record.lifecycle.as_str(), "incomplete");
    assert_eq!(
        record.not_schedulable_reasons,
        vec![
            "reconciliation failed: invalid kv_events endpoint for worker 7 dp_rank 1: \
             unknown scheme"
                .to_string()
        ]
    );

    let mut patch = empty_patch();
    patch.kv_events_endpoints = Some(vec![
        (0, "tcp://127.0.0.1:5557".to_string()),
        (1, "tcp://127.0.0.1:5558".to_string()),
    ]);
    core.patch_worker(7, patch).unwrap();
    reconcile(&mut core, 7, Ok(()));
    let record = record_of(&core, 7);
    assert_eq!(record.lifecycle.as_str(), "schedulable");
    assert!(record.not_schedulable_reasons.is_empty());
}

#[test]
fn hash_path_validation_returns_bad_request() {
    let mut core = service(false, false);
    register(&mut core, worker(1));
    let mut req = select_request();
    req.prompt = hashes(Some(vec![1]), Some(vec![1, 2]), Some(4));
    assert_eq!(select(&mut core, req).err().unwrap().status_code(), 400);
}

#[test]
fn a_prompt_of_hashes_is_taken_as_it_is() {
    let whole = hashes(Some(vec![7, 8]), Some(vec![70, 80]), Some(9));
    let normalized = whole.normalize_for_selection(4, true).unwrap();
    assert_eq!(normalized.block_hashes, vec![LocalBlockHash(7), LocalBlockHash(8)]);
    assert_eq!(normalized.sequence_hashes, vec![70, 80]);
    assert_eq!(normalized.isl_tokens, 9);
    assert!(hashes(None, Some(vec![70]), Some(4)).normalize_for_selection(4, true).is_err());
    let reserved = hashes(None, Some(vec![70]), Some(4)).normalize_for_reservation(4, true);
    assert_eq!(reserved.unwrap().sequence_hashes, vec![70]);
    assert!(hashes(Some(vec![7]), Some(vec![70]), None).normalize_for_selection(4, true).is_err());
    assert!(hashes(None, None, Some(4)).normalize_for_reservation(4, true).is_err());
}

#[test]
fn a_prompt_of_tokens_is_hashed_by_blocks() {
    let normalized = tokens((0..9).collect()).normalize_for_selection(4, false).unwrap();
    let expected = compute_block_hash_for_seq(
        &[0, 1, 2, 3, 4, 5, 6, 7, 8],
        4,
        BlockHashOptions::default(),
    );
    assert_eq!(expected.len(), 2);
    assert_ne!(expected[0], expected[1]);
    assert_eq!(normalized.block_hashes, expected);
    assert_eq!(normalized.isl_tokens, 9);
    assert_eq!(normalized.sequence_hashes[0], expected[0].0);
    assert_ne!(normalized.sequence_hashes[1], expected[1].0);
}

#[test]
fn a_reservation_without_identifier_gets_a_random_one() {
    assert_eq!(reservation_id_or_new(Some("mine".to_string())), "mine");
    let first = reservation_id_or_new(None);
    let second = reservation_id_or_new(None);
    assert_ne!(first, second);
    for id in [&first, &second] {
        assert_eq!(id.len(), 36);
        let groups: Vec<usize> = id.split('-').map(str::len).collect();
        assert_eq!(groups, vec![8, 4, 4, 4, 12]);
        assert_eq!(id.as_bytes()[14], b'4');
        assert!(id.chars().all(|c| c == '-' || c.is_ascii_hexdigit() && !c.is_ascii_uppercase()));
    }
    let operation =
        SelectAndReserveRequest { reservation_id: None, select: select_request() }.operation(None);
    assert_eq!(operation.reservation_id.unwrap().len(), 36);
}

#[test]
fn what_a_request_leaves_out_is_zero() {
    let mut req = select_request();
    req.priority_jump = Some(F64Bits(2.0f64.to_bits()));
    req.strict_priority = Some(3);
    let operation = req.operation(Some("batch".to_string()));
    assert_eq!(f64::from_bits(operation.priority_jump.0), 2.0);
    assert_eq!(operation.strict_priority, 3);
    assert_eq!(operation.policy_class.as_deref(), Some("batch"));
    assert_eq!(operation.reservation_id, None);
    let operation = select_request().operation(None);
    assert_eq!((operation.priority_jump, operation.strict_priority), (F64Bits(0), 0));
}

#[test]
fn a_selection_that_books_needs_an_identifier() {
    let mut core = service(false, false);
    register(&mut core, worker(1));
    let operation = select_request().operation(None);
    let error = core.begin_selection(&operation, true).err().unwrap();
    assert_eq!(error.status_code(), 500);
    assert_eq!(error.message(), "booked selection did not include a reservation ID");
}

#[test]
fn a_pinned_worker_must_be_allowed() {
    let mut core = service(false, false);
    register(&mut core, worker(1));
    let mut req = select_request();
    req.pinned_worker = Some(WorkerWithDpRank::new(2, 0));
    req.allowed_worker_ids = Some(vec![1]);
    let error = select(&mut core, req).err().unwrap();
    assert_eq!(error.status_code(), 400);
    assert_eq!(error.message(), "pinned worker 2 is not in allowed worker set");
}

#[test]
fn a_selected_worker_may_be_gone() {
    let mut core = service(false, false);
    register(&mut core, worker(1));
    let response = SchedulingResponse {
        best_worker: WorkerWithDpRank::new(9, 0),
        effective_overlap_blocks: F64Bits(0),
        cached_tokens: 3,
    };
    let error = core.finish_selection(key(), None, None, 4, 8, response, None).err().unwrap();
    assert_eq!(error.message(), "selected worker 9 is no longer schedulable");
    let response = SchedulingResponse { best_worker: WorkerWithDpRank::new(1, 0), ..response };
    let answer = core.finish_selection(key(), None, None, 4, 8, response, None).ok().unwrap();
    assert_eq!(answer.effective_prefill_tokens, 5);
}

#[test]
fn the_scheduler_sees_the_workers_that_serve() {
    let mut core = service(false, false);
    let mut first = worker(1);
    first.taints = vec!["gpu".to_string()];
    first.data_parallel_start_rank = Some(3);
    first.data_parallel_size = Some(2);
    register(&mut core, first);
    register(&mut core, worker(2));
    let mut other = worker(3);
    other.tenant_id = "another".to_string();
    register(&mut core, other);
    core.delete_worker(2).unwrap();
    let mut limits: FxMap<u64, usize> = FxMap::default();
    limits.insert(1, 50);
    let workers = core.schedulable_workers(&key(), &limits);
    assert_eq!(workers.len(), 1);
    assert_eq!((workers[0].worker_id, workers[0].dp_start, workers[0].dp_size), (1, 3, 2));
    assert_eq!(workers[0].taints, vec!["gpu".to_string()]);
    assert_eq!(workers[0].token_limit, 50);
    let workers = core.schedulable_workers(&key(), &FxMap::default());
    assert_eq!(workers[0].token_limit, NO_TOKEN_LIMIT);
    let listed: Vec<u64> =
        core.list_workers(Some("model"), None).iter().map(|record| record.worker_id).collect();
    assert_eq!(listed, vec![1, 2, 3]);
    let listed: Vec<u64> =
        core.list_workers(None, Some("another")).iter().map(|record| record.worker_id).collect();
    assert_eq!(listed, vec![3]);
}

#[test]
fn workers_of_a_group_agree_on_blocks() {
    let mut core = service(false, false);
    register(&mut core, worker(1));
    let mut second = worker(2);
    second.block_size = Some(8);
    register(&mut core, second);
    let record = record_of(&core, 2);
    assert_eq!(record.lifecycle, WorkerLifecycle::Incomplete);
    assert_eq!(
        record.not_schedulable_reasons,
        vec![
            "reconciliation failed: block_size mismatch for model=model tenant=default: existing=4 \
             requested=8"
                .to_string()
        ]
    );
    let mut third = worker(3);
    third.is_eagle = Some(true);
    register(&mut core, third);
    assert!(record_of(&core, 3).not_schedulable_reasons[0].contains("is_eagle mismatch"));
}

#[test]
fn loads_are_listed_by_model_and_tenant() {
    let mut core = service(false, false);
    for (id, model, tenant) in
        [(1, "zeta", "b"), (2, "alpha", "b"), (3, "zeta", "a"), (4, "alphabet", "a")]
    {
        let mut req = worker(id);
        req.model_name = model.to_string();
        req.tenant_id = tenant.to_string();
        register(&mut core, req);
    }
    let names = |loads: Vec<ModelLoadResponse>| -> Vec<(String, String)> {
        loads.into_iter().map(|load| (load.model_name, load.tenant_id)).collect()
    };
    let pair = |model: &str, tenant: &str| (model.to_string(), tenant.to_string());
    assert_eq!(
        names(core.loads(None, None)),
        vec![pair("alpha", "b"), pair("alphabet", "a"), pair("zeta", "a"), pair("zeta", "b")]
    );
    assert_eq!(names(core.loads(Some("zeta"), Some("b"))), vec![pair("zeta", "b")]);
    assert!(core.loads(Some("none"), None).is_empty());
}

#[test]
fn potential_loads_count_what_is_not_cached() {
    let mut core = service(false, false);
    register(&mut core, worker(1));
    select_and_reserve(&mut core, reserve_request("res")).ok().unwrap();
    let normalized = tokens((0..8).collect()).normalize_for_selection(4, false).unwrap();
    let mut cached: FxMap<(u64, u32), usize> = FxMap::default();
    cached.insert((1, 0), 5);
    let loads = core.potential_loads(&key(), &normalized, &cached, &None).unwrap();
    assert_eq!(loads.len(), 1);
    assert_eq!(loads[0].potential_prefill_tokens, 4 + 3);
    assert_eq!(loads[0].potential_decode_blocks, 3);
    assert_eq!(loads[0].active_requests, 1);
    let untracked = Some(RouterConfigOverride {
        track_prefill_tokens: Some(false),
        ..RouterConfigOverride::default()
    });
    let loads = core.potential_loads(&key(), &normalized, &cached, &untracked).unwrap();
    assert_eq!(loads[0].potential_prefill_tokens, 4);
    let nowhere = SelectionKey::new("other".to_string(), "default".to_string());
    let error = core.potential_loads(&nowhere, &normalized, &cached, &None).unwrap_err();
    assert_eq!(error.message(), "no schedulable workers for model=other tenant=default");
}

#[test]
fn an_empty_patch_changes_nothing() {
    let mut catalog = WorkerCatalog::new();
    let mut req = worker(1);
    req.taints = vec!["gpu".to_string()];
    req.topology_domains = vec![("zone".to_string(), "a".to_string())];
    catalog.upsert(req);
    catalog.patch(1, empty_patch()).unwrap();
    let record = catalog.at(0);
    assert_eq!(record.endpoint.as_deref(), Some("http://worker-1:8000"));
    assert_eq!(record.taints, vec!["gpu".to_string()]);
    assert_eq!(record.topology_domains, vec![("zone".to_string(), "a".to_string())]);
    assert_eq!(record.block_size, Some(4));
    assert_eq!(catalog.patch(2, empty_patch()).unwrap_err().message(), "worker 2 not found");
    let mut patch = empty_patch();
    patch.taints = Some(vec![]);
    patch.block_size = Some(16);
    catalog.patch(1, patch).unwrap();
    assert!(catalog.at(0).taints.is_empty());
    assert_eq!(catalog.at(0).block_size, Some(16));
}

#[test]
fn a_worker_that_comes_back_is_drained_first() {
    let mut core = service(false, false);
    register(&mut core, worker(1));
    assert!(core.upsert_worker(worker(1)).unwrap());
    core.drain_worker(1).unwrap();
    assert_eq!(record_of(&core, 1).lifecycle.as_str(), "draining");
    assert_eq!(core.ready(), (false, 0));
    reconcile(&mut core, 1, Ok(()));
    assert_eq!(core.ready(), (true, 1));
    assert_eq!(core.begin_reconcile(5, one_class()).unwrap_err().message(), "worker 5 not found");
    assert_eq!(core.delete_worker(5).unwrap_err().status_code(), 404);
}

#[test]
fn bad_endpoints_are_named() {
    assert_eq!(
        bad_endpoint(true, 3, 2, "no scheme").message(),
        "invalid replay endpoint for worker 3 dp_rank 2: no scheme"
    );
    assert_eq!(
        bad_endpoint(false, 3, 2, "no scheme").message(),
        "invalid kv_events endpoint for worker 3 dp_rank 2: no scheme"
    );
}

#[test]
fn errors_have_statuses_and_kinds() {
    let text = || "why".to_string();
    let rejection = QueueRejection {
        policy_class: "lat\"ency".to_string(),
        limit_kind: QueueLimitKind::Requests,
        current: 2,
        limit: 1,
    };
    let cases = vec![
        (SelectionError::BadRequest(text()), 400, "bad_request", "why"),
        (SelectionError::NotReady(text()), 503, "not_ready", "why"),
        (SelectionError::NotFound(text()), 404, "not_found", "why"),
        (SelectionError::Conflict(text()), 409, "conflict", "why"),
        (SelectionError::Internal(text()), 500, "internal", "why"),
        (
            SelectionError::Scheduler(KvSchedulerError::NoEndpoints),
            503,
            "scheduler",
            "no endpoints available to route work",
        ),
        (
            SelectionError::Scheduler(KvSchedulerError::SubscriberShutdown),
            503,
            "scheduler",
            "endpoint subscriber shutdown",
        ),
        (
            SelectionError::Scheduler(KvSchedulerError::InitFailed(text())),
            503,
            "scheduler",
            "failed to initialize event publisher: why",
        ),
        (
            SelectionError::Scheduler(KvSchedulerError::AllEligibleWorkersOverloaded),
            429,
            "scheduler",
            "all eligible workers are overloaded",
        ),
        (
            SelectionError::Scheduler(KvSchedulerError::PinnedWorkerOverloaded { worker_id: 4 }),
            429,
            "scheduler",
            "pinned worker 4 is overloaded",
        ),
        (
            SelectionError::Scheduler(KvSchedulerError::QueueRejected(rejection)),
            503,
            "scheduler",
            "router policy class \"lat\\\"ency\" queue requests limit reached (current=2, limit=1)",
        ),
        (
            SelectionError::Scheduler(KvSchedulerError::PinnedWorkerNotAllowed { worker_id: 4 }),
            400,
            "scheduler",
            "pinned worker 4 is not in allowed worker set",
        ),
        (
            SelectionError::Scheduler(KvSchedulerError::BookingFailed(text())),
            409,
            "scheduler",
            "failed to book scheduler state: why",
        ),
        (
            SelectionError::Scheduler(KvSchedulerError::Backpressure {
                reason: RouterBackpressureReason::MaxQueuedIslTokensExceeded,
                queued_isl_tokens: 7,
                max_queued_isl_tokens: Some(5),
            }),
            503,
            "scheduler",
            "router backpressure: MaxQueuedIslTokensExceeded (queued_isl_tokens=7, \
             max_queued_isl_tokens=Some(5))",
        ),
        (
            SelectionError::Sequence(SequenceError::RequestNotFound { request_id: text() }),
            404,
            "sequence",
            "request why not found",
        ),
        (
            SelectionError::Sequence(SequenceError::DuplicateRequest { request_id: text() }),
            409,
            "sequence",
            "request why already exists",
        ),
        (
            SelectionError::Sequence(SequenceError::WorkerNotFound {
                worker: WorkerWithDpRank::new(1, 2),
            }),
            404,
            "sequence",
            "worker 1 dp_rank 2 not found",
        ),
        (
            SelectionError::Sequence(SequenceError::ReplicaSyncPublishFailed(text())),
            500,
            "sequence",
            "failed to publish replica sync event: why",
        ),
    ];
    for (error, status, kind, words) in cases {
        assert_eq!(error.status_code(), status);
        assert_eq!(error.kind(), kind);
        assert_eq!(error.message(), words);
        match error.details() {
            Some(details) => assert_eq!(details.current, 2),
            None => assert!(!matches!(
                error,
                SelectionError::Scheduler(KvSchedulerError::QueueRejected(_))
            )),
        }
    }
}

#[test]
fn freeing_a_reservation_leaves_the_load_as_it_was() {
    let mut core = service(false, false);
    register(&mut core, worker(7));
    let before = only_load(&core);
    core.create_reservation(reservation("r", 7, Some(2)), 0).unwrap();
    let during = only_load(&core);
    assert_eq!(during.active_requests, before.active_requests + 1);
    core.free_reservation("r").unwrap();
    assert_eq!(only_load(&core), before);
    assert!(core.free_reservation("r").is_err());
}

#[test]
fn a_deleted_worker_serves_no_group() {
    let mut core = service(false, false);
    register(&mut core, worker(7));
    assert!(core.ready_entry(&key()).is_ok());
    core.delete_worker(7).unwrap();
    assert!(core.ready_entry(&key()).is_err());
    assert!(core.create_reservation(reservation("r", 7, None), 0).is_err());
    assert_eq!(core.ready(), (false, 0));
}
