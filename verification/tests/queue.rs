//! Requests that wait for workers, and those that are booked.

use kv_router::collections::FxMap;
use kv_router::protocols::{
    LocalBlockHash, PrefillLoadHint, RoutingConstraints, WorkerWithDpRank,
};
use kv_router::scheduling::admission::{
    admit_one, book, prefill_load_hint_for, prefill_load_hint_with, register_workers,
    settle_booking, Admission, SchedulingResponse, WorkerSelection, WorkerSelector,
    MISSING_REQUEST_ID,
};
use kv_router::scheduling::config::{F64Bits, RouterQueueDepthByMissingIslTier, RouterQueueDepthTiers};
use kv_router::scheduling::prefill_load::{
    effective_prefill_tokens, prefill_load_hint_from_effective_tokens, PrefillLoadEstimator,
};
use kv_router::scheduling::queue::{
    all_workers_prefill_busy, EnqueueOutcome, RefreshedOverlap, SchedulerQueue, SchedulingPolicy,
    WorkerSnapshot,
};
use kv_router::scheduling::types::{
    prefill_deltas, KvSchedulerError, RouterBackpressureReason, SchedulableWorker,
    SchedulingRequest, TierOverlapBlocks,
};
use kv_router::sequences::{ActiveSequencesMultiWorker, SequenceRequest, WorkerDpRange};

struct FcfsPolicy;

impl SchedulingPolicy for FcfsPolicy {
    fn dynamic(&self) -> bool {
        false
    }

    fn enqueue_key(
        &self,
        arrival_millis: u64,
        _request: &SchedulingRequest,
        _workers: &Vec<SchedulableWorker>,
    ) -> i64 {
        -(arrival_millis as i64)
    }

    fn rekey(
        &self,
        _now_millis: u64,
        key: i64,
        _request: &SchedulingRequest,
        _workers: &Vec<SchedulableWorker>,
    ) -> i64 {
        key
    }
}

/// Those that have waited longest are turned round.
struct TurningPolicy;

impl SchedulingPolicy for TurningPolicy {
    fn dynamic(&self) -> bool {
        true
    }

    fn enqueue_key(
        &self,
        arrival_millis: u64,
        _request: &SchedulingRequest,
        _workers: &Vec<SchedulableWorker>,
    ) -> i64 {
        -(arrival_millis as i64)
    }

    fn rekey(
        &self,
        _now_millis: u64,
        key: i64,
        _request: &SchedulingRequest,
        _workers: &Vec<SchedulableWorker>,
    ) -> i64 {
        -key
    }
}

/// Takes the worker that is left with the least work.
struct LeastWork;

impl WorkerSelector for LeastWork {
    fn select_worker(
        &self,
        workers: &Vec<SchedulableWorker>,
        request: &SchedulingRequest,
        overloaded_worker_ids: Option<&Vec<u64>>,
        _block_size: u32,
    ) -> Result<WorkerSelection, KvSchedulerError> {
        let mut best: Option<(usize, usize, WorkerWithDpRank)> = None;
        let mut overloaded = false;
        for worker in workers {
            if !request.allows_worker(worker) {
                continue;
            }
            if overloaded_worker_ids.is_some_and(|ids| ids.contains(&worker.worker_id)) {
                overloaded = true;
                continue;
            }
            for rank in worker.dp_start..worker.dp_start + worker.dp_size {
                let at = WorkerWithDpRank::new(worker.worker_id, rank);
                if request.pinned_worker.is_some_and(|pinned| pinned != at) {
                    continue;
                }
                let blocks = request.decode_blocks.get(&at.key()).copied().unwrap_or(0);
                let load = (request.prefill_tokens_for(at), blocks, at);
                if best.is_none_or(|found| load < found) {
                    best = Some(load);
                }
            }
        }
        match best {
            Some((_, _, worker)) => Ok(WorkerSelection {
                worker,
                effective_overlap_blocks: request
                    .effective_overlap_blocks
                    .get(&worker.key())
                    .copied()
                    .unwrap_or(F64Bits(0)),
                cached_tokens: request.effective_cached_tokens_for(worker),
            }),
            None if overloaded => Err(KvSchedulerError::AllEligibleWorkersOverloaded),
            None => Err(KvSchedulerError::NoEndpoints),
        }
    }
}

struct FixedEstimator {
    word: Result<u64, String>,
}

impl PrefillLoadEstimator for FixedEstimator {
    fn predict_prefill_duration(
        &self,
        batch_size: usize,
        effective_isl: usize,
        prefix: usize,
    ) -> Result<u64, String> {
        assert_eq!(batch_size, 1);
        assert_eq!((effective_isl, prefix), (60, 40));
        self.word.clone()
    }
}

type Answer = Result<SchedulingResponse, KvSchedulerError>;

struct Scheduler {
    queue: SchedulerQueue,
    slots: ActiveSequencesMultiWorker,
    workers: Vec<SchedulableWorker>,
    overloaded: Option<Vec<u64>>,
    answers: Vec<(String, Answer)>,
    now: u64,
}

fn schedulable(worker_id: u64, token_limit: usize) -> SchedulableWorker {
    SchedulableWorker { worker_id, dp_start: 0, dp_size: 1, taints: vec![], token_limit }
}

fn scheduler(num_workers: u64, isl: usize, threshold: Option<f64>) -> Scheduler {
    scheduler_with(num_workers, isl, threshold, RouterQueueDepthTiers::unbounded_cap(), false)
}

fn scheduler_with(
    num_workers: u64,
    isl: usize,
    threshold: Option<f64>,
    tiers: RouterQueueDepthTiers,
    refreshes: bool,
) -> Scheduler {
    let mut slots = ActiveSequencesMultiWorker::new();
    let mut workers = Vec::new();
    for worker_id in 0..num_workers {
        slots.register_worker(WorkerDpRange::new(worker_id, 0, 1)).unwrap();
        workers.push(schedulable(worker_id, (threshold.unwrap_or(0.0) * isl as f64) as usize));
    }
    Scheduler {
        queue: SchedulerQueue::new_with_overlap_refresh(threshold.is_some(), tiers, refreshes),
        slots,
        workers,
        overloaded: None,
        answers: Vec::new(),
        now: 0,
    }
}

fn copy_of(workers: &[SchedulableWorker]) -> Vec<SchedulableWorker> {
    workers
        .iter()
        .map(|worker| SchedulableWorker {
            worker_id: worker.worker_id,
            dp_start: worker.dp_start,
            dp_size: worker.dp_size,
            taints: worker.taints.clone(),
            token_limit: worker.token_limit,
        })
        .collect()
}

impl Scheduler {
    fn snapshot(&self) -> WorkerSnapshot {
        let mut active_tokens: FxMap<(u64, u32), usize> = FxMap::default();
        for worker in &self.workers {
            for rank in worker.dp_start..worker.dp_start + worker.dp_size {
                let key = (worker.worker_id, rank);
                active_tokens.insert(key, self.slots.potential_prefill_tokens(key, 0));
            }
        }
        WorkerSnapshot { workers: copy_of(&self.workers), active_tokens }
    }

    fn answer(&mut self, id: String, answer: Answer) {
        self.answers.push((id, answer));
    }

    fn schedule(&mut self, request: SchedulingRequest, closed: bool) {
        let id = request.maybe_request_id.clone().unwrap_or_default();
        let (_, admission) = admit_one::<LeastWork, FixedEstimator>(
            request,
            &self.slots,
            &self.workers,
            &LeastWork,
            self.overloaded.as_ref(),
            None,
            16,
        );
        match admission {
            Admission::Answer(answer) => self.answer(id, answer),
            Admission::Book(booking, response) => {
                match book(&mut self.slots, booking, closed, self.now) {
                    Ok(true) => self.answer(id, Ok(response)),
                    Ok(false) => {}
                    Err(e) => self.answer(id, Err(e)),
                }
            }
        }
    }

    fn enqueue(&mut self, request: SchedulingRequest) {
        self.enqueue_with_block_hashes(request, None);
    }

    fn enqueue_with_block_hashes(
        &mut self,
        request: SchedulingRequest,
        block_hashes: Option<Vec<LocalBlockHash>>,
    ) {
        self.now += 1;
        let snapshot = self.snapshot();
        let outcome = self.queue.enqueue_with_block_hashes(
            request,
            block_hashes,
            &snapshot,
            &FcfsPolicy,
            self.now,
        );
        match outcome {
            EnqueueOutcome::Admit(request) => self.schedule(request, false),
            EnqueueOutcome::Queued => {}
            EnqueueOutcome::Rejected(request, error) => {
                self.answer(request.maybe_request_id.unwrap_or_default(), Err(error))
            }
        }
    }

    fn update(&mut self) {
        self.update_with(|_| None, &[]);
    }

    fn update_with(
        &mut self,
        refresh: impl Fn(&Option<Vec<LocalBlockHash>>) -> Option<RefreshedOverlap>,
        cancelled: &[&str],
    ) {
        while let Some(entry) = self.queue.next_ready(&self.snapshot()) {
            let refreshed = refresh(&entry.block_hashes);
            let snapshot = self.snapshot();
            match self.queue.resume(entry, refreshed, &snapshot) {
                Some(request) => {
                    let closed = request
                        .maybe_request_id
                        .as_deref()
                        .is_some_and(|id| cancelled.contains(&id));
                    self.schedule(request, closed)
                }
                None => return,
            }
        }
    }

    fn finish(&mut self, id: &str) {
        let _ = self.slots.mark_prefill_completed(id);
        self.slots.free(id);
    }

    fn answer_to(&self, id: &str) -> Option<&Answer> {
        self.answers.iter().find(|(answered, _)| answered == id).map(|(_, answer)| answer)
    }

    fn worker_of(&self, id: &str) -> WorkerWithDpRank {
        self.answer_to(id).unwrap().as_ref().unwrap().best_worker
    }
}

fn no_tiers() -> TierOverlapBlocks {
    TierOverlapBlocks {
        device: FxMap::default(),
        host_pinned: FxMap::default(),
        disk: FxMap::default(),
    }
}

fn make_request(request_id: &str, isl_tokens: usize) -> SchedulingRequest {
    SchedulingRequest {
        maybe_request_id: Some(request_id.to_string()),
        token_seq: None,
        isl_tokens,
        lora_name: None,
        expected_output_tokens: None,
        pinned_worker: None,
        allowed_worker_ids: None,
        routing_constraints: RoutingConstraints {
            required_taints: vec![],
            preferred_taints: vec![],
        },
        router_config_override: None,
        track_prefill_tokens: true,
        priority_jump: F64Bits(0),
        tier_overlap_blocks: no_tiers(),
        effective_overlap_blocks: FxMap::default(),
        effective_cached_tokens: FxMap::default(),
        shared_cache_hits: None,
        decode_blocks: FxMap::default(),
        prefill_tokens: FxMap::default(),
        update_states: true,
    }
}

#[test]
fn effective_prefill_clamps_weighted_cache_credit() {
    assert_eq!(effective_prefill_tokens(100, 40), 60);
    assert_eq!(effective_prefill_tokens(100, 120), 0);
}

#[test]
fn direct_hint_validates_against_isl() {
    let hint = prefill_load_hint_from_effective_tokens(100, 60).unwrap();
    assert_eq!(hint.initial_effective_prefill_tokens, 60);
    assert!(prefill_load_hint_from_effective_tokens(100, 101).is_err());
}

#[test]
fn a_refused_hint_says_why() {
    let error = prefill_load_hint_from_effective_tokens(100, 101).unwrap_err();
    assert_eq!(
        error.message(),
        "effective_prefill_tokens (101) must not exceed isl_tokens (100)"
    );
}

#[test]
fn test_cancelled_pending_request_is_not_booked() {
    let isl = 512;
    let mut s = scheduler(1, isl, Some(0.0));
    s.enqueue(make_request("first", isl));
    assert!(s.answer_to("first").unwrap().is_ok());

    s.enqueue(make_request("cancelled", isl));
    assert_eq!(s.queue.pending_count(), 1);

    s.slots.free("first");
    s.update_with(|_| None, &["cancelled"]);

    assert_eq!(s.queue.pending_count(), 0);
    assert!(!s.slots.is_active("cancelled"));
    assert_eq!(s.slots.potential_prefill_tokens((0, 0), 0), 0);
}

#[test]
fn test_failed_response_delivery_rolls_back_booking() {
    let mut s = scheduler(1, 512, None);
    s.enqueue(make_request("delivery-race", 512));
    assert!(s.slots.is_active("delivery-race"));
    settle_booking(&mut s.slots, "delivery-race", true);
    assert!(s.slots.is_active("delivery-race"));
    settle_booking(&mut s.slots, "delivery-race", false);
    assert!(!s.slots.is_active("delivery-race"));
}

#[test]
fn test_concurrent_flood() {
    let isl = 512;
    let num_workers = 4;
    let mut s = scheduler(num_workers, isl, None);
    for i in 0..25 {
        let id = format!("req-{i}");
        s.enqueue(make_request(&id, isl));
        assert!(s.worker_of(&id).worker_id < num_workers);
    }
    for i in 0..25 {
        s.finish(&format!("req-{i}"));
        s.update();
    }
    for worker_id in 0..num_workers {
        assert_eq!(s.slots.potential_prefill_tokens((worker_id, 0), 0), 0);
    }
}

#[test]
fn test_concurrent_immediate_admissions_see_prior_booking() {
    let mut s = scheduler(2, 512, None);
    s.enqueue(make_request("req-1", 512));
    s.enqueue(make_request("req-2", 512));
    assert_ne!(s.worker_of("req-1"), s.worker_of("req-2"));
}

#[test]
fn test_queueing_under_pressure() {
    let isl = 512;
    let num_requests = 10;
    let mut s = scheduler(2, isl, Some(0.0));
    let ids: Vec<String> = (0..num_requests).map(|i| format!("pressure-{i}")).collect();
    for id in &ids {
        s.enqueue(make_request(id, isl));
    }
    for _ in 0..num_requests {
        s.update();
        for id in &ids {
            s.finish(id);
        }
    }
    s.update();
    let ok_count = ids.iter().filter(|id| s.answer_to(id).is_some_and(|a| a.is_ok())).count();
    assert_eq!(ok_count, num_requests);
}

#[test]
fn test_pending_requests_receive_shutdown_on_queue_drop() {
    let isl = 512;
    let mut s = scheduler(1, isl, Some(0.0));
    s.enqueue(make_request("req-1", isl));
    s.enqueue(make_request("req-2", isl));
    assert_eq!(s.queue.pending_count(), 1);

    let waiting = s.queue.shut_down();
    assert_eq!(waiting.len(), 1);
    assert_eq!(waiting[0].request.maybe_request_id.as_deref(), Some("req-2"));
    assert_eq!(s.queue.pending_count(), 0);
    assert_eq!(KvSchedulerError::SubscriberShutdown.message(), "endpoint subscriber shutdown");
}

#[test]
fn test_pending_count() {
    let isl = 512;
    let mut s = scheduler(1, isl, Some(0.0));
    assert_eq!(s.queue.pending_count(), 0);

    s.enqueue(make_request("req-1", isl));
    assert!(s.answer_to("req-1").unwrap().is_ok());
    assert_eq!(s.queue.pending_count(), 0);

    s.enqueue(make_request("req-2", isl));
    assert_eq!(s.queue.pending_count(), 1);
    s.enqueue(make_request("req-3", isl));
    assert_eq!(s.queue.pending_count(), 2);

    s.finish("req-1");
    s.update();
    assert!(s.queue.pending_count() < 2);

    s.finish("req-2");
    s.update();
    s.finish("req-3");
    s.update();
    assert_eq!(s.queue.pending_count(), 0);
}

#[test]
fn test_backpressure_when_missing_isl_tier_cap_reached() {
    let isl = 512;
    let tiers = RouterQueueDepthTiers::from_tiers(vec![RouterQueueDepthByMissingIslTier {
        missing_cache_tokens_floor: 0,
        max_queue_depth: isl,
    }])
    .ok()
    .unwrap();
    let mut s = scheduler_with(1, isl, Some(0.0), tiers, false);

    s.enqueue(make_request("req-1", isl));
    s.enqueue(make_request("req-2", isl));
    assert_eq!(s.queue.pending_count(), 1);
    assert_eq!(s.queue.pending_isl_tokens(), isl);

    s.enqueue(make_request("req-3", isl));
    assert!(matches!(
        s.answer_to("req-3").unwrap(),
        Err(KvSchedulerError::Backpressure {
            reason: RouterBackpressureReason::MaxQueuedIslTokensExceeded,
            queued_isl_tokens: 512,
            max_queued_isl_tokens: Some(512),
        })
    ));
    assert_eq!(s.queue.pending_count(), 1);
    assert_eq!(s.queue.pending_isl_tokens(), isl);
    assert_eq!(
        s.answer_to("req-3").unwrap().as_ref().unwrap_err().message(),
        "router backpressure: MaxQueuedIslTokensExceeded (queued_isl_tokens=512, \
         max_queued_isl_tokens=Some(512))"
    );
}

#[test]
fn test_missing_isl_tiers_shed_expensive_first() {
    let isl = 512;
    let tiers = RouterQueueDepthTiers::from_tiers(vec![
        RouterQueueDepthByMissingIslTier {
            missing_cache_tokens_floor: 0,
            max_queue_depth: 4 * isl,
        },
        RouterQueueDepthByMissingIslTier {
            missing_cache_tokens_floor: 256,
            max_queue_depth: isl,
        },
    ])
    .ok()
    .unwrap();
    let mut s = scheduler_with(1, isl, Some(0.0), tiers, false);

    s.enqueue(make_request("req-1", isl));
    s.enqueue(make_request("req-2", isl));
    assert_eq!(s.queue.pending_count(), 1);
    assert_eq!(s.queue.pending_isl_tokens(), isl);

    s.enqueue(make_request("req-3", isl));
    assert!(matches!(
        s.answer_to("req-3").unwrap(),
        Err(KvSchedulerError::Backpressure {
            reason: RouterBackpressureReason::MaxQueuedIslTokensExceeded,
            queued_isl_tokens: 512,
            max_queued_isl_tokens: Some(512),
        })
    ));

    let mut cached = make_request("req-4", isl);
    cached.effective_cached_tokens.insert((0, 0), 400);
    s.enqueue(cached);
    assert_eq!(s.queue.pending_count(), 2);
}

#[test]
fn test_no_workers_returns_error() {
    let mut s = scheduler(0, 512, None);
    s.enqueue(make_request("lonely-req", 512));
    assert!(matches!(s.answer_to("lonely-req").unwrap(), Err(KvSchedulerError::NoEndpoints)));
}

#[test]
fn test_overloaded_provider_filters_at_admission() {
    let mut s = scheduler(1, 256, None);
    s.overloaded = Some(vec![0]);
    s.enqueue(make_request("overloaded", 256));
    let error = s.answer_to("overloaded").unwrap().as_ref().unwrap_err();
    assert!(matches!(error, KvSchedulerError::AllEligibleWorkersOverloaded));
    assert!(error.is_overload());
}

#[test]
fn test_register_workers_lazy_epp_path() {
    let isl = 512;
    let mut s = scheduler(0, isl, None);
    s.enqueue(make_request("before-register", isl));
    assert!(matches!(
        s.answer_to("before-register").unwrap(),
        Err(KvSchedulerError::NoEndpoints)
    ));

    s.workers = vec![schedulable(100, isl), schedulable(200, isl)];
    register_workers(&mut s.slots, &vec![100, 200], &s.workers);

    s.enqueue(make_request("after-register", isl));
    let worker_id = s.worker_of("after-register").worker_id;
    assert!(worker_id == 100 || worker_id == 200);
}

#[test]
fn test_register_workers_additive() {
    let isl = 256;
    let mut s = scheduler(0, isl, None);
    register_workers(&mut s.slots, &vec![10], &vec![]);
    register_workers(&mut s.slots, &vec![20], &vec![]);
    s.workers = vec![schedulable(10, isl), schedulable(20, isl)];

    s.enqueue(make_request("add-0", isl));
    s.enqueue(make_request("add-1", isl));
    let mut seen = vec![s.worker_of("add-0").worker_id, s.worker_of("add-1").worker_id];
    seen.sort();
    assert_eq!(seen, vec![10, 20]);
}

#[test]
fn test_allowed_worker_ids_filter() {
    let isl = 256;
    let mut s = scheduler(0, isl, None);
    s.workers = vec![schedulable(1, isl), schedulable(2, isl), schedulable(3, isl)];
    register_workers(&mut s.slots, &vec![1, 2, 3], &s.workers);

    let mut request = make_request("filter-0", isl);
    request.allowed_worker_ids = Some(vec![2]);
    s.enqueue(request);
    assert_eq!(s.worker_of("filter-0").worker_id, 2);
}

#[test]
fn test_pinned_worker_conflict_with_allowed_ids_fails_early() {
    let mut s = scheduler(1, 256, Some(0.0));
    let mut request = make_request("conflict", 256);
    request.pinned_worker = Some(WorkerWithDpRank::new(0, 0));
    request.allowed_worker_ids = Some(vec![1]);
    s.enqueue(request);
    assert!(matches!(
        s.answer_to("conflict").unwrap(),
        Err(KvSchedulerError::PinnedWorkerNotAllowed { worker_id: 0 })
    ));
}

#[test]
fn test_disallowed_worker_ids_fail_without_queueing() {
    let mut s = scheduler(1, 256, Some(0.0));
    let mut request = make_request("disallowed", 256);
    request.allowed_worker_ids = Some(vec![999]);
    s.enqueue(request);
    assert!(matches!(s.answer_to("disallowed").unwrap(), Err(KvSchedulerError::NoEndpoints)));
    assert_eq!(s.queue.pending_count(), 0);
}

#[test]
fn test_incompatible_required_taints_fail_without_queueing() {
    let mut s = scheduler(1, 256, Some(0.0));
    s.workers[0].taints = vec!["mdc-a".to_string()];
    let mut request = make_request("tainted", 256);
    request.routing_constraints.required_taints = vec!["mdc-b".to_string()];
    s.enqueue(request);
    assert!(matches!(s.answer_to("tainted").unwrap(), Err(KvSchedulerError::NoEndpoints)));
    assert_eq!(s.queue.pending_count(), 0);
}

#[test]
fn test_pinned_request_head_of_line_blocks_other_worker_capacity() {
    let mut s = scheduler(2, 256, Some(0.0));
    let pinned = |id| {
        let mut request = make_request(id, 256);
        request.pinned_worker = Some(WorkerWithDpRank::new(1, 0));
        request
    };

    s.enqueue(pinned("pinned-1"));
    assert_eq!(s.worker_of("pinned-1"), WorkerWithDpRank::new(1, 0));

    s.enqueue(pinned("pinned-2"));
    assert_eq!(s.queue.pending_count(), 1);
    assert!(s.answer_to("pinned-2").is_none());

    s.enqueue(make_request("worker-0", 256));
    assert_eq!(s.worker_of("worker-0"), WorkerWithDpRank::new(0, 0));

    s.enqueue(make_request("unpinned", 256));
    assert_eq!(s.queue.pending_count(), 2);

    s.finish("worker-0");
    s.update();
    assert_eq!(s.queue.pending_count(), 2);
    assert!(s.answer_to("unpinned").is_none());
    assert!(s.answer_to("pinned-2").is_none());

    s.finish("pinned-1");
    s.update();
    assert_eq!(s.worker_of("pinned-2"), WorkerWithDpRank::new(1, 0));
    assert_eq!(s.worker_of("unpinned"), WorkerWithDpRank::new(0, 0));
    assert_eq!(s.queue.pending_count(), 0);
}

#[test]
fn test_queue_prefill_busy_check_ignores_untracked_prefill_tokens() {
    let mut s = scheduler(1, 256, Some(0.0));
    let mut request = make_request("req-1", 256);
    request.track_prefill_tokens = false;
    s.enqueue(request);
    assert!(s.answer_to("req-1").unwrap().is_ok());
    assert_eq!(s.slots.potential_prefill_tokens((0, 0), 0), 0);

    s.enqueue(make_request("req-2", 256));
    assert!(s.answer_to("req-2").unwrap().is_ok());
    assert_eq!(s.queue.pending_count(), 0);
}

#[test]
fn update_refresh_can_change_selected_worker_after_queue_wait() {
    let isl = 64;
    let tiers = RouterQueueDepthTiers::unbounded_cap();
    let mut s = scheduler_with(2, isl, Some(0.0), tiers, true);
    assert!(s.queue.supports_overlap_refresh());
    let cached = |id, worker, tokens| {
        let mut request = make_request(id, isl);
        request.effective_cached_tokens.insert(worker, tokens);
        request
    };

    s.enqueue(cached("req-1", (0, 0), 48));
    assert_eq!(s.worker_of("req-1"), WorkerWithDpRank::new(0, 0));
    s.enqueue(cached("req-2", (1, 0), 48));
    assert_eq!(s.worker_of("req-2"), WorkerWithDpRank::new(1, 0));

    let mut third = cached("req-3", (0, 0), 128);
    third.effective_cached_tokens.insert((1, 0), 32);
    s.enqueue_with_block_hashes(third, Some(vec![LocalBlockHash(42)]));
    assert_eq!(s.queue.pending_count(), 1);

    s.slots.free("req-1");
    s.slots.free("req-2");
    s.update_with(
        |hashes| {
            assert_eq!(hashes, &Some(vec![LocalBlockHash(42)]));
            let mut effective_overlap_blocks = FxMap::default();
            effective_overlap_blocks.insert((0, 0), F64Bits(1.0f64.to_bits()));
            effective_overlap_blocks.insert((1, 0), F64Bits(9.0f64.to_bits()));
            let mut effective_cached_tokens = FxMap::default();
            effective_cached_tokens.insert((0, 0), 16);
            effective_cached_tokens.insert((1, 0), 144);
            Some(RefreshedOverlap {
                tier_overlap_blocks: no_tiers(),
                effective_overlap_blocks,
                effective_cached_tokens,
            })
        },
        &[],
    );

    let response = s.answer_to("req-3").unwrap().as_ref().unwrap();
    assert_eq!(response.best_worker, WorkerWithDpRank::new(1, 0));
    assert_eq!(f64::from_bits(response.effective_overlap_blocks.0), 9.0);
    assert_eq!(response.cached_tokens, 144);
    assert_eq!(s.queue.pending_count(), 0);
}

#[test]
fn update_requeues_head_if_workers_become_busy_during_refresh() {
    let isl = 64;
    let tiers = RouterQueueDepthTiers::unbounded_cap();
    let mut s = scheduler_with(1, isl, Some(0.0), tiers, true);
    s.enqueue(make_request("req-1", isl));
    assert!(s.answer_to("req-1").unwrap().is_ok());

    let mut second = make_request("req-2", isl);
    second.effective_cached_tokens.insert((0, 0), 64);
    s.enqueue_with_block_hashes(second, Some(vec![LocalBlockHash(42)]));
    assert_eq!(s.queue.pending_count(), 1);
    s.finish("req-1");

    let entry = s.queue.next_ready(&s.snapshot()).unwrap();
    assert_eq!(s.queue.pending_count(), 0);
    s.slots
        .add_request_if_registered(
            SequenceRequest {
                request_id: "occupy-during-refresh".to_string(),
                token_sequence: None,
                track_prefill_tokens: true,
                expected_output_tokens: None,
                prefill_load_hint: Some(PrefillLoadHint {
                    initial_effective_prefill_tokens: isl,
                    expected_prefill_duration: None,
                }),
                worker: WorkerWithDpRank::new(0, 0),
                lora_name: None,
            },
            s.now,
        )
        .unwrap();
    let snapshot = s.snapshot();
    assert!(s.queue.resume(entry, None, &snapshot).is_none());
    assert_eq!(s.queue.pending_count(), 1);
    assert!(s.answer_to("req-2").is_none());

    s.finish("occupy-during-refresh");
    s.update();
    assert_eq!(s.worker_of("req-2"), WorkerWithDpRank::new(0, 0));
    assert_eq!(s.queue.pending_count(), 0);
}

#[test]
fn equal_keys_go_in_the_order_in_which_they_came() {
    let mut s = scheduler(1, 8, Some(0.0));
    s.enqueue(make_request("busy", 8));
    let snapshot = s.snapshot();
    for id in ["a", "b", "c"] {
        let outcome = s.queue.enqueue(make_request(id, 1), &snapshot, &FcfsPolicy, 7);
        assert!(matches!(outcome, EnqueueOutcome::Queued));
    }
    let order: Vec<String> = s
        .queue
        .shut_down()
        .into_iter()
        .map(|entry| entry.request.maybe_request_id.unwrap())
        .collect();
    assert_eq!(order, ["a", "b", "c"]);
}

#[test]
fn a_policy_that_changes_keys_changes_the_order() {
    let mut s = scheduler(1, 8, Some(0.0));
    s.enqueue(make_request("busy", 8));
    let snapshot = s.snapshot();
    for (id, at) in [("a", 1), ("b", 2)] {
        s.queue.enqueue(make_request(id, 1), &snapshot, &TurningPolicy, at);
    }
    s.queue.rekey(&FcfsPolicy, &s.workers, 3);
    s.queue.rekey(&TurningPolicy, &s.workers, 3);
    let order: Vec<String> = s
        .queue
        .shut_down()
        .into_iter()
        .map(|entry| entry.request.maybe_request_id.unwrap())
        .collect();
    assert_eq!(order, ["b", "a"]);
}

#[test]
fn a_booking_needs_an_id_and_a_registered_rank() {
    let mut s = scheduler(1, 8, None);
    let mut nameless = make_request("", 8);
    nameless.maybe_request_id = None;
    s.schedule(nameless, false);
    assert_eq!(
        s.answers[0].1,
        Err(KvSchedulerError::BookingFailed(MISSING_REQUEST_ID.to_string()))
    );
    s.enqueue(make_request("twice", 8));
    s.enqueue(make_request("twice", 8));
    assert!(matches!(s.answers[2].1, Err(KvSchedulerError::BookingFailed(_))));
    let mut looked_up = make_request("looked-up", 8);
    looked_up.update_states = false;
    s.enqueue(looked_up);
    assert!(s.answer_to("looked-up").unwrap().is_ok());
    assert!(!s.slots.is_active("looked-up"));
}

#[test]
fn hints_ask_the_estimator_about_what_is_not_cached() {
    let hint = |micros| {
        Some(PrefillLoadHint {
            initial_effective_prefill_tokens: 60,
            expected_prefill_duration: micros,
        })
    };
    let knows = FixedEstimator { word: Ok(7) };
    let fails = FixedEstimator { word: Err("no model".to_string()) };
    assert_eq!(prefill_load_hint_for(Some(&knows), 100, 40, true), hint(Some(7)));
    assert_eq!(prefill_load_hint_for(Some(&fails), 100, 40, true), hint(None));
    assert_eq!(prefill_load_hint_for(None::<&FixedEstimator>, 100, 40, true), hint(None));
    assert_eq!(prefill_load_hint_for(Some(&knows), 100, 40, false), None);
    assert_eq!(prefill_load_hint_with(100, 100, true, Some(3)), None);
}

#[test]
fn the_best_worker_is_the_one_with_most_in_its_cache() {
    let mut request = make_request("r", 100);
    request.effective_cached_tokens.insert((1, 0), 30);
    request.effective_cached_tokens.insert((2, 0), 70);
    let workers = vec![schedulable(1, 0), schedulable(2, 0)];
    assert_eq!(request.best_effective_prefill_tokens(&workers), 30);
    request.allowed_worker_ids = Some(vec![1]);
    assert_eq!(request.best_effective_prefill_tokens(&workers), 70);
    request.pinned_worker = Some(WorkerWithDpRank::new(9, 0));
    assert_eq!(request.best_effective_prefill_tokens(&workers), 100);
    let deltas = request.prefill_token_deltas();
    assert_eq!(deltas.delta_for(WorkerWithDpRank::new(2, 0)), 30);
    assert_eq!(deltas.delta_for(WorkerWithDpRank::new(3, 0)), 100);
    assert_eq!(prefill_deltas(5, &FxMap::default(), false).default_delta, 0);
}

#[test]
fn loads_and_blocks_of_a_request() {
    let mut request = make_request("r", 33);
    assert_eq!(request.request_blocks(16), 3);
    let worker = WorkerWithDpRank::new(1, 0);
    assert_eq!(request.raw_prefill_tokens_for(worker), 33);
    request.prefill_tokens.insert((1, 0), 40);
    request.effective_cached_tokens.insert((1, 0), 8);
    assert_eq!(request.prefill_tokens_for(worker), 40);
    assert_eq!(request.raw_prefill_tokens_for(worker), 48);
    request.track_prefill_tokens = false;
    assert_eq!(request.raw_prefill_tokens_for(worker), 0);
    assert!(!request.bypasses_capacity_check());
}

#[test]
fn a_worker_is_busy_above_its_limit() {
    let request = make_request("r", 1);
    let workers = vec![schedulable(1, 10)];
    let mut active: FxMap<(u64, u32), usize> = FxMap::default();
    active.insert((1, 0), 10);
    assert!(!all_workers_prefill_busy(&request, &workers, &active));
    active.insert((1, 0), 11);
    assert!(all_workers_prefill_busy(&request, &workers, &active));
    assert!(!all_workers_prefill_busy(&request, &vec![], &active));
}

#[test]
fn errors_say_what_is_wrong() {
    assert_eq!(
        KvSchedulerError::NoEndpoints.message(),
        "no endpoints available to route work"
    );
    assert_eq!(
        KvSchedulerError::PinnedWorkerOverloaded { worker_id: 7 }.message(),
        "pinned worker 7 is overloaded"
    );
    assert_eq!(
        KvSchedulerError::PinnedWorkerNotAllowed { worker_id: 7 }.message(),
        "pinned worker 7 is not in allowed worker set"
    );
    assert_eq!(
        KvSchedulerError::InitFailed("x".to_string()).message(),
        "failed to initialize event publisher: x"
    );
    assert!(!KvSchedulerError::NoEndpoints.is_overload());
}
