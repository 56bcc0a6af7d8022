//! Classes of requests that share a queue.

use kv_router::scheduling::config::RouterQueuePolicy;
use kv_router::scheduling::policy_config::{
    ClassRules, PolicyClassConfig, PolicyProfile, UncachedIslBucket,
};
use kv_router::scheduling::policy_queue::{
    PolicyQueue, QueueLimitKind, QueueRejection, QueueSnapshot,
};

fn class(name: &str, quantum: usize) -> PolicyClassConfig {
    PolicyClassConfig {
        name: name.to_string(),
        policy_family: name.to_string(),
        cache_bucket: "all".to_string(),
        queue_policy: RouterQueuePolicy::Fcfs,
        quantum,
        prefill_busy_threshold: None,
        request_queue_limit_per_worker: None,
        raw_isl_token_queue_limit_per_worker: None,
        cached_token_queue_limit_per_worker: None,
    }
}

fn rules(default_policy_family: &str) -> ClassRules {
    ClassRules {
        default_policy_family: default_policy_family.to_string(),
        uncached_isl_buckets: vec![UncachedIslBucket { min_tokens: 0, bucket: "all".to_string() }],
    }
}

fn queue_of(classes: Vec<PolicyClassConfig>) -> PolicyQueue<&'static str> {
    let profile = PolicyProfile { classes, rules: rules("all") };
    assert!(profile.is_valid());
    PolicyQueue::new(profile)
}

/// A number that orders as the score does.
fn ordered(score: f64) -> i64 {
    let bits = (score + 0.0).to_bits() as i64;
    if bits < 0 {
        i64::MIN - bits
    } else {
        bits
    }
}

fn score(
    policy: RouterQueuePolicy,
    arrival_offset_secs: f64,
    priority_jump: f64,
    cost: usize,
) -> i64 {
    ordered(match policy {
        RouterQueuePolicy::Fcfs => priority_jump.max(0.0) - arrival_offset_secs.max(0.0),
        RouterQueuePolicy::Wspt => (1.0 + priority_jump.max(0.0)) / cost as f64,
        RouterQueuePolicy::Lcfs => priority_jump.max(0.0) + arrival_offset_secs.max(0.0),
    })
}

fn enqueue(
    queue: &mut PolicyQueue<&'static str>,
    class_index: usize,
    worker_count: usize,
    snapshot: QueueSnapshot,
    arrival_offset_secs: f64,
    payload: &'static str,
) -> Result<(), (QueueRejection, &'static str)> {
    let policy = queue.class_config(class_index).queue_policy;
    let score = score(policy, arrival_offset_secs, 0.0, snapshot.scheduling_cost_tokens);
    queue.enqueue(class_index, worker_count, snapshot, score, 0, payload)
}

#[test]
fn per_worker_caps_scale_and_remain_pre_add() {
    let mut queue = queue_of(vec![PolicyClassConfig {
        request_queue_limit_per_worker: Some(1),
        raw_isl_token_queue_limit_per_worker: Some(5),
        cached_token_queue_limit_per_worker: Some(3),
        ..class("capped", 10)
    }]);
    enqueue(&mut queue, 0, 2, QueueSnapshot::new(8, 4), 0.0, "first").unwrap();
    enqueue(&mut queue, 0, 2, QueueSnapshot::new(100, 100), 1.0, "overshoot").unwrap();
    let (rejection, payload) =
        enqueue(&mut queue, 0, 2, QueueSnapshot::new(1, 0), 2.0, "rejected").unwrap_err();
    assert_eq!(payload, "rejected");
    assert_eq!(rejection.limit_kind, QueueLimitKind::Requests);
    assert_eq!(rejection.current, 2);
    assert_eq!(rejection.limit, 2);
    assert_eq!(queue.class_stats(0).raw_isl_tokens, 108);
    assert_eq!(queue.class_stats(0).cached_tokens, 104);
}

#[test]
fn per_worker_token_caps_follow_capacity_without_evicting() {
    let mut queue = queue_of(vec![
        PolicyClassConfig { raw_isl_token_queue_limit_per_worker: Some(10), ..class("raw", 1) },
        PolicyClassConfig { cached_token_queue_limit_per_worker: Some(5), ..class("cached", 1) },
        PolicyClassConfig { request_queue_limit_per_worker: Some(0), ..class("zero", 1) },
        PolicyClassConfig { request_queue_limit_per_worker: Some(1), ..class("no-workers", 1) },
    ]);
    enqueue(&mut queue, 0, 2, QueueSnapshot::new(11, 0), 0.0, "raw-queued").unwrap();
    let (raw_rejection, _) =
        enqueue(&mut queue, 0, 1, QueueSnapshot::new(1, 0), 1.0, "raw-rejected").unwrap_err();
    assert_eq!(raw_rejection.limit_kind, QueueLimitKind::RawIslTokens);
    assert_eq!(raw_rejection.current, 11);
    assert_eq!(raw_rejection.limit, 10);
    assert_eq!(queue.class_stats(0).raw_isl_tokens, 11);

    enqueue(&mut queue, 0, 2, QueueSnapshot::new(10, 0), 2.0, "raw-after-growth").unwrap();
    let (grown_rejection, _) =
        enqueue(&mut queue, 0, 2, QueueSnapshot::new(1, 0), 3.0, "raw-at-grown-cap").unwrap_err();
    assert_eq!(grown_rejection.current, 21);
    assert_eq!(grown_rejection.limit, 20);

    enqueue(&mut queue, 1, 2, QueueSnapshot::new(8, 6), 0.0, "cached-queued").unwrap();
    let (cached_rejection, _) =
        enqueue(&mut queue, 1, 1, QueueSnapshot::new(1, 1), 1.0, "cached-rejected").unwrap_err();
    assert_eq!(cached_rejection.limit_kind, QueueLimitKind::CachedTokens);
    assert_eq!(cached_rejection.current, 6);
    assert_eq!(cached_rejection.limit, 5);

    let (zero_rejection, _) =
        enqueue(&mut queue, 2, 4, QueueSnapshot::new(1, 0), 0.0, "zero").unwrap_err();
    assert_eq!(zero_rejection.limit_kind, QueueLimitKind::Requests);
    assert_eq!(zero_rejection.limit, 0);

    let (no_workers_rejection, _) =
        enqueue(&mut queue, 3, 0, QueueSnapshot::new(1, 0), 0.0, "no-workers").unwrap_err();
    assert_eq!(no_workers_rejection.current, 0);
    assert_eq!(no_workers_rejection.limit, 0);
}

#[test]
fn per_worker_limit_multiplication_saturates() {
    let mut queue = queue_of(vec![PolicyClassConfig {
        request_queue_limit_per_worker: Some(usize::MAX),
        ..class("capped", 1)
    }]);
    enqueue(&mut queue, 0, 2, QueueSnapshot::new(1, 0), 0.0, "queued").unwrap();
}

#[test]
fn fcfs_and_wspt_order_only_within_each_class() {
    let mut queue = queue_of(vec![
        class("fcfs", 50),
        PolicyClassConfig { queue_policy: RouterQueuePolicy::Wspt, ..class("wspt", 50) },
    ]);
    enqueue(&mut queue, 0, 1, QueueSnapshot::new(50, 0), 0.0, "fcfs-long").unwrap();
    enqueue(&mut queue, 0, 1, QueueSnapshot::new(1, 0), 1.0, "fcfs-short").unwrap();
    enqueue(&mut queue, 1, 1, QueueSnapshot::new(50, 0), 0.0, "wspt-long").unwrap();
    enqueue(&mut queue, 1, 1, QueueSnapshot::new(1, 0), 1.0, "wspt-short").unwrap();

    let first = queue.pop_next(|_, _, _| true).unwrap();
    let second = queue.pop_next(|_, _, _| true).unwrap();
    assert_eq!(first.into_payload(), "fcfs-long");
    assert_eq!(second.into_payload(), "wspt-short");
}

#[test]
fn drr_weights_progress_and_skips_blocked_classes_without_credit() {
    let mut queue = queue_of(vec![class("slow", 1), class("fast", 3)]);
    for index in 0..6 {
        enqueue(&mut queue, 0, 1, QueueSnapshot::new(1, 0), index as f64, "slow").unwrap();
        enqueue(&mut queue, 1, 1, QueueSnapshot::new(1, 0), index as f64, "fast").unwrap();
    }

    let mut first_six = Vec::new();
    for _ in 0..6 {
        first_six.push(queue.pop_next(|_, _, _| true).unwrap().into_payload());
    }
    assert!(first_six.iter().filter(|value| **value == "fast").count() >= 3);

    let blocked_deficit = queue.class_deficit(1);
    let slow = queue.pop_next(|class, _, _| class == 0).unwrap();
    assert_eq!(slow.into_payload(), "slow");
    assert_eq!(queue.class_deficit(1), blocked_deficit);
}

#[test]
fn drr_serves_exact_quantum_ratio_for_equal_cost_backlogs() {
    let mut queue = queue_of(vec![class("one", 1), class("three", 3)]);
    for index in 0..20 {
        enqueue(&mut queue, 0, 1, QueueSnapshot::new(1, 0), index as f64, "one").unwrap();
    }
    for index in 0..60 {
        enqueue(&mut queue, 1, 1, QueueSnapshot::new(1, 0), index as f64, "three").unwrap();
    }

    let dispatches = (0..80)
        .map(|_| queue.pop_next(|_, _, _| true).unwrap().into_payload())
        .collect::<Vec<_>>();
    for round in dispatches.chunks_exact(4) {
        assert_eq!(round, ["one", "three", "three", "three"]);
    }
}

#[test]
fn fully_blocked_ring_returns_without_accruing_deficit() {
    let mut queue = queue_of(vec![class("first", 7), class("second", 11)]);
    enqueue(&mut queue, 0, 1, QueueSnapshot::new(100, 0), 0.0, "first").unwrap();
    enqueue(&mut queue, 1, 1, QueueSnapshot::new(100, 0), 0.0, "second").unwrap();

    for _ in 0..10_000 {
        assert!(queue.pop_next(|_, _, _| false).is_none());
    }
    assert_eq!(queue.class_deficit(0), 0);
    assert_eq!(queue.class_deficit(1), 0);
}

#[test]
fn oversized_heads_bulk_add_deficit_and_make_progress() {
    let mut queue = queue_of(vec![class("large", 4), class("blocked", 100)]);
    enqueue(&mut queue, 0, 1, QueueSnapshot::new(101, 0), 0.0, "large").unwrap();
    enqueue(&mut queue, 1, 1, QueueSnapshot::new(1, 0), 0.0, "blocked").unwrap();

    let popped = queue
        .pop_next(|class, _, _| class == 0)
        .expect("oversized request should make bounded progress");
    assert_eq!(popped.into_payload(), "large");
    assert_eq!(queue.pending_count(), 1);
}

#[test]
fn a_snapshot_counts_what_is_not_cached() {
    let snapshot = QueueSnapshot::new(10, 4);
    assert_eq!(snapshot.uncached_tokens, 6);
    assert_eq!(snapshot.scheduling_cost_tokens, 6);
    let cached = QueueSnapshot::new(4, 9);
    assert_eq!(cached.uncached_tokens, 0);
    assert_eq!(cached.scheduling_cost_tokens, 1);
}

#[test]
fn a_strict_priority_goes_first_and_equals_in_order_of_arrival() {
    let mut queue = queue_of(vec![class("only", 100)]);
    let snapshot = QueueSnapshot::new(1, 0);
    queue.enqueue(0, 1, snapshot, 5, 0, "first").unwrap();
    queue.enqueue(0, 1, snapshot, 5, 0, "second").unwrap();
    queue.enqueue(0, 1, snapshot, 0, 1, "urgent").unwrap();
    assert!(queue.has_backlog(0));
    assert_eq!(*queue.front(0).unwrap().payload(), "urgent");
    assert_eq!(queue.entries().len(), 3);
    let order: Vec<&str> = (0..3)
        .map(|_| queue.pop_next(|_, _, _| true).unwrap().into_payload())
        .collect();
    assert_eq!(order, ["urgent", "first", "second"]);
    assert!(queue.pop_next(|_, _, _| true).is_none());
}

#[test]
fn draining_gives_everything_that_waits() {
    let mut queue = queue_of(vec![class("a", 1), class("b", 1)]);
    assert_eq!(queue.class_count(), 2);
    queue.enqueue(0, 1, QueueSnapshot::new(3, 1), 0, 0, "x").unwrap();
    queue.enqueue(1, 1, QueueSnapshot::new(2, 0), 0, 0, "y").unwrap();
    let stats = queue.class_stats(0);
    assert_eq!((stats.requests, stats.raw_isl_tokens, stats.cached_tokens), (1, 3, 1));
    let drained: Vec<&str> = queue.drain().into_iter().map(|e| e.into_payload()).collect();
    assert_eq!(drained.len(), 2);
    assert!(drained.contains(&"x") && drained.contains(&"y"));
    assert_eq!(QueueLimitKind::RawIslTokens.as_str(), "raw_isl_tokens");
}

#[test]
fn classes_are_asked_from_the_cursor_on() {
    let mut queue = queue_of(vec![class("a", 10), class("b", 10), class("c", 10)]);
    for (class_index, payload) in [(0, "a"), (1, "b"), (2, "c")] {
        enqueue(&mut queue, class_index, 1, QueueSnapshot::new(5, 0), 0.0, payload).unwrap();
    }
    let asked = std::cell::RefCell::new(vec![]);
    let first = queue.pop_next(|class, _, payload| {
        asked.borrow_mut().push((class, *payload));
        true
    });
    assert_eq!(first.unwrap().into_payload(), "a");
    assert_eq!(asked.take(), vec![(0, "a")]);
    let second = queue.pop_next(|class, _, payload| {
        asked.borrow_mut().push((class, *payload));
        class == 2
    });
    assert_eq!(second.unwrap().into_payload(), "c");
    assert_eq!(asked.take(), vec![(1, "b"), (2, "c")]);
    enqueue(&mut queue, 0, 1, QueueSnapshot::new(5, 0), 0.0, "again").unwrap();
    assert!(queue
        .pop_next(|class, _, _| {
            asked.borrow_mut().push((class, ""));
            false
        })
        .is_none());
    assert_eq!(asked.take(), vec![(0, ""), (1, "")]);
}

#[test]
fn a_request_is_of_the_last_bucket_that_it_reaches() {
    let rules = ClassRules {
        default_policy_family: "x".to_string(),
        uncached_isl_buckets: vec![
            UncachedIslBucket { min_tokens: 0, bucket: "short".to_string() },
            UncachedIslBucket { min_tokens: 100, bucket: "long".to_string() },
        ],
    };
    assert_eq!(rules.bucket(99), Some("short"));
    assert_eq!(rules.bucket(100), Some("long"));
    let late = ClassRules {
        default_policy_family: "x".to_string(),
        uncached_isl_buckets: vec![UncachedIslBucket { min_tokens: 1, bucket: "b".to_string() }],
    };
    assert_eq!(late.bucket(0), None);
    assert!(class("a", 1).takes("a", Some("all")));
    assert!(!class("a", 1).takes("a", None));
    assert!(!class("a", 1).takes("b", Some("all")));
}

#[test]
fn a_router_without_classes_has_one() {
    let profile = PolicyProfile::unclassified(RouterQueuePolicy::Lcfs, None);
    assert!(profile.is_valid());
    assert_eq!(profile.classes.len(), 1);
    assert_eq!(profile.classes[0].queue_policy, RouterQueuePolicy::Lcfs);
}
