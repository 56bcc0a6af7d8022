//! Pending requests in policy classes, served by deficit round robin.

use vstd::prelude::*;
use vstd::string::StringExecFns;

use crate::scheduling::policy_config::{PolicyClassConfig, PolicyProfile};
use crate::text::{append_decimal, decimal, quoted, quoted_text};

verus! {

/// What a request brings to its queue.
#[derive(Clone, Copy, Debug, PartialEq, Eq, Structural)]
pub struct QueueSnapshot {
    pub raw_isl_tokens: usize,
    pub cached_tokens: usize,
    pub uncached_tokens: usize,
    pub scheduling_cost_tokens: usize,
}

impl QueueSnapshot {
    /// Keeps the exact uncached tokens for classification and clamps only the
    /// scheduling cost, so that a request without work still takes its turn.
    pub fn new(raw_isl_tokens: usize, cached_tokens: usize) -> (r: Self)
        ensures
            r.raw_isl_tokens == raw_isl_tokens,
            r.cached_tokens == if cached_tokens <= raw_isl_tokens {
                cached_tokens
            } else {
                raw_isl_tokens
            },
            r.uncached_tokens == raw_isl_tokens - r.cached_tokens,
            r.scheduling_cost_tokens == if r.uncached_tokens == 0 {
                1
            } else {
                r.uncached_tokens
            },
    {
        let cached_tokens = if cached_tokens <= raw_isl_tokens {
            cached_tokens
        } else {
            raw_isl_tokens
        };
        let uncached_tokens: usize = raw_isl_tokens - cached_tokens;
        QueueSnapshot {
            raw_isl_tokens,
            cached_tokens,
            uncached_tokens,
            scheduling_cost_tokens: if uncached_tokens == 0 {
                1
            } else {
                uncached_tokens
            },
        }
    }
}

/// The limit that a full queue ran into.
#[derive(Clone, Copy, Debug, PartialEq, Eq, Structural)]
pub enum QueueLimitKind {
    Requests,
    RawIslTokens,
    CachedTokens,
}

impl QueueLimitKind {
    /// The name of the limit.
    pub fn as_str(self) -> (s: &'static str)
        ensures
            s@ == self.name(),
    {
        match self {
            QueueLimitKind::Requests => "requests",
            QueueLimitKind::RawIslTokens => "raw_isl_tokens",
            QueueLimitKind::CachedTokens => "cached_tokens",
        }
    }

    /// The name of the limit.
    pub open spec fn name(self) -> Seq<char> {
        match self {
            QueueLimitKind::Requests => "requests"@,
            QueueLimitKind::RawIslTokens => "raw_isl_tokens"@,
            QueueLimitKind::CachedTokens => "cached_tokens"@,
        }
    }
}

/// Why a request was not queued.
#[derive(Debug, PartialEq, Eq)]
pub struct QueueRejection {
    pub policy_class: String,
    pub limit_kind: QueueLimitKind,
    pub current: usize,
    pub limit: usize,
}

impl QueueRejection {
    /// The rejection in words.
    pub open spec fn spec_message(&self) -> Seq<char> {
        "router policy class "@ + quoted_text(self.policy_class@) + " queue "@
            + self.limit_kind.name() + " limit reached (current="@ + decimal(self.current as nat)
            + ", limit="@ + decimal(self.limit as nat) + ")"@
    }

    /// The rejection in words.
    pub fn message(&self) -> (text: String)
        ensures
            text@ == self.spec_message(),
    {
        let mut text = "router policy class ".to_owned();
        text.append(quoted(self.policy_class.as_str()).as_str());
        text.append(" queue ");
        text.append(self.limit_kind.as_str());
        text.append(" limit reached (current=");
        append_decimal(&mut text, self.current as u64);
        text.append(", limit=");
        append_decimal(&mut text, self.limit as u64);
        text.append(")");
        text
    }
}

/// What is pending in one class.
#[derive(Clone, Copy, Debug, PartialEq, Eq, Structural)]
pub struct PolicyQueueStats {
    pub requests: usize,
    pub raw_isl_tokens: usize,
    pub cached_tokens: usize,
}

/// A pending request. Among the entries of a class the one with the highest
/// strict priority goes first, then the one with the highest policy score, then
/// the one that was queued first.
pub struct PolicyQueueEntry<T> {
    pub class_index: usize,
    pub strict_priority: u32,
    /// Where the request's policy score stands in the order of all scores.
    pub policy_score: i64,
    pub enqueue_seq: u64,
    pub snapshot: QueueSnapshot,
    pub payload: T,
}

impl<T> PolicyQueueEntry<T> {
    pub fn class_index(&self) -> (r: usize)
        ensures
            r == self.class_index,
    {
        self.class_index
    }

    pub fn snapshot(&self) -> (r: QueueSnapshot)
        ensures
            r == self.snapshot,
    {
        self.snapshot
    }

    pub fn payload(&self) -> (r: &T)
        ensures
            *r == self.payload,
    {
        &self.payload
    }

    pub fn payload_mut(&mut self) -> (r: &mut T)
        ensures
            *r == old(self).payload,
            final(self).payload == *final(r),
            final(self).class_index == old(self).class_index,
            final(self).strict_priority == old(self).strict_priority,
            final(self).policy_score == old(self).policy_score,
            final(self).enqueue_seq == old(self).enqueue_seq,
            final(self).snapshot == old(self).snapshot,
    {
        &mut self.payload
    }

    pub fn into_payload(self) -> (r: T)
        ensures
            r == self.payload,
    {
        self.payload
    }

    /// Whether this entry goes before the other.
    pub open spec fn outranks(self, other: Self) -> bool {
        if self.strict_priority != other.strict_priority {
            self.strict_priority > other.strict_priority
        } else if self.policy_score != other.policy_score {
            self.policy_score > other.policy_score
        } else {
            self.enqueue_seq < other.enqueue_seq
        }
    }

    fn goes_before(&self, other: &Self) -> (r: bool)
        ensures
            r == self.outranks(*other),
    {
        if self.strict_priority != other.strict_priority {
            self.strict_priority > other.strict_priority
        } else if self.policy_score != other.policy_score {
            self.policy_score > other.policy_score
        } else {
            self.enqueue_seq < other.enqueue_seq
        }
    }
}

/// The pending entries, in the order in which they are served, after one more
/// was queued.
pub open spec fn queued<T>(pending: Seq<PolicyQueueEntry<T>>, entry: PolicyQueueEntry<T>) -> Seq<
    PolicyQueueEntry<T>,
>
    decreases pending.len(),
{
    if pending.len() == 0 || entry.outranks(pending[0]) {
        seq![entry] + pending
    } else {
        seq![pending[0]] + queued(pending.skip(1), entry)
    }
}

/// Whether entries stand in the order in which they are served.
pub open spec fn in_service_order<T>(pending: Seq<PolicyQueueEntry<T>>) -> bool {
    forall|i: int, j: int|
        0 <= i < j < pending.len() ==> !(#[trigger] pending[j]).outranks(#[trigger] pending[i])
}

proof fn lemma_queued_at<T>(pending: Seq<PolicyQueueEntry<T>>, entry: PolicyQueueEntry<T>, at: int)
    requires
        0 <= at <= pending.len(),
        forall|i: int| 0 <= i < at ==> !entry.outranks(#[trigger] pending[i]),
        at < pending.len() ==> entry.outranks(pending[at]),
    ensures
        queued(pending, entry) == pending.insert(at, entry),
    decreases pending.len(),
{
    if at == 0 {
        assert(pending.insert(0, entry) =~= seq![entry] + pending);
    } else {
        assert(!entry.outranks(pending[0]));
        let rest = pending.skip(1);
        assert forall|i: int| 0 <= i < at - 1 implies !entry.outranks(#[trigger] rest[i]) by {
            assert(rest[i] == pending[i + 1]);
        }
        lemma_queued_at(rest, entry, at - 1);
        assert(pending.insert(at, entry) =~= seq![pending[0]] + rest.insert(at - 1, entry));
    }
}

proof fn lemma_insert_in_order<T>(
    pending: Seq<PolicyQueueEntry<T>>,
    entry: PolicyQueueEntry<T>,
    at: int,
)
    requires
        in_service_order(pending),
        0 <= at <= pending.len(),
        forall|i: int| 0 <= i < at ==> !entry.outranks(#[trigger] pending[i]),
        at < pending.len() ==> entry.outranks(pending[at]),
    ensures
        in_service_order(pending.insert(at, entry)),
{
    let new = pending.insert(at, entry);
    assert forall|i: int, j: int| 0 <= i < j < new.len() implies !(#[trigger] new[j]).outranks(
        #[trigger] new[i],
    ) by {
        if j < at {
            assert(new[i] == pending[i] && new[j] == pending[j]);
        } else if j == at {
            assert(new[i] == pending[i]);
        } else {
            assert(new[j] == pending[j - 1]);
            if i < at {
                assert(new[i] == pending[i]);
            } else if i == at {
                if j - 1 > at {
                    assert(!pending[j - 1].outranks(pending[at]));
                }
            } else {
                assert(new[i] == pending[i - 1]);
            }
        }
    }
}

struct PolicyClassQueue<T> {
    config: PolicyClassConfig,
    /// In the order in which the entries are served.
    pending: Vec<PolicyQueueEntry<T>>,
    stats: PolicyQueueStats,
    deficit: usize,
}

/// Model of one class.
pub struct ClassView<T> {
    pub config: PolicyClassConfig,
    /// In the order in which the entries are served.
    pub pending: Seq<PolicyQueueEntry<T>>,
    pub stats: PolicyQueueStats,
    pub deficit: usize,
}

/// Model of a [`PolicyQueue`].
pub struct QueueView<T> {
    pub classes: Seq<ClassView<T>>,
    pub next_class: int,
    pub next_enqueue_seq: u64,
}

/// `a + b`, at most the largest `usize`.
pub open spec fn sat_add(a: usize, b: usize) -> usize {
    if a + b > usize::MAX {
        usize::MAX
    } else {
        (a + b) as usize
    }
}

/// `a - b`, at least zero.
pub open spec fn sat_sub(a: usize, b: usize) -> usize {
    if a >= b {
        (a - b) as usize
    } else {
        0
    }
}

/// `a * b`, at most the largest `usize`.
pub open spec fn sat_mul(a: usize, b: usize) -> usize {
    if a * b > usize::MAX {
        usize::MAX
    } else {
        (a * b) as usize
    }
}

/// The counters after one more request.
pub open spec fn stats_with(stats: PolicyQueueStats, snapshot: QueueSnapshot) -> PolicyQueueStats {
    PolicyQueueStats {
        requests: (stats.requests + 1) as usize,
        raw_isl_tokens: sat_add(stats.raw_isl_tokens, snapshot.raw_isl_tokens),
        cached_tokens: sat_add(stats.cached_tokens, snapshot.cached_tokens),
    }
}

/// The counters after one request less.
pub open spec fn stats_without(
    stats: PolicyQueueStats,
    snapshot: QueueSnapshot,
) -> PolicyQueueStats {
    PolicyQueueStats {
        requests: sat_sub(stats.requests, 1),
        raw_isl_tokens: sat_sub(stats.raw_isl_tokens, snapshot.raw_isl_tokens),
        cached_tokens: sat_sub(stats.cached_tokens, snapshot.cached_tokens),
    }
}

fn add_stats(stats: PolicyQueueStats, snapshot: QueueSnapshot) -> (r: PolicyQueueStats)
    requires
        stats.requests < usize::MAX,
    ensures
        r == stats_with(stats, snapshot),
{
    PolicyQueueStats {
        requests: stats.requests + 1,
        raw_isl_tokens: stats.raw_isl_tokens.saturating_add(snapshot.raw_isl_tokens),
        cached_tokens: stats.cached_tokens.saturating_add(snapshot.cached_tokens),
    }
}

fn subtract_stats(stats: PolicyQueueStats, snapshot: QueueSnapshot) -> (r: PolicyQueueStats)
    ensures
        r == stats_without(stats, snapshot),
{
    PolicyQueueStats {
        requests: stats.requests.saturating_sub(1),
        raw_isl_tokens: stats.raw_isl_tokens.saturating_sub(snapshot.raw_isl_tokens),
        cached_tokens: stats.cached_tokens.saturating_sub(snapshot.cached_tokens),
    }
}

fn saturating_mul(a: usize, b: usize) -> (r: usize)
    ensures
        r == sat_mul(a, b),
{
    match a.checked_mul(b) {
        Some(r) => r,
        None => usize::MAX,
    }
}

/// The limit of a kind for a number of workers, where the class has one.
pub open spec fn limit_of(config: PolicyClassConfig, kind: QueueLimitKind, workers: usize) -> Option<
    usize,
> {
    let per_worker = match kind {
        QueueLimitKind::Requests => config.request_queue_limit_per_worker,
        QueueLimitKind::RawIslTokens => config.raw_isl_token_queue_limit_per_worker,
        QueueLimitKind::CachedTokens => config.cached_token_queue_limit_per_worker,
    };
    match per_worker {
        Some(limit) => Some(sat_mul(limit, workers)),
        None => None,
    }
}

/// The counter that a limit is held against.
pub open spec fn usage_of(stats: PolicyQueueStats, kind: QueueLimitKind) -> usize {
    match kind {
        QueueLimitKind::Requests => stats.requests,
        QueueLimitKind::RawIslTokens => stats.raw_isl_tokens,
        QueueLimitKind::CachedTokens => stats.cached_tokens,
    }
}

/// Whether what is pending already reaches a limit.
pub open spec fn limit_reached<T>(
    class: ClassView<T>,
    kind: QueueLimitKind,
    workers: usize,
) -> bool {
    let limit = limit_of(class.config, kind, workers);
    limit is Some && usage_of(class.stats, kind) >= limit->0
}

/// The first limit that is reached, in the order requests, raw tokens, cached
/// tokens. The request that crosses a limit is still taken.
pub open spec fn reached_limit<T>(class: ClassView<T>, workers: usize) -> Option<QueueLimitKind> {
    if limit_reached(class, QueueLimitKind::Requests, workers) {
        Some(QueueLimitKind::Requests)
    } else if limit_reached(class, QueueLimitKind::RawIslTokens, workers) {
        Some(QueueLimitKind::RawIslTokens)
    } else if limit_reached(class, QueueLimitKind::CachedTokens, workers) {
        Some(QueueLimitKind::CachedTokens)
    } else {
        None
    }
}

impl<T> PolicyClassQueue<T> {
    spec fn model(&self) -> ClassView<T> {
        ClassView {
            config: self.config,
            pending: self.pending@,
            stats: self.stats,
            deficit: self.deficit,
        }
    }

    fn rejection_for(&self, limit_kind: QueueLimitKind, current: usize, per_worker: Option<usize>, worker_count: usize) -> (r: Option<QueueRejection>)
        requires
            current == usage_of(self.stats, limit_kind),
            limit_of(self.config, limit_kind, worker_count) == (match per_worker {
                Some(limit) => Some(sat_mul(limit, worker_count)),
                None => None::<usize>,
            }),
        ensures
            r is Some <==> limit_reached(self.model(), limit_kind, worker_count),
            r is Some ==> {
                &&& r->0.policy_class@ == self.config.name@
                &&& r->0.limit_kind == limit_kind
                &&& r->0.current == usage_of(self.stats, limit_kind)
                &&& r->0.limit == limit_of(self.config, limit_kind, worker_count)->0
            },
    {
        match per_worker {
            Some(per_worker) => {
                let limit = saturating_mul(per_worker, worker_count);
                if current >= limit {
                    Some(
                        QueueRejection {
                            policy_class: self.config.name.clone(),
                            limit_kind,
                            current,
                            limit,
                        },
                    )
                } else {
                    None
                }
            },
            None => None,
        }
    }

    /// Limits scale with the number of workers and are held against what is
    /// pending now.
    fn queue_rejection(&self, worker_count: usize) -> (r: Option<QueueRejection>)
        ensures
            r is Some <==> reached_limit(self.model(), worker_count) is Some,
            r is Some ==> {
                let kind = reached_limit(self.model(), worker_count)->0;
                &&& r->0.policy_class@ == self.config.name@
                &&& r->0.limit_kind == kind
                &&& r->0.current == usage_of(self.stats, kind)
                &&& r->0.limit == limit_of(self.config, kind, worker_count)->0
            },
    {
        let requests = self.rejection_for(
            QueueLimitKind::Requests,
            self.stats.requests,
            self.config.request_queue_limit_per_worker,
            worker_count,
        );
        if requests.is_some() {
            return requests;
        }
        let raw = self.rejection_for(
            QueueLimitKind::RawIslTokens,
            self.stats.raw_isl_tokens,
            self.config.raw_isl_token_queue_limit_per_worker,
            worker_count,
        );
        if raw.is_some() {
            return raw;
        }
        self.rejection_for(
            QueueLimitKind::CachedTokens,
            self.stats.cached_tokens,
            self.config.cached_token_queue_limit_per_worker,
            worker_count,
        )
    }
}

/// Number of pending entries over all classes.
pub open spec fn total_pending<T>(classes: Seq<ClassView<T>>) -> nat
    decreases classes.len(),
{
    if classes.len() == 0 {
        0
    } else {
        total_pending(classes.drop_last()) + classes.last().pending.len()
    }
}

/// What always holds of one class: its entries are its own and stand in the
/// order in which they are served, its request counter is exact, and its
/// quantum is positive.
pub open spec fn class_wf<T>(class: ClassView<T>, index: int) -> bool {
    &&& class.config.quantum > 0
    &&& in_service_order(class.pending)
    &&& class.stats.requests == class.pending.len()
    &&& forall|i: int|
        0 <= i < class.pending.len() ==> (#[trigger] class.pending[i]).class_index == index
}

/// The cost of a class's next entry.
pub open spec fn head_cost<T>(class: ClassView<T>) -> usize {
    class.pending[0].snapshot.scheduling_cost_tokens
}

/// Whether a class has an entry that may be dispatched now.
pub open spec fn eligible<T>(classes: Seq<ClassView<T>>, ready: Seq<bool>, c: int) -> bool {
    classes[c].pending.len() > 0 && ready[c]
}

/// Whether a class can afford its next entry within the current round: from its
/// credit, or from its credit and one quantum.
pub open spec fn affordable<T>(classes: Seq<ClassView<T>>, ready: Seq<bool>, c: int) -> bool {
    eligible(classes, ready, c) && head_cost(classes[c]) <= sat_add(
        classes[c].deficit,
        classes[c].config.quantum,
    )
}

/// The class at a distance from the cursor.
pub open spec fn ring(next_class: int, n: int, offset: int) -> int {
    (next_class + offset) % n
}

/// A class after the round passed it by: an empty class loses its credit, an
/// eligible one gains a quantum, a blocked one keeps what it has.
pub open spec fn passed_by<T>(class: ClassView<T>, ready: bool) -> ClassView<T> {
    ClassView {
        deficit: if class.pending.len() == 0 {
            0
        } else if ready {
            sat_add(class.deficit, class.config.quantum)
        } else {
            class.deficit
        },
        ..class
    }
}

/// The classes after the round passed those at a distance below `offset`.
pub open spec fn after_pass<T>(
    classes: Seq<ClassView<T>>,
    next_class: int,
    ready: Seq<bool>,
    offset: int,
) -> Seq<ClassView<T>> {
    Seq::new(
        classes.len(),
        |c: int|
            if distance(next_class, classes.len() as int, c) < offset {
                passed_by(classes[c], ready[c])
            } else {
                classes[c]
            },
    )
}

/// How far a class is from the cursor.
pub open spec fn distance(next_class: int, n: int, c: int) -> int {
    if c >= next_class {
        c - next_class
    } else {
        c + n - next_class
    }
}

/// The nearest class, at a distance of at least `offset`, that satisfies a
/// condition.
pub open spec fn nearest(
    next_class: int,
    n: int,
    offset: int,
    condition: spec_fn(int) -> bool,
) -> Option<int>
    decreases n - offset,
{
    if offset >= n {
        None
    } else if condition(ring(next_class, n, offset)) {
        Some(offset)
    } else {
        nearest(next_class, n, offset + 1, condition)
    }
}

/// Rounds until a class can afford its next entry.
pub open spec fn rounds_for<T>(class: ClassView<T>) -> int {
    let missing = sat_sub(head_cost(class), class.deficit) as int;
    (missing + class.config.quantum - 1) / class.config.quantum as int
}

/// The fewest rounds after which some eligible class below `c` can afford its
/// next entry.
pub open spec fn fewest_rounds<T>(classes: Seq<ClassView<T>>, ready: Seq<bool>, c: int) -> Option<
    int,
>
    decreases c,
{
    if c <= 0 {
        None
    } else {
        let before = fewest_rounds(classes, ready, c - 1);
        if eligible(classes, ready, c - 1) {
            let mine = rounds_for(classes[c - 1]);
            match before {
                Some(rounds) if rounds <= mine => Some(rounds),
                _ => Some(mine),
            }
        } else {
            before
        }
    }
}

/// The classes after a number of rounds were credited at once.
pub open spec fn after_rounds<T>(
    classes: Seq<ClassView<T>>,
    ready: Seq<bool>,
    rounds: usize,
) -> Seq<ClassView<T>> {
    Seq::new(
        classes.len(),
        |c: int|
            if eligible(classes, ready, c) {
                ClassView {
                    deficit: sat_add(classes[c].deficit, sat_mul(classes[c].config.quantum, rounds)),
                    ..classes[c]
                }
            } else {
                classes[c]
            },
    )
}

/// A queue after the next entry of class `c` was served from its credit. A
/// class that can afford its next entry too keeps the cursor; an emptied class
/// loses its credit.
pub open spec fn served<T>(queue: QueueView<T>, c: int) -> QueueView<T> {
    let class = queue.classes[c];
    let left = sat_sub(class.deficit, head_cost(class));
    let pending = class.pending.skip(1);
    let following = (c + 1) % (queue.classes.len() as int);
    QueueView {
        classes: queue.classes.update(
            c,
            ClassView {
                config: class.config,
                pending,
                stats: stats_without(class.stats, class.pending[0].snapshot),
                deficit: if pending.len() == 0 {
                    0
                } else {
                    left
                },
            },
        ),
        next_class: if pending.len() > 0 && pending[0].snapshot.scheduling_cost_tokens <= left {
            c
        } else {
            following
        },
        next_enqueue_seq: queue.next_enqueue_seq,
    }
}

/// A queue with one quantum added to class `c`, unless its credit alone pays for
/// its next entry.
pub open spec fn topped_up<T>(classes: Seq<ClassView<T>>, c: int) -> Seq<ClassView<T>> {
    let class = classes[c];
    if head_cost(class) <= class.deficit {
        classes
    } else {
        classes.update(
            c,
            ClassView { deficit: sat_add(class.deficit, class.config.quantum), ..class },
        )
    }
}

/// One step of deficit round robin: what is served, and the queue after it.
/// Where a class can pay within this round, the nearest such class is served.
/// Otherwise as many whole rounds are credited as the first class needs. Where
/// no class is eligible nothing is served.
pub open spec fn round_robin<T>(queue: QueueView<T>, ready: Seq<bool>) -> (
    QueueView<T>,
    Option<PolicyQueueEntry<T>>,
) {
    let n = queue.classes.len() as int;
    let first = nearest(
        queue.next_class,
        n,
        0,
        |c: int| affordable(queue.classes, ready, c),
    );
    if total_pending(queue.classes) == 0 {
        (queue, None)
    } else if first is Some {
        let c = ring(queue.next_class, n, first->0);
        let passed = after_pass(queue.classes, queue.next_class, ready, first->0);
        (
            served(QueueView { classes: topped_up(passed, c), ..queue }, c),
            Some(queue.classes[c].pending[0]),
        )
    } else {
        let passed = after_pass(queue.classes, queue.next_class, ready, n);
        match fewest_rounds(passed, ready, n) {
            None => (QueueView { classes: passed, ..queue }, None),
            Some(rounds) => {
                let credited = after_rounds(passed, ready, rounds as usize);
                let next = nearest(
                    queue.next_class,
                    n,
                    0,
                    |c: int| eligible(credited, ready, c) && head_cost(credited[c])
                        <= credited[c].deficit,
                );
                let c = ring(queue.next_class, n, next->0);
                (
                    served(QueueView { classes: credited, ..queue }, c),
                    Some(queue.classes[c].pending[0]),
                )
            },
        }
    }
}

/// Pending requests in policy classes.
pub struct PolicyQueue<T> {
    classes: Vec<PolicyClassQueue<T>>,
    next_class: usize,
    next_enqueue_seq: u64,
    pending_count: usize,
}

impl<T> View for PolicyQueue<T> {
    type V = QueueView<T>;

    closed spec fn view(&self) -> QueueView<T> {
        QueueView {
            classes: self.classes@.map_values(|class: PolicyClassQueue<T>| class.model()),
            next_class: self.next_class as int,
            next_enqueue_seq: self.next_enqueue_seq,
        }
    }
}

/// What always holds of a queue: its classes are in order, and its cursor is on
/// one of them.
pub open spec fn queue_wf<T>(queue: QueueView<T>) -> bool {
    &&& forall|c: int| 0 <= c < queue.classes.len() ==> class_wf(#[trigger] queue.classes[c], c)
    &&& 0 <= queue.next_class
    &&& queue.next_class < queue.classes.len() || (queue.classes.len() == 0 && queue.next_class
        == 0)
}

impl<T> PolicyQueue<T> {
    /// The invariant of a queue.
    pub closed spec fn wf(&self) -> bool {
        &&& queue_wf(self@)
        &&& self.pending_count == total_pending(self@.classes)
    }

    /// A queue's classes are always in order, its cursor is on one of them, and no more
    /// requests wait in all than can be counted.
    pub proof fn queues_are_in_order(&self)
        requires
            self.wf(),
        ensures
            queue_wf(self@),
            total_pending(self@.classes) <= usize::MAX,
    {
    }

    /// An empty queue for the classes of a profile.
    pub fn new(profile: PolicyProfile) -> (queue: Self)
        requires
            profile.valid(),
        ensures
            queue.wf(),
            queue@.classes.len() == profile.classes@.len(),
            queue@.next_class == 0,
            queue@.next_enqueue_seq == 0,
            forall|c: int|
                0 <= c < queue@.classes.len() ==> (#[trigger] queue@.classes[c]) == (ClassView::<T> {
                    config: profile.classes@[c],
                    pending: Seq::empty(),
                    stats: PolicyQueueStats { requests: 0, raw_isl_tokens: 0, cached_tokens: 0 },
                    deficit: 0,
                }),
    {
        PolicyQueue::new_for(profile.classes)
    }

    /// An empty queue for some classes.
    pub fn new_for(classes: Vec<PolicyClassConfig>) -> (queue: Self)
        requires
            forall|i: int| 0 <= i < classes@.len() ==> (#[trigger] classes@[i]).quantum > 0,
        ensures
            queue.wf(),
            queue@.classes.len() == classes@.len(),
            queue@.next_class == 0,
            queue@.next_enqueue_seq == 0,
            forall|c: int|
                0 <= c < queue@.classes.len() ==> (#[trigger] queue@.classes[c]) == (ClassView::<T> {
                    config: classes@[c],
                    pending: Seq::empty(),
                    stats: PolicyQueueStats { requests: 0, raw_isl_tokens: 0, cached_tokens: 0 },
                    deficit: 0,
                }),
    {
        let ghost configs = classes@;
        let mut rest = classes;
        let mut reversed: Vec<PolicyClassQueue<T>> = Vec::new();
        while rest.len() > 0
            invariant
                rest@ == configs.take(rest@.len() as int),
                rest@.len() + reversed@.len() == configs.len(),
                forall|i: int|
                    0 <= i < reversed@.len() ==> (#[trigger] reversed@[i]).model() == (ClassView::<
                        T,
                    > {
                        config: configs[configs.len() - 1 - i],
                        pending: Seq::empty(),
                        stats: PolicyQueueStats { requests: 0, raw_isl_tokens: 0, cached_tokens: 0 },
                        deficit: 0,
                    }),
            decreases rest.len(),
        {
            let config = rest.pop().unwrap();
            let class = PolicyClassQueue {
                config,
                pending: Vec::new(),
                stats: PolicyQueueStats { requests: 0, raw_isl_tokens: 0, cached_tokens: 0 },
                deficit: 0,
            };
            assert(class.pending@ =~= Seq::empty());
            reversed.push(class);
        }
        let mut classes: Vec<PolicyClassQueue<T>> = Vec::new();
        while reversed.len() > 0
            invariant
                classes@.len() + reversed@.len() == configs.len(),
                forall|i: int|
                    0 <= i < reversed@.len() ==> (#[trigger] reversed@[i]).model() == (ClassView::<
                        T,
                    > {
                        config: configs[configs.len() - 1 - i],
                        pending: Seq::empty(),
                        stats: PolicyQueueStats { requests: 0, raw_isl_tokens: 0, cached_tokens: 0 },
                        deficit: 0,
                    }),
                forall|i: int|
                    0 <= i < classes@.len() ==> (#[trigger] classes@[i]).model() == (ClassView::<
                        T,
                    > {
                        config: configs[i],
                        pending: Seq::empty(),
                        stats: PolicyQueueStats { requests: 0, raw_isl_tokens: 0, cached_tokens: 0 },
                        deficit: 0,
                    }),
            decreases reversed.len(),
        {
            let class = reversed.pop().unwrap();
            classes.push(class);
        }
        let queue = PolicyQueue { classes, next_class: 0, next_enqueue_seq: 0, pending_count: 0 };
        proof {
            lemma_nothing_pending(queue@.classes);
        }
        queue
    }

    /// Number of pending requests.
    pub fn pending_count(&self) -> (r: usize)
        requires
            self.wf(),
        ensures
            r == total_pending(self@.classes),
    {
        self.pending_count
    }

    pub fn class_count(&self) -> (r: usize)
        ensures
            r == self@.classes.len(),
    {
        self.classes.len()
    }

    pub fn class_config(&self, class_index: usize) -> (r: &PolicyClassConfig)
        requires
            class_index < self@.classes.len(),
        ensures
            *r == self@.classes[class_index as int].config,
    {
        &self.classes[class_index].config
    }

    pub fn class_stats(&self, class_index: usize) -> (r: PolicyQueueStats)
        requires
            class_index < self@.classes.len(),
        ensures
            r == self@.classes[class_index as int].stats,
    {
        self.classes[class_index].stats
    }

    /// The credit of a class.
    pub fn class_deficit(&self, class_index: usize) -> (r: usize)
        requires
            class_index < self@.classes.len(),
        ensures
            r == self@.classes[class_index as int].deficit,
    {
        self.classes[class_index].deficit
    }

    pub fn has_backlog(&self, class_index: usize) -> (r: bool)
        requires
            class_index < self@.classes.len(),
        ensures
            r == (self@.classes[class_index as int].pending.len() > 0),
    {
        self.classes[class_index].pending.len() > 0
    }

    /// The entry of a class that is served next.
    pub fn front(&self, class_index: usize) -> (r: Option<&PolicyQueueEntry<T>>)
        requires
            class_index < self@.classes.len(),
        ensures
            r is Some <==> self@.classes[class_index as int].pending.len() > 0,
            r is Some ==> *r->0 == self@.classes[class_index as int].pending[0],
    {
        let class = &self.classes[class_index];
        if class.pending.len() > 0 {
            Some(&class.pending[0])
        } else {
            None
        }
    }

    /// Every pending entry, class by class in the order of service.
    pub fn entries(&self) -> (r: Vec<&PolicyQueueEntry<T>>)
        ensures
            r@.map_values(|e: &PolicyQueueEntry<T>| *e) == all_entries(self@.classes),
    {
        let mut r: Vec<&PolicyQueueEntry<T>> = Vec::new();
        for c in 0..self.classes.len()
            invariant
                r@.map_values(|e: &PolicyQueueEntry<T>| *e) == all_entries(
                    self@.classes.take(c as int),
                ),
        {
            let ghost before = r@.map_values(|e: &PolicyQueueEntry<T>| *e);
            let pending = &self.classes[c].pending;
            for i in 0..pending.len()
                invariant
                    r@.map_values(|e: &PolicyQueueEntry<T>| *e) =~= before + pending@.take(
                        i as int,
                    ),
            {
                let ghost shorter = r@;
                r.push(&pending[i]);
                assert(r@.map_values(|e: &PolicyQueueEntry<T>| *e) =~= shorter.map_values(
                    |e: &PolicyQueueEntry<T>| *e,
                ).push(pending@[i as int]));
                assert(pending@.take(i + 1) =~= pending@.take(i as int).push(pending@[i as int]));
            }
            assert(pending@.take(pending@.len() as int) =~= pending@);
            assert(self@.classes.take(c + 1).drop_last() =~= self@.classes.take(c as int));
        }
        assert(self@.classes.take(self@.classes.len() as int) =~= self@.classes);
        r
    }

    /// Queues a request in its class, unless what is pending there already
    /// reaches a limit for the present number of workers. The counters are
    /// compared before the request is added.
    pub fn enqueue(
        &mut self,
        class_index: usize,
        worker_count: usize,
        snapshot: QueueSnapshot,
        policy_score: i64,
        strict_priority: u32,
        payload: T,
    ) -> (r: Result<(), (QueueRejection, T)>)
        requires
            old(self).wf(),
            class_index < old(self)@.classes.len(),
            total_pending(old(self)@.classes) < usize::MAX,
        ensures
            final(self).wf(),
            r is Err <==> reached_limit(
                old(self)@.classes[class_index as int],
                worker_count,
            ) is Some,
            r is Err ==> {
                let class = old(self)@.classes[class_index as int];
                let kind = reached_limit(class, worker_count)->0;
                let rejection = r->Err_0.0;
                &&& final(self)@ == old(self)@
                &&& rejection.policy_class@ == class.config.name@
                &&& rejection.limit_kind == kind
                &&& rejection.current == usage_of(class.stats, kind)
                &&& rejection.limit == limit_of(class.config, kind, worker_count)->0
                &&& r->Err_0.1 == payload
            },
            r is Ok ==> final(self)@ == with_request(
                old(self)@,
                PolicyQueueEntry {
                    class_index,
                    strict_priority,
                    policy_score,
                    enqueue_seq: old(self)@.next_enqueue_seq,
                    snapshot,
                    payload,
                },
            ),
    {
        let ghost classes = self@.classes;
        let ghost c = class_index as int;
        if let Some(rejection) = self.classes[class_index].queue_rejection(worker_count) {
            return Err((rejection, payload));
        }
        proof {
            lemma_class_pending(classes, c);
            assert(class_wf(classes[c], c));
        }
        let entry = PolicyQueueEntry {
            class_index,
            strict_priority,
            policy_score,
            enqueue_seq: self.next_enqueue_seq,
            snapshot,
            payload,
        };
        let ghost pending = self.classes[c].pending@;
        let mut at: usize = 0;
        while at < self.classes[class_index].pending.len() && !entry.goes_before(
            &self.classes[class_index].pending[at],
        )
            invariant
                class_index < self.classes@.len(),
                c == class_index,
                pending == self.classes[c].pending@,
                at <= pending.len(),
                forall|i: int| 0 <= i < at ==> !entry.outranks(#[trigger] pending[i]),
            decreases pending.len() - at,
        {
            at += 1;
        }
        proof {
            lemma_queued_at(pending, entry, at as int);
            lemma_insert_in_order(pending, entry, at as int);
        }
        self.next_enqueue_seq = if self.next_enqueue_seq == u64::MAX {
            0
        } else {
            self.next_enqueue_seq + 1
        };
        let stats = add_stats(self.classes[class_index].stats, snapshot);
        self.classes[class_index].stats = stats;
        self.classes[class_index].pending.insert(at, entry);
        self.pending_count += 1;
        proof {
            let new = self@.classes;
            assert(new =~= classes.update(c, new[c]));
            lemma_update_pending(classes, c, new[c]);
            assert(self@ == with_request(old(self)@, entry));
            assert forall|i: int| 0 <= i < new.len() implies class_wf(#[trigger] new[i], i) by {
                assert(class_wf(classes[i], i));
            }
        }
        Ok(())
    }

    fn set_deficit(&mut self, class_index: usize, deficit: usize)
        requires
            old(self).wf(),
            class_index < old(self)@.classes.len(),
        ensures
            final(self).wf(),
            final(self)@ == (QueueView {
                classes: old(self)@.classes.update(
                    class_index as int,
                    ClassView { deficit, ..old(self)@.classes[class_index as int] },
                ),
                ..old(self)@
            }),
    {
        let ghost classes = self@.classes;
        let ghost c = class_index as int;
        self.classes[class_index].deficit = deficit;
        proof {
            let new = self@.classes;
            assert(new =~= classes.update(c, ClassView { deficit, ..classes[c] }));
            lemma_update_pending(classes, c, new[c]);
            assert forall|i: int| 0 <= i < new.len() implies class_wf(#[trigger] new[i], i) by {
                assert(class_wf(classes[i], i));
            }
        }
    }

    /// Serves the next entry of a class from its credit.
    fn pop_class(&mut self, class_index: usize) -> (entry: PolicyQueueEntry<T>)
        requires
            old(self).wf(),
            class_index < old(self)@.classes.len(),
            old(self)@.classes[class_index as int].pending.len() > 0,
        ensures
            final(self).wf(),
            final(self)@ == served(old(self)@, class_index as int),
            entry == old(self)@.classes[class_index as int].pending[0],
            ({
                let before = old(self)@.classes[class_index as int];
                let after = final(self)@.classes[class_index as int];
                let cost = entry.snapshot.scheduling_cost_tokens;
                before.pending.len() > 1 && cost <= before.deficit ==> after.deficit + cost
                    == before.deficit
            }),
    {
        let ghost classes = self@.classes;
        let ghost c = class_index as int;
        proof {
            lemma_class_pending(classes, c);
            assert(class_wf(classes[c], c));
        }
        let entry = self.classes[class_index].pending.remove(0);
        assert(self.classes@[c].pending@ =~= classes[c].pending.skip(1));
        let left = self.classes[class_index].deficit.saturating_sub(
            entry.snapshot.scheduling_cost_tokens,
        );
        let stats = subtract_stats(self.classes[class_index].stats, entry.snapshot);
        self.classes[class_index].stats = stats;
        self.pending_count -= 1;
        let following: usize = if class_index == self.classes.len() - 1 {
            0
        } else {
            class_index + 1
        };
        proof {
            lemma_following(c, classes.len() as int);
        }
        if self.classes[class_index].pending.len() == 0 {
            self.classes[class_index].deficit = 0;
            self.next_class = following;
        } else {
            self.classes[class_index].deficit = left;
            if self.classes[class_index].pending[0].snapshot.scheduling_cost_tokens <= left {
                self.next_class = class_index;
            } else {
                self.next_class = following;
            }
        }
        proof {
            let new = self@.classes;
            assert(new =~= served(old(self)@, c).classes);
            lemma_update_pending(classes, c, new[c]);
            assert forall|i: int| 0 <= i < new.len() implies class_wf(#[trigger] new[i], i) by {
                assert(class_wf(classes[i], i));
                if i == c {
                    assert forall|a: int, b: int| 0 <= a < b < new[c].pending.len() implies !(
                    #[trigger] new[c].pending[b]).outranks(#[trigger] new[c].pending[a]) by {
                        assert(new[c].pending[b] == classes[c].pending[b + 1]);
                        assert(new[c].pending[a] == classes[c].pending[a + 1]);
                    }
                    assert forall|a: int| 0 <= a < new[c].pending.len() implies (
                    #[trigger] new[c].pending[a]).class_index == c by {
                        assert(new[c].pending[a] == classes[c].pending[a + 1]);
                    }
                }
            }
        }
        entry
    }

    /// The class at a distance from the cursor.
    fn class_at(&self, offset: usize) -> (class_index: usize)
        requires
            self.wf(),
            offset < self@.classes.len(),
        ensures
            class_index == ring(self@.next_class, self@.classes.len() as int, offset as int),
            class_index < self@.classes.len(),
    {
        proof {
            lemma_ring(self@.next_class, self@.classes.len() as int, offset as int);
        }
        let behind: usize = self.classes.len() - self.next_class;
        if offset < behind {
            self.next_class + offset
        } else {
            offset - behind
        }
    }

    /// Rounds until a class can afford its next entry.
    fn rounds_needed(&self, class_index: usize) -> (rounds: usize)
        requires
            self.wf(),
            class_index < self@.classes.len(),
            self@.classes[class_index as int].pending.len() > 0,
        ensures
            rounds == rounds_for(self@.classes[class_index as int]),
    {
        let class = &self.classes[class_index];
        assert(class_wf(self@.classes[class_index as int], class_index as int));
        let missing = class.pending[0].snapshot.scheduling_cost_tokens.saturating_sub(
            class.deficit,
        );
        let quantum = class.config.quantum;
        proof {
            lemma_rounds(missing as int, quantum as int);
        }
        if missing % quantum == 0 {
            missing / quantum
        } else {
            missing / quantum + 1
        }
    }

    /// Goes on with a round in which no class could pay: as many whole rounds are
    /// credited at once as the first class needs.
    fn pop_after_rounds(&mut self, ready: &Vec<bool>, Ghost(start): Ghost<QueueView<T>>) -> (r:
        Option<PolicyQueueEntry<T>>)
        requires
            old(self).wf(),
            queue_wf(start),
            total_pending(start.classes) > 0,
            ready@.len() == start.classes.len(),
            nearest(
                start.next_class,
                start.classes.len() as int,
                0,
                |c: int| affordable(start.classes, ready@, c),
            ) is None,
            old(self)@ == (QueueView {
                classes: after_pass(
                    start.classes,
                    start.next_class,
                    ready@,
                    start.classes.len() as int,
                ),
                ..start
            }),
        ensures
            final(self).wf(),
            (final(self)@, r) == round_robin(start, ready@),
    {
        let ghost classes = start.classes;
        let ghost next_class = start.next_class;
        let n = self.classes.len();
        let ghost pays = |c: int| affordable(classes, ready@, c);
        proof {
            assert(n > 0) by {
                if classes.len() == 0 {
                    assert(total_pending(classes) == 0);
                }
            }
        }
        let ghost passed = after_pass(classes, next_class, ready@, n as int);
        let mut fewest: Option<usize> = None;
        for c in 0..n
            invariant
                self.wf(),
                n == self@.classes.len(),
                n == ready@.len(),
                self@.classes == passed,
                fewest is Some <==> fewest_rounds(passed, ready@, c as int) is Some,
                fewest is Some ==> fewest->0 == fewest_rounds(passed, ready@, c as int)->0,
        {
            if ready[c] && self.classes[c].pending.len() > 0 {
                let rounds = self.rounds_needed(c);
                fewest = match fewest {
                    Some(least) => if least <= rounds {
                        Some(least)
                    } else {
                        Some(rounds)
                    },
                    None => Some(rounds),
                };
            }
        }
        let rounds = match fewest {
            Some(rounds) => rounds,
            None => {
                return None;
            },
        };
        let ghost credited = after_rounds(passed, ready@, rounds);
        assert(passed =~= Seq::new(
            n as nat,
            |i: int|
                if i < 0 {
                    credited[i]
                } else {
                    passed[i]
                },
        ));
        for c in 0..n
            invariant
                self.wf(),
                n == passed.len(),
                n == ready@.len(),
                credited == after_rounds(passed, ready@, rounds),
                self@ == (QueueView {
                    classes: Seq::new(
                        n as nat,
                        |i: int|
                            if i < c {
                                credited[i]
                            } else {
                                passed[i]
                            },
                    ),
                    ..start
                }),
        {
            let ghost before = self@.classes;
            if ready[c] && self.classes[c].pending.len() > 0 {
                let credit = saturating_mul(self.classes[c].config.quantum, rounds);
                let deficit = self.classes[c].deficit.saturating_add(credit);
                self.set_deficit(c, deficit);
            }
            assert(self@.classes =~= Seq::new(
                n as nat,
                |i: int|
                    if i < c + 1 {
                        credited[i]
                    } else {
                        passed[i]
                    },
            ));
        }
        assert(self@.classes =~= credited);
        let ghost pays_now = |c: int|
            eligible(credited, ready@, c) && head_cost(credited[c]) <= credited[c].deficit;
        proof {
            lemma_some_class_pays(passed, ready@, rounds);
            let w = choose|c: int| 0 <= c < n && #[trigger] pays_at(credited, ready@, c);
            assert(pays_at(credited, ready@, w));
            lemma_distance(next_class, n as int, w);
            lemma_nearest_exists(
                next_class,
                n as int,
                0,
                pays_now,
                distance(next_class, n as int, w),
            );
        }
        let mut offset: usize = 0;
        while offset < n
            invariant
                self.wf(),
                n == credited.len(),
                n == ready@.len(),
                0 <= next_class < n,
                n == classes.len(),
                classes == start.classes,
                next_class == start.next_class,
                offset <= n,
                total_pending(classes) > 0,
                pays == (|c: int| affordable(classes, ready@, c)),
                nearest(next_class, n as int, 0, pays) is None,
                passed == after_pass(classes, next_class, ready@, n as int),
                fewest_rounds(passed, ready@, n as int) == Some(rounds as int),
                credited == after_rounds(passed, ready@, rounds),
                pays_now == (|c: int|
                    eligible(credited, ready@, c) && head_cost(credited[c]) <= credited[c].deficit),
                nearest(next_class, n as int, 0, pays_now) is Some,
                nearest(next_class, n as int, 0, pays_now) == nearest(
                    next_class,
                    n as int,
                    offset as int,
                    pays_now,
                ),
                self@ == (QueueView { classes: credited, ..start }),
            decreases n - offset,
        {
            let class_index = self.class_at(offset);
            let ghost c = class_index as int;
            if ready[class_index] && self.classes[class_index].pending.len() > 0
                && self.classes[class_index].pending[0].snapshot.scheduling_cost_tokens
                <= self.classes[class_index].deficit {
                assert(pays_now(c));
                assert(credited[c].pending == classes[c].pending);
                return Some(self.pop_class(class_index));
            }
            assert(!pays_now(c));
            offset += 1;
        }
        assert(false);
        None
    }

    /// Runs one round of deficit round robin. The given function says of the next entry
    /// of a class whether it may be dispatched now. It is asked class by class from the
    /// cursor on, as far as the class that is served.
    pub fn pop_next<F: Fn(usize, &PolicyClassConfig, &T) -> bool>(&mut self, is_dispatchable: F) -> (r:
        Option<PolicyQueueEntry<T>>)
        requires
            old(self).wf(),
            forall|c: usize, config: &PolicyClassConfig, payload: &T|
                c < old(self)@.classes.len() ==> call_requires(
                    is_dispatchable,
                    (c, config, payload),
                ),
        ensures
            final(self).wf(),
            exists|ready: Seq<bool>| #[trigger]
                answers(is_dispatchable, old(self)@, ready) && (final(self)@, r) == round_robin(
                    old(self)@,
                    ready,
                ),
    {
        let n = self.classes.len();
        let ghost start = self@;
        let ghost classes = self@.classes;
        let ghost next_class = self@.next_class;
        let mut ready: Vec<bool> = Vec::new();
        for c in 0..n
            invariant
                ready@.len() == c,
        {
            ready.push(false);
        }
        if self.pending_count == 0 {
            proof {
                assert forall|c: int| 0 <= c < n implies (#[trigger] classes[c]).pending.len()
                    == 0 by {
                    lemma_class_pending(classes, c);
                }
                assert(answers(is_dispatchable, start, ready@));
            }
            return None;
        }
        proof {
            assert(n > 0) by {
                if classes.len() == 0 {
                    assert(total_pending(classes) == 0);
                }
            }
            assert(after_pass(classes, next_class, ready@, 0) =~= classes) by {
                assert forall|c: int| 0 <= c < classes.len() implies after_pass(
                    classes,
                    next_class,
                    ready@,
                    0,
                )[c] == classes[c] by {
                    lemma_distance(next_class, n as int, c);
                }
            }
        }
        let mut offset: usize = 0;
        while offset < n
            invariant
                self.wf(),
                queue_wf(start),
                start == old(self)@,
                classes == start.classes,
                next_class == start.next_class,
                n == classes.len(),
                n == ready@.len(),
                0 <= next_class < n,
                offset <= n,
                total_pending(classes) > 0,
                forall|c: usize, config: &PolicyClassConfig, payload: &T|
                    c < classes.len() ==> call_requires(is_dispatchable, (c, config, payload)),
                answered_below(is_dispatchable, start, ready@, offset as int),
                forall|o: int|
                    0 <= o < offset ==> !affordable(
                        classes,
                        ready@,
                        #[trigger] ring(next_class, n as int, o),
                    ),
                self@ == (QueueView {
                    classes: after_pass(classes, next_class, ready@, offset as int),
                    ..start
                }),
            decreases n - offset,
        {
            let class_index = self.class_at(offset);
            let ghost c = class_index as int;
            let ghost asked = ready@;
            proof {
                lemma_ring(next_class, n as int, offset as int);
                assert(after_pass(classes, next_class, asked, offset as int)[c] == classes[c]);
                assert(class_wf(classes[c], c));
            }
            if self.classes[class_index].pending.len() > 0 {
                let class = &self.classes[class_index];
                let answer = is_dispatchable(class_index, &class.config, &class.pending[0].payload);
                ready.set(class_index, answer);
            }
            let ghost passed = after_pass(classes, next_class, ready@, offset as int);
            proof {
                lemma_asked_one_more(
                    is_dispatchable,
                    start,
                    asked,
                    ready@,
                    offset as int,
                );
                lemma_pass_one(classes, next_class, ready@, offset as int);
            }
            if self.classes[class_index].pending.len() == 0 {
                self.set_deficit(class_index, 0);
                assert(!affordable(classes, ready@, c));
            } else if ready[class_index] {
                let cost = self.classes[class_index].pending[0].snapshot.scheduling_cost_tokens;
                let deficit = self.classes[class_index].deficit;
                if cost <= deficit {
                    proof {
                        assert(topped_up(passed, c) =~= passed);
                        lemma_pays_first(is_dispatchable, start, ready@, offset as int);
                    }
                    return Some(self.pop_class(class_index));
                }
                let credit = deficit.saturating_add(self.classes[class_index].config.quantum);
                self.set_deficit(class_index, credit);
                if cost <= credit {
                    proof {
                        assert(self@.classes =~= topped_up(passed, c));
                        lemma_pays_first(is_dispatchable, start, ready@, offset as int);
                    }
                    return Some(self.pop_class(class_index));
                }
                assert(!affordable(classes, ready@, c));
            } else {
                assert(!affordable(classes, ready@, c));
                assert(passed.update(c, passed_by(classes[c], ready@[c])) =~= passed);
            }
            offset += 1;
        }
        proof {
            lemma_pays_none(is_dispatchable, start, ready@);
        }
        self.pop_after_rounds(&ready, Ghost(start))
    }

    /// Takes every pending entry out, class by class in the order of service.
    pub fn drain(self) -> (r: Vec<PolicyQueueEntry<T>>)
        ensures
            r@ == all_entries(self@.classes),
    {
        let ghost classes = self@.classes;
        let mut rest = self.classes;
        let mut reversed: Vec<PolicyQueueEntry<T>> = Vec::new();
        assert(classes.take(rest@.len() as int) =~= classes);
        while rest.len() > 0
            invariant
                rest@.len() <= classes.len(),
                forall|c: int| 0 <= c < rest@.len() ==> (#[trigger] rest@[c]).model() == classes[c],
                all_entries(classes) == all_entries(classes.take(rest@.len() as int))
                    + reversed@.reverse(),
            decreases rest.len(),
        {
            let ghost below = classes.take(rest@.len() as int);
            let ghost taken = reversed@;
            let class = rest.pop().unwrap();
            let mut pending = class.pending;
            let ghost mine = pending@;
            while pending.len() > 0
                invariant
                    pending@.len() <= mine.len(),
                    pending@ == mine.take(pending@.len() as int),
                    reversed@ =~= taken + mine.skip(pending@.len() as int).reverse(),
                decreases pending.len(),
            {
                let entry = pending.pop().unwrap();
                reversed.push(entry);
            }
            proof {
                assert(below.drop_last() =~= classes.take(rest@.len() as int));
                assert(mine.skip(0) =~= mine);
                assert(reversed@.reverse() =~= mine + taken.reverse());
                assert(all_entries(below) =~= all_entries(classes.take(rest@.len() as int)) + mine);
                assert(all_entries(classes) =~= all_entries(classes.take(rest@.len() as int))
                    + reversed@.reverse());
            }
        }
        proof {
            assert(classes.take(0) =~= Seq::empty());
            assert(all_entries(classes) =~= reversed@.reverse());
        }
        let ghost all = reversed@;
        let mut r: Vec<PolicyQueueEntry<T>> = Vec::new();
        while reversed.len() > 0
            invariant
                reversed@.len() <= all.len(),
                reversed@ == all.take(reversed@.len() as int),
                r@ =~= all.skip(reversed@.len() as int).reverse(),
            decreases reversed.len(),
        {
            let entry = reversed.pop().unwrap();
            r.push(entry);
        }
        assert(all.skip(0) =~= all);
        r
    }
}

/// Whether `ready` is what a function may answer for the next entries of the classes
/// nearer to the cursor than `offset`.
pub open spec fn answered_below<T, F: Fn(usize, &PolicyClassConfig, &T) -> bool>(
    f: F,
    queue: QueueView<T>,
    ready: Seq<bool>,
    offset: int,
) -> bool {
    &&& ready.len() == queue.classes.len()
    &&& forall|c: int|
        0 <= c < queue.classes.len() && queue.classes[c].pending.len() > 0 && distance(
            queue.next_class,
            queue.classes.len() as int,
            c,
        ) < offset ==> call_ensures(
            f,
            (c as usize, &queue.classes[c].config, &queue.classes[c].pending[0].payload),
            #[trigger] ready[c],
        )
}

/// How far from the cursor on a round looks: as far as the first class that can pay
/// within it, and else round the whole ring.
pub open spec fn looked_at<T>(queue: QueueView<T>, ready: Seq<bool>) -> int {
    match nearest(
        queue.next_class,
        queue.classes.len() as int,
        0,
        |c: int| affordable(queue.classes, ready, c),
    ) {
        Some(offset) => offset + 1,
        None => queue.classes.len() as int,
    }
}

/// Whether `ready` is what a function may answer for the next entries of the classes
/// that a round looks at.
pub open spec fn answers<T, F: Fn(usize, &PolicyClassConfig, &T) -> bool>(
    f: F,
    queue: QueueView<T>,
    ready: Seq<bool>,
) -> bool {
    answered_below(f, queue, ready, looked_at(queue, ready))
}

/// One more answer leaves what was said of nearer classes.
proof fn lemma_asked_one_more<T, F: Fn(usize, &PolicyClassConfig, &T) -> bool>(
    f: F,
    queue: QueueView<T>,
    before: Seq<bool>,
    after: Seq<bool>,
    offset: int,
)
    requires
        queue_wf(queue),
        0 <= offset < queue.classes.len(),
        answered_below(f, queue, before, offset),
        after.len() == before.len(),
        ({
            let c = ring(queue.next_class, queue.classes.len() as int, offset);
            &&& forall|i: int| 0 <= i < before.len() && i != c ==> after[i] == before[i]
            &&& queue.classes[c].pending.len() > 0 ==> call_ensures(
                f,
                (c as usize, &queue.classes[c].config, &queue.classes[c].pending[0].payload),
                after[c],
            )
        }),
    ensures
        answered_below(f, queue, after, offset + 1),
        after_pass(queue.classes, queue.next_class, after, offset) == after_pass(
            queue.classes,
            queue.next_class,
            before,
            offset,
        ),
        forall|o: int|
            0 <= o < offset ==> affordable(
                queue.classes,
                after,
                #[trigger] ring(queue.next_class, queue.classes.len() as int, o),
            ) == affordable(
                queue.classes,
                before,
                ring(queue.next_class, queue.classes.len() as int, o),
            ),
{
    let n = queue.classes.len() as int;
    let c = ring(queue.next_class, n, offset);
    lemma_ring(queue.next_class, n, offset);
    assert forall|i: int|
        0 <= i < n && queue.classes[i].pending.len() > 0 && distance(queue.next_class, n, i) < offset
            + 1 implies call_ensures(
        f,
        (i as usize, &queue.classes[i].config, &queue.classes[i].pending[0].payload),
        #[trigger] after[i],
    ) by {
        if i != c {
            if distance(queue.next_class, n, i) == offset {
                lemma_distance(queue.next_class, n, i);
            }
            assert(after[i] == before[i]);
        }
    }
    assert(after_pass(queue.classes, queue.next_class, after, offset) =~= after_pass(
        queue.classes,
        queue.next_class,
        before,
        offset,
    ));
    assert forall|o: int| 0 <= o < offset implies affordable(
        queue.classes,
        after,
        #[trigger] ring(queue.next_class, n, o),
    ) == affordable(queue.classes, before, ring(queue.next_class, n, o)) by {
        lemma_ring(queue.next_class, n, o);
    }
}

/// Where the class at a distance can pay and none nearer can, it is the nearest.
proof fn lemma_nearest_at(
    next_class: int,
    n: int,
    offset: int,
    condition: spec_fn(int) -> bool,
    at: int,
)
    requires
        0 <= offset <= at < n,
        condition(ring(next_class, n, at)),
        forall|o: int| offset <= o < at ==> !condition(#[trigger] ring(next_class, n, o)),
    ensures
        nearest(next_class, n, offset, condition) == Some(at),
    decreases at - offset,
{
    if offset < at {
        assert(!condition(ring(next_class, n, offset)));
        lemma_nearest_at(next_class, n, offset + 1, condition, at);
    }
}

/// Where no class can pay there is no nearest.
proof fn lemma_nearest_none(
    next_class: int,
    n: int,
    offset: int,
    condition: spec_fn(int) -> bool,
)
    requires
        forall|o: int| offset <= o < n ==> !condition(#[trigger] ring(next_class, n, o)),
    ensures
        nearest(next_class, n, offset, condition) is None,
    decreases n - offset,
{
    if offset < n {
        assert(!condition(ring(next_class, n, offset)));
        lemma_nearest_none(next_class, n, offset + 1, condition);
    }
}

/// A round that comes to a class that can pay looks no further.
proof fn lemma_pays_first<T, F: Fn(usize, &PolicyClassConfig, &T) -> bool>(
    f: F,
    queue: QueueView<T>,
    ready: Seq<bool>,
    offset: int,
)
    requires
        0 <= offset < queue.classes.len(),
        answered_below(f, queue, ready, offset + 1),
        affordable(
            queue.classes,
            ready,
            ring(queue.next_class, queue.classes.len() as int, offset),
        ),
        forall|o: int|
            0 <= o < offset ==> !affordable(
                queue.classes,
                ready,
                #[trigger] ring(queue.next_class, queue.classes.len() as int, o),
            ),
    ensures
        answers(f, queue, ready),
        nearest(
            queue.next_class,
            queue.classes.len() as int,
            0,
            |c: int| affordable(queue.classes, ready, c),
        ) == Some(offset),
{
    let pays = |c: int| affordable(queue.classes, ready, c);
    let n = queue.classes.len() as int;
    assert forall|o: int| 0 <= o < offset implies !pays(#[trigger] ring(queue.next_class, n, o)) by {}
    lemma_nearest_at(queue.next_class, n, 0, pays, offset);
}

/// A round in which no class can pay looks at all of them.
proof fn lemma_pays_none<T, F: Fn(usize, &PolicyClassConfig, &T) -> bool>(
    f: F,
    queue: QueueView<T>,
    ready: Seq<bool>,
)
    requires
        answered_below(f, queue, ready, queue.classes.len() as int),
        forall|o: int|
            0 <= o < queue.classes.len() ==> !affordable(
                queue.classes,
                ready,
                #[trigger] ring(queue.next_class, queue.classes.len() as int, o),
            ),
    ensures
        answers(f, queue, ready),
        nearest(
            queue.next_class,
            queue.classes.len() as int,
            0,
            |c: int| affordable(queue.classes, ready, c),
        ) is None,
{
    let pays = |c: int| affordable(queue.classes, ready, c);
    let n = queue.classes.len() as int;
    assert forall|o: int| 0 <= o < n implies !pays(#[trigger] ring(queue.next_class, n, o)) by {}
    lemma_nearest_none(queue.next_class, n, 0, pays);
}

/// What would be said of classes that a round does not look at has no say in it.
pub proof fn unasked_classes_have_no_say<T>(queue: QueueView<T>, asked: Seq<bool>, all: Seq<bool>)
    requires
        queue_wf(queue),
        asked.len() == queue.classes.len(),
        all.len() == queue.classes.len(),
        forall|c: int|
            0 <= c < queue.classes.len() && queue.classes[c].pending.len() > 0 && distance(
                queue.next_class,
                queue.classes.len() as int,
                c,
            ) < looked_at(queue, asked) ==> (#[trigger] all[c]) == asked[c],
    ensures
        round_robin(queue, all) == round_robin(queue, asked),
{
    let n = queue.classes.len() as int;
    let next = queue.next_class;
    let pays = |c: int| affordable(queue.classes, asked, c);
    let pays_all = |c: int| affordable(queue.classes, all, c);
    if total_pending(queue.classes) > 0 {
        assert(n > 0) by {
            if n == 0 {
                assert(total_pending(queue.classes) == 0);
            }
        }
        lemma_nearest_is_first(next, n, 0, pays);
        let limit = looked_at(queue, asked);
        assert forall|o: int| 0 <= o < limit implies pays_all(#[trigger] ring(next, n, o)) == pays(
            ring(next, n, o),
        ) by {
            lemma_ring(next, n, o);
            let c = ring(next, n, o);
            if queue.classes[c].pending.len() > 0 {
                assert(all[c] == asked[c]);
            }
        }
        if let Some(at) = nearest(next, n, 0, pays) {
            lemma_nearest_at(next, n, 0, pays_all, at);
            assert(after_pass(queue.classes, next, all, at) =~= after_pass(
                queue.classes,
                next,
                asked,
                at,
            )) by {
                assert forall|c: int| 0 <= c < n implies after_pass(
                    queue.classes,
                    next,
                    all,
                    at,
                )[c] == after_pass(queue.classes, next, asked, at)[c] by {
                    if queue.classes[c].pending.len() > 0 && distance(next, n, c) < at {
                        assert(all[c] == asked[c]);
                    }
                }
            }
        } else {
            lemma_nearest_none(next, n, 0, pays_all);
            assert forall|c: int| 0 <= c < n && queue.classes[c].pending.len() > 0 implies all[c]
                == asked[c] by {
                lemma_distance(next, n, c);
            }
            let passed = after_pass(queue.classes, next, asked, n);
            assert(after_pass(queue.classes, next, all, n) =~= passed);
            lemma_fewest_agree(passed, asked, all, n);
            if let Some(rounds) = fewest_rounds(passed, asked, n) {
                let credited = after_rounds(passed, asked, rounds as usize);
                assert(after_rounds(passed, all, rounds as usize) =~= credited);
                let pays_now = |c: int|
                    eligible(credited, asked, c) && head_cost(credited[c]) <= credited[c].deficit;
                let pays_now_all = |c: int|
                    eligible(credited, all, c) && head_cost(credited[c]) <= credited[c].deficit;
                lemma_nearest_is_first(next, n, 0, pays_now);
                assert forall|o: int| 0 <= o < n implies pays_now_all(
                    #[trigger] ring(next, n, o),
                ) == pays_now(ring(next, n, o)) by {
                    lemma_ring(next, n, o);
                }
                if let Some(at) = nearest(next, n, 0, pays_now) {
                    lemma_nearest_at(next, n, 0, pays_now_all, at);
                } else {
                    lemma_nearest_none(next, n, 0, pays_now_all);
                }
            }
        }
    }
}

proof fn lemma_fewest_agree<T>(
    classes: Seq<ClassView<T>>,
    asked: Seq<bool>,
    all: Seq<bool>,
    c: int,
)
    requires
        0 <= c <= classes.len(),
        forall|i: int| 0 <= i < classes.len() && classes[i].pending.len() > 0 ==> all[i] == asked[i],
    ensures
        fewest_rounds(classes, all, c) == fewest_rounds(classes, asked, c),
    decreases c,
{
    if c > 0 {
        lemma_fewest_agree(classes, asked, all, c - 1);
    }
}

/// Whether a class can pay for its next entry from its credit.
pub open spec fn pays_at<T>(classes: Seq<ClassView<T>>, ready: Seq<bool>, c: int) -> bool {
    eligible(classes, ready, c) && head_cost(classes[c]) <= classes[c].deficit
}

proof fn lemma_rounds(missing: int, quantum: int)
    requires
        0 <= missing,
        quantum > 0,
    ensures
        (missing + quantum - 1) / quantum == if missing % quantum == 0 {
            missing / quantum
        } else {
            missing / quantum + 1
        },
        0 <= (missing + quantum - 1) / quantum <= missing,
        quantum * ((missing + quantum - 1) / quantum) >= missing,
{
    let q = missing / quantum;
    let r = missing % quantum;
    vstd::arithmetic::div_mod::lemma_fundamental_div_mod(missing, quantum);
    if r == 0 {
        assert((missing + quantum - 1) / quantum == q) by (nonlinear_arith)
            requires
                missing == quantum * q,
                quantum > 0,
        ;
    } else {
        assert((missing + quantum - 1) / quantum == q + 1) by (nonlinear_arith)
            requires
                missing == quantum * q + r,
                0 < r < quantum,
        ;
        assert(quantum * (q + 1) >= missing) by (nonlinear_arith)
            requires
                missing == quantum * q + r,
                0 < r < quantum,
        ;
        assert(q + 1 <= missing) by (nonlinear_arith)
            requires
                missing == quantum * q + r,
                0 < r < quantum,
                q >= 0,
        ;
    }
    assert(q <= missing && q >= 0) by (nonlinear_arith)
        requires
            missing == quantum * q + r,
            0 <= r < quantum,
            missing >= 0,
    ;
}

proof fn lemma_pass_one<T>(
    classes: Seq<ClassView<T>>,
    next_class: int,
    ready: Seq<bool>,
    offset: int,
)
    requires
        0 <= next_class < classes.len(),
        0 <= offset < classes.len(),
        ready.len() == classes.len(),
    ensures
        after_pass(classes, next_class, ready, offset + 1) == ({
            let c = ring(next_class, classes.len() as int, offset);
            after_pass(classes, next_class, ready, offset).update(
                c,
                passed_by(classes[c], ready[c]),
            )
        }),
{
    let n = classes.len() as int;
    let c = ring(next_class, n, offset);
    lemma_ring(next_class, n, offset);
    let before = after_pass(classes, next_class, ready, offset);
    let after = after_pass(classes, next_class, ready, offset + 1);
    assert forall|i: int| 0 <= i < n implies after[i] == before.update(
        c,
        passed_by(classes[c], ready[c]),
    )[i] by {
        if i != c && distance(next_class, n, i) == offset {
            lemma_distance(next_class, n, i);
        }
    }
    assert(after =~= before.update(c, passed_by(classes[c], ready[c])));
}

/// The fewest rounds are those of some eligible class.
proof fn lemma_fewest_is_attained<T>(classes: Seq<ClassView<T>>, ready: Seq<bool>, c: int)
    requires
        0 <= c <= classes.len(),
        forall|i: int| 0 <= i < classes.len() ==> (#[trigger] classes[i]).config.quantum > 0,
    ensures
        fewest_rounds(classes, ready, c) matches Some(rounds) ==> exists|i: int|
            0 <= i < c && #[trigger] eligible(classes, ready, i) && rounds_for(classes[i])
                == rounds,
    decreases c,
{
    if c > 0 {
        lemma_fewest_is_attained(classes, ready, c - 1);
        if eligible(classes, ready, c - 1) {
            assert(eligible(classes, ready, c - 1));
        }
    }
}

/// After the fewest rounds some eligible class can pay.
proof fn lemma_some_class_pays<T>(classes: Seq<ClassView<T>>, ready: Seq<bool>, rounds: usize)
    requires
        ready.len() == classes.len(),
        forall|i: int| 0 <= i < classes.len() ==> (#[trigger] classes[i]).config.quantum > 0,
        fewest_rounds(classes, ready, classes.len() as int) == Some(rounds as int),
    ensures
        exists|c: int|
            0 <= c < classes.len() && #[trigger] pays_at(
                after_rounds(classes, ready, rounds),
                ready,
                c,
            ),
{
    lemma_fewest_is_attained(classes, ready, classes.len() as int);
    let c = choose|c: int|
        0 <= c < classes.len() && #[trigger] eligible(classes, ready, c) && rounds_for(classes[c])
            == rounds;
    let class = classes[c];
    lemma_rounds(sat_sub(head_cost(class), class.deficit) as int, class.config.quantum as int);
    assert(pays_at(after_rounds(classes, ready, rounds), ready, c));
}

proof fn lemma_following(c: int, n: int)
    requires
        0 <= c < n,
    ensures
        (c + 1) % n == if c + 1 == n {
            0
        } else {
            c + 1
        },
{
    if c + 1 == n {
        assert(n % n == 0) by (nonlinear_arith)
            requires
                n > 0,
        ;
    } else {
        vstd::arithmetic::div_mod::lemma_small_mod((c + 1) as nat, n as nat);
    }
}

proof fn lemma_ring(next_class: int, n: int, offset: int)
    requires
        0 <= next_class < n,
        0 <= offset < n,
    ensures
        ring(next_class, n, offset) == if offset < n - next_class {
            next_class + offset
        } else {
            offset - (n - next_class)
        },
        0 <= ring(next_class, n, offset) < n,
        distance(next_class, n, ring(next_class, n, offset)) == offset,
{
    if offset < n - next_class {
        vstd::arithmetic::div_mod::lemma_small_mod((next_class + offset) as nat, n as nat);
    } else {
        let r = next_class + offset - n;
        vstd::arithmetic::div_mod::lemma_small_mod(r as nat, n as nat);
        vstd::arithmetic::div_mod::lemma_mod_add_multiples_vanish(r, n);
    }
}

proof fn lemma_distance(next_class: int, n: int, c: int)
    requires
        0 <= next_class < n,
        0 <= c < n,
    ensures
        0 <= distance(next_class, n, c) < n,
        ring(next_class, n, distance(next_class, n, c)) == c,
{
    lemma_ring(next_class, n, distance(next_class, n, c));
}

/// Where a class satisfies the condition, the nearest one is found.
proof fn lemma_nearest_exists(
    next_class: int,
    n: int,
    offset: int,
    condition: spec_fn(int) -> bool,
    at: int,
)
    requires
        0 <= next_class < n,
        0 <= offset <= at < n,
        condition(ring(next_class, n, at)),
    ensures
        nearest(next_class, n, offset, condition) is Some,
    decreases at - offset,
{
    if !condition(ring(next_class, n, offset)) {
        lemma_nearest_exists(next_class, n, offset + 1, condition, at);
    }
}

/// The nearest class satisfies the condition, and none nearer does.
proof fn lemma_nearest_is_first(
    next_class: int,
    n: int,
    offset: int,
    condition: spec_fn(int) -> bool,
)
    requires
        0 <= offset,
    ensures
        nearest(next_class, n, offset, condition) matches Some(at) ==> {
            &&& offset <= at < n
            &&& condition(ring(next_class, n, at))
            &&& forall|o: int|
                offset <= o < at ==> !condition(#[trigger] ring(next_class, n, o))
        },
        nearest(next_class, n, offset, condition) is None ==> forall|o: int|
            offset <= o < n ==> !condition(#[trigger] ring(next_class, n, o)),
    decreases n - offset,
{
    if offset < n && !condition(ring(next_class, n, offset)) {
        lemma_nearest_is_first(next_class, n, offset + 1, condition);
    }
}

/// A queue after a request was added to its class.
pub open spec fn with_request<T>(queue: QueueView<T>, entry: PolicyQueueEntry<T>) -> QueueView<T> {
    let c = entry.class_index as int;
    let class = queue.classes[c];
    QueueView {
        classes: queue.classes.update(
            c,
            ClassView {
                config: class.config,
                pending: queued(class.pending, entry),
                stats: stats_with(class.stats, entry.snapshot),
                deficit: class.deficit,
            },
        ),
        next_class: queue.next_class,
        next_enqueue_seq: if queue.next_enqueue_seq == u64::MAX {
            0
        } else {
            (queue.next_enqueue_seq + 1) as u64
        },
    }
}

/// The entries of all classes, class by class.
pub open spec fn all_entries<T>(classes: Seq<ClassView<T>>) -> Seq<PolicyQueueEntry<T>>
    decreases classes.len(),
{
    if classes.len() == 0 {
        Seq::empty()
    } else {
        all_entries(classes.drop_last()) + classes.last().pending
    }
}

proof fn lemma_nothing_pending<T>(classes: Seq<ClassView<T>>)
    requires
        forall|c: int| 0 <= c < classes.len() ==> (#[trigger] classes[c]).pending.len() == 0,
    ensures
        total_pending(classes) == 0,
    decreases classes.len(),
{
    if classes.len() > 0 {
        assert forall|c: int| 0 <= c < classes.drop_last().len() implies (
        #[trigger] classes.drop_last()[c]).pending.len() == 0 by {
            assert(classes.drop_last()[c] == classes[c]);
        }
        lemma_nothing_pending(classes.drop_last());
    }
}

proof fn lemma_class_pending<T>(classes: Seq<ClassView<T>>, c: int)
    requires
        0 <= c < classes.len(),
    ensures
        classes[c].pending.len() <= total_pending(classes),
    decreases classes.len(),
{
    if c < classes.len() - 1 {
        assert(classes.drop_last()[c] == classes[c]);
        lemma_class_pending(classes.drop_last(), c);
    }
}

proof fn lemma_update_pending<T>(classes: Seq<ClassView<T>>, c: int, class: ClassView<T>)
    requires
        0 <= c < classes.len(),
    ensures
        total_pending(classes.update(c, class)) == total_pending(classes) - classes[c].pending.len()
            + class.pending.len(),
    decreases classes.len(),
{
    let new = classes.update(c, class);
    if c < classes.len() - 1 {
        lemma_update_pending(classes.drop_last(), c, class);
        assert(new.drop_last() =~= classes.drop_last().update(c, class));
    } else {
        assert(new.drop_last() =~= classes.drop_last());
    }
}

/// Where no class has an entry that may be dispatched, nothing is served, the
/// cursor stays, and no class with pending entries gains or loses credit.
pub proof fn blocked_ring_accrues_nothing<T>(queue: QueueView<T>, ready: Seq<bool>)
    requires
        queue_wf(queue),
        ready.len() == queue.classes.len(),
        forall|c: int| 0 <= c < queue.classes.len() ==> !eligible(queue.classes, ready, c),
    ensures
        round_robin(queue, ready).1 is None,
        round_robin(queue, ready).0.next_class == queue.next_class,
        round_robin(queue, ready).0.classes.len() == queue.classes.len(),
        forall|c: int|
            0 <= c < queue.classes.len() ==> {
                let after = #[trigger] round_robin(queue, ready).0.classes[c];
                &&& after.pending == queue.classes[c].pending
                &&& after.stats == queue.classes[c].stats
                &&& queue.classes[c].pending.len() > 0 ==> after == queue.classes[c]
            },
{
    let n = queue.classes.len() as int;
    let pays = |c: int| affordable(queue.classes, ready, c);
    if total_pending(queue.classes) > 0 {
        lemma_nearest_is_first(queue.next_class, n, 0, pays);
        if nearest(queue.next_class, n, 0, pays) is Some {
            let at = nearest(queue.next_class, n, 0, pays)->0;
            lemma_ring(queue.next_class, n, at);
            assert(!eligible(queue.classes, ready, ring(queue.next_class, n, at)));
        }
        let passed = after_pass(queue.classes, queue.next_class, ready, n);
        assert forall|c: int| 0 <= c < n implies !eligible(passed, ready, c) by {
            assert(!eligible(queue.classes, ready, c));
        }
        lemma_no_rounds(passed, ready, n);
        assert forall|c: int| 0 <= c < n implies {
            let after = #[trigger] passed[c];
            &&& after.pending == queue.classes[c].pending
            &&& after.stats == queue.classes[c].stats
            &&& queue.classes[c].pending.len() > 0 ==> after == queue.classes[c]
        } by {
            assert(!eligible(queue.classes, ready, c));
        }
    }
}

proof fn lemma_no_rounds<T>(classes: Seq<ClassView<T>>, ready: Seq<bool>, c: int)
    requires
        0 <= c <= classes.len(),
        forall|i: int| 0 <= i < c ==> !eligible(classes, ready, i),
    ensures
        fewest_rounds(classes, ready, c) is None,
    decreases c,
{
    if c > 0 {
        lemma_no_rounds(classes, ready, c - 1);
        assert(!eligible(classes, ready, c - 1));
    }
}

proof fn lemma_some_rounds<T>(classes: Seq<ClassView<T>>, ready: Seq<bool>, c: int, w: int)
    requires
        0 <= w < c <= classes.len(),
        eligible(classes, ready, w),
    ensures
        fewest_rounds(classes, ready, c) is Some,
    decreases c,
{
    if w < c - 1 {
        lemma_some_rounds(classes, ready, c - 1, w);
    }
}

proof fn lemma_total_positive<T>(classes: Seq<ClassView<T>>, c: int)
    requires
        0 <= c < classes.len(),
        classes[c].pending.len() > 0,
    ensures
        total_pending(classes) > 0,
{
    lemma_class_pending(classes, c);
}

/// The class that a step serves: it is eligible, its next entry is the one that
/// is served, and only its pending entries change.
proof fn lemma_step<T>(queue: QueueView<T>, ready: Seq<bool>) -> (c: int)
    requires
        queue_wf(queue),
        ready.len() == queue.classes.len(),
        exists|w: int| 0 <= w < queue.classes.len() && #[trigger] eligible(queue.classes, ready, w),
    ensures
        0 <= c < queue.classes.len(),
        eligible(queue.classes, ready, c),
        round_robin(queue, ready).1 == Some(queue.classes[c].pending[0]),
        round_robin(queue, ready).0.classes.len() == queue.classes.len(),
        round_robin(queue, ready).0.classes[c].pending == queue.classes[c].pending.skip(1),
        round_robin(queue, ready).0.classes[c].stats == stats_without(
            queue.classes[c].stats,
            queue.classes[c].pending[0].snapshot,
        ),
        round_robin(queue, ready).0.classes[c].config == queue.classes[c].config,
        forall|i: int|
            0 <= i < queue.classes.len() && i != c ==> {
                let after = #[trigger] round_robin(queue, ready).0.classes[i];
                &&& after.pending == queue.classes[i].pending
                &&& after.stats == queue.classes[i].stats
                &&& after.config == queue.classes[i].config
                &&& queue.classes[i].pending.len() > 0 && !ready[i] ==> after == queue.classes[i]
            },
{
    let n = queue.classes.len() as int;
    let w = choose|w: int| 0 <= w < n && #[trigger] eligible(queue.classes, ready, w);
    lemma_total_positive(queue.classes, w);
    let pays = |c: int| affordable(queue.classes, ready, c);
    lemma_nearest_is_first(queue.next_class, n, 0, pays);
    let first = nearest(queue.next_class, n, 0, pays);
    if first is Some {
        lemma_ring(queue.next_class, n, first->0);
        ring(queue.next_class, n, first->0)
    } else {
        let passed = after_pass(queue.classes, queue.next_class, ready, n);
        assert(eligible(passed, ready, w));
        lemma_some_rounds(passed, ready, n, w);
        assert forall|i: int| 0 <= i < n implies (#[trigger] passed[i]).config.quantum > 0 by {
            assert(class_wf(queue.classes[i], i));
        }
        let rounds = fewest_rounds(passed, ready, n)->0;
        lemma_fewest_is_attained(passed, ready, n);
        let a = choose|i: int|
            0 <= i < n && #[trigger] eligible(passed, ready, i) && rounds_for(passed[i]) == rounds;
        lemma_rounds(
            sat_sub(head_cost(passed[a]), passed[a].deficit) as int,
            passed[a].config.quantum as int,
        );
        lemma_some_class_pays(passed, ready, rounds as usize);
        let credited = after_rounds(passed, ready, rounds as usize);
        let pays_now = |c: int|
            eligible(credited, ready, c) && head_cost(credited[c]) <= credited[c].deficit;
        let v = choose|c: int| 0 <= c < n && #[trigger] pays_at(credited, ready, c);
        lemma_distance(queue.next_class, n, v);
        lemma_nearest_exists(queue.next_class, n, 0, pays_now, distance(queue.next_class, n, v));
        lemma_nearest_is_first(queue.next_class, n, 0, pays_now);
        let at = nearest(queue.next_class, n, 0, pays_now)->0;
        lemma_ring(queue.next_class, n, at);
        ring(queue.next_class, n, at)
    }
}

/// As long as some class has an entry that may be dispatched, a step serves the
/// next entry of such a class, and that entry is outranked by none of its class.
pub proof fn eligible_entry_is_served<T>(queue: QueueView<T>, ready: Seq<bool>)
    requires
        queue_wf(queue),
        ready.len() == queue.classes.len(),
        exists|w: int| 0 <= w < queue.classes.len() && #[trigger] eligible(queue.classes, ready, w),
    ensures
        round_robin(queue, ready).1 matches Some(entry) && {
            let c = entry.class_index as int;
            &&& 0 <= c < queue.classes.len()
            &&& eligible(queue.classes, ready, c)
            &&& entry == queue.classes[c].pending[0]
            &&& forall|i: int|
                0 <= i < queue.classes[c].pending.len() ==> !(
                #[trigger] queue.classes[c].pending[i]).outranks(entry)
        },
{
    let c = lemma_step(queue, ready);
    assert(class_wf(queue.classes[c], c));
    let entry = queue.classes[c].pending[0];
    assert forall|i: int| 0 <= i < queue.classes[c].pending.len() implies !(
    #[trigger] queue.classes[c].pending[i]).outranks(entry) by {
        if i > 0 {
            assert(!queue.classes[c].pending[i].outranks(queue.classes[c].pending[0]));
        }
    }
}

/// No eligible class needs fewer rounds than the fewest.
proof fn lemma_fewest_is_least<T>(classes: Seq<ClassView<T>>, ready: Seq<bool>, c: int, w: int)
    requires
        0 <= w < c <= classes.len(),
        eligible(classes, ready, w),
    ensures
        fewest_rounds(classes, ready, c) matches Some(rounds) && rounds <= rounds_for(classes[w]),
    decreases c,
{
    if w < c - 1 {
        lemma_fewest_is_least(classes, ready, c - 1, w);
    }
}

/// No more rounds are added than progress needs: had it been fewer, no class whose
/// next entry may be dispatched could pay for it.
pub proof fn fewer_rounds_would_not_do<T>(
    classes: Seq<ClassView<T>>,
    ready: Seq<bool>,
    fewer: int,
    c: int,
)
    requires
        0 <= c < classes.len(),
        classes[c].config.quantum > 0,
        eligible(classes, ready, c),
        fewest_rounds(classes, ready, classes.len() as int) matches Some(rounds) && 0 <= fewer
            < rounds,
    ensures
        classes[c].deficit + classes[c].config.quantum * fewer < head_cost(classes[c]),
{
    lemma_fewest_is_least(classes, ready, classes.len() as int, c);
    let missing = sat_sub(head_cost(classes[c]), classes[c].deficit) as int;
    let quantum = classes[c].config.quantum as int;
    let needed = rounds_for(classes[c]);
    assert(quantum * fewer < missing) by (nonlinear_arith)
        requires
            quantum > 0,
            missing >= 0,
            0 <= fewer < needed,
            needed == (missing + quantum - 1) / quantum,
    ;
}

/// A class whose next entry may not be dispatched is left exactly as it is, its
/// credit included.
pub proof fn blocked_class_is_untouched<T>(queue: QueueView<T>, ready: Seq<bool>, c: int)
    requires
        queue_wf(queue),
        ready.len() == queue.classes.len(),
        0 <= c < queue.classes.len(),
        queue.classes[c].pending.len() > 0,
        !ready[c],
    ensures
        round_robin(queue, ready).0.classes[c] == queue.classes[c],
{
    if exists|w: int|
        0 <= w < queue.classes.len() && #[trigger] eligible(queue.classes, ready, w) {
        let served_class = lemma_step(queue, ready);
        assert(served_class != c);
        let after = round_robin(queue, ready).0.classes[c];
        assert(after == queue.classes[c]);
    } else {
        blocked_ring_accrues_nothing(queue, ready);
        let after = round_robin(queue, ready).0.classes[c];
        assert(after == queue.classes[c]);
    }
}

/// A step takes out what it serves and nothing else.
pub proof fn step_takes_one_entry<T>(queue: QueueView<T>, ready: Seq<bool>)
    requires
        queue_wf(queue),
        ready.len() == queue.classes.len(),
    ensures
        total_pending(queue.classes) == total_pending(round_robin(queue, ready).0.classes) + (
        if round_robin(queue, ready).1 is Some {
            1nat
        } else {
            0
        }),
        round_robin(queue, ready).0.classes.len() == queue.classes.len(),
        forall|c: int|
            0 <= c < queue.classes.len() ==> {
                let after = #[trigger] round_robin(queue, ready).0.classes[c];
                after.pending == if round_robin(queue, ready).1 is Some && round_robin(
                    queue,
                    ready,
                ).1->0.class_index == c {
                    queue.classes[c].pending.skip(1)
                } else {
                    queue.classes[c].pending
                }
            },
{
    let after = round_robin(queue, ready).0.classes;
    if exists|w: int|
        0 <= w < queue.classes.len() && #[trigger] eligible(queue.classes, ready, w) {
        let c = lemma_step(queue, ready);
        assert(class_wf(queue.classes[c], c));
        lemma_same_pending(after, queue.classes.update(c, after[c]));
        lemma_update_pending(queue.classes, c, after[c]);
    } else {
        blocked_ring_accrues_nothing(queue, ready);
        assert forall|c: int| 0 <= c < queue.classes.len() implies (#[trigger] after[c]).pending
            == queue.classes[c].pending by {
            let a = round_robin(queue, ready).0.classes[c];
        }
        lemma_same_pending(after, queue.classes);
    }
}

proof fn lemma_same_pending<T>(a: Seq<ClassView<T>>, b: Seq<ClassView<T>>)
    requires
        a.len() == b.len(),
        forall|c: int| 0 <= c < a.len() ==> (#[trigger] a[c]).pending == b[c].pending,
    ensures
        total_pending(a) == total_pending(b),
    decreases a.len(),
{
    if a.len() > 0 {
        assert forall|c: int| 0 <= c < a.drop_last().len() implies (
        #[trigger] a.drop_last()[c]).pending == b.drop_last()[c].pending by {
            assert(a[c].pending == b[c].pending);
        }
        lemma_same_pending(a.drop_last(), b.drop_last());
        assert(a[a.len() - 1].pending == b[b.len() - 1].pending);
    }
}

/// Raw tokens of some entries.
pub open spec fn raw_sum<T>(pending: Seq<PolicyQueueEntry<T>>) -> nat
    decreases pending.len(),
{
    if pending.len() == 0 {
        0
    } else {
        pending[0].snapshot.raw_isl_tokens as nat + raw_sum(pending.skip(1))
    }
}

/// Cached tokens of some entries.
pub open spec fn cached_sum<T>(pending: Seq<PolicyQueueEntry<T>>) -> nat
    decreases pending.len(),
{
    if pending.len() == 0 {
        0
    } else {
        pending[0].snapshot.cached_tokens as nat + cached_sum(pending.skip(1))
    }
}

/// Whether the counters of a class are the sums over its entries.
pub open spec fn counters_exact<T>(class: ClassView<T>) -> bool {
    &&& class.stats.requests == class.pending.len()
    &&& class.stats.raw_isl_tokens == raw_sum(class.pending)
    &&& class.stats.cached_tokens == cached_sum(class.pending)
}

proof fn lemma_queued_sums<T>(pending: Seq<PolicyQueueEntry<T>>, entry: PolicyQueueEntry<T>)
    ensures
        raw_sum(queued(pending, entry)) == raw_sum(pending) + entry.snapshot.raw_isl_tokens,
        cached_sum(queued(pending, entry)) == cached_sum(pending) + entry.snapshot.cached_tokens,
        queued(pending, entry).len() == pending.len() + 1,
    decreases pending.len(),
{
    let after = queued(pending, entry);
    if pending.len() == 0 || entry.outranks(pending[0]) {
        assert(after.skip(1) =~= pending);
    } else {
        lemma_queued_sums(pending.skip(1), entry);
        assert(after.skip(1) =~= queued(pending.skip(1), entry));
    }
}

/// The counters of a class stay the sums over its entries when a request is
/// added, as long as the sums can be counted.
pub proof fn adding_keeps_counters_exact<T>(queue: QueueView<T>, entry: PolicyQueueEntry<T>)
    requires
        (entry.class_index as int) < queue.classes.len(),
        counters_exact(queue.classes[entry.class_index as int]),
        queue.classes[entry.class_index as int].pending.len() < usize::MAX,
        raw_sum(queue.classes[entry.class_index as int].pending) + entry.snapshot.raw_isl_tokens
            <= usize::MAX,
        cached_sum(queue.classes[entry.class_index as int].pending) + entry.snapshot.cached_tokens
            <= usize::MAX,
    ensures
        counters_exact(with_request(queue, entry).classes[entry.class_index as int]),
{
    lemma_queued_sums(queue.classes[entry.class_index as int].pending, entry);
}

/// The counters of every class stay the sums over its entries when an entry is
/// served.
pub proof fn serving_keeps_counters_exact<T>(queue: QueueView<T>, ready: Seq<bool>, c: int)
    requires
        queue_wf(queue),
        ready.len() == queue.classes.len(),
        0 <= c < queue.classes.len(),
        counters_exact(queue.classes[c]),
    ensures
        counters_exact(round_robin(queue, ready).0.classes[c]),
{
    let after = round_robin(queue, ready).0.classes[c];
    if exists|w: int|
        0 <= w < queue.classes.len() && #[trigger] eligible(queue.classes, ready, w) {
        let served_class = lemma_step(queue, ready);
        if served_class != c {
            let same = round_robin(queue, ready).0.classes[c];
            assert(same.pending == queue.classes[c].pending);
        }
    } else {
        blocked_ring_accrues_nothing(queue, ready);
        let same = round_robin(queue, ready).0.classes[c];
        assert(same.pending == queue.classes[c].pending);
    }
}

/// Whether, going round the ring from a class on, one class comes before another.
pub open spec fn comes_before(from: int, i: int, c: int) -> bool {
    ||| from <= i < c
    ||| c < from <= i
    ||| i < c < from
}

proof fn lemma_comes_before(from: int, n: int, i: int, c: int)
    requires
        0 <= from < n,
        0 <= i < n,
        0 <= c < n,
    ensures
        comes_before(from, i, c) <==> distance(from, n, i) < distance(from, n, c),
{
}

/// What a class has after some quanta: no more than can be counted.
pub open spec fn credit_with<T>(class: ClassView<T>, quanta: int) -> int {
    if class.deficit + quanta * class.config.quantum <= usize::MAX {
        class.deficit + quanta * class.config.quantum
    } else {
        usize::MAX as int
    }
}

proof fn lemma_credit_steps<T>(class: ClassView<T>, rounds: usize)
    ensures
        sat_add(class.deficit, class.config.quantum) == credit_with(class, 1),
        credit_with(class, 0) == class.deficit,
        sat_add(
            sat_add(class.deficit, class.config.quantum),
            sat_mul(class.config.quantum, rounds),
        ) == credit_with(class, 1 + rounds),
{
    let q = class.config.quantum as int;
    let r = rounds as int;
    assert((1 + r) * q == q + q * r) by (nonlinear_arith);
    assert(q * r >= 0) by (nonlinear_arith)
        requires
            q >= 0,
            r >= 0,
    ;
    assert(1 * q == q);
}

/// Credit is conserved. A step that serves a class grants it the fewest quanta with which
/// its credit pays for its next entry, `quanta` of them, and takes exactly the entry's
/// cost: what is left is carried on, unless nothing is pending in the class any more.
pub proof fn credit_is_conserved<T>(queue: QueueView<T>, ready: Seq<bool>) -> (quanta: int)
    requires
        queue_wf(queue),
        ready.len() == queue.classes.len(),
        exists|w: int|
            0 <= w < queue.classes.len() && (#[trigger] queue.classes[w]).pending.len() > 0
                && ready[w],
    ensures
        round_robin(queue, ready).1 is Some,
        ({
            let after = round_robin(queue, ready).0;
            let entry = round_robin(queue, ready).1->0;
            let c = entry.class_index as int;
            let class = queue.classes[c];
            let cost = entry.snapshot.scheduling_cost_tokens;
            &&& 0 <= c < queue.classes.len()
            &&& class.pending.len() > 0 && ready[c] && entry == class.pending[0]
            &&& quanta >= 0
            &&& class.deficit + quanta * class.config.quantum >= cost
            &&& quanta > 0 ==> class.deficit + (quanta - 1) * class.config.quantum < cost
            &&& after.classes.len() == queue.classes.len()
            &&& after.classes[c].pending == class.pending.skip(1)
            &&& class.pending.len() > 1 ==> after.classes[c].deficit + cost == if class.deficit
                + quanta * class.config.quantum <= usize::MAX {
                class.deficit + quanta * class.config.quantum
            } else {
                usize::MAX as int
            }
            &&& class.pending.len() == 1 ==> after.classes[c].deficit == 0
            // A class that can pay for its next entry too goes on; else it is the turn
            // of the class after it.
            &&& after.next_class == if class.pending.len() > 1
                && class.pending[1].snapshot.scheduling_cost_tokens <= after.classes[c].deficit {
                c
            } else if c + 1 == queue.classes.len() {
                0
            } else {
                c + 1
            }
        }),
{
    let (c, quanta) = lemma_step_credit(queue, ready);
    let class = queue.classes[c];
    assert(class_wf(class, c));
    lemma_following(c, queue.classes.len() as int);
    if class.pending.len() > 1 {
        assert(class.pending.skip(1)[0] == class.pending[1]);
    }
    quanta
}

/// Quanta are granted alike. Where the class that is served needs at most one, the classes
/// before it in the ring get one each and those behind it none; where it needs more, every
/// class with an entry that may be dispatched gets as many as it. Nobody else gets any,
/// and only a class in which nothing is pending loses credit.
pub proof fn quanta_are_granted_alike<T>(queue: QueueView<T>, ready: Seq<bool>, i: int)
    requires
        queue_wf(queue),
        ready.len() == queue.classes.len(),
        exists|w: int|
            0 <= w < queue.classes.len() && (#[trigger] queue.classes[w]).pending.len() > 0
                && ready[w],
        0 <= i < queue.classes.len(),
    ensures
        round_robin(queue, ready).1 is Some,
        ({
            let served_class = (round_robin(queue, ready).1->0).class_index as int;
            let served_one = queue.classes[served_class];
            let cost = (round_robin(queue, ready).1->0).snapshot.scheduling_cost_tokens;
            let class = queue.classes[i];
            let after = round_robin(queue, ready).0.classes[i];
            i != served_class ==> {
                &&& after.pending == class.pending
                &&& class.pending.len() > 0 && !ready[i] ==> after.deficit == class.deficit
                &&& class.pending.len() == 0 ==> after.deficit == 0 || after.deficit
                    == class.deficit
                &&& class.pending.len() > 0 && ready[i] && cost <= served_one.deficit
                    + served_one.config.quantum ==> after.deficit == if !comes_before(
                    queue.next_class,
                    i,
                    served_class,
                ) {
                    class.deficit as int
                } else if class.deficit + class.config.quantum <= usize::MAX {
                    class.deficit + class.config.quantum
                } else {
                    usize::MAX as int
                }
                &&& class.pending.len() > 0 && ready[i] && cost > served_one.deficit
                    + served_one.config.quantum ==> exists|quanta: int|
                    #![trigger quanta * class.config.quantum]
                    {
                        &&& quanta >= 2
                        &&& served_one.deficit + quanta * served_one.config.quantum >= cost
                        &&& served_one.deficit + (quanta - 1) * served_one.config.quantum < cost
                        &&& after.deficit == if class.deficit + quanta * class.config.quantum
                            <= usize::MAX {
                            class.deficit + quanta * class.config.quantum
                        } else {
                            usize::MAX as int
                        }
                    }
            }
        }),
{
    let (c, quanta) = lemma_step_credit(queue, ready);
    assert(class_wf(queue.classes[c], c));
    let class = queue.classes[i];
    let served_one = queue.classes[c];
    let q = served_one.config.quantum as int;
    let cost = head_cost(served_one);
    let after = round_robin(queue, ready).0.classes[i];
    assert(q > 0);
    if i != c {
        lemma_credit_steps(class, 0);
        if cost > served_one.deficit + q {
            assert(quanta >= 2) by (nonlinear_arith)
                requires
                    served_one.deficit + quanta * q >= cost,
                    cost > served_one.deficit + q,
                    q > 0,
            ;
            assert(quanta * class.config.quantum >= 0 || true);
        } else {
            assert(quanta <= 1) by (nonlinear_arith)
                requires
                    quanta > 0 ==> served_one.deficit + (quanta - 1) * q < cost,
                    cost <= served_one.deficit + q,
                    q > 0,
            ;
        }
    }
}

/// The ring is kept. The class that is served is the first, from the cursor on, that can
/// pay with at most one more quantum; where none can, it is the first of those that need
/// the fewest.
pub proof fn first_class_that_can_pay_is_served<T>(queue: QueueView<T>, ready: Seq<bool>, i: int)
    requires
        queue_wf(queue),
        ready.len() == queue.classes.len(),
        0 <= i < queue.classes.len(),
        queue.classes[i].pending.len() > 0,
        ready[i],
    ensures
        round_robin(queue, ready).1 is Some,
        ({
            let c = (round_robin(queue, ready).1->0).class_index as int;
            let cost = (round_robin(queue, ready).1->0).snapshot.scheduling_cost_tokens;
            let served_one = queue.classes[c];
            let class = queue.classes[i];
            let mine = class.pending[0].snapshot.scheduling_cost_tokens;
            if cost <= served_one.deficit + served_one.config.quantum {
                comes_before(queue.next_class, i, c) ==> mine > class.deficit
                    + class.config.quantum
            } else {
                // No number of quanta pays for the other entry and not for the one served.
                forall|quanta: int|
                    #![trigger quanta * class.config.quantum]
                    quanta >= 0 && class.deficit + quanta * class.config.quantum >= mine ==> {
                        &&& served_one.deficit + quanta * served_one.config.quantum >= cost
                        &&& comes_before(queue.next_class, i, c) && quanta > 0
                            ==> served_one.deficit + (quanta - 1) * served_one.config.quantum
                            >= cost
                    }
            }
        }),
{
    assert(queue.classes[i].pending.len() > 0 && ready[i]);
    let (c, g) = lemma_step_credit(queue, ready);
    assert(class_wf(queue.classes[c], c));
    assert(class_wf(queue.classes[i], i));
    let served_one = queue.classes[c];
    let class = queue.classes[i];
    let q = served_one.config.quantum as int;
    let p = class.config.quantum as int;
    let cost = head_cost(served_one) as int;
    let mine = head_cost(class) as int;
    let own = class.deficit as int;
    let its = served_one.deficit as int;
    if cost > its + q {
        assert(g >= 2) by (nonlinear_arith)
            requires
                its + g * q >= cost,
                cost > its + q,
                q > 0,
        ;
        assert forall|quanta: int|
            #![trigger quanta * class.config.quantum]
            quanta >= 0 && class.deficit + quanta * class.config.quantum >= mine implies {
            &&& served_one.deficit + quanta * served_one.config.quantum >= cost
            &&& comes_before(queue.next_class, i, c) && quanta > 0 ==> served_one.deficit + (quanta
                - 1) * served_one.config.quantum >= cost
        } by {
            assert(quanta >= g) by (nonlinear_arith)
                requires
                    own + quanta * p >= mine,
                    own + (g - 1) * p < mine,
                    p > 0,
            ;
            assert(quanta * q >= g * q) by (nonlinear_arith)
                requires
                    quanta >= g,
                    q > 0,
            ;
            if comes_before(queue.next_class, i, c) {
                assert(quanta - 1 >= g) by (nonlinear_arith)
                    requires
                        own + quanta * p >= mine,
                        own + g * p < mine,
                        p > 0,
                ;
                assert((quanta - 1) * q >= g * q) by (nonlinear_arith)
                    requires
                        quanta - 1 >= g,
                        q > 0,
                ;
            }
        }
    } else if comes_before(queue.next_class, i, c) {
        assert(g <= 1) by (nonlinear_arith)
            requires
                g > 0 ==> its + (g - 1) * q < cost,
                cost <= its + q,
                q > 0,
        ;
    }
}

/// What a step does to credit: the class that it serves, and the quanta that it grants it.
proof fn lemma_step_credit<T>(queue: QueueView<T>, ready: Seq<bool>) -> (r: (int, int))
    requires
        queue_wf(queue),
        ready.len() == queue.classes.len(),
        exists|w: int|
            0 <= w < queue.classes.len() && (#[trigger] queue.classes[w]).pending.len() > 0
                && ready[w],
    ensures
        0 <= r.0 < queue.classes.len(),
        eligible(queue.classes, ready, r.0),
        r.1 >= 0,
        queue.classes[r.0].deficit + r.1 * queue.classes[r.0].config.quantum >= head_cost(
            queue.classes[r.0],
        ),
        r.1 > 0 ==> queue.classes[r.0].deficit + (r.1 - 1) * queue.classes[r.0].config.quantum
            < head_cost(queue.classes[r.0]),
        round_robin(queue, ready).1 == Some(queue.classes[r.0].pending[0]),
        round_robin(queue, ready).0.classes.len() == queue.classes.len(),
        round_robin(queue, ready).0.classes[r.0].pending == queue.classes[r.0].pending.skip(1),
        round_robin(queue, ready).0.classes[r.0].deficit == if queue.classes[r.0].pending.len()
            == 1 {
            0
        } else {
            credit_with(queue.classes[r.0], r.1) - head_cost(queue.classes[r.0])
        },
        round_robin(queue, ready).0.next_class == if queue.classes[r.0].pending.len() > 1
            && queue.classes[r.0].pending.skip(1)[0].snapshot.scheduling_cost_tokens
            <= round_robin(queue, ready).0.classes[r.0].deficit {
            r.0
        } else {
            (r.0 + 1) % (queue.classes.len() as int)
        },
        forall|i: int|
            0 <= i < queue.classes.len() && i != r.0 ==> {
                let class = queue.classes[i];
                let after = #[trigger] round_robin(queue, ready).0.classes[i];
                let before_it = comes_before(queue.next_class, i, r.0);
                &&& after.pending == class.pending
                &&& class.pending.len() > 0 && !ready[i] ==> after == class
                &&& class.pending.len() == 0 ==> after.deficit == 0 || after.deficit
                    == class.deficit
                &&& class.pending.len() > 0 && ready[i] ==> after.deficit == credit_with(
                    class,
                    if r.1 >= 2 {
                        r.1
                    } else if before_it {
                        1
                    } else {
                        0
                    },
                )
            },
        forall|i: int|
            0 <= i < queue.classes.len() && eligible(queue.classes, ready, i) ==> {
                let class = #[trigger] queue.classes[i];
                &&& r.1 >= 2 ==> class.deficit + (r.1 - 1) * class.config.quantum < head_cost(class)
                &&& r.1 >= 2 && comes_before(queue.next_class, i, r.0) ==> class.deficit + r.1
                    * class.config.quantum < head_cost(class)
                &&& r.1 <= 1 && comes_before(queue.next_class, i, r.0) ==> class.deficit
                    + class.config.quantum < head_cost(class)
            },
{
    let n = queue.classes.len() as int;
    let next = queue.next_class;
    let w = choose|w: int|
        0 <= w < queue.classes.len() && (#[trigger] queue.classes[w]).pending.len() > 0 && ready[w];
    assert(eligible(queue.classes, ready, w));
    lemma_total_positive(queue.classes, w);
    let pays = |c: int| affordable(queue.classes, ready, c);
    lemma_nearest_is_first(next, n, 0, pays);
    let first = nearest(next, n, 0, pays);
    if first is Some {
        let at = first->0;
        lemma_ring(next, n, at);
        let c = ring(next, n, at);
        let class = queue.classes[c];
        let g: int = if head_cost(class) <= class.deficit {
            0
        } else {
            1
        };
        lemma_credit_steps(class, 0);
        let passed = after_pass(queue.classes, next, ready, at);
        assert(passed[c] == class);
        assert(0 * class.config.quantum == 0 && 1 * class.config.quantum == class.config.quantum);
        assert forall|i: int| 0 <= i < n && i != c implies {
            let other = queue.classes[i];
            let after = #[trigger] round_robin(queue, ready).0.classes[i];
            &&& after.pending == other.pending
            &&& other.pending.len() > 0 && !ready[i] ==> after == other
            &&& other.pending.len() == 0 ==> after.deficit == 0 || after.deficit == other.deficit
            &&& other.pending.len() > 0 && ready[i] ==> after.deficit == credit_with(
                other,
                if comes_before(next, i, c) {
                    1
                } else {
                    0
                },
            )
        } by {
            lemma_comes_before(next, n, i, c);
            lemma_credit_steps(queue.classes[i], 0);
            assert(round_robin(queue, ready).0.classes[i] == passed[i]);
        }
        assert forall|i: int|
            0 <= i < n && eligible(queue.classes, ready, i) && comes_before(
                next,
                i,
                c,
            ) implies (#[trigger] queue.classes[i]).deficit + queue.classes[i].config.quantum
            < head_cost(queue.classes[i]) by {
            lemma_comes_before(next, n, i, c);
            lemma_distance(next, n, i);
            assert(!pays(ring(next, n, distance(next, n, i))));
        }
        (c, g)
    } else {
        let passed = after_pass(queue.classes, next, ready, n);
        assert(eligible(passed, ready, w));
        lemma_some_rounds(passed, ready, n, w);
        assert forall|i: int| 0 <= i < n implies (#[trigger] passed[i]).config.quantum > 0 by {
            assert(class_wf(queue.classes[i], i));
        }
        let rounds = fewest_rounds(passed, ready, n)->0;
        lemma_fewest_is_attained(passed, ready, n);
        let a = choose|i: int|
            0 <= i < n && #[trigger] eligible(passed, ready, i) && rounds_for(passed[i]) == rounds;
        lemma_rounds(
            sat_sub(head_cost(passed[a]), passed[a].deficit) as int,
            passed[a].config.quantum as int,
        );
        lemma_some_class_pays(passed, ready, rounds as usize);
        let credited = after_rounds(passed, ready, rounds as usize);
        let pays_now = |c: int|
            eligible(credited, ready, c) && head_cost(credited[c]) <= credited[c].deficit;
        let v = choose|c: int| 0 <= c < n && #[trigger] pays_at(credited, ready, c);
        lemma_distance(next, n, v);
        lemma_nearest_exists(next, n, 0, pays_now, distance(next, n, v));
        lemma_nearest_is_first(next, n, 0, pays_now);
        let at = nearest(next, n, 0, pays_now)->0;
        lemma_ring(next, n, at);
        let c = ring(next, n, at);
        let g: int = 1 + rounds;
        // Nobody could pay within the round, so more than none was needed.
        assert forall|i: int| 0 <= i < n && eligible(queue.classes, ready, i) implies (
        #[trigger] queue.classes[i]).deficit + queue.classes[i].config.quantum < head_cost(
            queue.classes[i],
        ) && passed[i].deficit == queue.classes[i].deficit + queue.classes[i].config.quantum by {
            lemma_distance(next, n, i);
            assert(!pays(ring(next, n, distance(next, n, i))));
        }
        assert(eligible(queue.classes, ready, a));
        assert(queue.classes[a].deficit + queue.classes[a].config.quantum < head_cost(
            queue.classes[a],
        ));
        assert(rounds >= 1) by {
            let missing = sat_sub(head_cost(passed[a]), passed[a].deficit) as int;
            let quantum = passed[a].config.quantum as int;
            if rounds <= 0 {
                assert(quantum * rounds <= 0) by (nonlinear_arith)
                    requires
                        quantum > 0,
                        rounds <= 0,
                ;
            }
        }
        assert forall|i: int| 0 <= i < n && eligible(queue.classes, ready, i) implies {
            let class = #[trigger] queue.classes[i];
            &&& class.deficit + (g - 1) * class.config.quantum < head_cost(class)
            &&& credited[i].deficit == credit_with(class, g)
        } by {
            let class = queue.classes[i];
            assert(class.deficit + class.config.quantum < head_cost(class));
            assert(eligible(passed, ready, i));
            fewer_rounds_would_not_do(passed, ready, rounds - 1, i);
            let q = class.config.quantum as int;
            assert((g - 1) * q == q + q * (rounds - 1)) by (nonlinear_arith)
                requires
                    g == 1 + rounds,
            ;
            lemma_credit_steps(class, rounds as usize);
        }
        assert(eligible(queue.classes, ready, c));
        let class = queue.classes[c];
        assert(credited[c].deficit == credit_with(class, g));
        assert forall|i: int| 0 <= i < n && i != c implies {
            let other = queue.classes[i];
            let after = #[trigger] round_robin(queue, ready).0.classes[i];
            &&& after.pending == other.pending
            &&& other.pending.len() > 0 && !ready[i] ==> after == other
            &&& other.pending.len() == 0 ==> after.deficit == 0 || after.deficit == other.deficit
            &&& other.pending.len() > 0 && ready[i] ==> after.deficit == credit_with(other, g)
        } by {
            lemma_distance(next, n, i);
            assert(round_robin(queue, ready).0.classes[i] == credited[i]);
            if queue.classes[i].pending.len() > 0 && ready[i] {
                assert(eligible(queue.classes, ready, i));
                assert(credited[i].deficit == credit_with(queue.classes[i], g));
            }
        }
        assert forall|i: int|
            0 <= i < n && eligible(queue.classes, ready, i) && comes_before(
                next,
                i,
                c,
            ) implies (#[trigger] queue.classes[i]).deficit + g * queue.classes[i].config.quantum
            < head_cost(queue.classes[i]) by {
            lemma_comes_before(next, n, i, c);
            lemma_distance(next, n, i);
            assert(!pays_now(ring(next, n, distance(next, n, i))));
            assert(credited[i].deficit == credit_with(queue.classes[i], g));
        }
        (c, g)
    }
}

/// A request is turned away exactly where its class has a limit per worker and what is
/// pending already has reached that limit for all workers, and the limit that is named is
/// the first such one: requests, then tokens, then cached tokens.
pub proof fn limits_grow_with_workers<T>(class: ClassView<T>, workers: usize)
    ensures
        ({
            let full = |limit: Option<usize>, usage: usize|
                limit is Some && (usage >= limit->0 * workers || usage == usize::MAX);
            let requests = full(
                class.config.request_queue_limit_per_worker,
                class.stats.requests,
            );
            let raw = full(
                class.config.raw_isl_token_queue_limit_per_worker,
                class.stats.raw_isl_tokens,
            );
            let cached = full(
                class.config.cached_token_queue_limit_per_worker,
                class.stats.cached_tokens,
            );
            &&& reached_limit(class, workers) is None <==> !requests && !raw && !cached
            &&& requests ==> reached_limit(class, workers) == Some(QueueLimitKind::Requests)
            &&& !requests && raw ==> reached_limit(class, workers) == Some(
                QueueLimitKind::RawIslTokens,
            )
            &&& !requests && !raw && cached ==> reached_limit(class, workers) == Some(
                QueueLimitKind::CachedTokens,
            )
        }),
{
}

/// Within a class strict priority comes first, then the score, then who came first.
pub proof fn pending_entries_go_by_priority_score_and_arrival<T>(
    queue: QueueView<T>,
    c: int,
    i: int,
    j: int,
)
    requires
        queue_wf(queue),
        0 <= c < queue.classes.len(),
        0 <= i < j < queue.classes[c].pending.len(),
    ensures
        ({
            let first = queue.classes[c].pending[i];
            let second = queue.classes[c].pending[j];
            &&& first.strict_priority >= second.strict_priority
            &&& first.strict_priority == second.strict_priority ==> first.policy_score
                >= second.policy_score
            &&& first.strict_priority == second.strict_priority && first.policy_score
                == second.policy_score ==> first.enqueue_seq <= second.enqueue_seq
        }),
{
    assert(class_wf(queue.classes[c], c));
    assert(!queue.classes[c].pending[j].outranks(queue.classes[c].pending[i]));
}

/// A request that is added stands behind all that have a higher priority, or the same and
/// a higher score, or the same of both and came before; and in front of all others, which
/// keep their order. No other class changes, and no credit and no turn does.
pub proof fn added_request_takes_its_place<T>(queue: QueueView<T>, entry: PolicyQueueEntry<T>) -> (at:
    int)
    requires
        queue_wf(queue),
        (entry.class_index as int) < queue.classes.len(),
    ensures
        ({
            let c = entry.class_index as int;
            let before = queue.classes[c].pending;
            let after = with_request(queue, entry);
            &&& 0 <= at <= before.len()
            &&& after.classes[c].pending == before.insert(at, entry)
            &&& forall|i: int|
                0 <= i < at ==> {
                    let other = #[trigger] before[i];
                    ||| other.strict_priority > entry.strict_priority
                    ||| other.strict_priority == entry.strict_priority && (other.policy_score
                        > entry.policy_score || (other.policy_score == entry.policy_score
                        && other.enqueue_seq <= entry.enqueue_seq))
                }
            &&& forall|i: int|
                at <= i < before.len() ==> {
                    let other = #[trigger] before[i];
                    ||| other.strict_priority < entry.strict_priority
                    ||| other.strict_priority == entry.strict_priority && (other.policy_score
                        < entry.policy_score || (other.policy_score == entry.policy_score
                        && other.enqueue_seq > entry.enqueue_seq))
                }
            &&& after.classes[c].deficit == queue.classes[c].deficit
            &&& after.classes[c].config == queue.classes[c].config
            &&& after.classes.len() == queue.classes.len()
            &&& after.next_class == queue.next_class
            &&& forall|i: int|
                0 <= i < queue.classes.len() && i != c ==> #[trigger] after.classes[i]
                    == queue.classes[i]
        }),
{
    let c = entry.class_index as int;
    assert(class_wf(queue.classes[c], c));
    lemma_place(queue.classes[c].pending, entry)
}

proof fn lemma_place<T>(pending: Seq<PolicyQueueEntry<T>>, entry: PolicyQueueEntry<T>) -> (at: int)
    requires
        in_service_order(pending),
    ensures
        0 <= at <= pending.len(),
        queued(pending, entry) == pending.insert(at, entry),
        forall|i: int| 0 <= i < at ==> !entry.outranks(#[trigger] pending[i]),
        forall|i: int| at <= i < pending.len() ==> entry.outranks(#[trigger] pending[i]),
    decreases pending.len(),
{
    if pending.len() == 0 || entry.outranks(pending[0]) {
        assert(queued(pending, entry) =~= pending.insert(0, entry));
        assert forall|i: int| 0 <= i < pending.len() implies entry.outranks(
            #[trigger] pending[i],
        ) by {
            if i > 0 {
                assert(!pending[i].outranks(pending[0]));
            }
        }
        0
    } else {
        let rest = pending.skip(1);
        assert(in_service_order(rest)) by {
            assert forall|i: int, j: int| 0 <= i < j < rest.len() implies !(
            #[trigger] rest[j]).outranks(#[trigger] rest[i]) by {
                assert(!pending[j + 1].outranks(pending[i + 1]));
            }
        }
        let at = lemma_place(rest, entry);
        assert(queued(pending, entry) =~= pending.insert(at + 1, entry));
        assert forall|i: int| 0 <= i < at + 1 implies !entry.outranks(#[trigger] pending[i]) by {
            if i > 0 {
                assert(!entry.outranks(rest[i - 1]));
            }
        }
        assert forall|i: int| at + 1 <= i < pending.len() implies entry.outranks(
            #[trigger] pending[i],
        ) by {
            assert(entry.outranks(rest[i - 1]));
        }
        at + 1
    }
}

/// What waits in a class is counted: a request that comes adds itself and its tokens, as
/// far as they can be counted, and takes them with it when it goes.
pub proof fn waiting_requests_are_counted(stats: PolicyQueueStats, snapshot: QueueSnapshot)
    requires
        stats.requests < usize::MAX,
        stats.raw_isl_tokens + snapshot.raw_isl_tokens <= usize::MAX,
        stats.cached_tokens + snapshot.cached_tokens <= usize::MAX,
    ensures
        stats_with(stats, snapshot).requests == stats.requests + 1,
        stats_with(stats, snapshot).raw_isl_tokens == stats.raw_isl_tokens
            + snapshot.raw_isl_tokens,
        stats_with(stats, snapshot).cached_tokens == stats.cached_tokens + snapshot.cached_tokens,
        stats_without(stats_with(stats, snapshot), snapshot) == stats,
{
}

} // verus!
