//! What the registry shows: its workers, and the load of each rank.

use vstd::prelude::*;

use crate::collections::{dash_places, FxMap};
use crate::protocols::{SequenceHash, WorkerId};
use crate::scheduling::types::{PotentialLoad, PrefillTokenDeltas};
use crate::sequences::{active_count, active_prefill, blocks_with, capped, has_rank, rank_load, WorkerDpRange};
use crate::services::slot_tracker::registry::{
    entry_wf, found, placed, tracker_not_found, SlotTrackerRegistry, TrackerEntry, TrackerView,
};
use crate::services::slot_tracker::{RegistryError, RegistryErrorView, TrackerKey};
use crate::sorting::{
    distinct_ranks_sort_strictly, lex_lt, lex_lt_skips_common_prefix, name_rank,
    name_rank_is_prefix_free, order_names, sorting_keeps_items, stable_sort, NameOrder, SortKey,
};
use crate::text::str_eq;

verus! {

/// A registered worker.
#[derive(Debug, PartialEq, Eq)]
pub struct WorkerInfo {
    pub worker_id: WorkerId,
    pub model_name: String,
    pub tenant_id: String,
    pub block_size: u32,
    pub dp_start: u32,
    pub dp_size: u32,
}

/// The load of a registered rank.
#[derive(Debug, PartialEq, Eq)]
pub struct ActiveLoadInfo {
    pub model_name: String,
    pub tenant_id: String,
    pub worker_id: WorkerId,
    pub dp_rank: u32,
    pub active_prefill_tokens: usize,
    pub active_decode_blocks: usize,
}

impl WorkerInfo {
    /// The key of the worker's tracker.
    pub open spec fn key(&self) -> (Seq<char>, Seq<char>) {
        (self.model_name@, self.tenant_id@)
    }

    /// The ranks of the worker.
    pub open spec fn range(&self) -> WorkerDpRange {
        WorkerDpRange {
            worker_id: self.worker_id,
            dp_start: self.dp_start,
            dp_size: self.dp_size,
        }
    }
}

impl ActiveLoadInfo {
    /// The key of the rank's tracker.
    pub open spec fn key(&self) -> (Seq<char>, Seq<char>) {
        (self.model_name@, self.tenant_id@)
    }

    /// The rank.
    pub open spec fn worker(&self) -> (u64, u32) {
        (self.worker_id, self.dp_rank)
    }
}

fn names_before(
    a_model: &String,
    a_tenant: &String,
    b_model: &String,
    b_tenant: &String,
    then: bool,
    Ghost(x): Ghost<Seq<int>>,
    Ghost(y): Ghost<Seq<int>>,
) -> (r: bool)
    requires
        then == lex_lt(x, y),
    ensures
        r == lex_lt(
            name_rank(a_model@) + name_rank(a_tenant@) + x,
            name_rank(b_model@) + name_rank(b_tenant@) + y,
        ),
{
    proof {
        assert(name_rank(a_model@) + name_rank(a_tenant@) + x =~= name_rank(a_model@) + (name_rank(
            a_tenant@,
        ) + x));
        assert(name_rank(b_model@) + name_rank(b_tenant@) + y =~= name_rank(b_model@) + (name_rank(
            b_tenant@,
        ) + y));
        lex_lt_skips_common_prefix(
            name_rank(a_model@),
            name_rank(a_tenant@) + x,
            name_rank(b_tenant@) + y,
        );
        lex_lt_skips_common_prefix(name_rank(a_tenant@), x, y);
    }
    match order_names(a_model.as_str(), b_model.as_str()) {
        NameOrder::Before => true,
        NameOrder::After => false,
        NameOrder::Same => match order_names(a_tenant.as_str(), b_tenant.as_str()) {
            NameOrder::Before => true,
            NameOrder::After => false,
            NameOrder::Same => then,
        },
    }
}

impl SortKey for WorkerInfo {
    open spec fn rank(&self) -> Seq<int> {
        name_rank(self.model_name@) + name_rank(self.tenant_id@) + seq![self.worker_id as int]
    }

    fn is_before(&self, other: &Self) -> (r: bool) {
        let ghost x = seq![self.worker_id as int];
        let ghost y = seq![other.worker_id as int];
        proof {
            reveal_with_fuel(lex_lt, 3);
            assert(x.skip(1) =~= Seq::<int>::empty());
            assert(y.skip(1) =~= Seq::<int>::empty());
        }
        names_before(
            &self.model_name,
            &self.tenant_id,
            &other.model_name,
            &other.tenant_id,
            self.worker_id < other.worker_id,
            Ghost(x),
            Ghost(y),
        )
    }
}

impl SortKey for ActiveLoadInfo {
    open spec fn rank(&self) -> Seq<int> {
        name_rank(self.model_name@) + name_rank(self.tenant_id@) + seq![
            self.worker_id as int,
            self.dp_rank as int,
        ]
    }

    fn is_before(&self, other: &Self) -> (r: bool) {
        let ghost x = seq![self.worker_id as int, self.dp_rank as int];
        let ghost y = seq![other.worker_id as int, other.dp_rank as int];
        proof {
            reveal_with_fuel(lex_lt, 4);
            assert(x.skip(1) =~= seq![self.dp_rank as int]);
            assert(y.skip(1) =~= seq![other.dp_rank as int]);
            assert(x.skip(1).skip(1) =~= Seq::<int>::empty());
            assert(y.skip(1).skip(1) =~= Seq::<int>::empty());
        }
        names_before(
            &self.model_name,
            &self.tenant_id,
            &other.model_name,
            &other.tenant_id,
            self.worker_id < other.worker_id || (self.worker_id == other.worker_id && self.dp_rank
                < other.dp_rank),
            Ghost(x),
            Ghost(y),
        )
    }
}

/// Whether a key passes filters for the model and the tenant.
pub open spec fn passes(
    key: (Seq<char>, Seq<char>),
    model_name: Option<&str>,
    tenant_id: Option<&str>,
) -> bool {
    (model_name matches Some(m) ==> key.0 == m@) && (tenant_id matches Some(t) ==> key.1 == t@)
}

/// Whether a key passes filters for the model and the tenant.
pub fn matches_filters(key: &TrackerKey, model_name: Option<&str>, tenant_id: Option<&str>) -> (r:
    bool)
    ensures
        r == passes(key@, model_name, tenant_id),
{
    let model_passes = match model_name {
        Some(model_name) => str_eq(key.model_name.as_str(), model_name),
        None => true,
    };
    let tenant_passes = match tenant_id {
        Some(tenant_id) => str_eq(key.tenant_id.as_str(), tenant_id),
        None => true,
    };
    model_passes && tenant_passes
}

/// Whether an entry of a list shows a registered worker.
pub open spec fn shows_worker(
    trackers: Map<(Seq<char>, Seq<char>), TrackerView>,
    info: WorkerInfo,
) -> bool {
    &&& trackers.dom().contains(info.key())
    &&& trackers[info.key()].sequences.ranges.contains(info.range())
    &&& info.block_size == trackers[info.key()].block_size
}

/// Whether an entry of a list shows the load of a registered rank.
pub open spec fn shows_load(
    trackers: Map<(Seq<char>, Seq<char>), TrackerView>,
    info: ActiveLoadInfo,
) -> bool {
    &&& trackers.dom().contains(info.key())
    &&& has_rank(trackers[info.key()].sequences.ranges, info.worker())
    &&& info.active_prefill_tokens == capped(
        active_prefill(trackers[info.key()].sequences.requests, info.worker()),
    )
    &&& info.active_decode_blocks == blocks_with(
        trackers[info.key()].sequences.requests,
        info.worker(),
        Seq::empty(),
    )
}

/// Whether a list has a worker.
pub open spec fn lists_worker(
    infos: Seq<WorkerInfo>,
    key: (Seq<char>, Seq<char>),
    range: WorkerDpRange,
) -> bool {
    exists|i: int| 0 <= i < infos.len() && (#[trigger] infos[i]).key() == key && infos[i].range()
        == range
}

/// Whether a list has a rank.
pub open spec fn lists_rank(
    infos: Seq<ActiveLoadInfo>,
    key: (Seq<char>, Seq<char>),
    worker: (u64, u32),
) -> bool {
    exists|i: int| 0 <= i < infos.len() && (#[trigger] infos[i]).key() == key && infos[i].worker()
        == worker
}

/// Workers that rank the same are the same worker of the same tracker.
proof fn lemma_worker_ranks(a: WorkerInfo, b: WorkerInfo)
    requires
        a.rank() == b.rank(),
    ensures
        a.key() == b.key(),
        a.worker_id == b.worker_id,
{
    let x = seq![a.worker_id as int];
    let y = seq![b.worker_id as int];
    lemma_names(a.key(), x, b.key(), y);
    assert(x[0] == y[0]);
}

/// Loads that rank the same are of the same rank of the same tracker.
proof fn lemma_load_ranks(a: ActiveLoadInfo, b: ActiveLoadInfo)
    requires
        a.rank() == b.rank(),
    ensures
        a.key() == b.key(),
        a.worker() == b.worker(),
{
    let x = seq![a.worker_id as int, a.dp_rank as int];
    let y = seq![b.worker_id as int, b.dp_rank as int];
    lemma_names(a.key(), x, b.key(), y);
    assert(x[0] == y[0]);
    assert(x[1] == y[1]);
}

proof fn lemma_names(
    a: (Seq<char>, Seq<char>),
    x: Seq<int>,
    b: (Seq<char>, Seq<char>),
    y: Seq<int>,
)
    requires
        name_rank(a.0) + name_rank(a.1) + x == name_rank(b.0) + name_rank(b.1) + y,
    ensures
        a == b,
        x == y,
{
    assert(name_rank(a.0) + name_rank(a.1) + x =~= name_rank(a.0) + (name_rank(a.1) + x));
    assert(name_rank(b.0) + name_rank(b.1) + y =~= name_rank(b.0) + (name_rank(b.1) + y));
    name_rank_is_prefix_free(a.0, name_rank(a.1) + x, b.0, name_rank(b.1) + y);
    name_rank_is_prefix_free(a.1, x, b.1, y);
}

impl SlotTrackerRegistry {
    fn push_workers(&self, place: usize, infos: &mut Vec<WorkerInfo>)
        requires
            place < self.entries@.len(),
        ensures
            final(infos)@.len() == old(infos)@.len() + self.entries@[place as int].tracker@.ranges.len(),
            forall|j: int| 0 <= j < old(infos)@.len() ==> final(infos)@[j] == old(infos)@[j],
            forall|j: int|
                0 <= j < self.entries@[place as int].tracker@.ranges.len()
                    ==> new_worker_info(
                    self.entries@[place as int],
                    j,
                    #[trigger] final(infos)@[old(infos)@.len() + j],
                ),
    {
        let entry = &self.entries[place];
        let ranges = entry.tracker.worker_ranges();
        let ghost before = infos@;
        for i in 0..ranges.len()
            invariant
                place < self.entries@.len(),
                *entry == self.entries@[place as int],
                ranges@ == entry.tracker@.ranges,
                infos@.len() == before.len() + i,
                forall|j: int| 0 <= j < before.len() ==> infos@[j] == before[j],
                forall|j: int|
                    0 <= j < i ==> new_worker_info(
                        *entry,
                        j,
                        #[trigger] infos@[before.len() + j],
                    ),
        {
            let range = ranges[i];
            infos.push(
                WorkerInfo {
                    worker_id: range.worker_id,
                    model_name: entry.key.model_name.as_str().to_owned(),
                    tenant_id: entry.key.tenant_id.as_str().to_owned(),
                    block_size: entry.block_size,
                    dp_start: range.dp_start,
                    dp_size: range.dp_size,
                },
            );
        }
    }

    /// The registered workers of the trackers that pass the filters, by model,
    /// tenant and number.
    pub fn list_workers(&self, model_name: Option<&str>, tenant_id: Option<&str>) -> (workers: Vec<
        WorkerInfo,
    >)
        requires
            self.wf(),
        ensures
            forall|i: int|
                0 <= i < workers@.len() ==> shows_worker(self@, #[trigger] workers@[i]) && passes(
                    workers@[i].key(),
                    model_name,
                    tenant_id,
                ),
            forall|k: (Seq<char>, Seq<char>), r: int|
                self@.dom().contains(k) && passes(k, model_name, tenant_id) && 0 <= r
                    < self@[k].sequences.ranges.len() ==> lists_worker(
                    workers@,
                    k,
                    #[trigger] self@[k].sequences.ranges[r],
                ),
            forall|i: int, j: int|
                0 <= i < j < workers@.len() ==> lex_lt(
                    (#[trigger] workers@[i]).rank(),
                    (#[trigger] workers@[j]).rank(),
                ),
    {
        let ghost places = dash_places(&self.places);
        let mut infos: Vec<WorkerInfo> = Vec::new();
        for i in 0..self.entries.len()
            invariant
                self.wf(),
                places == dash_places(&self.places),
                forall|j: int|
                    0 <= j < infos@.len() ==> shows_worker(self@, #[trigger] infos@[j]) && passes(
                        infos@[j].key(),
                        model_name,
                        tenant_id,
                    ) && places[infos@[j].key()] < i,
                forall|e: int, r: int|
                    0 <= e < i && passes(self.entries@[e].key@, model_name, tenant_id) && 0 <= r
                        < self.entries@[e].tracker@.ranges.len() ==> lists_worker(
                        infos@,
                        self.entries@[e].key@,
                        #[trigger] self.entries@[e].tracker@.ranges[r],
                    ),
                forall|a: int, b: int|
                    0 <= a < b < infos@.len() ==> (#[trigger] infos@[a]).key() != (
                    #[trigger] infos@[b]).key() || infos@[a].worker_id != infos@[b].worker_id,
        {
            let ghost before = infos@;
            let ghost entry = self.entries@[i as int];
            assert(found(self.entries@, places, i as int));
            assert(entry_wf(entry));
            if matches_filters(&self.entries[i].key, model_name, tenant_id) {
                self.push_workers(i, &mut infos);
                proof {
                    assert(self@[entry.key@] == entry.model());
                    assert forall|j: int| 0 <= j < infos@.len() implies shows_worker(
                        self@,
                        #[trigger] infos@[j],
                    ) && passes(infos@[j].key(), model_name, tenant_id) && places[infos@[j].key()]
                        < i + 1 by {
                        if j >= before.len() {
                            let t = j - before.len();
                            assert(new_worker_info(entry, t, infos@[before.len() + t]));
                        } else {
                            assert(infos@[j] == before[j]);
                        }
                    }
                    assert forall|e: int, r: int|
                        0 <= e < i + 1 && passes(self.entries@[e].key@, model_name, tenant_id) && 0
                            <= r < self.entries@[e].tracker@.ranges.len() implies lists_worker(
                        infos@,
                        self.entries@[e].key@,
                        #[trigger] self.entries@[e].tracker@.ranges[r],
                    ) by {
                        if e < i {
                            let range = self.entries@[e].tracker@.ranges[r];
                            assert(lists_worker(before, self.entries@[e].key@, range));
                            let w = choose|w: int|
                                0 <= w < before.len() && (#[trigger] before[w]).key()
                                    == self.entries@[e].key@ && before[w].range() == range;
                            assert(infos@[w] == before[w]);
                        } else {
                            assert(new_worker_info(entry, r, infos@[before.len() + r]));
                        }
                    }
                    assert forall|a: int, b: int| 0 <= a < b < infos@.len() implies (
                    #[trigger] infos@[a]).key() != (#[trigger] infos@[b]).key()
                        || infos@[a].worker_id != infos@[b].worker_id by {
                        if b >= before.len() {
                            let t = b - before.len();
                            assert(new_worker_info(entry, t, infos@[before.len() + t]));
                            if a >= before.len() {
                                let u = a - before.len();
                                assert(new_worker_info(entry, u, infos@[before.len() + u]));
                                assert(entry.tracker@.ranges[u].worker_id
                                    != entry.tracker@.ranges[t].worker_id);
                            } else {
                                assert(infos@[a] == before[a]);
                                assert(places[before[a].key()] < i);
                            }
                        } else {
                            assert(infos@[a] == before[a] && infos@[b] == before[b]);
                        }
                    }
                }
            }
        }
        let ghost all = infos@;
        let workers = stable_sort(infos);
        proof {
            assert forall|a: int, b: int| 0 <= a < b < all.len() implies (
            #[trigger] all[a]).rank() != (#[trigger] all[b]).rank() by {
                if all[a].rank() == all[b].rank() {
                    lemma_worker_ranks(all[a], all[b]);
                }
            }
            distinct_ranks_sort_strictly(all, workers@);
            sorting_keeps_items(all, workers@);
            assert forall|i: int| 0 <= i < workers@.len() implies shows_worker(
                self@,
                #[trigger] workers@[i],
            ) && passes(workers@[i].key(), model_name, tenant_id) by {
                assert(workers@.contains(workers@[i]));
                let j = choose|j: int| 0 <= j < all.len() && all[j] == workers@[i];
                assert(shows_worker(self@, all[j]));
            }
            assert forall|k: (Seq<char>, Seq<char>), r: int|
                self@.dom().contains(k) && passes(k, model_name, tenant_id) && 0 <= r
                    < self@[k].sequences.ranges.len() implies lists_worker(
                workers@,
                k,
                #[trigger] self@[k].sequences.ranges[r],
            ) by {
                assert(placed(self.entries@, places, k));
                let e = places[k] as int;
                assert(lists_worker(all, self.entries@[e].key@, self.entries@[e].tracker@.ranges[r]));
                let range = self.entries@[e].tracker@.ranges[r];
                let w = choose|w: int|
                    0 <= w < all.len() && (#[trigger] all[w]).key() == k && all[w].range() == range;
                assert(all.contains(all[w]));
                assert(workers@.contains(all[w]));
                let v = choose|v: int| 0 <= v < workers@.len() && workers@[v] == all[w];
                assert(workers@[v].key() == k);
            }
        }
        workers
    }
}

/// Whether an entry shows a worker of a tracker.
spec fn new_worker_info(entry: TrackerEntry, r: int, info: WorkerInfo) -> bool {
    &&& info.key() == entry.key@
    &&& info.range() == entry.tracker@.ranges[r]
    &&& info.block_size == entry.block_size
}

/// Whether an entry shows the load of a rank of a tracker.
spec fn new_load_info(entry: TrackerEntry, info: ActiveLoadInfo) -> bool {
    &&& info.key() == entry.key@
    &&& has_rank(entry.tracker@.ranges, info.worker())
    &&& info.active_prefill_tokens == capped(
        active_prefill(entry.tracker@.requests, info.worker()),
    )
    &&& info.active_decode_blocks == blocks_with(
        entry.tracker@.requests,
        info.worker(),
        Seq::empty(),
    )
}

impl SlotTrackerRegistry {
    fn push_loads(&self, place: usize, infos: &mut Vec<ActiveLoadInfo>)
        requires
            place < self.entries@.len(),
            entry_wf(self.entries@[place as int]),
        ensures
            final(infos)@.len() >= old(infos)@.len(),
            forall|j: int| 0 <= j < old(infos)@.len() ==> final(infos)@[j] == old(infos)@[j],
            forall|j: int|
                old(infos)@.len() <= j < final(infos)@.len() ==> new_load_info(
                    self.entries@[place as int],
                    #[trigger] final(infos)@[j],
                ),
            forall|w: (u64, u32)| #[trigger]
                has_rank(self.entries@[place as int].tracker@.ranges, w) ==> lists_rank(
                    final(infos)@,
                    self.entries@[place as int].key@,
                    w,
                ),
            forall|a: int, b: int|
                old(infos)@.len() <= a < b < final(infos)@.len() ==> (
                #[trigger] final(infos)@[a]).worker() != (#[trigger] final(infos)@[b]).worker(),
    {
        let entry = &self.entries[place];
        let no_hashes: Vec<SequenceHash> = Vec::new();
        let deltas = PrefillTokenDeltas { default_delta: 0, by_worker: FxMap::default() };
        let loads = entry.tracker.potential_blocks_and_tokens(no_hashes.as_slice(), &deltas);
        let ghost before = infos@;
        for i in 0..loads.len()
            invariant
                place < self.entries@.len(),
                *entry == self.entries@[place as int],
                no_hashes@.len() == 0,
                deltas.default_delta == 0,
                deltas.by_worker@ == Map::<(u64, u32), usize>::empty(),
                forall|j: int|
                    0 <= j < loads@.len() ==> has_rank(
                        entry.tracker@.ranges,
                        (#[trigger] loads@[j]).worker.spec_key(),
                    ) && rank_load(entry.tracker@, no_hashes@, &deltas, loads@[j]),
                infos@.len() == before.len() + i,
                forall|j: int| 0 <= j < before.len() ==> infos@[j] == before[j],
                forall|j: int|
                    0 <= j < i ==> new_load_info(*entry, #[trigger] infos@[before.len() + j])
                        && infos@[before.len() + j].worker() == loads@[j].worker.spec_key(),
        {
            let load = loads[i];
            proof {
                assert(rank_load(entry.tracker@, no_hashes@, &deltas, loads@[i as int]));
                assert(no_hashes@ =~= Seq::empty());
            }
            infos.push(
                ActiveLoadInfo {
                    model_name: entry.key.model_name.as_str().to_owned(),
                    tenant_id: entry.key.tenant_id.as_str().to_owned(),
                    worker_id: load.worker.worker_id,
                    dp_rank: load.worker.dp_rank,
                    active_prefill_tokens: load.prefill_tokens,
                    active_decode_blocks: load.decode_blocks,
                },
            );
        }
        proof {
            assert forall|j: int| before.len() <= j < infos@.len() implies new_load_info(
                *entry,
                #[trigger] infos@[j],
            ) by {
                let t = j - before.len();
                assert(new_load_info(*entry, infos@[before.len() + t]));
            }
            assert forall|w: (u64, u32)| #[trigger]
                has_rank(entry.tracker@.ranges, w) implies lists_rank(
                infos@,
                entry.key@,
                w,
            ) by {
                let t = choose|t: int|
                    0 <= t < loads@.len() && (#[trigger] loads@[t]).worker.spec_key() == w;
                assert(infos@[before.len() + t].worker() == w);
                assert(new_load_info(*entry, infos@[before.len() + t]));
            }
            assert forall|a: int, b: int| before.len() <= a < b < infos@.len() implies (
            #[trigger] infos@[a]).worker() != (#[trigger] infos@[b]).worker() by {
                let t = a - before.len();
                let u = b - before.len();
                assert(new_load_info(*entry, infos@[before.len() + t]));
                assert(new_load_info(*entry, infos@[before.len() + u]));
                assert(loads@[t].worker != loads@[u].worker);
            }
        }
    }

    /// The loads of the registered ranks of the trackers that pass the filters,
    /// by model, tenant, worker and rank.
    pub fn list_loads(&self, model_name: Option<&str>, tenant_id: Option<&str>) -> (loads: Vec<
        ActiveLoadInfo,
    >)
        requires
            self.wf(),
        ensures
            forall|i: int|
                0 <= i < loads@.len() ==> shows_load(self@, #[trigger] loads@[i]) && passes(
                    loads@[i].key(),
                    model_name,
                    tenant_id,
                ),
            forall|k: (Seq<char>, Seq<char>), w: (u64, u32)|
                self@.dom().contains(k) && passes(k, model_name, tenant_id) && #[trigger] has_rank(
                    self@[k].sequences.ranges,
                    w,
                ) ==> lists_rank(loads@, k, w),
            forall|i: int, j: int|
                0 <= i < j < loads@.len() ==> lex_lt(
                    (#[trigger] loads@[i]).rank(),
                    (#[trigger] loads@[j]).rank(),
                ),
    {
        let ghost places = dash_places(&self.places);
        let mut infos: Vec<ActiveLoadInfo> = Vec::new();
        for i in 0..self.entries.len()
            invariant
                self.wf(),
                places == dash_places(&self.places),
                forall|j: int|
                    0 <= j < infos@.len() ==> shows_load(self@, #[trigger] infos@[j]) && passes(
                        infos@[j].key(),
                        model_name,
                        tenant_id,
                    ) && places[infos@[j].key()] < i,
                forall|e: int, w: (u64, u32)|
                    0 <= e < i && passes(self.entries@[e].key@, model_name, tenant_id)
                        && #[trigger] has_rank(self.entries@[e].tracker@.ranges, w) ==> lists_rank(
                        infos@,
                        self.entries@[e].key@,
                        w,
                    ),
                forall|a: int, b: int|
                    0 <= a < b < infos@.len() ==> (#[trigger] infos@[a]).key() != (
                    #[trigger] infos@[b]).key() || infos@[a].worker() != infos@[b].worker(),
        {
            let ghost before = infos@;
            let ghost entry = self.entries@[i as int];
            assert(found(self.entries@, places, i as int));
            assert(entry_wf(entry));
            if matches_filters(&self.entries[i].key, model_name, tenant_id) {
                self.push_loads(i, &mut infos);
                proof {
                    assert(self@[entry.key@] == entry.model());
                    assert forall|j: int| 0 <= j < infos@.len() implies shows_load(
                        self@,
                        #[trigger] infos@[j],
                    ) && passes(infos@[j].key(), model_name, tenant_id) && places[infos@[j].key()]
                        < i + 1 by {
                        if j >= before.len() {
                            assert(new_load_info(entry, infos@[j]));
                        } else {
                            assert(infos@[j] == before[j]);
                        }
                    }
                    assert forall|e: int, w: (u64, u32)|
                        0 <= e < i + 1 && passes(self.entries@[e].key@, model_name, tenant_id)
                            && #[trigger] has_rank(
                            self.entries@[e].tracker@.ranges,
                            w,
                        ) implies lists_rank(infos@, self.entries@[e].key@, w) by {
                        if e < i {
                            assert(lists_rank(before, self.entries@[e].key@, w));
                            let v = choose|v: int|
                                0 <= v < before.len() && (#[trigger] before[v]).key()
                                    == self.entries@[e].key@ && before[v].worker() == w;
                            assert(infos@[v] == before[v]);
                        }
                    }
                    assert forall|a: int, b: int| 0 <= a < b < infos@.len() implies (
                    #[trigger] infos@[a]).key() != (#[trigger] infos@[b]).key()
                        || infos@[a].worker() != infos@[b].worker() by {
                        if b >= before.len() {
                            assert(new_load_info(entry, infos@[b]));
                            if a < before.len() {
                                assert(infos@[a] == before[a]);
                                assert(places[before[a].key()] < i);
                            }
                        } else {
                            assert(infos@[a] == before[a] && infos@[b] == before[b]);
                        }
                    }
                }
            }
        }
        let ghost all = infos@;
        let loads = stable_sort(infos);
        proof {
            assert forall|a: int, b: int| 0 <= a < b < all.len() implies (
            #[trigger] all[a]).rank() != (#[trigger] all[b]).rank() by {
                if all[a].rank() == all[b].rank() {
                    lemma_load_ranks(all[a], all[b]);
                }
            }
            distinct_ranks_sort_strictly(all, loads@);
            sorting_keeps_items(all, loads@);
            assert forall|i: int| 0 <= i < loads@.len() implies shows_load(
                self@,
                #[trigger] loads@[i],
            ) && passes(loads@[i].key(), model_name, tenant_id) by {
                assert(loads@.contains(loads@[i]));
                let j = choose|j: int| 0 <= j < all.len() && all[j] == loads@[i];
                assert(shows_load(self@, all[j]));
            }
            assert forall|k: (Seq<char>, Seq<char>), w: (u64, u32)|
                self@.dom().contains(k) && passes(k, model_name, tenant_id) && #[trigger] has_rank(
                    self@[k].sequences.ranges,
                    w,
                ) implies lists_rank(loads@, k, w) by {
                assert(placed(self.entries@, places, k));
                let e = places[k] as int;
                assert(has_rank(self.entries@[e].tracker@.ranges, w));
                assert(lists_rank(all, self.entries@[e].key@, w));
                let v = choose|v: int|
                    0 <= v < all.len() && (#[trigger] all[v]).key() == k && all[v].worker() == w;
                assert(all.contains(all[v]));
                assert(loads@.contains(all[v]));
                let u = choose|u: int| 0 <= u < loads@.len() && loads@[u] == all[v];
                assert(loads@[u].key() == k);
            }
        }
        loads
    }

    /// The load that each registered rank of a tracker would have with one more
    /// request, in the order of registration.
    pub fn potential_loads(
        &self,
        key: &TrackerKey,
        sequence_hashes: &[SequenceHash],
        new_isl_tokens: usize,
    ) -> (r: Result<Vec<PotentialLoad>, RegistryError>)
        requires
            self.wf(),
        ensures
            r is Ok <==> self@.dom().contains(key@),
            r matches Err(e) ==> e@ == (RegistryErrorView::TrackerNotFound { key: key@ }),
            r matches Ok(loads) ==> {
                &&& forall|i: int|
                    0 <= i < loads@.len() ==> potential_load_of(
                        self@[key@],
                        sequence_hashes@,
                        new_isl_tokens,
                        #[trigger] loads@[i],
                    )
                &&& forall|w: (u64, u32)| #[trigger]
                    has_rank(self@[key@].sequences.ranges, w) ==> gives_load(loads@, w)
                &&& forall|i: int, j: int|
                    0 <= i < j < loads@.len() ==> (#[trigger] loads@[i]).worker() != (#[trigger] loads@[j]).worker()
            },
    {
        let place = match self.place_of(key) {
            Some(place) => place,
            None => {
                return Err(tracker_not_found(key));
            },
        };
        assert(entry_wf(self.entries@[place as int]));
        let tracker = &self.entries[place].tracker;
        let deltas = PrefillTokenDeltas {
            default_delta: new_isl_tokens,
            by_worker: FxMap::default(),
        };
        let ranks = tracker.potential_blocks_and_tokens(sequence_hashes, &deltas);
        let mut loads: Vec<PotentialLoad> = Vec::new();
        for i in 0..ranks.len()
            invariant
                tracker@ == self@[key@].sequences,
                deltas.default_delta == new_isl_tokens,
                deltas.by_worker@ == Map::<(u64, u32), usize>::empty(),
                loads@.len() == i,
                forall|j: int|
                    0 <= j < ranks@.len() ==> has_rank(
                        tracker@.ranges,
                        (#[trigger] ranks@[j]).worker.spec_key(),
                    ) && rank_load(tracker@, sequence_hashes@, &deltas, ranks@[j]),
                forall|j: int|
                    0 <= j < i ==> (#[trigger] loads@[j]).worker_id == ranks@[j].worker.worker_id
                        && loads@[j].dp_rank == ranks@[j].worker.dp_rank && potential_load_of(
                        self@[key@],
                        sequence_hashes@,
                        new_isl_tokens,
                        loads@[j],
                    ),
        {
            let rank = ranks[i];
            assert(rank_load(tracker@, sequence_hashes@, &deltas, ranks@[i as int]));
            loads.push(
                PotentialLoad {
                    worker_id: rank.worker.worker_id,
                    dp_rank: rank.worker.dp_rank,
                    potential_prefill_tokens: rank.prefill_tokens,
                    potential_decode_blocks: rank.decode_blocks,
                    active_requests: rank.active_requests,
                },
            );
        }
        proof {
            assert forall|w: (u64, u32)| #[trigger]
                has_rank(self@[key@].sequences.ranges, w) implies gives_load(loads@, w) by {
                let t = choose|t: int|
                    0 <= t < ranks@.len() && (#[trigger] ranks@[t]).worker.spec_key() == w;
                assert(loads@[t].worker() == w);
            }
            assert forall|i: int, j: int| 0 <= i < j < loads@.len() implies (#[trigger] loads@[i]).worker() != (#[trigger] loads@[j]).worker() by {
                assert(ranks@[i].worker != ranks@[j].worker);
            }
        }
        Ok(loads)
    }
}

/// Whether the load of a rank is among some.
pub open spec fn gives_load(loads: Seq<PotentialLoad>, worker: (u64, u32)) -> bool {
    exists|i: int| 0 <= i < loads.len() && (#[trigger] loads[i]).worker() == worker
}

/// Whether a load is what a registered rank would have with one more request.
pub open spec fn potential_load_of(
    tracker: TrackerView,
    sequence: Seq<u64>,
    new_isl_tokens: usize,
    load: PotentialLoad,
) -> bool {
    let worker = load.worker();
    &&& has_rank(tracker.sequences.ranges, worker)
    &&& load.potential_prefill_tokens == capped(
        active_prefill(tracker.sequences.requests, worker) + new_isl_tokens as nat,
    )
    &&& load.potential_decode_blocks == blocks_with(tracker.sequences.requests, worker, sequence)
    &&& load.active_requests == active_count(tracker.sequences.requests, worker)
}

/// Every key passes where nothing is asked for, and what is asked for must be the key's.
pub proof fn filters_ask_for_what_they_name(
    key: (Seq<char>, Seq<char>),
    model_name: Option<&str>,
    tenant_id: Option<&str>,
)
    ensures
        model_name is None && tenant_id is None ==> passes(key, model_name, tenant_id),
        model_name is Some && key.0 != model_name->0@ ==> !passes(key, model_name, tenant_id),
        tenant_id is Some && key.1 != tenant_id->0@ ==> !passes(key, model_name, tenant_id),
        model_name is Some && key.0 == model_name->0@ ==> (passes(key, model_name, tenant_id)
            <==> passes(key, None, tenant_id)),
        tenant_id is Some && key.1 == tenant_id->0@ ==> (passes(key, model_name, tenant_id)
            <==> passes(key, model_name, None)),
{
}

/// What a rank would bear with a request is what is listed of it, with the request's
/// tokens on top, as far as they can be counted; a request without blocks of its own
/// brings no blocks.
pub proof fn loads_grow_from_what_is_listed(
    trackers: Map<(Seq<char>, Seq<char>), TrackerView>,
    info: ActiveLoadInfo,
    sequence: Seq<u64>,
    new_isl_tokens: usize,
    load: PotentialLoad,
)
    requires
        shows_load(trackers, info),
        potential_load_of(trackers[info.key()], sequence, new_isl_tokens, load),
        load.worker_id == info.worker_id,
        load.dp_rank == info.dp_rank,
    ensures
        info.active_prefill_tokens + new_isl_tokens <= usize::MAX ==> load.potential_prefill_tokens
            == info.active_prefill_tokens + new_isl_tokens,
        info.active_prefill_tokens + new_isl_tokens > usize::MAX ==> load.potential_prefill_tokens
            == usize::MAX,
        sequence.len() == 0 ==> load.potential_decode_blocks == info.active_decode_blocks,
{
    assert(load.worker() == info.worker());
    if sequence.len() == 0 {
        assert(sequence =~= Seq::<u64>::empty());
    }
}

} // verus!
