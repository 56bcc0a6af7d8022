//! The workers that the selection service knows.

use vstd::prelude::*;
use vstd::string::StringExecFns;

use crate::protocols::{WorkerId, WorkerWithDpRank};
use crate::services::selection::error::SelectionError;
use crate::services::selection::types::{
    patched, SelectionKey, WorkerCatalogRecord, WorkerLifecycle, WorkerPatchRequest, WorkerRequest,
};
use crate::text::{append_decimal, decimal, str_eq};

verus! {

/// What is said of a worker that is not known.
pub open spec fn unknown_worker_text(worker_id: u64) -> Seq<char> {
    "worker "@ + decimal(worker_id as nat) + " not found"@
}

/// The error for a worker that is not known.
pub fn unknown_worker(worker_id: WorkerId) -> (e: SelectionError)
    ensures
        e matches SelectionError::NotFound(text) && text@ == unknown_worker_text(worker_id),
{
    let mut text = "worker ".to_owned();
    append_decimal(&mut text, worker_id);
    text.append(" not found");
    SelectionError::NotFound(text)
}

/// Whether a worker is known.
pub open spec fn knows_worker(records: Seq<WorkerCatalogRecord>, worker_id: u64) -> bool {
    exists|i: int| 0 <= i < records.len() && (#[trigger] records[i]).worker_id == worker_id
}

/// Whether a record is that of a worker of a group that takes requests.
pub open spec fn serves(record: WorkerCatalogRecord, key: (Seq<char>, Seq<char>)) -> bool {
    record.lifecycle == WorkerLifecycle::Schedulable && record.spec_key() == key
}

/// Whether a group has a worker that takes requests.
pub open spec fn group_serves(
    records: Seq<WorkerCatalogRecord>,
    key: (Seq<char>, Seq<char>),
) -> bool {
    exists|i: int| 0 <= i < records.len() && serves(#[trigger] records[i], key)
}

/// Number of workers that take requests.
pub open spec fn serving_count(records: Seq<WorkerCatalogRecord>) -> nat
    decreases records.len(),
{
    if records.len() == 0 {
        0
    } else {
        serving_count(records.drop_last()) + if records.last().lifecycle
            == WorkerLifecycle::Schedulable {
            1nat
        } else {
            0
        }
    }
}

proof fn lemma_serving_count_bounded(records: Seq<WorkerCatalogRecord>)
    ensures
        serving_count(records) <= records.len(),
    decreases records.len(),
{
    if records.len() > 0 {
        lemma_serving_count_bounded(records.drop_last());
    }
}

/// The record of a worker in another state.
pub open spec fn in_state(
    record: WorkerCatalogRecord,
    lifecycle: WorkerLifecycle,
    reasons: Vec<String>,
) -> WorkerCatalogRecord {
    WorkerCatalogRecord { lifecycle, not_schedulable_reasons: reasons, ..record }
}

/// Whether a rank is one of a worker's.
pub open spec fn rank_of(record: WorkerCatalogRecord, worker: (u64, u32)) -> bool {
    record.worker_id == worker.0 && record.spec_dp_start() <= worker.1 < record.spec_dp_end()
}

/// The workers that are known.
pub struct WorkerCatalog {
    records: Vec<WorkerCatalogRecord>,
}

impl View for WorkerCatalog {
    type V = Seq<WorkerCatalogRecord>;

    closed spec fn view(&self) -> Seq<WorkerCatalogRecord> {
        self.records@
    }
}

impl WorkerCatalog {
    /// The invariant: no worker is known twice.
    pub open spec fn wf(&self) -> bool {
        forall|i: int, j: int|
            0 <= i < j < self@.len() ==> (#[trigger] self@[i]).worker_id != (
            #[trigger] self@[j]).worker_id
    }

    /// No workers.
    pub fn new() -> (catalog: Self)
        ensures
            catalog.wf(),
            catalog@ == Seq::<WorkerCatalogRecord>::empty(),
    {
        WorkerCatalog { records: Vec::new() }
    }

    /// Where the record of a worker is.
    pub fn find(&self, worker_id: WorkerId) -> (place: Option<usize>)
        ensures
            place is Some <==> knows_worker(self@, worker_id),
            place matches Some(i) ==> i < self@.len() && self@[i as int].worker_id == worker_id,
    {
        for i in 0..self.records.len()
            invariant
                forall|j: int| 0 <= j < i ==> (#[trigger] self.records@[j]).worker_id != worker_id,
        {
            if self.records[i].worker_id == worker_id {
                assert(self@[i as int].worker_id == worker_id);
                return Some(i);
            }
        }
        None
    }

    /// The record at a place.
    pub fn at(&self, place: usize) -> (record: &WorkerCatalogRecord)
        requires
            place < self@.len(),
        ensures
            *record == self@[place as int],
    {
        &self.records[place]
    }

    /// Number of workers.
    pub fn len(&self) -> (len: usize)
        ensures
            len == self@.len(),
    {
        self.records.len()
    }

    /// Takes over what a worker says of itself: it is added, or what was known of
    /// it is replaced. Tells where it is and whether it took requests before.
    pub fn upsert(&mut self, req: WorkerRequest) -> (r: (usize, bool))
        requires
            old(self).wf(),
        ensures
            final(self).wf(),
            r.0 < final(self)@.len(),
            final(self)@[r.0 as int].worker_id == req.worker_id,
            final(self)@[r.0 as int].spec_key() == (req.model_name@, req.tenant_id@),
            final(self)@[r.0 as int].lifecycle == WorkerLifecycle::Incomplete,
            call_ensures(WorkerCatalogRecord::new, (req,), final(self)@[r.0 as int]),
            knows_worker(old(self)@, req.worker_id) ==> {
                &&& old(self)@[r.0 as int].worker_id == req.worker_id
                &&& final(self)@ == old(self)@.update(r.0 as int, final(self)@[r.0 as int])
                &&& r.1 == (old(self)@[r.0 as int].lifecycle == WorkerLifecycle::Schedulable)
            },
            !knows_worker(old(self)@, req.worker_id) ==> {
                &&& final(self)@ == old(self)@.push(final(self)@[r.0 as int])
                &&& !r.1
            },
    {
        let ghost before = self.records@;
        match self.find(req.worker_id) {
            Some(place) => {
                let was = self.records[place].lifecycle;
                let ghost worker_id = req.worker_id;
                let record = WorkerCatalogRecord::new(req);
                self.records.set(place, record);
                proof {
                    assert forall|i: int, j: int| 0 <= i < j < self@.len() implies (
                    #[trigger] self@[i]).worker_id != (#[trigger] self@[j]).worker_id by {
                        assert(before[i].worker_id != before[j].worker_id);
                    }
                }
                (place, matches!(was, WorkerLifecycle::Schedulable))
            },
            None => {
                let place = self.records.len();
                let record = WorkerCatalogRecord::new(req);
                self.records.push(record);
                proof {
                    assert forall|i: int, j: int| 0 <= i < j < self@.len() implies (
                    #[trigger] self@[i]).worker_id != (#[trigger] self@[j]).worker_id by {
                        if j < before.len() {
                            assert(before[i].worker_id != before[j].worker_id);
                        } else {
                            assert(before[i].worker_id != req.worker_id);
                        }
                    }
                }
                (place, false)
            },
        }
    }

    /// Takes a change of a worker over. Tells where it is and whether it took
    /// requests before.
    pub fn patch(&mut self, worker_id: WorkerId, patch: WorkerPatchRequest) -> (r: Result<
        (usize, bool),
        SelectionError,
    >)
        requires
            old(self).wf(),
        ensures
            final(self).wf(),
            r is Ok <==> knows_worker(old(self)@, worker_id),
            r matches Err(e) ==> final(self)@ == old(self)@ && (e matches SelectionError::NotFound(
                text,
            ) && text@ == unknown_worker_text(worker_id)),
            r matches Ok((place, was)) ==> {
                &&& place < old(self)@.len()
                &&& old(self)@[place as int].worker_id == worker_id
                &&& final(self)@ == old(self)@.update(
                    place as int,
                    patched(old(self)@[place as int], patch),
                )
                &&& was == (old(self)@[place as int].lifecycle == WorkerLifecycle::Schedulable)
            },
    {
        let ghost before = self.records@;
        let place = match self.find(worker_id) {
            Some(place) => place,
            None => {
                return Err(unknown_worker(worker_id));
            },
        };
        let was = self.records[place].lifecycle;
        self.records[place].apply_patch(patch);
        proof {
            assert(self@ =~= before.update(place as int, patched(before[place as int], patch)));
            assert forall|i: int, j: int| 0 <= i < j < self@.len() implies (
            #[trigger] self@[i]).worker_id != (#[trigger] self@[j]).worker_id by {
                assert(before[i].worker_id != before[j].worker_id);
            }
        }
        Ok((place, matches!(was, WorkerLifecycle::Schedulable)))
    }

    /// Puts a worker into a state, for some reasons.
    pub fn set_lifecycle(
        &mut self,
        worker_id: WorkerId,
        lifecycle: WorkerLifecycle,
        reasons: Vec<String>,
    ) -> (place: Option<usize>)
        requires
            old(self).wf(),
        ensures
            final(self).wf(),
            place is Some <==> knows_worker(old(self)@, worker_id),
            place is None ==> final(self)@ == old(self)@,
            place matches Some(i) ==> {
                &&& i < old(self)@.len()
                &&& old(self)@[i as int].worker_id == worker_id
                &&& final(self)@ == old(self)@.update(
                    i as int,
                    in_state(old(self)@[i as int], lifecycle, reasons),
                )
            },
    {
        let ghost before = self.records@;
        let place = match self.find(worker_id) {
            Some(place) => place,
            None => {
                return None;
            },
        };
        self.records[place].lifecycle = lifecycle;
        self.records[place].not_schedulable_reasons = reasons;
        proof {
            assert(self@ =~= before.update(
                place as int,
                in_state(before[place as int], lifecycle, reasons),
            ));
            assert forall|i: int, j: int| 0 <= i < j < self@.len() implies (
            #[trigger] self@[i]).worker_id != (#[trigger] self@[j]).worker_id by {
                assert(before[i].worker_id != before[j].worker_id);
            }
        }
        Some(place)
    }

    /// Number of workers that take requests.
    pub fn schedulable_count(&self) -> (count: usize)
        ensures
            count == serving_count(self@),
    {
        let mut count: usize = 0;
        for i in 0..self.records.len()
            invariant
                count == serving_count(self.records@.take(i as int)),
        {
            proof {
                assert(self.records@.take(i + 1).drop_last() =~= self.records@.take(i as int));
                lemma_serving_count_bounded(self.records@.take(i as int));
            }
            if matches!(self.records[i].lifecycle, WorkerLifecycle::Schedulable) {
                count += 1;
            }
        }
        assert(self.records@.take(self.records@.len() as int) =~= self.records@);
        count
    }

    /// Whether the worker at a place takes requests of a group.
    pub fn serves_key(&self, place: usize, key: &SelectionKey) -> (r: bool)
        requires
            place < self@.len(),
        ensures
            r == serves(self@[place as int], key@),
    {
        let record = &self.records[place];
        matches!(record.lifecycle, WorkerLifecycle::Schedulable) && str_eq(
            record.model_name.as_str(),
            key.model_name.as_str(),
        ) && str_eq(record.tenant_id.as_str(), key.tenant_id.as_str())
    }

    /// Whether a group has a worker that takes requests.
    pub fn has_schedulable_for_key(&self, key: &SelectionKey) -> (r: bool)
        ensures
            r == group_serves(self@, key@),
    {
        for i in 0..self.records.len()
            invariant
                forall|j: int| 0 <= j < i ==> !serves(#[trigger] self@[j], key@),
        {
            if self.serves_key(i, key) {
                assert(serves(self@[i as int], key@));
                return true;
            }
        }
        false
    }

    /// Where a worker of a group takes requests.
    pub fn schedulable_endpoint(&self, worker_id: WorkerId, key: &SelectionKey) -> (endpoint: Option<
        String,
    >)
        requires
            self.wf(),
        ensures
            endpoint is Some <==> exists|i: int|
                0 <= i < self@.len() && serves(#[trigger] self@[i], key@) && self@[i].worker_id
                    == worker_id && self@[i].endpoint is Some,
            endpoint matches Some(text) ==> exists|i: int|
                0 <= i < self@.len() && serves(#[trigger] self@[i], key@) && self@[i].worker_id
                    == worker_id && self@[i].endpoint is Some && self@[i].endpoint->0@ == text@,
    {
        let place = match self.find(worker_id) {
            Some(place) => place,
            None => {
                assert forall|i: int| 0 <= i < self@.len() implies (#[trigger] self@[i]).worker_id
                    != worker_id by {}
                return None;
            },
        };
        proof {
            assert forall|i: int| 0 <= i < self@.len() && i != place implies (
            #[trigger] self@[i]).worker_id != worker_id by {
                if i < place {
                    assert(self@[i].worker_id != self@[place as int].worker_id);
                } else {
                    assert(self@[place as int].worker_id != self@[i].worker_id);
                }
            }
        }
        if !self.serves_key(place, key) {
            return None;
        }
        assert(serves(self@[place as int], key@));
        match &self.records[place].endpoint {
            Some(endpoint) => Some(endpoint.as_str().to_owned()),
            None => None,
        }
    }

    fn push_ranks(&self, place: usize, workers: &mut Vec<WorkerWithDpRank>)
        requires
            place < self@.len(),
        ensures
            final(workers)@.len() >= old(workers)@.len(),
            forall|k: int| 0 <= k < old(workers)@.len() ==> final(workers)@[k] == old(workers)@[k],
            forall|k: int|
                old(workers)@.len() <= k < final(workers)@.len() ==> rank_of(
                    self@[place as int],
                    (#[trigger] final(workers)@[k]).spec_key(),
                ),
            forall|w: (u64, u32)| #[trigger]
                rank_of(self@[place as int], w) ==> lists_worker(final(workers)@, w),
    {
        let record = &self.records[place];
        let ghost earlier = workers@;
        let start = record.dp_start();
        let end = record.dp_end();
        let mut rank = start;
        while rank < end
            invariant
                place < self.records@.len(),
                *record == self@[place as int],
                start == record.spec_dp_start(),
                end == record.spec_dp_end(),
                start <= rank <= end,
                workers@.len() == earlier.len() + (rank - start),
                forall|k: int| 0 <= k < earlier.len() ==> workers@[k] == earlier[k],
                forall|k: int|
                    0 <= k < rank - start ==> (#[trigger] workers@[earlier.len() + k]).spec_key()
                        == (record.worker_id, (start + k) as u32),
            decreases end - rank,
        {
            workers.push(WorkerWithDpRank::new(record.worker_id, rank));
            rank += 1;
        }
        proof {
            assert forall|k: int| earlier.len() <= k < workers@.len() implies rank_of(
                self@[place as int],
                (#[trigger] workers@[k]).spec_key(),
            ) by {
                let t = k - earlier.len();
                assert(workers@[earlier.len() + t].spec_key() == (
                    record.worker_id,
                    (start + t) as u32,
                ));
            }
            assert forall|w: (u64, u32)| #[trigger] rank_of(
                self@[place as int],
                w,
            ) implies lists_worker(workers@, w) by {
                let t = w.1 - start;
                assert(workers@[earlier.len() + t].spec_key() == w);
            }
        }
    }

    /// The ranks of a group that take requests.
    pub fn schedulable_worker_ranks(&self, key: &SelectionKey) -> (workers: Vec<WorkerWithDpRank>)
        ensures
            forall|i: int|
                0 <= i < workers@.len() ==> rank_serves(
                    self@,
                    key@,
                    (#[trigger] workers@[i]).spec_key(),
                ),
            forall|w: (u64, u32)| #[trigger]
                rank_serves(self@, key@, w) ==> lists_worker(workers@, w),
    {
        let mut workers: Vec<WorkerWithDpRank> = Vec::new();
        for i in 0..self.records.len()
            invariant
                forall|k: int|
                    0 <= k < workers@.len() ==> rank_serves(
                        self@,
                        key@,
                        (#[trigger] workers@[k]).spec_key(),
                    ),
                forall|r: int, w: (u64, u32)|
                    0 <= r < i && serves(self@[r], key@) && #[trigger] rank_of(self@[r], w)
                        ==> lists_worker(workers@, w),
        {
            if self.serves_key(i, key) {
                let ghost earlier = workers@;
                self.push_ranks(i, &mut workers);
                proof {
                    assert forall|k: int| 0 <= k < workers@.len() implies rank_serves(
                        self@,
                        key@,
                        (#[trigger] workers@[k]).spec_key(),
                    ) by {
                        if k < earlier.len() {
                            assert(workers@[k] == earlier[k]);
                        } else {
                            assert(rank_of(self@[i as int], workers@[k].spec_key()));
                        }
                    }
                    assert forall|r: int, w: (u64, u32)|
                        0 <= r < i + 1 && serves(self@[r], key@) && #[trigger] rank_of(
                            self@[r],
                            w,
                        ) implies lists_worker(workers@, w) by {
                        if r < i {
                            assert(lists_worker(earlier, w));
                            let k = choose|k: int|
                                0 <= k < earlier.len() && (#[trigger] earlier[k]).spec_key() == w;
                            assert(workers@[k] == earlier[k]);
                        }
                    }
                }
            }
        }
        proof {
            assert forall|w: (u64, u32)| #[trigger] rank_serves(self@, key@, w) implies lists_worker(
                workers@,
                w,
            ) by {
                let r = choose|r: int|
                    0 <= r < self@.len() && serves(self@[r], key@) && #[trigger] rank_of(self@[r], w);
                assert(rank_of(self@[r], w));
            }
        }
        workers
    }
}

/// Whether a rank of a group takes requests.
pub open spec fn rank_serves(
    records: Seq<WorkerCatalogRecord>,
    key: (Seq<char>, Seq<char>),
    worker: (u64, u32),
) -> bool {
    exists|r: int|
        0 <= r < records.len() && serves(records[r], key) && #[trigger] rank_of(records[r], worker)
}

/// Whether a rank is among some.
pub open spec fn lists_worker(workers: Seq<WorkerWithDpRank>, worker: (u64, u32)) -> bool {
    exists|i: int| 0 <= i < workers.len() && (#[trigger] workers[i]).spec_key() == worker
}

/// Workers that take requests are counted one by one.
pub proof fn workers_that_take_requests_count(
    records: Seq<WorkerCatalogRecord>,
    record: WorkerCatalogRecord,
)
    ensures
        serving_count(Seq::empty()) == 0,
        record.lifecycle == WorkerLifecycle::Schedulable ==> serving_count(records.push(record))
            == serving_count(records) + 1,
        record.lifecycle != WorkerLifecycle::Schedulable ==> serving_count(records.push(record))
            == serving_count(records),
{
    assert(records.push(record).drop_last() =~= records);
}

/// A group serves exactly if a worker of its model and tenant takes requests, and some
/// worker counts if one does.
pub proof fn groups_serve_by_their_own_workers(
    records: Seq<WorkerCatalogRecord>,
    key: (Seq<char>, Seq<char>),
    i: int,
)
    requires
        0 <= i < records.len(),
    ensures
        records[i].lifecycle == WorkerLifecycle::Schedulable ==> serving_count(records) > 0,
        records[i].lifecycle == WorkerLifecycle::Schedulable && (
            records[i].model_name@,
            records[i].tenant_id@,
        ) == key ==> group_serves(records, key),
        group_serves(records, key) ==> exists|j: int|
            0 <= j < records.len() && (#[trigger] records[j]).lifecycle
                == WorkerLifecycle::Schedulable && (records[j].model_name@, records[j].tenant_id@)
                == key,
    decreases records.len(),
{
    if i == records.len() - 1 {
        assert(records.last() == records[i]);
    } else {
        assert(records.drop_last()[i] == records[i]);
        groups_serve_by_their_own_workers(records.drop_last(), key, i);
    }
    if records[i].lifecycle == WorkerLifecycle::Schedulable && (
        records[i].model_name@,
        records[i].tenant_id@,
    ) == key {
        assert(serves(records[i], key));
    }
    if group_serves(records, key) {
        let j = choose|j: int| 0 <= j < records.len() && serves(#[trigger] records[j], key);
        assert(records[j].lifecycle == WorkerLifecycle::Schedulable);
    }
}

} // verus!
