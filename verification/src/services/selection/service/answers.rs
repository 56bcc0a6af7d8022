//! What the selection service answers once a worker was found, and the loads that
//! it shows.

use vstd::prelude::*;
use vstd::string::StringExecFns;

use crate::collections::{fx_get, fx_insert, FxMap};
use crate::protocols::SequenceHash;
use crate::scheduling::admission::SchedulingResponse;
use crate::scheduling::config::{F64Bits, RouterConfigOverride};
use crate::scheduling::prefill_load::effective_prefill_tokens;
use crate::scheduling::policy_queue::{all_entries, total_pending, PolicyQueue, PolicyQueueEntry};
use crate::scheduling::types::{prefill_deltas, uncached, PotentialLoad};
use crate::sequences::{
    active_count, active_prefill, blocks_with, capped, has_rank, rank_load, replicated, SequencesView,
};
use crate::services::indexer::InstanceTierBreakdown;
use crate::services::selection::catalog::{group_serves, serving_count};
use crate::services::selection::error::SelectionError;
use crate::services::selection::prompt::NormalizedPrompt;
use crate::services::selection::service::{
    entry_at, entry_with, has_entry, lemma_entry_changed, no_workers_for, serves_at, EntryView,
    SelectionCore, WaitingSelection, NO_WORKERS,
};
use crate::services::selection::types::{
    ModelLoadResponse, SelectResponse, SelectionKey, WorkerCatalogRecord,
};
use crate::services::slot_tracker::registry::listing::{gives_load, passes};
use crate::services::slot_tracker::registry::SlotReplicaEvent;
use crate::sorting::{
    distinct_ranks_sort_strictly, lex_lt, lex_lt_skips_common_prefix, name_rank,
    name_rank_is_prefix_free, order_names, sorting_keeps_items, stable_sort, NameOrder, SortKey,
};
use crate::text::{append_decimal, decimal, str_eq};

verus! {

/// Whether a character is a hexadecimal digit, in lower case.
pub open spec fn hex_char(c: char) -> bool {
    '0' <= c <= '9' || 'a' <= c <= 'f'
}

/// Whether a text is a random identifier: thirty-two hexadecimal digits in five
/// groups, the third of which begins with a four.
pub open spec fn is_random_uuid(text: Seq<char>) -> bool {
    &&& text.len() == 36
    &&& text[8] == '-' && text[13] == '-' && text[18] == '-' && text[23] == '-'
    &&& text[14] == '4'
    &&& forall|i: int|
        0 <= i < 36 && i != 8 && i != 13 && i != 18 && i != 23 ==> hex_char(#[trigger] text[i])
}

/// `Uuid::new_v4` of `uuid` and its text: any random identifier can come.
#[verifier::external_body]
fn random_uuid() -> (text: String)
    ensures
        is_random_uuid(text@),
{
    uuid::Uuid::new_v4().to_string()
}

/// The identifier of a reservation: the one that is asked for, or a new one.
pub fn reservation_id_or_new(reservation_id: Option<String>) -> (id: String)
    ensures
        reservation_id matches Some(asked) ==> id == asked,
        reservation_id is None ==> is_random_uuid(id@),
{
    match reservation_id {
        Some(id) => id,
        None => random_uuid(),
    }
}

/// What is said of a selection that is to be booked and has no identifier.
pub const NO_RESERVATION_ID: &'static str = "booked selection did not include a reservation ID";

/// The identifier under which a selection is scheduled: that of its reservation
/// where it is booked, and none where it is not.
pub fn scheduler_request_id(book: bool, reservation_id: &Option<String>) -> (r: Result<
    Option<String>,
    SelectionError,
>)
    ensures
        r is Ok <==> !book || reservation_id is Some,
        r matches Ok(id) ==> if book {
            id is Some && id->0@ == reservation_id->0@
        } else {
            id is None
        },
        r matches Err(e) ==> (e matches SelectionError::Internal(text) && text@
            == NO_RESERVATION_ID@),
{
    if !book {
        return Ok(None);
    }
    match reservation_id {
        Some(id) => Ok(Some(id.as_str().to_owned())),
        None => Err(SelectionError::Internal(NO_RESERVATION_ID.to_owned())),
    }
}

/// What is said of a fraction that is none.
pub const BAD_DECAY_FRACTION: &'static str = "decay_fraction must be between 0.0 and 1.0";

/// Checks the fraction by which an output block counts.
pub fn validate_decay_fraction(decay_fraction: Option<F64Bits>) -> (r: Result<(), SelectionError>)
    ensures
        r is Err <==> (decay_fraction matches Some(f) && !(f.spec_is_number()
            && !f.spec_is_negative() && !f.spec_exceeds_one())),
        r matches Err(e) ==> (e matches SelectionError::BadRequest(text) && text@
            == BAD_DECAY_FRACTION@),
{
    match decay_fraction {
        Some(f) => if f.is_number() && !f.is_negative() && !f.exceeds_one() {
            Ok(())
        } else {
            Err(SelectionError::BadRequest(BAD_DECAY_FRACTION.to_owned()))
        },
        None => Ok(()),
    }
}

/// What is said of a worker that takes requests no more.
pub open spec fn gone_text(worker_id: u64) -> Seq<char> {
    "selected worker "@ + decimal(worker_id as nat) + " is no longer schedulable"@
}

/// Whether a summary is another with a rank in it: one that has nothing where it was
/// not there.
pub open spec fn with_rank(
    before: Option<InstanceTierBreakdown>,
    rank: u32,
    after: InstanceTierBreakdown,
) -> bool {
    let dp = match before {
        Some(b) => b.dp@,
        None => Map::empty(),
    };
    &&& after.dp@ == if dp.dom().contains(rank as u64) {
        dp
    } else {
        dp.insert(rank as u64, 0)
    }
    &&& match before {
        Some(b) => after.longest_matched == b.longest_matched && after.gpu == b.gpu && after.cpu
            == b.cpu && after.disk == b.disk,
        None => after.longest_matched == 0 && after.gpu == 0 && after.cpu == 0 && after.disk == 0,
    }
}

impl SelectionCore {
    /// The answer to a selection once the scheduler found a worker.
    pub fn finish_selection(
        &self,
        key: SelectionKey,
        selection_id: Option<String>,
        reservation_id: Option<String>,
        block_size: u32,
        isl_tokens: usize,
        response: SchedulingResponse,
        summary: Option<InstanceTierBreakdown>,
    ) -> (r: Result<SelectResponse, SelectionError>)
        requires
            self.wf(),
        ensures
            r is Ok <==> exists|endpoint: Seq<char>| #[trigger]
                serves_at(self.records(), response.best_worker.worker_id, key@, endpoint),
            r matches Err(e) ==> (e matches SelectionError::Internal(text) && text@ == gone_text(
                response.best_worker.worker_id,
            )),
            r matches Ok(answer) ==> {
                &&& answer.selection_id == selection_id
                &&& answer.reservation_id == reservation_id
                &&& (answer.model_name@, answer.tenant_id@) == key@
                &&& answer.worker_id == response.best_worker.worker_id
                &&& answer.dp_rank == response.best_worker.dp_rank
                &&& serves_at(self.records(), answer.worker_id, key@, answer.endpoint@)
                &&& answer.block_size == block_size
                &&& with_rank(summary, answer.dp_rank, answer.overlap)
                &&& answer.effective_prefill_tokens == if response.cached_tokens <= isl_tokens {
                    isl_tokens - response.cached_tokens
                } else {
                    0
                }
            },
    {
        let worker = response.best_worker;
        let endpoint = match self.catalog.schedulable_endpoint(worker.worker_id, &key) {
            Some(endpoint) => endpoint,
            None => {
                proof {
                    assert forall|endpoint: Seq<char>|
                        !#[trigger] serves_at(self.records(), worker.worker_id, key@, endpoint) by {}
                }
                let mut text = "selected worker ".to_owned();
                append_decimal(&mut text, worker.worker_id);
                text.append(" is no longer schedulable");
                return Err(SelectionError::Internal(text));
            },
        };
        assert(serves_at(self.records(), worker.worker_id, key@, endpoint@));
        let mut overlap = match summary {
            Some(overlap) => overlap,
            None => InstanceTierBreakdown {
                longest_matched: 0,
                gpu: 0,
                dp: FxMap::default(),
                cpu: 0,
                disk: 0,
            },
        };
        let rank = worker.dp_rank as u64;
        if fx_get(&overlap.dp, &rank).is_none() {
            fx_insert(&mut overlap.dp, rank, 0);
        }
        Ok(
            SelectResponse {
                selection_id,
                reservation_id,
                model_name: key.model_name,
                tenant_id: key.tenant_id,
                worker_id: worker.worker_id,
                dp_rank: worker.dp_rank,
                endpoint,
                block_size,
                overlap,
                effective_prefill_tokens: effective_prefill_tokens(
                    isl_tokens,
                    response.cached_tokens,
                ),
            },
        )
    }

    /// Takes over what a replica reports. A process has no replicas unless it has
    /// a number, and takes nothing over from itself; a report for a group that is
    /// not there, or that has another block size, is dropped.
    pub fn dispatch_replica_event(
        &mut self,
        process_id: Option<u64>,
        envelope: SlotReplicaEvent,
        now_millis: u64,
    )
        requires
            old(self).wf(),
        ensures
            final(self).wf(),
            final(self).records() == old(self).records(),
            final(self).is_running() == old(self).is_running(),
            final(self).settings() == old(self).settings(),
            final(self).groups() == old(self).groups() || exists|i: int| #[trigger]
                takes_report(old(self).groups(), process_id, envelope, i) && final(self).groups()
                    == entry_with(
                    old(self).groups(),
                    i,
                    replicated(old(self).groups()[i].sequences, envelope.event, now_millis),
                ),
            forall|i: int| #[trigger]
                takes_report(old(self).groups(), process_id, envelope, i) ==> final(self).groups()
                    == entry_with(
                    old(self).groups(),
                    i,
                    replicated(old(self).groups()[i].sequences, envelope.event, now_millis),
                ),
    {
        match process_id {
            Some(process_id) => {
                if process_id == envelope.event.router_id {
                    return ;
                }
            },
            None => {
                return ;
            },
        }
        let SlotReplicaEvent { model_name, tenant_id, block_size, event } = envelope;
        let key = SelectionKey::new(model_name, tenant_id);
        let place = match self.find_entry(&key) {
            Some(place) => place,
            None => {
                return ;
            },
        };
        proof {
            assert forall|i: int| #[trigger]
                takes_report(self.groups(), process_id, envelope, i) implies i == place by {
                if i < place {
                    assert(self.groups()[i].key != self.groups()[place as int].key);
                } else if i > place {
                    assert(self.groups()[place as int].key != self.groups()[i].key);
                }
            }
            assert(self.groups()[place as int] == self.entries@[place as int].model());
        }
        if self.entries[place].block_size != block_size {
            return ;
        }
        let ghost before = self.entries@;
        assert(self.entries@[place as int].wf());
        self.entries[place].slots.apply_replica_event(event, now_millis);
        proof {
            lemma_entry_changed(before, self.entries@, place as int);
            assert(takes_report(old(self).groups(), process_id, envelope, place as int));
        }
    }
}

/// Whether a report is taken over by a group.
pub open spec fn takes_report(
    entries: Seq<EntryView>,
    process_id: Option<u64>,
    envelope: SlotReplicaEvent,
    i: int,
) -> bool {
    &&& process_id is Some
    &&& process_id->0 != envelope.event.router_id
    &&& entry_at(entries, (envelope.model_name@, envelope.tenant_id@), i)
    &&& entries[i].block_size == envelope.block_size
}

impl ModelLoadResponse {
    /// The group whose load it is.
    pub open spec fn key(&self) -> (Seq<char>, Seq<char>) {
        (self.model_name@, self.tenant_id@)
    }
}

impl SortKey for ModelLoadResponse {
    open spec fn rank(&self) -> Seq<int> {
        name_rank(self.model_name@) + name_rank(self.tenant_id@)
    }

    fn is_before(&self, other: &Self) -> (r: bool) {
        let ghost none = Seq::<int>::empty();
        proof {
            assert(name_rank(self.tenant_id@) + none =~= name_rank(self.tenant_id@));
            assert(name_rank(other.tenant_id@) + none =~= name_rank(other.tenant_id@));
            lex_lt_skips_common_prefix(
                name_rank(self.model_name@),
                name_rank(self.tenant_id@),
                name_rank(other.tenant_id@),
            );
            lex_lt_skips_common_prefix(name_rank(self.tenant_id@), none, none);
        }
        match order_names(self.model_name.as_str(), other.model_name.as_str()) {
            NameOrder::Before => true,
            NameOrder::After => false,
            NameOrder::Same => match order_names(
                self.tenant_id.as_str(),
                other.tenant_id.as_str(),
            ) {
                NameOrder::Before => {
                    assert(lex_lt(
                        name_rank(self.tenant_id@) + none,
                        name_rank(other.tenant_id@) + none,
                    ));
                    true
                },
                NameOrder::After => {
                    assert(!lex_lt(
                        name_rank(self.tenant_id@) + none,
                        name_rank(other.tenant_id@) + none,
                    ));
                    false
                },
                NameOrder::Same => false,
            },
        }
    }
}

/// Whether a load is that of a rank with one more request.
pub open spec fn shows_rank(
    sequences: SequencesView,
    hashes: Seq<u64>,
    added: spec_fn((u64, u32)) -> usize,
    load: PotentialLoad,
) -> bool {
    &&& has_rank(sequences.ranges, load.worker())
    &&& load.potential_prefill_tokens == capped(
        active_prefill(sequences.requests, load.worker()) + added(load.worker()) as nat,
    )
    &&& load.potential_decode_blocks == blocks_with(sequences.requests, load.worker(), hashes)
    &&& load.active_requests == active_count(sequences.requests, load.worker())
}

/// Whether loads are those of the ranks, each once.
pub open spec fn show_ranks(
    sequences: SequencesView,
    hashes: Seq<u64>,
    added: spec_fn((u64, u32)) -> usize,
    loads: Seq<PotentialLoad>,
) -> bool {
    &&& forall|i: int|
        0 <= i < loads.len() ==> shows_rank(sequences, hashes, added, #[trigger] loads[i])
    &&& forall|w: (u64, u32)| #[trigger]
        has_rank(sequences.ranges, w) ==> gives_load(loads, w)
    &&& forall|i: int, j: int|
        0 <= i < j < loads.len() ==> (#[trigger] loads[i]).worker() != (
        #[trigger] loads[j]).worker()
}

/// What a request adds to the prefill tokens of a worker.
pub open spec fn adds(
    isl_tokens: usize,
    cached: Map<(u64, u32), usize>,
    track_prefill_tokens: bool,
) -> spec_fn((u64, u32)) -> usize {
    |w: (u64, u32)| uncached(isl_tokens, cached, track_prefill_tokens, w)
}

/// Tells the workers that pass the filters.
pub open spec fn passing(
    model_name: Option<&str>,
    tenant_id: Option<&str>,
) -> spec_fn(WorkerCatalogRecord) -> bool {
    |record: WorkerCatalogRecord| passes(record.spec_key(), model_name, tenant_id)
}

/// The tokens of the selections that wait.
pub open spec fn tokens_waiting(entries: Seq<PolicyQueueEntry<WaitingSelection>>) -> nat
    decreases entries.len(),
{
    if entries.len() == 0 {
        0
    } else {
        tokens_waiting(entries.drop_last()) + entries.last().payload.request.isl_tokens as nat
    }
}

fn count_tokens_waiting(queue: &PolicyQueue<WaitingSelection>) -> (tokens: usize)
    ensures
        tokens == capped(tokens_waiting(all_entries(queue@.classes))),
{
    let entries = queue.entries();
    let ghost all = all_entries(queue@.classes);
    let mut tokens: usize = 0;
    assert(all.take(0) =~= Seq::empty());
    for i in 0..entries.len()
        invariant
            entries@.map_values(|e: &PolicyQueueEntry<WaitingSelection>| *e) == all,
            tokens == capped(tokens_waiting(all.take(i as int))),
    {
        proof {
            let e = entries@.map_values(|e: &PolicyQueueEntry<WaitingSelection>| *e)[i as int];
            assert(e == *entries@[i as int]);
            assert(all.take(i + 1).drop_last() =~= all.take(i as int));
            assert(all.take(i + 1).last() == e);
        }
        tokens = tokens.saturating_add(entries[i].payload.request.isl_tokens);
    }
    assert(all.take(all.len() as int) =~= all);
    tokens
}

/// Whether an answer shows the load of a group.
pub open spec fn shows_group(entry: EntryView, answer: ModelLoadResponse) -> bool {
    &&& answer.key() == entry.key
    &&& answer.pending_count == total_pending(entry.waiting.classes)
    &&& answer.pending_isl_tokens == capped(tokens_waiting(all_entries(entry.waiting.classes)))
    &&& show_ranks(
        entry.sequences,
        Seq::empty(),
        adds(0, Map::empty(), false),
        answer.loads@,
    )
}

/// Whether prefill tokens count: as a request says, or as they do.
pub open spec fn counts_prefill(config_override: &Option<RouterConfigOverride>, otherwise: bool) -> bool {
    match *config_override {
        Some(c) => match c.track_prefill_tokens {
            Some(track) => track,
            None => otherwise,
        },
        None => otherwise,
    }
}

/// Whether a group is among some answers.
pub open spec fn lists_group(answers: Seq<ModelLoadResponse>, key: (Seq<char>, Seq<char>)) -> bool {
    exists|i: int| 0 <= i < answers.len() && (#[trigger] answers[i]).key() == key
}

impl SelectionCore {
    fn group_load(&self, place: usize) -> (answer: ModelLoadResponse)
        requires
            self.wf(),
            place < self.entries@.len(),
        ensures
            shows_group(self.groups()[place as int], answer),
    {
        let entry = &self.entries[place];
        assert(self.entries@[place as int].wf());
        assert(self.groups()[place as int] == entry.model());
        let no_hashes: Vec<SequenceHash> = Vec::new();
        let nothing: FxMap<(u64, u32), usize> = FxMap::default();
        let loads = self.rank_loads(place, no_hashes.as_slice(), 0, &nothing, false);
        assert(no_hashes@ =~= Seq::empty());
        assert(nothing@ =~= Map::empty());
        ModelLoadResponse {
            model_name: entry.key.model_name.as_str().to_owned(),
            tenant_id: entry.key.tenant_id.as_str().to_owned(),
            loads,
            pending_count: entry.queue.pending_count(),
            pending_isl_tokens: count_tokens_waiting(&entry.queue),
        }
    }

    pub(crate) fn rank_loads(
        &self,
        place: usize,
        hashes: &[SequenceHash],
        isl_tokens: usize,
        cached: &FxMap<(u64, u32), usize>,
        track_prefill_tokens: bool,
    ) -> (loads: Vec<PotentialLoad>)
        requires
            self.wf(),
            place < self.groups().len(),
        ensures
            show_ranks(
                self.groups()[place as int].sequences,
                hashes@,
                adds(isl_tokens, cached@, track_prefill_tokens),
                loads@,
            ),
    {
        let entry = &self.entries[place];
        assert(self.entries@[place as int].wf());
        assert(self.groups()[place as int] == entry.model());
        let ghost added = adds(isl_tokens, cached@, track_prefill_tokens);
        let deltas = prefill_deltas(isl_tokens, cached, track_prefill_tokens);
        assert forall|w: (u64, u32)| #[trigger] deltas.spec_delta(w) == added(w) by {}
        let ranks = entry.slots.potential_blocks_and_tokens(hashes, &deltas);
        let mut loads: Vec<PotentialLoad> = Vec::new();
        for i in 0..ranks.len()
            invariant
                forall|w: (u64, u32)| #[trigger] deltas.spec_delta(w) == added(w),
                forall|j: int|
                    0 <= j < ranks@.len() ==> has_rank(
                        entry.slots@.ranges,
                        (#[trigger] ranks@[j]).worker.spec_key(),
                    ) && rank_load(entry.slots@, hashes@, &deltas, ranks@[j]),
                loads@.len() == i,
                forall|j: int|
                    0 <= j < i ==> shows_rank(
                        entry.slots@,
                        hashes@,
                        added,
                        #[trigger] loads@[j],
                    ) && loads@[j].worker() == ranks@[j].worker.spec_key(),
        {
            let rank = ranks[i];
            assert(rank_load(entry.slots@, hashes@, &deltas, ranks@[i as int]));
            assert(deltas.spec_delta(rank.worker.spec_key()) == added(rank.worker.spec_key()));
            loads.push(
                PotentialLoad {
                    worker_id: rank.worker.worker_id,
                    dp_rank: rank.worker.dp_rank,
                    potential_prefill_tokens: rank.prefill_tokens,
                    potential_decode_blocks: rank.decode_blocks,
                    active_requests: rank.active_requests,
                },
            );
        }
        proof {
            assert forall|w: (u64, u32)| #[trigger]
                has_rank(entry.slots@.ranges, w) implies gives_load(loads@, w) by {
                let t = choose|t: int|
                    0 <= t < ranks@.len() && (#[trigger] ranks@[t]).worker.spec_key() == w;
                assert(loads@[t].worker() == w);
            }
            assert forall|i: int, j: int| 0 <= i < j < loads@.len() implies (
            #[trigger] loads@[i]).worker() != (#[trigger] loads@[j]).worker() by {
                assert(ranks@[i].worker != ranks@[j].worker);
            }
        }
        loads
    }

    /// The load that each rank of a group would have with one more request, from how
    /// many of its tokens the workers have in their caches.
    pub fn potential_loads(
        &self,
        key: &SelectionKey,
        prompt: &NormalizedPrompt,
        cached: &FxMap<(u64, u32), usize>,
        config_override: &Option<RouterConfigOverride>,
    ) -> (r: Result<Vec<PotentialLoad>, SelectionError>)
        requires
            self.wf(),
        ensures
            r is Ok <==> has_entry(self.groups(), key@) && group_serves(self.records(), key@),
            r matches Ok(loads) ==> exists|i: int| #[trigger]
                entry_at(self.groups(), key@, i) && show_ranks(
                    self.groups()[i].sequences,
                    prompt.sequence_hashes@,
                    adds(
                        prompt.isl_tokens,
                        cached@,
                        counts_prefill(config_override, self.settings().2),
                    ),
                    loads@,
                ),
            r matches Err(e) ==> (e matches SelectionError::NotReady(text) && text@
                == if serving_count(self.records()) == 0 {
                NO_WORKERS@
            } else {
                no_workers_for(key@)
            }),
    {
        let place = match self.ready_entry(key) {
            Ok(place) => place,
            Err(e) => {
                return Err(e);
            },
        };
        let track_prefill_tokens = match config_override {
            Some(c) => match c.track_prefill_tokens {
                Some(track) => track,
                None => self.track_prefill_tokens,
            },
            None => self.track_prefill_tokens,
        };
        Ok(
            self.rank_loads(
                place,
                prompt.sequence_hashes.as_slice(),
                prompt.isl_tokens,
                cached,
                track_prefill_tokens,
            ),
        )
    }

    /// The workers that pass the filters, in the order of registration.
    pub fn list_workers(&self, model_name: Option<&str>, tenant_id: Option<&str>) -> (listed: Vec<
        &WorkerCatalogRecord,
    >)
        requires
            self.wf(),
        ensures
            listed@.len() == self.records().filter(passing(model_name, tenant_id)).len(),
            forall|i: int|
                0 <= i < listed@.len() ==> *(#[trigger] listed@[i]) == self.records().filter(
                    passing(model_name, tenant_id),
                )[i],
    {
        let mut listed: Vec<&WorkerCatalogRecord> = Vec::new();
        let ghost records = self.records();
        let ghost kept = passing(model_name, tenant_id);
        let count = self.catalog.len();
        proof {
            reveal(Seq::filter);
            assert(records.take(0).filter(kept) =~= Seq::empty());
        }
        for i in 0..count
            invariant
                records == self.catalog@,
                count == records.len(),
                kept == passing(model_name, tenant_id),
                listed@.len() == records.take(i as int).filter(kept).len(),
                forall|j: int|
                    0 <= j < listed@.len() ==> *(#[trigger] listed@[j]) == records.take(
                        i as int,
                    ).filter(kept)[j],
        {
            let record = self.catalog.at(i);
            proof {
                reveal(Seq::filter);
                let more = records.take(i + 1);
                assert(more.drop_last() =~= records.take(i as int));
                assert(more.last() == *record);
            }
            let model_passes = match model_name {
                Some(model_name) => str_eq(record.model_name.as_str(), model_name),
                None => true,
            };
            let tenant_passes = match tenant_id {
                Some(tenant_id) => str_eq(record.tenant_id.as_str(), tenant_id),
                None => true,
            };
            if model_passes && tenant_passes {
                listed.push(record);
            }
        }
        assert(records.take(records.len() as int) =~= records);
        listed
    }

    /// The loads of the groups that pass the filters, by model and tenant.
    pub fn loads(&self, model_name: Option<&str>, tenant_id: Option<&str>) -> (answers: Vec<
        ModelLoadResponse,
    >)
        requires
            self.wf(),
        ensures
            forall|i: int|
                0 <= i < answers@.len() ==> passes(
                    (#[trigger] answers@[i]).key(),
                    model_name,
                    tenant_id,
                ) && shown_of(self.groups(), answers@[i]),
            forall|g: int|
                0 <= g < self.groups().len() && passes(
                    (#[trigger] self.groups()[g]).key,
                    model_name,
                    tenant_id,
                ) ==> lists_group(answers@, self.groups()[g].key),
            forall|i: int, j: int|
                0 <= i < j < answers@.len() ==> lex_lt(
                    (#[trigger] answers@[i]).rank(),
                    (#[trigger] answers@[j]).rank(),
                ),
    {
        let mut answers: Vec<ModelLoadResponse> = Vec::new();
        for i in 0..self.entries.len()
            invariant
                self.wf(),
                forall|k: int|
                    0 <= k < answers@.len() ==> passes(
                        (#[trigger] answers@[k]).key(),
                        model_name,
                        tenant_id,
                    ) && shown_before(self.groups(), answers@[k], i as int),
                forall|g: int|
                    0 <= g < i && passes(
                        (#[trigger] self.groups()[g]).key,
                        model_name,
                        tenant_id,
                    ) ==> lists_group(answers@, self.groups()[g].key),
                forall|a: int, b: int|
                    0 <= a < b < answers@.len() ==> (#[trigger] answers@[a]).key() != (
                    #[trigger] answers@[b]).key(),
        {
            let ghost before = answers@;
            let ghost group = self.groups()[i as int];
            assert(group == self.entries@[i as int].model());
            let entry = &self.entries[i];
            let model_passes = match model_name {
                Some(model_name) => str_eq(entry.key.model_name.as_str(), model_name),
                None => true,
            };
            let tenant_passes = match tenant_id {
                Some(tenant_id) => str_eq(entry.key.tenant_id.as_str(), tenant_id),
                None => true,
            };
            if model_passes && tenant_passes {
                let answer = self.group_load(i);
                answers.push(answer);
                proof {
                    assert forall|k: int| 0 <= k < answers@.len() implies passes(
                        (#[trigger] answers@[k]).key(),
                        model_name,
                        tenant_id,
                    ) && shown_before(self.groups(), answers@[k], i + 1) by {
                        if k < before.len() {
                            assert(answers@[k] == before[k]);
                            assert(shown_before(self.groups(), before[k], i as int));
                        } else {
                            assert(shows_group(self.groups()[i as int], answers@[k]));
                        }
                    }
                    assert forall|g: int|
                        0 <= g < i + 1 && passes(
                            (#[trigger] self.groups()[g]).key,
                            model_name,
                            tenant_id,
                        ) implies lists_group(answers@, self.groups()[g].key) by {
                        if g < i {
                            assert(lists_group(before, self.groups()[g].key));
                            let k = choose|k: int|
                                0 <= k < before.len() && (#[trigger] before[k]).key()
                                    == self.groups()[g].key;
                            assert(answers@[k] == before[k]);
                        } else {
                            assert(answers@[before.len() as int].key() == group.key);
                        }
                    }
                    assert forall|a: int, b: int| 0 <= a < b < answers@.len() implies (
                    #[trigger] answers@[a]).key() != (#[trigger] answers@[b]).key() by {
                        if b == before.len() {
                            assert(shown_before(self.groups(), before[a], i as int));
                            let g = choose|g: int|
                                0 <= g < i && shows_group(
                                    #[trigger] self.groups()[g],
                                    before[a],
                                );
                            assert(self.groups()[g].key != self.groups()[i as int].key);
                        } else {
                            assert(before[a].key() != before[b].key());
                        }
                    }
                }
            } else {
                proof {
                    assert forall|k: int| 0 <= k < answers@.len() implies passes(
                        (#[trigger] answers@[k]).key(),
                        model_name,
                        tenant_id,
                    ) && shown_before(self.groups(), answers@[k], i + 1) by {
                        assert(shown_before(self.groups(), before[k], i as int));
                        let g = choose|g: int|
                            0 <= g < i && shows_group(#[trigger] self.groups()[g], before[k]);
                        assert(shows_group(self.groups()[g], answers@[k]));
                    }
                }
            }
        }
        let ghost all = answers@;
        let answers = stable_sort(answers);
        proof {
            assert forall|a: int, b: int| 0 <= a < b < all.len() implies (
            #[trigger] all[a]).rank() != (#[trigger] all[b]).rank() by {
                if all[a].rank() == all[b].rank() {
                    lemma_group_ranks(all[a], all[b]);
                }
            }
            distinct_ranks_sort_strictly(all, answers@);
            sorting_keeps_items(all, answers@);
            assert forall|i: int| 0 <= i < answers@.len() implies passes(
                (#[trigger] answers@[i]).key(),
                model_name,
                tenant_id,
            ) && shown_of(self.groups(), answers@[i]) by {
                assert(answers@.contains(answers@[i]));
                let k = choose|k: int| 0 <= k < all.len() && all[k] == answers@[i];
                assert(passes(all[k].key(), model_name, tenant_id));
                assert(shown_before(self.groups(), all[k], self.groups().len() as int));
            }
            assert forall|g: int|
                0 <= g < self.groups().len() && passes(
                    (#[trigger] self.groups()[g]).key,
                    model_name,
                    tenant_id,
                ) implies lists_group(answers@, self.groups()[g].key) by {
                assert(lists_group(all, self.groups()[g].key));
                let k = choose|k: int|
                    0 <= k < all.len() && (#[trigger] all[k]).key() == self.groups()[g].key;
                assert(all.contains(all[k]));
                assert(answers@.contains(all[k]));
                let m = choose|m: int| 0 <= m < answers@.len() && answers@[m] == all[k];
                assert(answers@[m].key() == self.groups()[g].key);
            }
        }
        answers
    }
}

/// Whether an answer shows the load of one of some groups.
pub open spec fn shown_of(entries: Seq<EntryView>, answer: ModelLoadResponse) -> bool {
    shown_before(entries, answer, entries.len() as int)
}

/// Whether an answer shows the load of one of the first groups.
pub open spec fn shown_before(entries: Seq<EntryView>, answer: ModelLoadResponse, n: int) -> bool {
    exists|g: int| 0 <= g < n && shows_group(#[trigger] entries[g], answer)
}

/// Answers that rank the same are for the same group.
proof fn lemma_group_ranks(a: ModelLoadResponse, b: ModelLoadResponse)
    requires
        a.rank() == b.rank(),
    ensures
        a.key() == b.key(),
{
    name_rank_is_prefix_free(
        a.model_name@,
        name_rank(a.tenant_id@),
        b.model_name@,
        name_rank(b.tenant_id@),
    );
    let none = Seq::<int>::empty();
    assert(name_rank(a.tenant_id@) + none =~= name_rank(a.tenant_id@));
    assert(name_rank(b.tenant_id@) + none =~= name_rank(b.tenant_id@));
    name_rank_is_prefix_free(a.tenant_id@, none, b.tenant_id@, none);
}

/// What a replica reports counts for the group that it names, unless it came from here,
/// the group's blocks have another size, or there are no replicas.
pub proof fn reports_count_for_their_group(
    groups: Seq<EntryView>,
    process_id: Option<u64>,
    envelope: SlotReplicaEvent,
    i: int,
)
    requires
        0 <= i < groups.len(),
    ensures
        process_id is None ==> !takes_report(groups, process_id, envelope, i),
        process_id == Some(envelope.event.router_id) ==> !takes_report(
            groups,
            process_id,
            envelope,
            i,
        ),
        process_id is Some && process_id != Some(envelope.event.router_id) ==> (takes_report(
            groups,
            process_id,
            envelope,
            i,
        ) <==> groups[i].key == (envelope.model_name@, envelope.tenant_id@)
            && groups[i].block_size == envelope.block_size),
{
}

/// What a request says of counting prefills decides; else the settings do.
pub proof fn requests_decide_whether_prefills_count(
    config_override: Option<RouterConfigOverride>,
    otherwise: bool,
)
    ensures
        config_override is None ==> counts_prefill(&config_override, otherwise) == otherwise,
        config_override is Some && config_override->0.track_prefill_tokens is None
            ==> counts_prefill(&config_override, otherwise) == otherwise,
        config_override is Some && config_override->0.track_prefill_tokens is Some
            ==> counts_prefill(&config_override, otherwise)
            == config_override->0.track_prefill_tokens->0,
{
}

/// A rank would bear what it has to prefill and what a prompt brings that it has not
/// cached, as far as that can be counted.
pub proof fn ranks_bear_what_is_not_cached(
    sequences: SequencesView,
    hashes: Seq<u64>,
    isl_tokens: usize,
    cached: Map<(u64, u32), usize>,
    load: PotentialLoad,
)
    requires
        shows_rank(sequences, hashes, adds(isl_tokens, cached, true), load),
    ensures
        ({
            let rank = (load.worker_id, load.dp_rank);
            let active = active_prefill(sequences.requests, rank);
            let held = if cached.dom().contains(rank) {
                cached[rank] as int
            } else {
                0
            };
            &&& held <= isl_tokens && active + isl_tokens - held <= usize::MAX
                ==> load.potential_prefill_tokens == active + isl_tokens - held
            &&& held > isl_tokens && active <= usize::MAX ==> load.potential_prefill_tokens
                == active
            &&& load.active_requests == active_count(sequences.requests, rank)
        }),
{
    assert(adds(isl_tokens, cached, true)(load.worker()) == uncached(
        isl_tokens,
        cached,
        true,
        load.worker(),
    ));
}

/// Tokens that wait are counted one request after the other.
pub proof fn waiting_tokens_add_up(
    entries: Seq<PolicyQueueEntry<WaitingSelection>>,
    next: PolicyQueueEntry<WaitingSelection>,
)
    ensures
        tokens_waiting(Seq::empty()) == 0,
        tokens_waiting(entries.push(next)) == tokens_waiting(entries)
            + next.payload.request.isl_tokens,
{
    assert(entries.push(next).drop_last() =~= entries);
}

/// The rank that is selected is always among those of its instance, with what it has or
/// else with nothing; of other ranks, and of the instance, nothing changes.
pub proof fn selected_ranks_are_shown(
    before: Option<InstanceTierBreakdown>,
    rank: u32,
    after: InstanceTierBreakdown,
    other: u64,
)
    requires
        with_rank(before, rank, after),
    ensures
        after.dp@.dom().contains(rank as u64),
        before is None ==> after.dp@[rank as u64] == 0,
        before is Some && !before->0.dp@.dom().contains(rank as u64) ==> after.dp@[rank as u64]
            == 0,
        before is Some && before->0.dp@.dom().contains(rank as u64) ==> after.dp@[rank as u64]
            == before->0.dp@[rank as u64],
        before is Some && other != rank as u64 ==> (after.dp@.dom().contains(other)
            <==> before->0.dp@.dom().contains(other)) && after.dp@[other] == before->0.dp@[other],
        before is None && other != rank as u64 ==> !after.dp@.dom().contains(other),
        before is Some ==> after.gpu == before->0.gpu && after.cpu == before->0.cpu && after.disk
            == before->0.disk && after.longest_matched == before->0.longest_matched,
        before is None ==> after.gpu == 0 && after.cpu == 0 && after.disk == 0
            && after.longest_matched == 0,
{
}

} // verus!
