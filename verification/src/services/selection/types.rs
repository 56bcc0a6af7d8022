//! What the selection service is told of workers, and what it answers.

use vstd::prelude::*;
use vstd::string::{StrSliceExecFns, StringExecFns};

use crate::protocols::{DpRank, WorkerId};
use crate::scheduling::config::KvRouterConfig;
use crate::scheduling::types::PotentialLoad;
use crate::services::indexer::InstanceTierBreakdown;
use crate::text::{append_decimal, decimal};

verus! {

/// The bits of a single-precision number.
#[derive(Clone, Copy, Debug, PartialEq, Eq, Structural)]
pub struct F32Bits(pub u32);

/// The model of those that name none.
pub fn default_model_name() -> (name: String)
    ensures
        name@ == "default"@,
{
    "default".to_owned()
}

/// The tenant of those that name none.
pub fn default_tenant_id() -> (tenant: String)
    ensures
        tenant@ == "default"@,
{
    "default".to_owned()
}

/// The most bytes that the body of a request has.
pub const REQUEST_BODY_LIMIT_BYTES: usize = 8 * 1024 * 1024;

/// What an index is found by.
#[derive(Debug, PartialEq, Eq)]
pub struct IndexerKey {
    pub model_name: String,
    pub tenant_id: String,
}

/// What workers are grouped by.
#[derive(Debug, PartialEq, Eq)]
pub struct SelectionKey {
    pub model_name: String,
    pub tenant_id: String,
}

impl View for SelectionKey {
    type V = (Seq<char>, Seq<char>);

    open spec fn view(&self) -> (Seq<char>, Seq<char>) {
        (self.model_name@, self.tenant_id@)
    }
}

impl Clone for SelectionKey {
    fn clone(&self) -> (key: Self)
        ensures
            key@ == self@,
    {
        SelectionKey {
            model_name: self.model_name.as_str().to_owned(),
            tenant_id: self.tenant_id.as_str().to_owned(),
        }
    }
}

/// A model and a tenant in words.
pub open spec fn key_words(key: (Seq<char>, Seq<char>)) -> Seq<char> {
    "model="@ + key.0 + " tenant="@ + key.1
}

impl SelectionKey {
    pub fn new(model_name: String, tenant_id: String) -> (key: Self)
        ensures
            key@ == (model_name@, tenant_id@),
    {
        SelectionKey { model_name, tenant_id }
    }

    /// The key of the index that the workers share.
    pub fn indexer_key(&self) -> (key: IndexerKey)
        ensures
            key.model_name@ == self.model_name@,
            key.tenant_id@ == self.tenant_id@,
    {
        IndexerKey {
            model_name: self.model_name.as_str().to_owned(),
            tenant_id: self.tenant_id.as_str().to_owned(),
        }
    }

    /// The key in words.
    pub fn message(&self) -> (text: String)
        ensures
            text@ == key_words(self@),
    {
        let mut text = "model=".to_owned();
        text.append(self.model_name.as_str());
        text.append(" tenant=");
        text.append(self.tenant_id.as_str());
        text
    }
}

/// Whether a worker takes requests.
#[derive(Clone, Copy, Debug, PartialEq, Eq, Structural)]
pub enum WorkerLifecycle {
    Incomplete,
    Schedulable,
    Draining,
    Unschedulable,
}

impl WorkerLifecycle {
    /// The name that is written for it.
    pub open spec fn name(self) -> Seq<char> {
        match self {
            WorkerLifecycle::Incomplete => "incomplete"@,
            WorkerLifecycle::Schedulable => "schedulable"@,
            WorkerLifecycle::Draining => "draining"@,
            WorkerLifecycle::Unschedulable => "unschedulable"@,
        }
    }

    /// The name that is written for it.
    pub fn as_str(self) -> (s: &'static str)
        ensures
            s@ == self.name(),
    {
        match self {
            WorkerLifecycle::Incomplete => "incomplete",
            WorkerLifecycle::Schedulable => "schedulable",
            WorkerLifecycle::Draining => "draining",
            WorkerLifecycle::Unschedulable => "unschedulable",
        }
    }
}

/// Whether a transfer between domains is forbidden or only avoided.
#[derive(Clone, Copy, Debug, PartialEq, Eq, Structural)]
pub enum KvTransferEnforcement {
    Required,
    Preferred,
}

/// How the selection service is started.
pub struct SelectionServiceConfig {
    pub port: u16,
    pub threads: usize,
    pub indexer_peers: Vec<String>,
    pub replica_sync_port: Option<u16>,
    pub replica_sync_peers: Vec<String>,
    pub kv_router_config: KvRouterConfig,
}

/// What a worker says of itself.
pub struct WorkerRequest {
    pub worker_id: WorkerId,
    pub model_name: String,
    pub tenant_id: String,
    pub endpoint: Option<String>,
    pub kv_events_endpoint: Option<String>,
    pub kv_events_endpoints: Vec<(u32, String)>,
    pub replay_endpoint: Option<String>,
    pub block_size: Option<u32>,
    pub data_parallel_start_rank: Option<u32>,
    pub data_parallel_size: Option<u32>,
    pub max_num_batched_tokens: Option<u64>,
    pub total_kv_blocks: Option<u64>,
    pub stable_routing_id: Option<String>,
    pub is_eagle: Option<bool>,
    pub taints: Vec<String>,
    pub topology_domains: Vec<(String, String)>,
    pub kv_transfer_domain: Option<String>,
    pub kv_transfer_enforcement: Option<KvTransferEnforcement>,
    pub kv_transfer_preferred_weight: Option<F32Bits>,
}

/// What changed at a worker. What is left out stays.
pub struct WorkerPatchRequest {
    pub endpoint: Option<String>,
    pub kv_events_endpoint: Option<String>,
    pub kv_events_endpoints: Option<Vec<(u32, String)>>,
    pub replay_endpoint: Option<String>,
    pub block_size: Option<u32>,
    pub data_parallel_start_rank: Option<u32>,
    pub data_parallel_size: Option<u32>,
    pub max_num_batched_tokens: Option<u64>,
    pub total_kv_blocks: Option<u64>,
    pub stable_routing_id: Option<String>,
    pub is_eagle: Option<bool>,
    pub taints: Option<Vec<String>>,
    pub topology_domains: Option<Vec<(String, String)>>,
    pub kv_transfer_domain: Option<String>,
    pub kv_transfer_enforcement: Option<KvTransferEnforcement>,
    pub kv_transfer_preferred_weight: Option<F32Bits>,
}

/// What is known of a worker.
pub struct WorkerCatalogRecord {
    pub worker_id: WorkerId,
    pub model_name: String,
    pub tenant_id: String,
    pub lifecycle: WorkerLifecycle,
    pub endpoint: Option<String>,
    pub kv_events_endpoint: Option<String>,
    pub kv_events_endpoints: Vec<(u32, String)>,
    pub replay_endpoint: Option<String>,
    pub block_size: Option<u32>,
    pub data_parallel_start_rank: Option<u32>,
    pub data_parallel_size: Option<u32>,
    pub max_num_batched_tokens: Option<u64>,
    pub total_kv_blocks: Option<u64>,
    pub stable_routing_id: Option<String>,
    pub is_eagle: Option<bool>,
    pub taints: Vec<String>,
    pub topology_domains: Vec<(String, String)>,
    pub kv_transfer_domain: Option<String>,
    pub kv_transfer_enforcement: Option<KvTransferEnforcement>,
    pub kv_transfer_preferred_weight: Option<F32Bits>,
    pub not_schedulable_reasons: Vec<String>,
}

/// A value, or what stands for it where there is none.
pub open spec fn or_kept<T>(new: Option<T>, kept: Option<T>) -> Option<T> {
    if new is Some {
        new
    } else {
        kept
    }
}

/// A value, or what stands for it where there is none.
pub open spec fn or_same<T>(new: Option<T>, kept: T) -> T {
    match new {
        Some(new) => new,
        None => kept,
    }
}

/// What is known of a worker after a change.
pub open spec fn patched(record: WorkerCatalogRecord, patch: WorkerPatchRequest) -> WorkerCatalogRecord {
    WorkerCatalogRecord {
        worker_id: record.worker_id,
        model_name: record.model_name,
        tenant_id: record.tenant_id,
        lifecycle: record.lifecycle,
        endpoint: or_kept(patch.endpoint, record.endpoint),
        kv_events_endpoint: or_kept(patch.kv_events_endpoint, record.kv_events_endpoint),
        kv_events_endpoints: or_same(patch.kv_events_endpoints, record.kv_events_endpoints),
        replay_endpoint: or_kept(patch.replay_endpoint, record.replay_endpoint),
        block_size: or_kept(patch.block_size, record.block_size),
        data_parallel_start_rank: or_kept(
            patch.data_parallel_start_rank,
            record.data_parallel_start_rank,
        ),
        data_parallel_size: or_kept(patch.data_parallel_size, record.data_parallel_size),
        max_num_batched_tokens: or_kept(
            patch.max_num_batched_tokens,
            record.max_num_batched_tokens,
        ),
        total_kv_blocks: or_kept(patch.total_kv_blocks, record.total_kv_blocks),
        stable_routing_id: or_kept(patch.stable_routing_id, record.stable_routing_id),
        is_eagle: or_kept(patch.is_eagle, record.is_eagle),
        taints: or_same(patch.taints, record.taints),
        topology_domains: or_same(patch.topology_domains, record.topology_domains),
        kv_transfer_domain: or_kept(patch.kv_transfer_domain, record.kv_transfer_domain),
        kv_transfer_enforcement: or_kept(
            patch.kv_transfer_enforcement,
            record.kv_transfer_enforcement,
        ),
        kv_transfer_preferred_weight: or_kept(
            patch.kv_transfer_preferred_weight,
            record.kv_transfer_preferred_weight,
        ),
        not_schedulable_reasons: record.not_schedulable_reasons,
    }
}

/// The endpoint of a rank in a list: the first that is named for it.
pub open spec fn endpoint_of(endpoints: Seq<(u32, String)>, rank: u32) -> Option<Seq<char>>
    decreases endpoints.len(),
{
    if endpoints.len() == 0 {
        None
    } else if endpoints[0].0 == rank {
        Some(endpoints[0].1@)
    } else {
        endpoint_of(endpoints.skip(1), rank)
    }
}

/// Whether a rank is without a usable endpoint.
pub open spec fn lacks_endpoint(endpoints: Seq<(u32, String)>, rank: u32) -> bool {
    match endpoint_of(endpoints, rank) {
        Some(endpoint) => endpoint.len() == 0,
        None => true,
    }
}

fn rank_lacks_endpoint(endpoints: &Vec<(u32, String)>, rank: u32) -> (r: bool)
    ensures
        r == lacks_endpoint(endpoints@, rank),
{
    assert(endpoints@.skip(0) =~= endpoints@);
    for i in 0..endpoints.len()
        invariant
            endpoint_of(endpoints@, rank) == endpoint_of(endpoints@.skip(i as int), rank),
    {
        assert(endpoints@.skip(i as int)[0] == endpoints@[i as int]);
        assert(endpoints@.skip(i as int).skip(1) =~= endpoints@.skip(i + 1));
        if endpoints[i].0 == rank {
            return endpoints[i].1.as_str().unicode_len() == 0;
        }
    }
    true
}

/// What is said of a rank without an endpoint.
pub open spec fn rank_text(rank: nat) -> Seq<char> {
    "kv_events endpoint is required for dp_rank "@ + decimal(rank)
}

/// A text alone, or nothing.
pub open spec fn text_if(said: bool, text: Seq<char>) -> Seq<Seq<char>> {
    if said {
        seq![text]
    } else {
        Seq::empty()
    }
}

/// The views of some texts.
pub open spec fn texts_view(texts: Seq<String>) -> Seq<Seq<char>> {
    texts.map_values(|t: String| t@)
}

/// Copies a list of endpoints.
fn copy_endpoints(endpoints: &Vec<(u32, String)>) -> (copy: Vec<(u32, String)>)
    ensures
        copy@.len() == endpoints@.len(),
        forall|i: int|
            0 <= i < copy@.len() ==> (#[trigger] copy@[i]).0 == endpoints@[i].0 && copy@[i].1@
                == endpoints@[i].1@,
{
    let mut copy: Vec<(u32, String)> = Vec::new();
    for i in 0..endpoints.len()
        invariant
            copy@.len() == i,
            forall|j: int|
                0 <= j < i ==> (#[trigger] copy@[j]).0 == endpoints@[j].0 && copy@[j].1@
                    == endpoints@[j].1@,
    {
        copy.push((endpoints[i].0, endpoints[i].1.as_str().to_owned()));
    }
    copy
}

proof fn lemma_same_endpoints(a: Seq<(u32, String)>, b: Seq<(u32, String)>, rank: u32)
    requires
        a.len() == b.len(),
        forall|i: int| 0 <= i < a.len() ==> (#[trigger] a[i]).0 == b[i].0 && a[i].1@ == b[i].1@,
    ensures
        endpoint_of(a, rank) == endpoint_of(b, rank),
    decreases a.len(),
{
    if a.len() > 0 {
        assert(a[0].0 == b[0].0);
        let x = a.skip(1);
        let y = b.skip(1);
        assert forall|i: int| 0 <= i < x.len() implies (#[trigger] x[i]).0 == y[i].0 && x[i].1@
            == y[i].1@ by {
            assert(x[i] == a[i + 1] && y[i] == b[i + 1]);
        }
        lemma_same_endpoints(x, y, rank);
    }
}

impl WorkerCatalogRecord {
    /// What is known of a worker from what it says of itself.
    pub fn new(req: WorkerRequest) -> (record: Self)
        ensures
            record.worker_id == req.worker_id,
            record.model_name == req.model_name,
            record.tenant_id == req.tenant_id,
            record.lifecycle == WorkerLifecycle::Incomplete,
            record.endpoint == req.endpoint,
            record.kv_events_endpoint == req.kv_events_endpoint,
            record.kv_events_endpoints == req.kv_events_endpoints,
            record.replay_endpoint == req.replay_endpoint,
            record.block_size == req.block_size,
            record.data_parallel_start_rank == req.data_parallel_start_rank,
            record.data_parallel_size == req.data_parallel_size,
            record.max_num_batched_tokens == req.max_num_batched_tokens,
            record.total_kv_blocks == req.total_kv_blocks,
            record.stable_routing_id == req.stable_routing_id,
            record.is_eagle == req.is_eagle,
            record.taints == req.taints,
            record.topology_domains == req.topology_domains,
            record.kv_transfer_domain == req.kv_transfer_domain,
            record.kv_transfer_enforcement == req.kv_transfer_enforcement,
            record.kv_transfer_preferred_weight == req.kv_transfer_preferred_weight,
            record.not_schedulable_reasons@ == Seq::<String>::empty(),
    {
        WorkerCatalogRecord {
            worker_id: req.worker_id,
            model_name: req.model_name,
            tenant_id: req.tenant_id,
            lifecycle: WorkerLifecycle::Incomplete,
            endpoint: req.endpoint,
            kv_events_endpoint: req.kv_events_endpoint,
            kv_events_endpoints: req.kv_events_endpoints,
            replay_endpoint: req.replay_endpoint,
            block_size: req.block_size,
            data_parallel_start_rank: req.data_parallel_start_rank,
            data_parallel_size: req.data_parallel_size,
            max_num_batched_tokens: req.max_num_batched_tokens,
            total_kv_blocks: req.total_kv_blocks,
            stable_routing_id: req.stable_routing_id,
            is_eagle: req.is_eagle,
            taints: req.taints,
            topology_domains: req.topology_domains,
            kv_transfer_domain: req.kv_transfer_domain,
            kv_transfer_enforcement: req.kv_transfer_enforcement,
            kv_transfer_preferred_weight: req.kv_transfer_preferred_weight,
            not_schedulable_reasons: Vec::new(),
        }
    }

    /// The group of the worker.
    pub open spec fn spec_key(&self) -> (Seq<char>, Seq<char>) {
        (self.model_name@, self.tenant_id@)
    }

    /// The group of the worker.
    pub fn key(&self) -> (key: SelectionKey)
        ensures
            key@ == self.spec_key(),
    {
        SelectionKey::new(self.model_name.as_str().to_owned(), self.tenant_id.as_str().to_owned())
    }

    /// The first rank of the worker.
    pub open spec fn spec_dp_start(&self) -> u32 {
        or_same(self.data_parallel_start_rank, 0)
    }

    /// The first rank of the worker.
    pub fn dp_start(&self) -> (start: u32)
        ensures
            start == self.spec_dp_start(),
    {
        match self.data_parallel_start_rank {
            Some(start) => start,
            None => 0,
        }
    }

    /// Number of ranks of the worker.
    pub open spec fn spec_dp_size(&self) -> u32 {
        or_same(self.data_parallel_size, 1)
    }

    /// Number of ranks of the worker.
    pub fn dp_size(&self) -> (size: u32)
        ensures
            size == self.spec_dp_size(),
    {
        match self.data_parallel_size {
            Some(size) => size,
            None => 1,
        }
    }

    /// One behind the last rank of the worker.
    pub open spec fn spec_dp_end(&self) -> u32 {
        if self.spec_dp_start() + self.spec_dp_size() <= u32::MAX {
            (self.spec_dp_start() + self.spec_dp_size()) as u32
        } else {
            u32::MAX
        }
    }

    /// One behind the last rank of the worker.
    pub fn dp_end(&self) -> (end: u32)
        ensures
            end == self.spec_dp_end(),
    {
        self.dp_start().saturating_add(self.dp_size())
    }

    /// Where the events of a rank come from.
    pub open spec fn listener_endpoint_of(&self, rank: u32) -> Option<Seq<char>> {
        if self.kv_events_endpoints@.len() > 0 {
            endpoint_of(self.kv_events_endpoints@, rank)
        } else if self.spec_dp_size() == 1 && self.kv_events_endpoint is Some && rank
            == self.spec_dp_start() {
            Some(self.kv_events_endpoint->0@)
        } else {
            None
        }
    }

    /// Where the events of the ranks come from. A worker with one rank may name
    /// just one place.
    pub fn listener_endpoints(&self) -> (endpoints: Vec<(u32, String)>)
        ensures
            forall|rank: u32| #[trigger]
                endpoint_of(endpoints@, rank) == self.listener_endpoint_of(rank),
            self.kv_events_endpoints@.len() > 0 ==> endpoints@.len()
                == self.kv_events_endpoints@.len(),
            self.kv_events_endpoints@.len() == 0 ==> endpoints@.len() <= 1,
    {
        if self.kv_events_endpoints.len() > 0 {
            let copy = copy_endpoints(&self.kv_events_endpoints);
            assert forall|rank: u32| #[trigger]
                endpoint_of(copy@, rank) == self.listener_endpoint_of(rank) by {
                lemma_same_endpoints(copy@, self.kv_events_endpoints@, rank);
            }
            return copy;
        }
        let mut endpoints: Vec<(u32, String)> = Vec::new();
        if self.dp_size() == 1 {
            if let Some(endpoint) = &self.kv_events_endpoint {
                endpoints.push((self.dp_start(), endpoint.as_str().to_owned()));
                assert forall|rank: u32| #[trigger]
                    endpoint_of(endpoints@, rank) == self.listener_endpoint_of(rank) by {
                    assert(endpoints@.skip(1) =~= Seq::<(u32, String)>::empty());
                    reveal_with_fuel(endpoint_of, 2);
                }
            }
        }
        endpoints
    }

    /// What keeps the worker from taking requests.
    pub open spec fn spec_missing(&self, queueing_enabled: bool, kv_events_enabled: bool) -> Seq<
        Seq<char>,
    > {
        text_if(
            self.endpoint is None || self.endpoint->0@.len() == 0,
            "endpoint is required"@,
        ) + text_if(
            self.block_size is None || self.block_size->0 == 0,
            "block_size must be greater than 0"@,
        ) + text_if(
            self.spec_dp_size() == 0,
            "data_parallel_size must be greater than 0"@,
        ) + text_if(
            queueing_enabled && self.max_num_batched_tokens is None,
            "max_num_batched_tokens is required while queueing is enabled"@,
        ) + if kv_events_enabled {
            self.missing_ranks(self.spec_dp_end() as int)
        } else {
            Seq::empty()
        }
    }

    /// What is said of the worker's ranks up to one.
    pub open spec fn missing_ranks(&self, to: int) -> Seq<Seq<char>>
        decreases to - self.spec_dp_start(),
    {
        if to <= self.spec_dp_start() {
            Seq::empty()
        } else {
            let before = self.missing_ranks(to - 1);
            let endpoint = self.listener_endpoint_of((to - 1) as u32);
            if endpoint is None || endpoint->0.len() == 0 {
                before.push(rank_text((to - 1) as nat))
            } else {
                before
            }
        }
    }

    /// What keeps the worker from taking requests.
    pub fn missing_schedulable_metadata(&self, queueing_enabled: bool, kv_events_enabled: bool) -> (
    missing: Vec<String>)
        ensures
            texts_view(missing@) == self.spec_missing(queueing_enabled, kv_events_enabled),
    {
        let mut missing: Vec<String> = Vec::new();
        let no_endpoint = match &self.endpoint {
            Some(endpoint) => endpoint.as_str().unicode_len() == 0,
            None => true,
        };
        let no_block_size = match self.block_size {
            Some(block_size) => block_size == 0,
            None => true,
        };
        push_if(&mut missing, no_endpoint, "endpoint is required");
        push_if(&mut missing, no_block_size, "block_size must be greater than 0");
        push_if(
            &mut missing,
            self.dp_size() == 0,
            "data_parallel_size must be greater than 0",
        );
        push_if(
            &mut missing,
            queueing_enabled && self.max_num_batched_tokens.is_none(),
            "max_num_batched_tokens is required while queueing is enabled",
        );
        let ghost said = texts_view(missing@);
        if kv_events_enabled {
            let endpoints = self.listener_endpoints();
            let end = self.dp_end();
            let mut rank = self.dp_start();
            assert(said + self.missing_ranks(rank as int) =~= said);
            while rank < end
                invariant
                    self.spec_dp_start() <= rank <= end,
                    end == self.spec_dp_end(),
                    forall|r: u32| #[trigger]
                        endpoint_of(endpoints@, r) == self.listener_endpoint_of(r),
                    texts_view(missing@) == said + self.missing_ranks(rank as int),
                decreases end - rank,
            {
                let ghost before = missing@;
                if rank_lacks_endpoint(&endpoints, rank) {
                    let mut text = "kv_events endpoint is required for dp_rank ".to_owned();
                    append_decimal(&mut text, rank as u64);
                    let ghost words = text@;
                    missing.push(text);
                    assert(texts_view(missing@) =~= texts_view(before).push(words));
                }
                proof {
                    assert(endpoint_of(endpoints@, rank) == self.listener_endpoint_of(rank));
                    assert(texts_view(missing@) =~= said + self.missing_ranks(rank + 1));
                }
                rank += 1;
            }
        } else {
            assert(said + Seq::<Seq<char>>::empty() =~= said);
        }
        missing
    }

    /// Takes a change over.
    pub fn apply_patch(&mut self, patch: WorkerPatchRequest)
        ensures
            *final(self) == patched(*old(self), patch),
    {
        keep_or(&mut self.endpoint, patch.endpoint);
        keep_or(&mut self.kv_events_endpoint, patch.kv_events_endpoint);
        replace_by(&mut self.kv_events_endpoints, patch.kv_events_endpoints);
        keep_or(&mut self.replay_endpoint, patch.replay_endpoint);
        keep_or(&mut self.block_size, patch.block_size);
        keep_or(&mut self.data_parallel_start_rank, patch.data_parallel_start_rank);
        keep_or(&mut self.data_parallel_size, patch.data_parallel_size);
        keep_or(&mut self.max_num_batched_tokens, patch.max_num_batched_tokens);
        keep_or(&mut self.total_kv_blocks, patch.total_kv_blocks);
        keep_or(&mut self.stable_routing_id, patch.stable_routing_id);
        keep_or(&mut self.is_eagle, patch.is_eagle);
        replace_by(&mut self.taints, patch.taints);
        replace_by(&mut self.topology_domains, patch.topology_domains);
        keep_or(&mut self.kv_transfer_domain, patch.kv_transfer_domain);
        keep_or(&mut self.kv_transfer_enforcement, patch.kv_transfer_enforcement);
        keep_or(&mut self.kv_transfer_preferred_weight, patch.kv_transfer_preferred_weight);
    }
}

/// Takes a new value over, where there is one.
fn keep_or<T>(slot: &mut Option<T>, new: Option<T>)
    ensures
        *final(slot) == or_kept(new, *old(slot)),
{
    if new.is_some() {
        *slot = new;
    }
}

/// Takes a new value over, where there is one.
fn replace_by<T>(slot: &mut T, new: Option<T>)
    ensures
        *final(slot) == or_same(new, *old(slot)),
{
    if let Some(new) = new {
        *slot = new;
    }
}

fn push_if(texts: &mut Vec<String>, said: bool, text: &str)
    ensures
        texts_view(final(texts)@) == texts_view(old(texts)@) + text_if(said, text@),
{
    let ghost before = texts@;
    if said {
        texts.push(text.to_owned());
    }
    assert(texts_view(texts@) =~= texts_view(before) + text_if(said, text@));
}

/// A change that names nothing changes nothing.
pub proof fn empty_patch_changes_nothing(record: WorkerCatalogRecord, patch: WorkerPatchRequest)
    requires
        patch.endpoint is None,
        patch.kv_events_endpoint is None,
        patch.kv_events_endpoints is None,
        patch.replay_endpoint is None,
        patch.block_size is None,
        patch.data_parallel_start_rank is None,
        patch.data_parallel_size is None,
        patch.max_num_batched_tokens is None,
        patch.total_kv_blocks is None,
        patch.stable_routing_id is None,
        patch.is_eagle is None,
        patch.taints is None,
        patch.topology_domains is None,
        patch.kv_transfer_domain is None,
        patch.kv_transfer_enforcement is None,
        patch.kv_transfer_preferred_weight is None,
    ensures
        patched(record, patch) == record,
{
}

/// The answer to a selection.
pub struct SelectResponse {
    pub selection_id: Option<String>,
    pub reservation_id: Option<String>,
    pub model_name: String,
    pub tenant_id: String,
    pub worker_id: WorkerId,
    pub dp_rank: DpRank,
    pub endpoint: String,
    pub block_size: u32,
    pub overlap: InstanceTierBreakdown,
    pub effective_prefill_tokens: usize,
}

/// The answer to a reservation.
#[derive(Debug, PartialEq, Eq)]
pub struct ReservationResponse {
    pub reservation_id: String,
    pub model_name: String,
    pub tenant_id: String,
    pub worker_id: WorkerId,
    pub dp_rank: DpRank,
    pub endpoint: String,
}

/// The load of a group of workers.
#[derive(Debug, PartialEq, Eq)]
pub struct ModelLoadResponse {
    pub model_name: String,
    pub tenant_id: String,
    pub loads: Vec<PotentialLoad>,
    pub pending_count: usize,
    pub pending_isl_tokens: usize,
}

/// The endpoint of a rank is that of its first entry.
pub proof fn first_endpoint_of_a_rank_counts(
    endpoints: Seq<(u32, String)>,
    rank: u32,
    first: int,
)
    requires
        0 <= first <= endpoints.len(),
        forall|i: int| 0 <= i < first ==> (#[trigger] endpoints[i]).0 != rank,
    ensures
        first < endpoints.len() && endpoints[first].0 == rank ==> endpoint_of(endpoints, rank)
            == Some(endpoints[first].1@),
        first == endpoints.len() ==> endpoint_of(endpoints, rank) is None,
    decreases endpoints.len(),
{
    if first > 0 {
        let rest = endpoints.skip(1);
        assert(endpoints[0].0 != rank);
        assert forall|i: int| 0 <= i < first - 1 implies (#[trigger] rest[i]).0 != rank by {
            assert(rest[i] == endpoints[i + 1]);
        }
        first_endpoint_of_a_rank_counts(rest, rank, first - 1);
        if first < endpoints.len() {
            assert(rest[first - 1] == endpoints[first]);
        }
    }
}

/// A worker's ranks start with the first that it names or else with 0, and are as many as
/// it says or else one.
pub proof fn ranks_are_as_they_say(record: WorkerCatalogRecord)
    ensures
        record.data_parallel_start_rank is None ==> record.spec_dp_start() == 0,
        record.data_parallel_start_rank matches Some(start) ==> record.spec_dp_start() == start,
        record.data_parallel_size is None ==> record.spec_dp_size() == 1,
        record.data_parallel_size matches Some(size) ==> record.spec_dp_size() == size,
        record.spec_dp_start() + record.spec_dp_size() <= u32::MAX ==> record.spec_dp_end()
            == record.spec_dp_start() + record.spec_dp_size(),
{
}

/// The ranks before a bound all have an endpoint to listen to if none is missed there.
proof fn lemma_missing_ranks(record: WorkerCatalogRecord, to: int)
    requires
        to <= record.spec_dp_end(),
    ensures
        record.missing_ranks(to).len() == 0 <==> forall|rank: u32|
            record.spec_dp_start() <= rank < to ==> ((#[trigger] record.listener_endpoint_of(
                rank,
            )) is Some && record.listener_endpoint_of(rank)->0.len() > 0),
    decreases to - record.spec_dp_start(),
{
    if to > record.spec_dp_start() {
        lemma_missing_ranks(record, to - 1);
        let last = (to - 1) as u32;
        let endpoint = record.listener_endpoint_of(last);
        if record.missing_ranks(to).len() == 0 {
            assert forall|rank: u32| record.spec_dp_start() <= rank < to implies ((
            #[trigger] record.listener_endpoint_of(rank)) is Some && record.listener_endpoint_of(
                rank,
            )->0.len() > 0) by {
                if rank < to - 1 {
                } else {
                    assert(rank == last);
                }
            }
        }
    }
}

/// A worker misses nothing exactly if it can be reached, its blocks have a size, it has
/// ranks, its batches are limited where requests may have to wait, and each of its ranks
/// can be listened to where events count.
pub proof fn complete_workers_miss_nothing(
    record: WorkerCatalogRecord,
    queueing_enabled: bool,
    kv_events_enabled: bool,
)
    ensures
        record.spec_missing(queueing_enabled, kv_events_enabled).len() == 0 <==> {
            &&& record.endpoint is Some && record.endpoint->0@.len() > 0
            &&& record.block_size is Some && record.block_size->0 > 0
            &&& record.data_parallel_size != Some(0u32)
            &&& queueing_enabled ==> record.max_num_batched_tokens is Some
            &&& kv_events_enabled ==> forall|rank: u32|
                record.spec_dp_start() <= rank < record.spec_dp_end() ==> ((
                #[trigger] record.listener_endpoint_of(rank)) is Some
                    && record.listener_endpoint_of(rank)->0.len() > 0)
        },
{
    lemma_missing_ranks(record, record.spec_dp_end() as int);
}

/// A worker is listened to at the endpoints of its ranks where it names any, and else at
/// its one endpoint if it has one rank.
pub proof fn ranks_are_listened_to(record: WorkerCatalogRecord, rank: u32)
    ensures
        record.kv_events_endpoints@.len() > 0 ==> record.listener_endpoint_of(rank) == endpoint_of(
            record.kv_events_endpoints@,
            rank,
        ),
        record.kv_events_endpoints@.len() == 0 && record.kv_events_endpoint is Some
            && record.spec_dp_size() == 1 && rank == record.spec_dp_start()
            ==> record.listener_endpoint_of(rank) == Some(record.kv_events_endpoint->0@),
        record.kv_events_endpoints@.len() == 0 && (record.kv_events_endpoint is None
            || record.spec_dp_size() != 1 || rank != record.spec_dp_start())
            ==> record.listener_endpoint_of(rank) is None,
{
}

/// A patch brings what it names, whatever was there, and never touches what the worker is
/// and whether it takes requests.
pub proof fn patches_bring_what_they_name(record: WorkerCatalogRecord, patch: WorkerPatchRequest)
    ensures
        ({
            let after = patched(record, patch);
            &&& after.worker_id == record.worker_id
            &&& after.model_name == record.model_name
            &&& after.tenant_id == record.tenant_id
            &&& after.lifecycle == record.lifecycle
            &&& patch.endpoint is Some ==> after.endpoint == patch.endpoint
            &&& patch.kv_events_endpoint is Some ==> after.kv_events_endpoint
                == patch.kv_events_endpoint
            &&& patch.kv_events_endpoints is Some ==> after.kv_events_endpoints
                == patch.kv_events_endpoints->0
            &&& patch.replay_endpoint is Some ==> after.replay_endpoint == patch.replay_endpoint
            &&& patch.block_size is Some ==> after.block_size == patch.block_size
            &&& patch.data_parallel_start_rank is Some ==> after.data_parallel_start_rank
                == patch.data_parallel_start_rank
            &&& patch.data_parallel_size is Some ==> after.data_parallel_size
                == patch.data_parallel_size
            &&& patch.max_num_batched_tokens is Some ==> after.max_num_batched_tokens
                == patch.max_num_batched_tokens
            &&& patch.total_kv_blocks is Some ==> after.total_kv_blocks == patch.total_kv_blocks
            &&& patch.stable_routing_id is Some ==> after.stable_routing_id
                == patch.stable_routing_id
            &&& patch.is_eagle is Some ==> after.is_eagle == patch.is_eagle
            &&& patch.taints is Some ==> after.taints == patch.taints->0
            &&& patch.topology_domains is Some ==> after.topology_domains
                == patch.topology_domains->0
            &&& patch.kv_transfer_domain is Some ==> after.kv_transfer_domain
                == patch.kv_transfer_domain
            &&& patch.kv_transfer_enforcement is Some ==> after.kv_transfer_enforcement
                == patch.kv_transfer_enforcement
            &&& patch.kv_transfer_preferred_weight is Some ==> after.kv_transfer_preferred_weight
                == patch.kv_transfer_preferred_weight
        }),
{
}

} // verus!
