//! The index service: what is asked of it, and the shape of its answers.

use vstd::prelude::*;
use vstd::string::StringExecFns;

use crate::collections::{fx_get, fx_insert, fx_remove, fx_worker_keys, FxMap};
use crate::hashing::{block_hashes, compute_block_hash_for_seq, BlockHashOptions};
use crate::indexer::lower_tier::{
    lower_tier_query_order, tier_order, LowerTierMatchDetails, TieredMatchDetails,
};
use crate::protocols::{opt_as_str, opt_string_view, LocalBlockHash, StorageTier, WorkerId};
use crate::scheduling::overlap::{
    find_tier, hits_of, tier_hits, tier_overlap_blocks_from_tiered_matches,
};
use crate::seqs::lemma_push_contains;
use crate::text::concat3;

verus! {

/// Asks to listen to an engine.
#[derive(Debug, PartialEq, Eq)]
pub struct RegisterRequest {
    pub instance_id: WorkerId,
    pub endpoint: String,
    pub model_name: String,
    pub tenant_id: String,
    pub block_size: u32,
    pub dp_rank: Option<u32>,
    pub replay_endpoint: Option<String>,
    /// Accepted, and not mixed into hashes: engines apply their own.
    pub additional_salt: Option<String>,
}

/// Asks to listen to an engine no more.
#[derive(Debug, PartialEq, Eq)]
pub struct UnregisterRequest {
    pub instance_id: WorkerId,
    pub model_name: String,
    pub tenant_id: Option<String>,
    pub dp_rank: Option<u32>,
}

/// Asks which workers have the blocks of some tokens.
#[derive(Debug, PartialEq, Eq)]
pub struct QueryRequest {
    pub token_ids: Vec<u32>,
    pub model_name: String,
    pub tenant_id: String,
    pub lora_name: Option<String>,
    /// Accepted, and not mixed into hashes: engines apply their own.
    pub cache_salt: Option<String>,
}

/// Asks which workers have some blocks.
#[derive(Debug, PartialEq, Eq)]
pub struct QueryByHashRequest {
    pub block_hashes: Vec<i64>,
    pub model_name: String,
    pub tenant_id: String,
    /// Accepted, and not mixed into hashes: engines apply their own.
    pub cache_salt: Option<String>,
}

/// What an unregistration takes out.
#[derive(Clone, Copy, Debug, PartialEq, Eq, Structural)]
pub enum UnregisterScope {
    /// One rank of the engine, for one tenant.
    Rank(u32),
    /// The engine, for one tenant.
    Tenant,
    /// The engine, for all tenants.
    AllTenants,
}

impl UnregisterRequest {
    /// What is taken out. Without a tenant the rank does not matter.
    pub fn scope(&self) -> (scope: UnregisterScope)
        ensures
            scope == if self.tenant_id is None {
                UnregisterScope::AllTenants
            } else {
                match self.dp_rank {
                    Some(rank) => UnregisterScope::Rank(rank),
                    None => UnregisterScope::Tenant,
                }
            },
    {
        match &self.tenant_id {
            Some(_) => match self.dp_rank {
                Some(rank) => UnregisterScope::Rank(rank),
                None => UnregisterScope::Tenant,
            },
            None => UnregisterScope::AllTenants,
        }
    }
}

/// A signed hash as clients send it, read as the unsigned number with the same
/// bits.
pub open spec fn unsigned_hash(hash: i64) -> u64 {
    if hash >= 0 {
        hash as u64
    } else {
        (hash + 0x1_0000_0000_0000_0000) as u64
    }
}

fn hash_as_unsigned(hash: i64) -> (r: u64)
    ensures
        r == unsigned_hash(hash),
{
    if hash >= 0 {
        hash as u64
    } else {
        u64::MAX - (-(hash + 1)) as u64
    }
}

/// Signed hashes as clients send them, read as unsigned numbers.
pub fn unsigned_hashes(hashes: &Vec<i64>) -> (r: Vec<u64>)
    ensures
        r@ == hashes@.map_values(|h: i64| unsigned_hash(h)),
{
    let mut r: Vec<u64> = Vec::new();
    for i in 0..hashes.len()
        invariant
            r@ == hashes@.take(i as int).map_values(|h: i64| unsigned_hash(h)),
    {
        r.push(hash_as_unsigned(hashes[i]));
        assert(r@ =~= hashes@.take(i + 1).map_values(|h: i64| unsigned_hash(h)));
    }
    assert(hashes@.take(hashes@.len() as int) =~= hashes@);
    r
}

impl QueryRequest {
    /// The blocks that are asked for.
    pub fn local_hashes(&self, block_size: u32) -> (hashes: Vec<LocalBlockHash>)
        ensures
            hashes@ == block_hashes(
                self.token_ids@,
                block_size as nat,
                Seq::empty(),
                opt_string_view(self.lora_name),
                None,
            ),
    {
        compute_block_hash_for_seq(
            self.token_ids.as_slice(),
            block_size,
            BlockHashOptions {
                block_mm_infos: None,
                lora_name: opt_as_str(&self.lora_name),
                is_eagle: None,
            },
        )
    }
}

/// What is said where nothing is indexed for a model and tenant.
pub fn no_indexer_message(model_name: &str, tenant_id: &str) -> (text: String)
    ensures
        text@ == "no indexer for model="@ + model_name@ + " tenant="@ + tenant_id@,
{
    let mut text = concat3("no indexer for model=", model_name, " tenant=");
    text.append(tenant_id);
    text
}

impl QueryByHashRequest {
    /// The blocks that are asked for.
    pub fn local_hashes(&self) -> (hashes: Vec<LocalBlockHash>)
        ensures
            hashes@ == self.block_hashes@.map_values(|h: i64| LocalBlockHash(unsigned_hash(h))),
    {
        let mut hashes: Vec<LocalBlockHash> = Vec::new();
        for i in 0..self.block_hashes.len()
            invariant
                hashes@ == self.block_hashes@.take(i as int).map_values(
                    |h: i64| LocalBlockHash(unsigned_hash(h)),
                ),
        {
            hashes.push(LocalBlockHash(hash_as_unsigned(self.block_hashes[i])));
            assert(hashes@ =~= self.block_hashes@.take(i + 1).map_values(
                |h: i64| LocalBlockHash(unsigned_hash(h)),
            ));
        }
        assert(self.block_hashes@.take(self.block_hashes@.len() as int) =~= self.block_hashes@);
        hashes
    }
}

/// What an instance has of a query, in tokens. What it has up to a tier counts what
/// it has in the tiers before.
pub struct InstanceTierBreakdown {
    pub longest_matched: u32,
    pub gpu: u32,
    /// What each rank has on its device.
    pub dp: FxMap<u64, u32>,
    pub cpu: u32,
    pub disk: u32,
}

/// The answer to a query.
pub struct ScoreResponse {
    /// What each rank has on its device, in tokens.
    pub scores: FxMap<(u64, u32), u32>,
    pub frequencies: Vec<usize>,
    /// What each instance has.
    pub instances: FxMap<u64, InstanceTierBreakdown>,
}

/// The blocks that a rank has on its device.
pub open spec fn device_blocks(tiered: TieredMatchDetails, worker: (u64, u32)) -> nat {
    if tiered.device.overlap_scores.scores@.dom().contains(worker) {
        tiered.device.overlap_scores.scores@[worker] as nat
    } else {
        0
    }
}

/// The blocks that a rank has on its device and in pinned memory.
pub open spec fn host_blocks(tiered: TieredMatchDetails, worker: (u64, u32)) -> nat {
    device_blocks(tiered, worker) + hits_of(
        tier_hits(tiered.lower_tier@, StorageTier::HostPinned),
        worker,
    )
}

/// The blocks that a rank has anywhere. What is outside the node counts as on disk.
pub open spec fn disk_blocks(tiered: TieredMatchDetails, worker: (u64, u32)) -> nat {
    host_blocks(tiered, worker) + hits_of(
        tier_hits(tiered.lower_tier@, StorageTier::Disk),
        worker,
    ) + hits_of(tier_hits(tiered.lower_tier@, StorageTier::External), worker)
}

/// Whether a rank has anything of a query.
pub open spec fn matched(tiered: TieredMatchDetails, worker: (u64, u32)) -> bool {
    ||| tiered.device.overlap_scores.scores@.dom().contains(worker)
    ||| tier_hits(tiered.lower_tier@, StorageTier::HostPinned).dom().contains(worker)
    ||| tier_hits(tiered.lower_tier@, StorageTier::Disk).dom().contains(worker)
    ||| tier_hits(tiered.lower_tier@, StorageTier::External).dom().contains(worker)
}

/// A number of blocks in tokens, for each rank.
pub open spec fn in_tokens(
    blocks: spec_fn((u64, u32)) -> nat,
    block_size: u32,
) -> spec_fn((u64, u32)) -> nat {
    |w: (u64, u32)| blocks(w) * block_size as nat
}

/// Whether a number is the most that a rank of an instance has, among some ranks.
pub open spec fn tops(
    top: u32,
    workers: Set<(u64, u32)>,
    id: u64,
    tokens: spec_fn((u64, u32)) -> nat,
) -> bool {
    &&& forall|rank: u32| #[trigger] workers.contains((id, rank)) ==> tokens((id, rank)) <= top
    &&& exists|rank: u32| #[trigger] workers.contains((id, rank)) && tokens((id, rank)) == top
}

/// The tokens that a rank has on its device.
pub open spec fn device_tokens(tiered: TieredMatchDetails, block_size: u32) -> spec_fn(
    (u64, u32),
) -> nat {
    in_tokens(|w: (u64, u32)| device_blocks(tiered, w), block_size)
}

/// The tokens that a rank has on its device and in pinned memory.
pub open spec fn host_tokens(tiered: TieredMatchDetails, block_size: u32) -> spec_fn(
    (u64, u32),
) -> nat {
    in_tokens(|w: (u64, u32)| host_blocks(tiered, w), block_size)
}

/// The tokens that a rank has anywhere.
pub open spec fn disk_tokens(tiered: TieredMatchDetails, block_size: u32) -> spec_fn(
    (u64, u32),
) -> nat {
    in_tokens(|w: (u64, u32)| disk_blocks(tiered, w), block_size)
}

/// Whether a breakdown is that of an instance, as far as some ranks go.
pub open spec fn breaks_down(
    tiered: TieredMatchDetails,
    block_size: u32,
    workers: Set<(u64, u32)>,
    id: u64,
    entry: InstanceTierBreakdown,
) -> bool {
    &&& tops(entry.gpu, workers, id, device_tokens(tiered, block_size))
    &&& tops(entry.cpu, workers, id, host_tokens(tiered, block_size))
    &&& tops(entry.disk, workers, id, disk_tokens(tiered, block_size))
    &&& forall|key: u64| #[trigger]
        entry.dp@.dom().contains(key) <==> key <= u32::MAX && workers.contains((id, key as u32))
    &&& forall|rank: u32|
        workers.contains((id, rank)) ==> #[trigger] entry.dp@[rank as u64] == device_tokens(
            tiered,
            block_size,
        )((id, rank))
}

fn larger(a: u32, b: u32) -> (r: u32)
    ensures
        r == if a >= b {
            a
        } else {
            b
        },
{
    if a >= b {
        a
    } else {
        b
    }
}

/// One more rank and its tokens leave the most what it was, or are it.
proof fn lemma_tops_with(
    top: u32,
    workers: Set<(u64, u32)>,
    id: u64,
    rank: u32,
    tokens: spec_fn((u64, u32)) -> nat,
    new_top: u32,
)
    requires
        tops(top, workers, id, tokens) || (top == 0 && forall|r: u32|
            !(#[trigger] workers.contains((id, r)))),
        new_top == if top >= tokens((id, rank)) {
            top as nat
        } else {
            tokens((id, rank))
        },
    ensures
        tops(new_top, workers.insert((id, rank)), id, tokens),
{
    let more = workers.insert((id, rank));
    assert(more.contains((id, rank)));
    if tops(top, workers, id, tokens) {
        let r = choose|r: u32| #[trigger] workers.contains((id, r)) && tokens((id, r)) == top;
        assert(more.contains((id, r)));
    }
    assert forall|r: u32| #[trigger] more.contains((id, r)) implies tokens((id, r)) <= new_top by {
        if r != rank {
            assert(workers.contains((id, r)));
        }
    }
}

proof fn lemma_tops_other(
    top: u32,
    workers: Set<(u64, u32)>,
    id: u64,
    other: (u64, u32),
    tokens: spec_fn((u64, u32)) -> nat,
)
    requires
        tops(top, workers, id, tokens),
        other.0 != id,
    ensures
        tops(top, workers.insert(other), id, tokens),
{
    let more = workers.insert(other);
    let r = choose|r: u32| #[trigger] workers.contains((id, r)) && tokens((id, r)) == top;
    assert(more.contains((id, r)));
    assert forall|r: u32| #[trigger] more.contains((id, r)) implies tokens((id, r)) <= top by {
        assert(workers.contains((id, r)));
    }
}

/// Whether the tokens of a query's matches can be counted.
pub open spec fn countable(tiered: TieredMatchDetails, block_size: u32) -> bool {
    forall|w: (u64, u32)|
        (#[trigger] disk_blocks(tiered, w)) <= u32::MAX && disk_blocks(tiered, w)
            * block_size as nat <= u32::MAX
}

/// What a rank has, and 0 where it has no entry.
pub(crate) fn blocks_of(hits: &FxMap<(u64, u32), usize>, worker: (u64, u32)) -> (n: usize)
    ensures
        n == hits_of(hits@, worker),
{
    match fx_get(hits, &worker) {
        Some(n) => *n,
        None => 0,
    }
}

/// How many more blocks a rank matches in a tier.
fn blocks_in_tier(
    matches: &Vec<(StorageTier, LowerTierMatchDetails)>,
    tier: StorageTier,
    worker: (u64, u32),
) -> (n: usize)
    ensures
        n == hits_of(tier_hits(matches@, tier), worker),
{
    match find_tier(matches, tier) {
        Some(place) => blocks_of(&matches[place].1.hits, worker),
        None => 0,
    }
}

/// Whether what a rank has through all tiers can be counted.
pub open spec fn rank_countable(
    tiered: TieredMatchDetails,
    block_size: u32,
    worker: (u64, u32),
) -> bool {
    disk_blocks(tiered, worker) <= u32::MAX && disk_blocks(tiered, worker) * block_size as nat
        <= u32::MAX
}

/// Whether what some ranks have through all tiers can be counted.
fn ranks_fit(tiered: &TieredMatchDetails, block_size: u32, workers: &Vec<(u64, u32)>) -> (r: bool)
    ensures
        r <==> forall|i: int|
            0 <= i < workers@.len() ==> rank_countable(
                *tiered,
                block_size,
                #[trigger] workers@[i],
            ),
{
    for i in 0..workers.len()
        invariant
            forall|j: int|
                0 <= j < i ==> rank_countable(*tiered, block_size, #[trigger] workers@[j]),
    {
        let worker = workers[i];
        let device: u32 = match fx_get(&tiered.device.overlap_scores.scores, &worker) {
            Some(blocks) => *blocks,
            None => 0,
        };
        let host = blocks_in_tier(&tiered.lower_tier, StorageTier::HostPinned, worker);
        let disk = blocks_in_tier(&tiered.lower_tier, StorageTier::Disk, worker);
        let external = blocks_in_tier(&tiered.lower_tier, StorageTier::External, worker);
        let total: u128 = device as u128 + host as u128 + disk as u128 + external as u128;
        assert(total == disk_blocks(*tiered, worker));
        if total > u32::MAX as u128 {
            assert(!rank_countable(*tiered, block_size, workers@[i as int]));
            return false;
        }
        assert(total * block_size <= u128::MAX) by (nonlinear_arith)
            requires
                total <= u32::MAX,
                block_size <= u32::MAX,
        ;
        if total * block_size as u128 > u32::MAX as u128 {
            assert(!rank_countable(*tiered, block_size, workers@[i as int]));
            return false;
        }
    }
    true
}

/// Whether the answer to a query can be counted.
pub fn scores_fit(tiered: &TieredMatchDetails, block_size: u32) -> (r: bool)
    ensures
        r == countable(*tiered, block_size),
{
    let device = fx_worker_keys(&tiered.device.overlap_scores.scores);
    let mut fit = ranks_fit(tiered, block_size, &device);
    let ghost mut asked: Seq<Vec<(u64, u32)>> = seq![device];
    let tiers = lower_tier_query_order();
    proof {
        if !fit {
            let i = choose|i: int|
                0 <= i < device@.len() && !rank_countable(
                    *tiered,
                    block_size,
                    #[trigger] device@[i],
                );
            assert(asked[0]@[i] == device@[i]);
        }
    }
    for t in 0..tiers.len()
        invariant
            tiers@ == tier_order(),
            asked.len() == t + 1,
            asked[0]@.to_set() == tiered.device.overlap_scores.scores@.dom(),
            forall|k: int|
                0 <= k < t ==> (#[trigger] asked[k + 1])@.to_set() == tier_hits(
                    tiered.lower_tier@,
                    tier_order()[k],
                ).dom(),
            fit <==> forall|k: int, i: int|
                0 <= k < asked.len() && 0 <= i < asked[k]@.len() ==> rank_countable(
                    *tiered,
                    block_size,
                    #[trigger] asked[k]@[i],
                ),
    {
        let workers = match find_tier(&tiered.lower_tier, tiers[t]) {
            Some(place) => fx_worker_keys(&tiered.lower_tier[place].1.hits),
            None => Vec::new(),
        };
        let these = ranks_fit(tiered, block_size, &workers);
        fit = fit && these;
        proof {
            let before = asked;
            asked = asked.push(workers);
            assert(workers@.to_set() =~= tier_hits(tiered.lower_tier@, tier_order()[t as int]).dom());
            assert forall|k: int| 0 <= k < t + 1 implies (#[trigger] asked[k + 1])@.to_set()
                == tier_hits(tiered.lower_tier@, tier_order()[k]).dom() by {
                if k < t {
                    assert(before[k + 1]@.to_set() == asked[k + 1]@.to_set());
                }
            }
            if fit {
                assert forall|k: int, i: int|
                    0 <= k < asked.len() && 0 <= i < asked[k]@.len() implies rank_countable(
                    *tiered,
                    block_size,
                    #[trigger] asked[k]@[i],
                ) by {
                    if k < before.len() {
                        assert(before[k]@[i] == asked[k]@[i]);
                    }
                }
            } else if !these {
                let i = choose|i: int|
                    0 <= i < workers@.len() && !rank_countable(
                        *tiered,
                        block_size,
                        #[trigger] workers@[i],
                    );
                assert(asked[before.len() as int]@[i] == workers@[i]);
            } else {
                let (k, i) = choose|k: int, i: int|
                    0 <= k < before.len() && 0 <= i < before[k]@.len() && !rank_countable(
                        *tiered,
                        block_size,
                        #[trigger] before[k]@[i],
                    );
                assert(asked[k]@[i] == before[k]@[i]);
            }
        }
    }
    proof {
        if fit {
            assert forall|w: (u64, u32)|
                (#[trigger] disk_blocks(*tiered, w)) <= u32::MAX && disk_blocks(*tiered, w)
                    * block_size as nat <= u32::MAX by {
                if matched(*tiered, w) {
                    let k: int = if tiered.device.overlap_scores.scores@.dom().contains(w) {
                        0
                    } else if tier_hits(tiered.lower_tier@, StorageTier::HostPinned).dom().contains(
                        w,
                    ) {
                        1
                    } else if tier_hits(tiered.lower_tier@, StorageTier::Disk).dom().contains(w) {
                        2
                    } else {
                        3
                    };
                    if k > 0 {
                        assert(asked[(k - 1) + 1]@.to_set() == tier_hits(
                            tiered.lower_tier@,
                            tier_order()[k - 1],
                        ).dom());
                    }
                    assert(asked[k]@.to_set().contains(w));
                    let i = choose|i: int| 0 <= i < asked[k]@.len() && asked[k]@[i] == w;
                    assert(rank_countable(*tiered, block_size, asked[k]@[i]));
                } else {
                    assert(disk_blocks(*tiered, w) == 0);
                    assert(0 * block_size as nat == 0) by (nonlinear_arith);
                }
            }
        } else {
            let (k, i) = choose|k: int, i: int|
                0 <= k < asked.len() && 0 <= i < asked[k]@.len() && !rank_countable(
                    *tiered,
                    block_size,
                    #[trigger] asked[k]@[i],
                );
            let w = asked[k]@[i];
            assert(!rank_countable(*tiered, block_size, w));
            assert(!(disk_blocks(*tiered, w) <= u32::MAX && disk_blocks(*tiered, w)
                * block_size as nat <= u32::MAX));
        }
    }
    fit
}

/// Notes the ranks that have an entry.
pub(crate) fn note_workers(seen: &mut FxMap<(u64, u32), ()>, hits: &FxMap<(u64, u32), usize>)
    ensures
        final(seen)@.dom() == old(seen)@.dom().union(hits@.dom()),
{
    let ghost before = seen@.dom();
    let keys = fx_worker_keys(hits);
    assert(before =~= before.union(keys@.take(0).to_set()));
    for i in 0..keys.len()
        invariant
            seen@.dom() == before.union(keys@.take(i as int).to_set()),
    {
        fx_insert(seen, keys[i], ());
        proof {
            assert(keys@.take(i + 1) =~= keys@.take(i as int).push(keys@[i as int]));
            lemma_push_contains(keys@.take(i as int), keys@[i as int]);
            assert(seen@.dom() =~= before.union(keys@.take(i + 1).to_set()));
        }
    }
    assert(keys@.take(keys@.len() as int) =~= keys@);
}

/// Whether instances are broken down, as far as some ranks go.
pub open spec fn all_broken_down(
    tiered: TieredMatchDetails,
    block_size: u32,
    workers: Set<(u64, u32)>,
    instances: Map<u64, InstanceTierBreakdown>,
) -> bool {
    &&& forall|id: u64| #[trigger]
        instances.dom().contains(id) <==> exists|rank: u32| #[trigger] workers.contains((id, rank))
    &&& forall|id: u64| #[trigger]
        instances.dom().contains(id) ==> breaks_down(
            tiered,
            block_size,
            workers,
            id,
            instances[id],
        ) && longest(instances[id])
}

/// Whether the longest match of a breakdown is the most of its tiers.
pub open spec fn longest(entry: InstanceTierBreakdown) -> bool {
    entry.longest_matched == if entry.disk >= entry.cpu && entry.disk >= entry.gpu {
        entry.disk
    } else if entry.cpu >= entry.gpu {
        entry.cpu
    } else {
        entry.gpu
    }
}

/// Adds a rank to the instances.
fn add_rank(
    instances: &mut FxMap<u64, InstanceTierBreakdown>,
    worker: (u64, u32),
    gpu_tokens: u32,
    cpu_tokens: u32,
    disk_tokens: u32,
    Ghost(tiered): Ghost<TieredMatchDetails>,
    Ghost(block_size): Ghost<u32>,
    Ghost(workers): Ghost<Set<(u64, u32)>>,
)
    requires
        all_broken_down(tiered, block_size, workers, old(instances)@),
        gpu_tokens == device_tokens(tiered, block_size)(worker),
        cpu_tokens == host_tokens(tiered, block_size)(worker),
        disk_tokens == self::disk_tokens(tiered, block_size)(worker),
    ensures
        all_broken_down(tiered, block_size, workers.insert(worker), final(instances)@),
{
    let ghost before = instances@;
    let ghost more = workers.insert(worker);
    let id = worker.0;
    let mut entry = match fx_remove(instances, &id) {
        Some(entry) => entry,
        None => InstanceTierBreakdown {
            longest_matched: 0,
            gpu: 0,
            dp: FxMap::default(),
            cpu: 0,
            disk: 0,
        },
    };
    let ghost was = entry;
    fx_insert(&mut entry.dp, worker.1 as u64, gpu_tokens);
    entry.gpu = larger(entry.gpu, gpu_tokens);
    entry.cpu = larger(entry.cpu, cpu_tokens);
    entry.disk = larger(entry.disk, disk_tokens);
    entry.longest_matched = larger(larger(entry.gpu, entry.cpu), entry.disk);
    proof {
        if before.dom().contains(id) {
            assert(breaks_down(tiered, block_size, workers, id, was));
        } else {
            assert forall|r: u32| !(#[trigger] workers.contains((id, r))) by {}
        }
        lemma_tops_with(
            was.gpu,
            workers,
            id,
            worker.1,
            device_tokens(tiered, block_size),
            entry.gpu,
        );
        lemma_tops_with(was.cpu, workers, id, worker.1, host_tokens(tiered, block_size), entry.cpu);
        lemma_tops_with(
            was.disk,
            workers,
            id,
            worker.1,
            self::disk_tokens(tiered, block_size),
            entry.disk,
        );
        assert forall|key: u64| #[trigger] entry.dp@.dom().contains(key) <==> key <= u32::MAX
            && more.contains((id, key as u32)) by {
            assert(was.dp@.dom().contains(key) <==> key <= u32::MAX && workers.contains(
                (id, key as u32),
            ));
        }
        assert forall|rank: u32| more.contains((id, rank)) implies #[trigger] entry.dp@[rank as u64]
            == device_tokens(tiered, block_size)((id, rank)) by {
            if rank != worker.1 {
                assert(workers.contains((id, rank)));
                assert(was.dp@[rank as u64] == device_tokens(tiered, block_size)((id, rank)));
            }
        }
        assert(breaks_down(tiered, block_size, more, id, entry));
    }
    fx_insert(instances, id, entry);
    proof {
        let after = instances@;
        assert forall|k: u64| #[trigger] after.dom().contains(k) <==> exists|rank: u32| #[trigger]
            more.contains((k, rank)) by {
            if k == id {
                assert(more.contains((id, worker.1)));
            } else {
                assert(before.dom().contains(k) == after.dom().contains(k));
                if before.dom().contains(k) {
                    let r = choose|r: u32| #[trigger] workers.contains((k, r));
                    assert(more.contains((k, r)));
                }
                if exists|rank: u32| #[trigger] more.contains((k, rank)) {
                    let r = choose|r: u32| #[trigger] more.contains((k, r));
                    assert(workers.contains((k, r)));
                }
            }
        }
        assert forall|k: u64| #[trigger] after.dom().contains(k) implies breaks_down(
            tiered,
            block_size,
            more,
            k,
            after[k],
        ) && longest(after[k]) by {
            if k != id {
                assert(before.dom().contains(k));
                let e = before[k];
                assert(breaks_down(tiered, block_size, workers, k, e));
                lemma_tops_other(e.gpu, workers, k, worker, device_tokens(tiered, block_size));
                lemma_tops_other(e.cpu, workers, k, worker, host_tokens(tiered, block_size));
                lemma_tops_other(e.disk, workers, k, worker, self::disk_tokens(tiered, block_size));
                assert forall|key: u64| #[trigger] e.dp@.dom().contains(key) <==> key <= u32::MAX
                    && more.contains((k, key as u32)) by {}
            }
        }
    }
}

/// The answer to a query, from what was matched in each tier.
pub fn build_score_response(tiered: &TieredMatchDetails, block_size: u32) -> (response:
    ScoreResponse)
    requires
        countable(*tiered, block_size),
    ensures
        response.scores@.dom() == tiered.device.overlap_scores.scores@.dom(),
        forall|w: (u64, u32)| #[trigger]
            response.scores@.dom().contains(w) ==> response.scores@[w] == device_tokens(
                *tiered,
                block_size,
            )(w),
        response.frequencies@ == tiered.device.overlap_scores.frequencies@,
        all_broken_down(
            *tiered,
            block_size,
            Set::new(|w: (u64, u32)| matched(*tiered, w)),
            response.instances@,
        ),
{
    proof {
        assert forall|w: (u64, u32)| #[trigger]
            hits_of(tier_hits(tiered.lower_tier@, StorageTier::Disk), w) + hits_of(
                tier_hits(tiered.lower_tier@, StorageTier::External),
                w,
            ) <= usize::MAX by {
            assert(disk_blocks(*tiered, w) <= u32::MAX);
        }
    }
    let blocks = tier_overlap_blocks_from_tiered_matches(tiered);
    let mut scores: FxMap<(u64, u32), u32> = FxMap::default();
    let mut seen: FxMap<(u64, u32), ()> = FxMap::default();
    note_workers(&mut seen, &blocks.device);
    note_workers(&mut seen, &blocks.host_pinned);
    note_workers(&mut seen, &blocks.disk);
    let ghost all = Set::new(|w: (u64, u32)| matched(*tiered, w));
    assert(seen@.dom() =~= all);
    let workers = fx_worker_keys(&seen);
    let mut instances: FxMap<u64, InstanceTierBreakdown> = FxMap::default();
    assert(workers@.take(0).to_set() =~= Set::<(u64, u32)>::empty());
    for i in 0..workers.len()
        invariant
            countable(*tiered, block_size),
            workers@.no_duplicates(),
            workers@.to_set() == all,
            all == Set::new(|w: (u64, u32)| matched(*tiered, w)),
            blocks.device@.dom() == tiered.device.overlap_scores.scores@.dom(),
            forall|w: (u64, u32)| #[trigger]
                blocks.device@.dom().contains(w) ==> blocks.device@[w]
                    == tiered.device.overlap_scores.scores@[w],
            blocks.host_pinned@ == tier_hits(tiered.lower_tier@, StorageTier::HostPinned),
            blocks.disk@.dom() == tier_hits(tiered.lower_tier@, StorageTier::Disk).dom().union(
                tier_hits(tiered.lower_tier@, StorageTier::External).dom(),
            ),
            forall|w: (u64, u32)| #[trigger]
                blocks.disk@.dom().contains(w) ==> blocks.disk@[w] == hits_of(
                    tier_hits(tiered.lower_tier@, StorageTier::Disk),
                    w,
                ) + hits_of(tier_hits(tiered.lower_tier@, StorageTier::External), w),
            all_broken_down(
                *tiered,
                block_size,
                workers@.take(i as int).to_set(),
                instances@,
            ),
            forall|w: (u64, u32)| #[trigger]
                scores@.dom().contains(w) <==> workers@.take(i as int).contains(w)
                    && tiered.device.overlap_scores.scores@.dom().contains(w),
            forall|w: (u64, u32)| #[trigger]
                scores@.dom().contains(w) ==> scores@[w] == device_tokens(*tiered, block_size)(w),
    {
        let worker = workers[i];
        let gpu_blocks = blocks_of(&blocks.device, worker);
        let host = blocks_of(&blocks.host_pinned, worker);
        let disk = blocks_of(&blocks.disk, worker);
        let ghost g = device_blocks(*tiered, worker);
        let ghost h = host_blocks(*tiered, worker);
        let ghost d = disk_blocks(*tiered, worker);
        proof {
            assert(disk_blocks(*tiered, worker) <= u32::MAX);
            if !blocks.disk@.dom().contains(worker) {
                assert(!tier_hits(tiered.lower_tier@, StorageTier::Disk).dom().contains(worker));
            }
            assert(g == gpu_blocks);
            assert(h == gpu_blocks + host);
            assert(d == gpu_blocks + host + disk);
            lemma_product_order(g, h, block_size as nat);
            lemma_product_order(h, d, block_size as nat);
        }
        let gpu_tokens = gpu_blocks as u32 * block_size;
        let cpu_tokens = (gpu_blocks + host) as u32 * block_size;
        let disk_tokens = (gpu_blocks + host + disk) as u32 * block_size;
        let ghost done = workers@.take(i as int);
        proof {
            assert(workers@.take(i + 1) =~= done.push(worker));
            lemma_push_contains(done, worker);
            assert(workers@.take(i + 1).to_set() =~= done.to_set().insert(worker));
        }
        if fx_get(&blocks.device, &worker).is_some() {
            fx_insert(&mut scores, worker, gpu_tokens);
        }
        add_rank(
            &mut instances,
            worker,
            gpu_tokens,
            cpu_tokens,
            disk_tokens,
            Ghost(*tiered),
            Ghost(block_size),
            Ghost(done.to_set()),
        );
    }
    proof {
        assert(workers@.take(workers@.len() as int) =~= workers@);
        assert forall|w: (u64, u32)| workers@.contains(w) == all.contains(w) by {
            assert(workers@.to_set().contains(w) == workers@.contains(w));
        }
        assert forall|w: (u64, u32)| #[trigger] scores@.dom().contains(w)
            == tiered.device.overlap_scores.scores@.dom().contains(w) by {
            if tiered.device.overlap_scores.scores@.dom().contains(w) {
                assert(all.contains(w));
                assert(workers@.take(workers@.len() as int).contains(w));
            }
        }
        assert(scores@.dom() =~= tiered.device.overlap_scores.scores@.dom());
    }
    ScoreResponse {
        scores,
        frequencies: copy_counts(&tiered.device.overlap_scores.frequencies),
        instances,
    }
}

fn copy_counts(counts: &Vec<usize>) -> (copy: Vec<usize>)
    ensures
        copy@ == counts@,
{
    let mut copy: Vec<usize> = Vec::new();
    for i in 0..counts.len()
        invariant
            copy@ == counts@.take(i as int),
    {
        copy.push(counts[i]);
        assert(copy@ =~= counts@.take(i + 1));
    }
    assert(counts@.take(counts@.len() as int) =~= counts@);
    copy
}

proof fn lemma_product_order(a: nat, b: nat, c: nat)
    requires
        a <= b,
    ensures
        a * c <= b * c,
{
    assert(a * c <= b * c) by (nonlinear_arith)
        requires
            a <= b,
    ;
}

/// What an instance has up to a tier is no less than what it has up to the one
/// before, and the last is the longest match.
pub proof fn tiers_only_add(
    tiered: TieredMatchDetails,
    block_size: u32,
    workers: Set<(u64, u32)>,
    id: u64,
    entry: InstanceTierBreakdown,
)
    requires
        breaks_down(tiered, block_size, workers, id, entry),
        longest(entry),
    ensures
        entry.gpu <= entry.cpu <= entry.disk,
        entry.longest_matched == entry.disk,
{
    let bs = block_size as nat;
    let g = choose|r: u32| #[trigger]
        workers.contains((id, r)) && device_tokens(tiered, block_size)((id, r)) == entry.gpu;
    lemma_product_order(device_blocks(tiered, (id, g)), host_blocks(tiered, (id, g)), bs);
    assert(host_tokens(tiered, block_size)((id, g)) <= entry.cpu);
    let h = choose|r: u32| #[trigger]
        workers.contains((id, r)) && host_tokens(tiered, block_size)((id, r)) == entry.cpu;
    lemma_product_order(host_blocks(tiered, (id, h)), disk_blocks(tiered, (id, h)), bs);
    assert(disk_tokens(tiered, block_size)((id, h)) <= entry.disk);
}

/// A signed hash stands for the unsigned one with the same bits, so no two signed
/// hashes stand for the same.
pub proof fn signed_hashes_keep_their_bits(a: i64, b: i64)
    ensures
        unsigned_hash(a) == a || unsigned_hash(a) == a + 0x1_0000_0000_0000_0000,
        unsigned_hash(a) == unsigned_hash(b) ==> a == b,
{
}

/// The share of a rank that matches on its device: the rank is listed with it, and its
/// instance has at least as much on the device, more with what the rank matches in
/// pinned memory, and more again with what it matches on disk and beyond.
pub proof fn ranks_count_for_their_instance(
    tiered: TieredMatchDetails,
    block_size: u32,
    instances: Map<u64, InstanceTierBreakdown>,
    id: u64,
    rank: u32,
)
    requires
        all_broken_down(
            tiered,
            block_size,
            Set::new(|w: (u64, u32)| matched(tiered, w)),
            instances,
        ),
        tiered.device.overlap_scores.scores@.dom().contains((id, rank)),
    ensures
        instances.dom().contains(id),
        ({
            let on_device = tiered.device.overlap_scores.scores@[(id, rank)] as nat;
            let below = |tier: StorageTier| tier_hits(tiered.lower_tier@, tier);
            let hits = |tier: StorageTier|
                if below(tier).dom().contains((id, rank)) {
                    below(tier)[(id, rank)] as nat
                } else {
                    0nat
                };
            let up_to_host = on_device + hits(StorageTier::HostPinned);
            let up_to_disk = up_to_host + hits(StorageTier::Disk) + hits(StorageTier::External);
            &&& instances[id].dp@.dom().contains(rank as u64)
            &&& instances[id].dp@[rank as u64] == on_device * block_size as nat
            &&& on_device * block_size as nat <= instances[id].gpu
            &&& up_to_host * block_size as nat <= instances[id].cpu
            &&& up_to_disk * block_size as nat <= instances[id].disk
            &&& up_to_disk * block_size as nat <= instances[id].longest_matched
        }),
{
    let workers = Set::new(|w: (u64, u32)| matched(tiered, w));
    let w = (id, rank);
    assert(workers.contains(w));
    assert(workers.contains((id, rank)));
    assert(instances.dom().contains(id));
    assert(breaks_down(tiered, block_size, workers, id, instances[id]));
    let entry = instances[id];
    assert(device_tokens(tiered, block_size)(w) <= entry.gpu);
    assert(host_tokens(tiered, block_size)(w) <= entry.cpu);
    assert(disk_tokens(tiered, block_size)(w) <= entry.disk);
    assert(entry.dp@.dom().contains(rank as u64) <==> rank as u64 <= u32::MAX && workers.contains(
        (id, (rank as u64) as u32),
    ));
    assert(entry.dp@[rank as u64] == device_tokens(tiered, block_size)(w));
}

/// An instance is listed only for a rank of its that matched in some tier, and has on
/// its device no more than one of its ranks has.
pub proof fn instances_are_as_good_as_a_rank(
    tiered: TieredMatchDetails,
    block_size: u32,
    instances: Map<u64, InstanceTierBreakdown>,
    id: u64,
) -> (rank: u32)
    requires
        all_broken_down(
            tiered,
            block_size,
            Set::new(|w: (u64, u32)| matched(tiered, w)),
            instances,
        ),
        instances.dom().contains(id),
    ensures
        tiered.device.overlap_scores.scores@.dom().contains((id, rank)) || exists|tier: StorageTier|
            #[trigger] tier_hits(tiered.lower_tier@, tier).dom().contains((id, rank)),
        instances[id].gpu == if tiered.device.overlap_scores.scores@.dom().contains((id, rank)) {
            tiered.device.overlap_scores.scores@[(id, rank)] as nat * block_size as nat
        } else {
            0
        },
{
    let workers = Set::new(|w: (u64, u32)| matched(tiered, w));
    assert(breaks_down(tiered, block_size, workers, id, instances[id]));
    let tokens = device_tokens(tiered, block_size);
    let rank = choose|rank: u32| #[trigger]
        workers.contains((id, rank)) && tokens((id, rank)) == instances[id].gpu;
    assert(matched(tiered, (id, rank)));
    assert(0nat * block_size as nat == 0) by (nonlinear_arith);
    rank
}

} // verus!
