//! Builders of cache events, for tests and benchmarks.

use vstd::prelude::*;

use crate::sorting::{
    distinct_ranks_sort_one_way, distinct_ranks_sort_strictly, is_stable_sort, lex_lt,
    sorting_keeps_items, stable_sort, stable_sort_is_unique, SortKey,
};
use crate::collections::{fx_get, fx_worker_keys};
use crate::hashing::{compute_seq_hash_for_block, seq_hashes, seq_hashes_extend};
use crate::protocols::{
    stored_blocks_view, EventDataView, ExternalSequenceBlockHash, KvCacheEvent, KvCacheEventData,
    KvCacheRemoveData, KvCacheStoreData, KvCacheStoredBlockData, LocalBlockHash, OverlapScores,
    RouterEvent, RouterEventView, StorageTier, StoredBlockView, WorkerId,
};

verus! {

/// An event of a worker on the device tier.
pub fn router_event(worker_id: WorkerId, event_id: u64, dp_rank: u32, data: KvCacheEventData) -> (r:
    RouterEvent)
    ensures
        r.worker_id == worker_id,
        r.storage_tier == StorageTier::Device,
        r.event == (KvCacheEvent { event_id, data, dp_rank }),
{
    RouterEvent::new(worker_id, KvCacheEvent { event_id, data, dp_rank })
}

/// Model of a block without multimodal objects.
pub open spec fn plain_block(local: u64, seq: u64) -> StoredBlockView {
    StoredBlockView { block_hash: seq, tokens_hash: local, mm_extra_info: None }
}

/// Model of blocks with given local and sequence hashes.
pub open spec fn plain_blocks(locals: Seq<LocalBlockHash>, seqs: Seq<u64>) -> Seq<StoredBlockView> {
    Seq::new(
        if locals.len() <= seqs.len() {
            locals.len()
        } else {
            seqs.len()
        },
        |i: int| plain_block(locals[i].0, seqs[i]),
    )
}

/// Blocks with given local and sequence hashes, paired in order.
pub fn stored_blocks_with_sequence_hashes(local_hashes: &[LocalBlockHash], seq_hashes: &[u64]) -> (r:
    Vec<KvCacheStoredBlockData>)
    ensures
        stored_blocks_view(r@) == plain_blocks(local_hashes@, seq_hashes@),
{
    let mut r: Vec<KvCacheStoredBlockData> = Vec::new();
    let mut i: usize = 0;
    while i < local_hashes.len() && i < seq_hashes.len()
        invariant
            i <= local_hashes@.len(),
            i <= seq_hashes@.len(),
            r@.len() == i,
            forall|j: int|
                0 <= j < i ==> #[trigger] r@[j]@ == plain_block(local_hashes@[j].0, seq_hashes@[j]),
        decreases local_hashes.len() - i,
    {
        r.push(
            KvCacheStoredBlockData {
                tokens_hash: local_hashes[i],
                block_hash: ExternalSequenceBlockHash(seq_hashes[i]),
                mm_extra_info: None,
            },
        );
        i += 1;
    }
    assert(stored_blocks_view(r@) =~= plain_blocks(local_hashes@, seq_hashes@));
    r
}

/// A removal of given blocks.
pub fn remove_event(
    worker_id: WorkerId,
    event_id: u64,
    dp_rank: u32,
    block_hashes: Vec<ExternalSequenceBlockHash>,
) -> (r: RouterEvent)
    ensures
        r@ == (RouterEventView {
            worker_id,
            storage_tier: StorageTier::Device,
            event_id,
            dp_rank,
            data: EventDataView::Removed { block_hashes: block_hashes@ },
        }),
{
    router_event(
        worker_id,
        event_id,
        dp_rank,
        KvCacheEventData::Removed(KvCacheRemoveData { block_hashes }),
    )
}

/// Whether every number can be multiplied by a hundred.
pub open spec fn hundredfold_fits(hashes: Seq<u64>) -> bool {
    forall|i: int| 0 <= i < hashes.len() ==> #[trigger] hashes[i] * 100 <= u64::MAX
}

/// Model of blocks whose sequence hash is a hundred times their local hash.
pub open spec fn hundredfold_blocks(hashes: Seq<u64>) -> Seq<StoredBlockView> {
    hashes.map_values(|h: u64| plain_block(h, (h * 100) as u64))
}

/// Blocks with an artificial sequence hash: a hundred times the local hash.
pub fn make_blocks(hashes: Vec<u64>) -> (r: Vec<KvCacheStoredBlockData>)
    requires
        hundredfold_fits(hashes@),
    ensures
        stored_blocks_view(r@) == hundredfold_blocks(hashes@),
{
    let mut r: Vec<KvCacheStoredBlockData> = Vec::new();
    for i in 0..hashes.len()
        invariant
            hundredfold_fits(hashes@),
            r@.len() == i,
            forall|j: int|
                0 <= j < i ==> #[trigger] r@[j]@ == plain_block(
                    hashes@[j],
                    (hashes@[j] * 100) as u64,
                ),
    {
        let hash = hashes[i];
        r.push(
            KvCacheStoredBlockData {
                tokens_hash: LocalBlockHash(hash),
                block_hash: ExternalSequenceBlockHash(hash * 100),
                mm_extra_info: None,
            },
        );
    }
    assert(stored_blocks_view(r@) =~= hundredfold_blocks(hashes@));
    r
}

/// A store of artificial blocks.
pub fn add_blocks(hashes: Vec<u64>, parent_hash: Option<ExternalSequenceBlockHash>) -> (r:
    KvCacheEventData)
    requires
        hundredfold_fits(hashes@),
    ensures
        r@ == (EventDataView::Stored {
            parent_hash,
            start_position: None,
            blocks: hundredfold_blocks(hashes@),
        }),
{
    add_blocks_with_start_position(hashes, parent_hash, None)
}

/// A store of artificial blocks that says where in the sequence it starts.
pub fn add_blocks_with_start_position(
    hashes: Vec<u64>,
    parent_hash: Option<ExternalSequenceBlockHash>,
    start_position: Option<u32>,
) -> (r: KvCacheEventData)
    requires
        hundredfold_fits(hashes@),
    ensures
        r@ == (EventDataView::Stored {
            parent_hash,
            start_position,
            blocks: hundredfold_blocks(hashes@),
        }),
{
    KvCacheEventData::Stored(
        KvCacheStoreData { parent_hash, start_position, blocks: make_blocks(hashes) },
    )
}

/// A worker's store of artificial blocks.
pub fn create_store_event(
    worker_id: WorkerId,
    event_id: u64,
    hashes: Vec<u64>,
    parent: Option<ExternalSequenceBlockHash>,
) -> (r: RouterEvent)
    requires
        hundredfold_fits(hashes@),
    ensures
        r@ == (RouterEventView {
            worker_id,
            storage_tier: StorageTier::Device,
            event_id,
            dp_rank: 0,
            data: EventDataView::Stored {
                parent_hash: parent,
                start_position: None,
                blocks: hundredfold_blocks(hashes@),
            },
        }),
{
    router_event(worker_id, event_id, 0, add_blocks(hashes, parent))
}

/// A worker's store of artificial blocks that says where it starts.
pub fn create_store_event_with_start_position(
    worker_id: WorkerId,
    event_id: u64,
    hashes: Vec<u64>,
    parent: Option<ExternalSequenceBlockHash>,
    start_position: Option<u32>,
) -> (r: RouterEvent)
    requires
        hundredfold_fits(hashes@),
    ensures
        r@ == (RouterEventView {
            worker_id,
            storage_tier: StorageTier::Device,
            event_id,
            dp_rank: 0,
            data: EventDataView::Stored {
                parent_hash: parent,
                start_position,
                blocks: hundredfold_blocks(hashes@),
            },
        }),
{
    router_event(
        worker_id,
        event_id,
        0,
        add_blocks_with_start_position(hashes, parent, start_position),
    )
}

/// A worker's removal of artificial blocks.
pub fn create_remove_event(worker_id: WorkerId, event_id: u64, hashes: Vec<u64>) -> (r: RouterEvent)
    requires
        hundredfold_fits(hashes@),
    ensures
        r@ == (RouterEventView {
            worker_id,
            storage_tier: StorageTier::Device,
            event_id,
            dp_rank: 0,
            data: EventDataView::Removed {
                block_hashes: hashes@.map_values(
                    |h: u64| ExternalSequenceBlockHash((h * 100) as u64),
                ),
            },
        }),
{
    let mut block_hashes: Vec<ExternalSequenceBlockHash> = Vec::new();
    for i in 0..hashes.len()
        invariant
            hundredfold_fits(hashes@),
            block_hashes@ =~= hashes@.map_values(
                |h: u64| ExternalSequenceBlockHash((h * 100) as u64),
            ).take(i as int),
    {
        block_hashes.push(ExternalSequenceBlockHash(hashes[i] * 100));
    }
    assert(block_hashes@ =~= hashes@.map_values(
        |h: u64| ExternalSequenceBlockHash((h * 100) as u64),
    ));
    remove_event(worker_id, event_id, 0, block_hashes)
}

/// Numbers as local block hashes.
pub open spec fn as_local(hashes: Seq<u64>) -> Seq<LocalBlockHash> {
    hashes.map_values(|h: u64| LocalBlockHash(h))
}

/// Numbers as the hashes by which the router names blocks.
pub open spec fn as_external(hashes: Seq<u64>) -> Seq<ExternalSequenceBlockHash> {
    hashes.map_values(|h: u64| ExternalSequenceBlockHash(h))
}

fn local_list(prefix: &[u64], hashes: &[u64]) -> (r: Vec<LocalBlockHash>)
    ensures
        r@ == as_local(prefix@ + hashes@),
{
    let mut r: Vec<LocalBlockHash> = Vec::new();
    for i in 0..prefix.len()
        invariant
            r@ =~= as_local(prefix@.take(i as int)),
    {
        r.push(LocalBlockHash(prefix[i]));
    }
    for i in 0..hashes.len()
        invariant
            r@ =~= as_local(prefix@ + hashes@.take(i as int)),
    {
        r.push(LocalBlockHash(hashes[i]));
    }
    assert(r@ =~= as_local(prefix@ + hashes@));
    r
}

fn external_list(hashes: &[u64], from: usize) -> (r: Vec<ExternalSequenceBlockHash>)
    requires
        from <= hashes@.len(),
    ensures
        r@ == as_external(hashes@.skip(from as int)),
{
    let mut r: Vec<ExternalSequenceBlockHash> = Vec::new();
    let mut i: usize = from;
    while i < hashes.len()
        invariant
            from <= i <= hashes@.len(),
            r@ =~= as_external(hashes@.subrange(from as int, i as int)),
        decreases hashes.len() - i,
    {
        r.push(ExternalSequenceBlockHash(hashes[i]));
        i += 1;
    }
    assert(r@ =~= as_external(hashes@.skip(from as int)));
    r
}

/// A store event whose sequence hashes are computed from the local hashes.
pub fn make_store_event(worker_id: u64, local_hashes: &[u64]) -> (r: RouterEvent)
    ensures
        r@ == store_view(worker_id, Seq::empty(), local_hashes@, 0, None, None),
{
    make_store_event_with_dp_rank(worker_id, local_hashes, 0)
}

/// A store event of a given rank.
pub fn make_store_event_with_dp_rank(worker_id: u64, local_hashes: &[u64], dp_rank: u32) -> (r:
    RouterEvent)
    ensures
        r@ == store_view(worker_id, Seq::empty(), local_hashes@, dp_rank, None, None),
{
    make_store_event_full(worker_id, local_hashes, dp_rank, None, None)
}

/// Model of a store of `locals` after `prefix`: the rolling hashes run over
/// both.
pub open spec fn store_view(
    worker_id: u64,
    prefix: Seq<u64>,
    locals: Seq<u64>,
    dp_rank: u32,
    parent_hash: Option<ExternalSequenceBlockHash>,
    start_position: Option<u32>,
) -> RouterEventView {
    RouterEventView {
        worker_id,
        storage_tier: StorageTier::Device,
        event_id: 0,
        dp_rank,
        data: EventDataView::Stored {
            parent_hash,
            start_position,
            blocks: plain_blocks(
                as_local(locals),
                seq_hashes(as_local(prefix + locals)).skip(prefix.len() as int),
            ),
        },
    }
}

/// The rolling hash of a whole sequence, where it is not empty.
pub open spec fn last_seq_hash(locals: Seq<u64>) -> Option<ExternalSequenceBlockHash> {
    if locals.len() == 0 {
        None
    } else {
        Some(ExternalSequenceBlockHash(seq_hashes(as_local(locals)).last()))
    }
}

/// A store event that continues a prefix.
pub fn make_store_event_with_parent(
    worker_id: u64,
    prefix_hashes: &[u64],
    local_hashes: &[u64],
) -> (r: RouterEvent)
    ensures
        r@ == store_view(
            worker_id,
            prefix_hashes@,
            local_hashes@,
            0,
            last_seq_hash(prefix_hashes@),
            None,
        ),
{
    let full = local_list(prefix_hashes, local_hashes);
    let full_seq_hashes = compute_seq_hash_for_block(full.as_slice());
    proof {
        seq_hashes_extend(full@, prefix_hashes@.len() as int);
        assert(full@.take(prefix_hashes@.len() as int) =~= as_local(prefix_hashes@));
    }
    let parent_hash = if prefix_hashes.len() > 0 {
        Some(ExternalSequenceBlockHash(full_seq_hashes[prefix_hashes.len() - 1]))
    } else {
        None
    };
    let empty: [u64; 0] = [];
    let locals = local_list(&empty, local_hashes);
    assert(locals@ =~= as_local(local_hashes@));
    let new_seq_hashes = vstd::slice::slice_subrange(
        full_seq_hashes.as_slice(),
        prefix_hashes.len(),
        full_seq_hashes.len(),
    );
    assert(new_seq_hashes@ =~= full_seq_hashes@.skip(prefix_hashes@.len() as int));
    router_event(
        worker_id,
        0,
        0,
        KvCacheEventData::Stored(
            KvCacheStoreData {
                parent_hash,
                start_position: None,
                blocks: stored_blocks_with_sequence_hashes(locals.as_slice(), new_seq_hashes),
            },
        ),
    )
}

/// A store event that says where in the sequence it starts.
pub fn make_store_event_with_start_position(
    worker_id: u64,
    local_hashes: &[u64],
    start_position: u32,
) -> (r: RouterEvent)
    ensures
        r@ == store_view(worker_id, Seq::empty(), local_hashes@, 0, None, Some(start_position)),
{
    make_store_event_full(worker_id, local_hashes, 0, None, Some(start_position))
}

/// A store event with every option.
pub fn make_store_event_full(
    worker_id: u64,
    local_hashes: &[u64],
    dp_rank: u32,
    parent_hash: Option<ExternalSequenceBlockHash>,
    start_position: Option<u32>,
) -> (r: RouterEvent)
    ensures
        r@ == store_view(
            worker_id,
            Seq::empty(),
            local_hashes@,
            dp_rank,
            parent_hash,
            start_position,
        ),
{
    let empty: [u64; 0] = [];
    let locals = local_list(&empty, local_hashes);
    assert(locals@ =~= as_local(local_hashes@));
    let seqs = compute_seq_hash_for_block(locals.as_slice());
    assert(Seq::<u64>::empty() + local_hashes@ =~= local_hashes@);
    assert(seqs@.skip(0) =~= seqs@);
    router_event(
        worker_id,
        0,
        dp_rank,
        KvCacheEventData::Stored(
            KvCacheStoreData {
                parent_hash,
                start_position,
                blocks: stored_blocks_with_sequence_hashes(locals.as_slice(), seqs.as_slice()),
            },
        ),
    )
}

/// Model of a removal of `locals` after `prefix`.
pub open spec fn remove_view(
    worker_id: u64,
    prefix: Seq<u64>,
    locals: Seq<u64>,
    dp_rank: u32,
) -> RouterEventView {
    RouterEventView {
        worker_id,
        storage_tier: StorageTier::Device,
        event_id: 0,
        dp_rank,
        data: EventDataView::Removed {
            block_hashes: as_external(
                seq_hashes(as_local(prefix + locals)).skip(prefix.len() as int),
            ),
        },
    }
}

/// A removal of the blocks with given local hashes.
pub fn make_remove_event(worker_id: u64, local_hashes: &[u64]) -> (r: RouterEvent)
    ensures
        r@ == remove_view(worker_id, Seq::empty(), local_hashes@, 0),
{
    make_remove_event_with_dp_rank(worker_id, local_hashes, 0)
}

/// A removal on a given rank.
pub fn make_remove_event_with_dp_rank(worker_id: u64, local_hashes: &[u64], dp_rank: u32) -> (r:
    RouterEvent)
    ensures
        r@ == remove_view(worker_id, Seq::empty(), local_hashes@, dp_rank),
{
    let empty: [u64; 0] = [];
    let locals = local_list(&empty, local_hashes);
    let seqs = compute_seq_hash_for_block(locals.as_slice());
    assert(empty@ =~= Seq::<u64>::empty());
    remove_event(worker_id, 0, dp_rank, external_list(seqs.as_slice(), 0))
}

/// A removal of blocks that continue a prefix.
pub fn make_remove_event_with_parent(
    worker_id: u64,
    prefix_hashes: &[u64],
    local_hashes: &[u64],
) -> (r: RouterEvent)
    ensures
        r@ == remove_view(worker_id, prefix_hashes@, local_hashes@, 0),
{
    let full = local_list(prefix_hashes, local_hashes);
    let seqs = compute_seq_hash_for_block(full.as_slice());
    remove_event(worker_id, 0, 0, external_list(seqs.as_slice(), prefix_hashes.len()))
}

/// A worker's clear event.
pub fn make_clear_event(worker_id: u64) -> (r: RouterEvent)
    ensures
        r@ == (RouterEventView {
            worker_id,
            storage_tier: StorageTier::Device,
            event_id: 0,
            dp_rank: 0,
            data: EventDataView::Cleared,
        }),
{
    make_clear_event_with_dp_rank(worker_id, 0)
}

/// A clear event of a given rank.
pub fn make_clear_event_with_dp_rank(worker_id: u64, dp_rank: u32) -> (r: RouterEvent)
    ensures
        r@ == (RouterEventView {
            worker_id,
            storage_tier: StorageTier::Device,
            event_id: 0,
            dp_rank,
            data: EventDataView::Cleared,
        }),
{
    router_event(worker_id, 0, dp_rank, KvCacheEventData::Cleared)
}

/// The first block hash that an event names, zero where it names none.
pub open spec fn first_hash(data: KvCacheEventData) -> u64 {
    match data {
        KvCacheEventData::Stored(store) => if store.blocks@.len() > 0 {
            store.blocks@[0].block_hash.0
        } else {
            0
        },
        KvCacheEventData::Removed(remove) => if remove.block_hashes@.len() > 0 {
            remove.block_hashes@[0].0
        } else {
            0
        },
        KvCacheEventData::Cleared => 0,
    }
}

fn first_hash_of(data: &KvCacheEventData) -> (hash: u64)
    ensures
        hash == first_hash(*data),
{
    match data {
        KvCacheEventData::Stored(store) => {
            if store.blocks.len() > 0 {
                store.blocks[0].block_hash.0
            } else {
                0
            }
        },
        KvCacheEventData::Removed(remove) => {
            if remove.block_hashes.len() > 0 {
                remove.block_hashes[0].0
            } else {
                0
            }
        },
        KvCacheEventData::Cleared => 0,
    }
}

impl SortKey for RouterEvent {
    open spec fn rank(&self) -> Seq<int> {
        seq![
            self.worker_id as int,
            self.event.dp_rank as int,
            first_hash(self.event.data) as int,
        ]
    }

    fn is_before(&self, other: &Self) -> (r: bool) {
        let mine = first_hash_of(&self.event.data);
        let theirs = first_hash_of(&other.event.data);
        proof {
            reveal_with_fuel(lex_lt, 4);
        }
        if self.worker_id != other.worker_id {
            self.worker_id < other.worker_id
        } else if self.event.dp_rank != other.event.dp_rank {
            self.event.dp_rank < other.event.dp_rank
        } else {
            mine < theirs
        }
    }
}

/// An event without its number.
pub open spec fn unnumbered(event: RouterEvent) -> RouterEvent {
    RouterEvent {
        worker_id: event.worker_id,
        storage_tier: event.storage_tier,
        event: KvCacheEvent { event_id: 0, data: event.event.data, dp_rank: event.event.dp_rank },
    }
}

/// Events in a form in which two dumps of the same state are equal: without
/// their numbers, by worker, rank and first block.
pub fn snapshot_events(events: Vec<RouterEvent>) -> (r: Vec<RouterEvent>)
    ensures
        is_stable_sort(all_unnumbered(events@), r@),
{
    let ghost all = all_unnumbered(events@);
    let mut rest = events;
    let mut reversed: Vec<RouterEvent> = Vec::new();
    while rest.len() > 0
        invariant
            all == all_unnumbered(events@),
            rest@ == events@.take(rest@.len() as int),
            reversed@ =~= all.skip(rest@.len() as int).reverse(),
            rest@.len() <= events@.len(),
        decreases rest.len(),
    {
        let event = rest.pop().unwrap();
        reversed.push(
            RouterEvent {
                worker_id: event.worker_id,
                storage_tier: event.storage_tier,
                event: KvCacheEvent {
                    event_id: 0,
                    data: event.event.data,
                    dp_rank: event.event.dp_rank,
                },
            },
        );
    }
    let mut ordered: Vec<RouterEvent> = Vec::new();
    while reversed.len() > 0
        invariant
            reversed@.len() <= all.len(),
            reversed@ =~= all.reverse().take(reversed@.len() as int),
            ordered@ =~= all.take(all.len() - reversed@.len()),
        decreases reversed.len(),
    {
        let event = reversed.pop().unwrap();
        ordered.push(event);
    }
    assert(ordered@ =~= all);
    stable_sort(ordered)
}

/// Events without their numbers.
pub open spec fn all_unnumbered(events: Seq<RouterEvent>) -> Seq<RouterEvent> {
    events.map_values(|e: RouterEvent| unnumbered(e))
}

/// Snapshots of events that differ in nothing but their numbers are equal, and a
/// snapshot of a snapshot is the snapshot.
pub proof fn snapshots_of_one_state_agree(
    a: Seq<RouterEvent>,
    b: Seq<RouterEvent>,
    snapshot_a: Seq<RouterEvent>,
    snapshot_b: Seq<RouterEvent>,
    again: Seq<RouterEvent>,
)
    requires
        all_unnumbered(a) == all_unnumbered(b),
        is_stable_sort(all_unnumbered(a), snapshot_a),
        is_stable_sort(all_unnumbered(b), snapshot_b),
        is_stable_sort(all_unnumbered(snapshot_a), again),
    ensures
        snapshot_a == snapshot_b,
        again == snapshot_a,
{
    stable_sort_is_unique(all_unnumbered(a), snapshot_a, snapshot_b);
    sorting_keeps_items(all_unnumbered(a), snapshot_a);
    assert forall|i: int| 0 <= i < snapshot_a.len() implies unnumbered(#[trigger] snapshot_a[i])
        == snapshot_a[i] by {
        assert(snapshot_a.contains(snapshot_a[i]));
        let j = choose|j: int| 0 <= j < a.len() && all_unnumbered(a)[j] == snapshot_a[i];
        assert(unnumbered(a[j]) == snapshot_a[i]);
    }
    assert(all_unnumbered(snapshot_a) =~= snapshot_a);
    assert(is_stable_sort(snapshot_a, snapshot_a));
    stable_sort_is_unique(snapshot_a, snapshot_a, again);
}

/// Where no two events are of one worker, rank and first block, their order does not
/// matter to a snapshot either.
pub proof fn snapshots_do_not_depend_on_order(
    a: Seq<RouterEvent>,
    b: Seq<RouterEvent>,
    snapshot_a: Seq<RouterEvent>,
    snapshot_b: Seq<RouterEvent>,
)
    requires
        all_unnumbered(a).to_multiset() == all_unnumbered(b).to_multiset(),
        forall|i: int, j: int|
            0 <= i < j < a.len() ==> (#[trigger] a[i]).rank() != (#[trigger] a[j]).rank(),
        is_stable_sort(all_unnumbered(a), snapshot_a),
        is_stable_sort(all_unnumbered(b), snapshot_b),
    ensures
        snapshot_a == snapshot_b,
{
    let all = all_unnumbered(a);
    assert forall|i: int, j: int| 0 <= i < j < all.len() implies (#[trigger] all[i]).rank() != (
    #[trigger] all[j]).rank() by {
        assert(all[i].rank() == a[i].rank() && all[j].rank() == a[j].rank());
    }
    distinct_ranks_sort_strictly(all, snapshot_a);
    distinct_ranks_sort_one_way(snapshot_a, snapshot_b);
}

/// Whether two match results are identical: the same score for the same
/// workers, and the same frequencies.
pub fn assert_overlap_scores_eq(left: &OverlapScores, right: &OverlapScores) -> (same: bool)
    ensures
        same == (left.scores@ == right.scores@ && left.frequencies@ == right.frequencies@),
{
    if left.frequencies.len() != right.frequencies.len() {
        return false;
    }
    for i in 0..left.frequencies.len()
        invariant
            left.frequencies@.len() == right.frequencies@.len(),
            left.frequencies@.take(i as int) =~= right.frequencies@.take(i as int),
    {
        if left.frequencies[i] != right.frequencies[i] {
            return false;
        }
    }
    assert(left.frequencies@ =~= right.frequencies@) by {
        assert(left.frequencies@.take(left.frequencies@.len() as int) =~= left.frequencies@);
        assert(right.frequencies@.take(right.frequencies@.len() as int) =~= right.frequencies@);
    }
    let same = scores_within(left, right) && scores_within(right, left);
    assert(same ==> left.scores@ =~= right.scores@);
    same
}

fn scores_within(left: &OverlapScores, right: &OverlapScores) -> (r: bool)
    ensures
        r == (forall|w: (u64, u32)| #[trigger]
            left.scores@.dom().contains(w) ==> right.scores@.dom().contains(w) && right.scores@[w]
                == left.scores@[w]),
{
    let workers = fx_worker_keys(&left.scores);
    for i in 0..workers.len()
        invariant
            workers@.to_set() == left.scores@.dom(),
            forall|j: int|
                0 <= j < i ==> right.scores@.dom().contains(#[trigger] workers@[j])
                    && right.scores@[workers@[j]] == left.scores@[workers@[j]],
    {
        assert(workers@.to_set().contains(workers@[i as int]));
        let mine = fx_get(&left.scores, &workers[i]);
        let theirs = fx_get(&right.scores, &workers[i]);
        match (mine, theirs) {
            (Some(mine), Some(theirs)) => {
                if *mine != *theirs {
                    return false;
                }
            },
            _ => {
                return false;
            },
        }
    }
    assert forall|w: (u64, u32)| #[trigger] left.scores@.dom().contains(w) implies
        right.scores@.dom().contains(w) && right.scores@[w] == left.scores@[w] by {
        assert(workers@.to_set().contains(w));
        let j = choose|j: int| 0 <= j < workers@.len() && workers@[j] == w;
        assert(workers@[j] == w);
    }
    true
}

/// A publisher of sequence events that publishes nothing.
pub struct NoopSequencePublisher;

/// A worker's configuration in its simplest form.
#[derive(Debug, PartialEq, Eq)]
pub struct SimpleWorkerConfig {
    pub data_parallel_start_rank: u32,
    pub data_parallel_size: u32,
    pub max_num_batched_tokens: Option<u64>,
    pub total_kv_blocks: Option<u64>,
    /// Names of the worker's taints; neither order nor repetition matters.
    pub taints: Vec<String>,
}

impl Default for SimpleWorkerConfig {
    fn default() -> (r: Self)
        ensures
            r.data_parallel_start_rank == 0,
            r.data_parallel_size == 1,
            r.max_num_batched_tokens is None,
            r.total_kv_blocks is None,
            r.taints@ == Seq::<String>::empty(),
    {
        SimpleWorkerConfig {
            data_parallel_start_rank: 0,
            data_parallel_size: 1,
            max_num_batched_tokens: None,
            total_kv_blocks: None,
            taints: Vec::new(),
        }
    }
}

} // verus!
