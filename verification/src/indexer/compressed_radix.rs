//! Nodes of a compressed radix tree and the events that recreate them.

use vstd::prelude::*;

use crate::collections::{
    fx_contains, fx_get, fx_insert, fx_remove, fx_worker_keys, FxMap,
};
use crate::protocols::{
    router_events_view, stored_blocks_view, EventDataView, ExternalSequenceBlockHash, KvCacheEvent,
    KvCacheEventData, KvCacheStoreData, KvCacheStoredBlockData, LocalBlockHash, RouterEvent,
    RouterEventView, StorageTier, StoredBlockView, WorkerWithDpRank,
};

verus! {

/// One block on an edge: the hash of its tokens and the hash that names it.
pub type EdgeBlock = (LocalBlockHash, ExternalSequenceBlockHash);

/// The edge blocks of stored blocks.
pub open spec fn edge_of_blocks(blocks: Seq<KvCacheStoredBlockData>) -> Seq<EdgeBlock> {
    blocks.map_values(|b: KvCacheStoredBlockData| (b.tokens_hash, b.block_hash))
}

/// Model of an edge block as a stored block.
pub open spec fn dumped_block(block: EdgeBlock) -> StoredBlockView {
    StoredBlockView { block_hash: block.1.0, tokens_hash: block.0.0, mm_extra_info: None }
}

/// Model of an edge as stored blocks.
pub open spec fn dumped_blocks(edge: Seq<EdgeBlock>) -> Seq<StoredBlockView> {
    edge.map_values(|b: EdgeBlock| dumped_block(b))
}

/// Model of the event that recreates a worker's coverage of an edge.
pub open spec fn dumped(
    worker: WorkerWithDpRank,
    event_id: u64,
    parent_hash: Option<ExternalSequenceBlockHash>,
    blocks: Seq<StoredBlockView>,
) -> RouterEventView {
    RouterEventView {
        worker_id: worker.worker_id,
        storage_tier: StorageTier::Device,
        event_id,
        dp_rank: worker.dp_rank,
        data: EventDataView::Stored { parent_hash, start_position: None, blocks },
    }
}

fn dump_event(
    worker: WorkerWithDpRank,
    event_id: u64,
    parent_hash: Option<ExternalSequenceBlockHash>,
    blocks: Vec<KvCacheStoredBlockData>,
) -> (event: RouterEvent)
    ensures
        event@ == dumped(worker, event_id, parent_hash, stored_blocks_view(blocks@)),
{
    RouterEvent::new(
        worker.worker_id,
        KvCacheEvent {
            event_id,
            data: KvCacheEventData::Stored(
                KvCacheStoreData { parent_hash, start_position: None, blocks },
            ),
            dp_rank: worker.dp_rank,
        },
    )
}

/// Model of the events that recreate an edge: one per worker, first those that
/// hold all of it, then those that hold a prefix.
pub open spec fn edge_events(
    event_id: u64,
    parent_hash: Option<ExternalSequenceBlockHash>,
    edge: Seq<EdgeBlock>,
    full_workers: Seq<WorkerWithDpRank>,
    worker_cutoffs: Seq<(WorkerWithDpRank, usize)>,
) -> Seq<RouterEventView> {
    Seq::new(
        full_workers.len() + worker_cutoffs.len(),
        |i: int|
            if i < full_workers.len() {
                dumped(full_workers[i], (event_id + i) as u64, parent_hash, dumped_blocks(edge))
            } else {
                let (worker, cutoff) = worker_cutoffs[i - full_workers.len()];
                dumped(
                    worker,
                    (event_id + i) as u64,
                    parent_hash,
                    dumped_blocks(edge).take(cutoff as int),
                )
            },
    )
}

fn blocks_of_edge(edge: &[EdgeBlock], len: usize) -> (blocks: Vec<KvCacheStoredBlockData>)
    requires
        len <= edge@.len(),
    ensures
        stored_blocks_view(blocks@) == dumped_blocks(edge@).take(len as int),
{
    let mut blocks: Vec<KvCacheStoredBlockData> = Vec::new();
    for i in 0..len
        invariant
            len <= edge@.len(),
            blocks@.len() == i,
            forall|j: int| 0 <= j < i ==> #[trigger] blocks@[j]@ == dumped_block(edge@[j]),
    {
        blocks.push(
            KvCacheStoredBlockData {
                tokens_hash: edge[i].0,
                block_hash: edge[i].1,
                mm_extra_info: None,
            },
        );
    }
    assert(stored_blocks_view(blocks@) =~= dumped_blocks(edge@).take(len as int));
    blocks
}

/// Appends the events that recreate an edge, numbered from `event_id` on. The
/// numbers must not run out; they do not where they stay behind the list's length.
pub fn append_dump_events(
    events: &mut Vec<RouterEvent>,
    event_id: &mut u64,
    parent_hash: Option<ExternalSequenceBlockHash>,
    edge: &[EdgeBlock],
    full_workers: &[WorkerWithDpRank],
    worker_cutoffs: &[(WorkerWithDpRank, usize)],
)
    requires
        *old(event_id) <= old(events)@.len() || *old(event_id) + full_workers@.len()
            + worker_cutoffs@.len() <= u64::MAX,
        forall|i: int|
            0 <= i < worker_cutoffs@.len() ==> (#[trigger] worker_cutoffs@[i]).1 <= edge@.len(),
    ensures
        *final(event_id) == *old(event_id) + full_workers@.len() + worker_cutoffs@.len(),
        router_events_view(final(events)@) == router_events_view(old(events)@) + edge_events(
            *old(event_id),
            parent_hash,
            edge@,
            full_workers@,
            worker_cutoffs@,
        ),
{
    let ghost start = events@;
    let ghost first = *event_id;
    let ghost all = edge_events(first, parent_hash, edge@, full_workers@, worker_cutoffs@);
    for i in 0..full_workers.len()
        invariant
            first <= start.len() || first + full_workers@.len() + worker_cutoffs@.len() <= u64::MAX,
            *event_id == first + i,
            all == edge_events(first, parent_hash, edge@, full_workers@, worker_cutoffs@),
            events@.len() == start.len() + i,
            forall|j: int| 0 <= j < start.len() ==> events@[j] == #[trigger] start[j],
            forall|j: int| 0 <= j < i ==> #[trigger] events@[start.len() + j]@ == all[j],
    {
        let blocks = blocks_of_edge(edge, edge.len());
        assert(dumped_blocks(edge@).take(edge@.len() as int) =~= dumped_blocks(edge@));
        events.push(dump_event(full_workers[i], *event_id, parent_hash, blocks));
        assert(events.len() == events@.len());
        *event_id += 1;
    }
    for i in 0..worker_cutoffs.len()
        invariant
            first <= start.len() || first + full_workers@.len() + worker_cutoffs@.len() <= u64::MAX,
            forall|i: int|
                0 <= i < worker_cutoffs@.len() ==> (#[trigger] worker_cutoffs@[i]).1 <= edge@.len(),
            *event_id == first + full_workers@.len() + i,
            all == edge_events(first, parent_hash, edge@, full_workers@, worker_cutoffs@),
            events@.len() == start.len() + full_workers@.len() + i,
            forall|j: int| 0 <= j < start.len() ==> events@[j] == #[trigger] start[j],
            forall|j: int|
                0 <= j < full_workers@.len() + i ==> #[trigger] events@[start.len() + j]@ == all[j],
    {
        let (worker, cutoff) = worker_cutoffs[i];
        let blocks = blocks_of_edge(edge, cutoff);
        events.push(dump_event(worker, *event_id, parent_hash, blocks));
        assert(events.len() == events@.len());
        *event_id += 1;
    }
    proof {
        let got = router_events_view(events@);
        let want = router_events_view(start) + all;
        assert(got.len() == want.len());
        assert forall|j: int| 0 <= j < got.len() implies got[j] == want[j] by {
            if j < start.len() {
                assert(events@[j] == start[j]);
            } else {
                assert(events@[start.len() + (j - start.len())]@ == all[j - start.len()]);
            }
        }
        assert(got =~= want);
    }
}

/// Block hashes that a worker no longer covers after a removal.
pub struct RemoveOutcome {
    pub stale_hashes: Vec<ExternalSequenceBlockHash>,
}

/// The part of a tree node that removals and stores work on: a compressed edge
/// and which workers hold how much of it.
pub struct NodeState {
    edge: Vec<EdgeBlock>,
    /// The last position of each block hash on the edge.
    edge_index: FxMap<u64, usize>,
    /// Workers that hold a proper prefix, and its length.
    worker_cutoffs: FxMap<(u64, u32), usize>,
    /// Workers that hold the whole edge.
    full_edge_workers: FxMap<(u64, u32), ()>,
}

/// Model of a [`NodeState`]: the edge, and how many of its leading blocks each
/// worker holds. Workers that hold none are absent.
pub struct NodeView {
    pub edge: Seq<EdgeBlock>,
    pub cover: Map<(u64, u32), nat>,
}

/// How many leading blocks of the edge a worker holds.
pub open spec fn cutoff_of(cover: Map<(u64, u32), nat>, worker: (u64, u32)) -> nat {
    if cover.dom().contains(worker) {
        cover[worker]
    } else {
        0
    }
}

/// Whether `pos` is the last position of a block hash on an edge.
pub open spec fn is_last_pos(edge: Seq<EdgeBlock>, hash: ExternalSequenceBlockHash, pos: int) -> bool {
    &&& 0 <= pos < edge.len()
    &&& edge[pos].1 == hash
    &&& forall|j: int| pos < j < edge.len() ==> (#[trigger] edge[j]).1 != hash
}

/// Whether a block hash occurs on an edge.
pub open spec fn on_edge(edge: Seq<EdgeBlock>, hash: ExternalSequenceBlockHash) -> bool {
    exists|i: int| 0 <= i < edge.len() && (#[trigger] edge[i]).1 == hash
}

/// Whether a worker holds a block with a hash at a position of a node's edge.
pub open spec fn held_at(
    node: NodeView,
    worker: (u64, u32),
    hash: ExternalSequenceBlockHash,
    pos: int,
) -> bool {
    &&& 0 <= pos < cutoff_of(node.cover, worker)
    &&& node.edge[pos].1 == hash
}

/// The block hashes of an edge.
pub open spec fn edge_hashes(edge: Seq<EdgeBlock>) -> Seq<ExternalSequenceBlockHash> {
    edge.map_values(|b: EdgeBlock| b.1)
}

/// Whether a worker's coverage of an edge makes sense: it holds at least one
/// block and at most all of them.
pub open spec fn node_view_wf(node: NodeView) -> bool {
    forall|w: (u64, u32)| #[trigger]
        node.cover.dom().contains(w) ==> 0 < node.cover[w] <= node.edge.len()
}

/// The workers of two lists, one behind the other.
pub open spec fn holder_keys(
    full_workers: Seq<WorkerWithDpRank>,
    worker_cutoffs: Seq<(WorkerWithDpRank, usize)>,
) -> Seq<(u64, u32)> {
    Seq::new(
        full_workers.len() + worker_cutoffs.len(),
        |i: int|
            if i < full_workers.len() {
                full_workers[i].spec_key()
            } else {
                worker_cutoffs[i - full_workers.len()].0.spec_key()
            },
    )
}

/// Whether two lists name the workers of a node, each once: those that hold the
/// whole edge, and those that hold a prefix with its length.
pub open spec fn holders_of(
    node: NodeView,
    full_workers: Seq<WorkerWithDpRank>,
    worker_cutoffs: Seq<(WorkerWithDpRank, usize)>,
) -> bool {
    let all = holder_keys(full_workers, worker_cutoffs);
    &&& forall|i: int, j: int| 0 <= i < j < all.len() ==> all[i] != all[j]
    &&& forall|w: (u64, u32)| #[trigger] node.cover.dom().contains(w) ==> all.contains(w)
    &&& forall|j: int|
        0 <= j < full_workers.len() ==> node.cover.dom().contains(
            (#[trigger] full_workers[j]).spec_key(),
        ) && node.cover[full_workers[j].spec_key()] == node.edge.len()
    &&& forall|j: int|
        0 <= j < worker_cutoffs.len() ==> node.cover.dom().contains(
            (#[trigger] worker_cutoffs[j]).0.spec_key(),
        ) && node.cover[worker_cutoffs[j].0.spec_key()] == worker_cutoffs[j].1
}

impl View for NodeState {
    type V = NodeView;

    closed spec fn view(&self) -> NodeView {
        NodeView {
            edge: self.edge@,
            cover: Map::new(
                |w: (u64, u32)|
                    self.full_edge_workers@.dom().contains(w)
                        || self.worker_cutoffs@.dom().contains(w),
                |w: (u64, u32)|
                    if self.full_edge_workers@.dom().contains(w) {
                        self.edge@.len()
                    } else {
                        self.worker_cutoffs@[w] as nat
                    },
            ),
        }
    }
}

/// Whether an index maps each block hash of an edge to its last position, and
/// nothing else.
spec fn index_matches(index: Map<u64, usize>, edge: Seq<EdgeBlock>) -> bool {
    &&& forall|h: u64| #[trigger]
        index.dom().contains(h) ==> is_last_pos(
            edge,
            ExternalSequenceBlockHash(h),
            index[h] as int,
        )
    &&& forall|i: int|
        0 <= i < edge.len() ==> index.dom().contains((#[trigger] edge[i]).1.0)
}

impl NodeState {
    /// The invariant of a node: the index is exact, no worker is both full and
    /// partial, and partial workers hold a proper non-empty prefix.
    pub closed spec fn wf(&self) -> bool {
        &&& index_matches(self.edge_index@, self.edge@)
        &&& forall|w: (u64, u32)| #[trigger]
            self.worker_cutoffs@.dom().contains(w) ==> 0 < self.worker_cutoffs@[w]
                < self.edge@.len() && !self.full_edge_workers@.dom().contains(w)
        &&& (exists|w: (u64, u32)| #[trigger] self.full_edge_workers@.dom().contains(w))
            ==> self.edge@.len() > 0
    }

    /// A well-formed node's coverage makes sense.
    pub proof fn wf_view(&self)
        requires
            self.wf(),
        ensures
            node_view_wf(self@),
    {
    }

    /// A node without an edge and without workers.
    pub fn empty() -> (node: Self)
        ensures
            node.wf(),
            node@.edge == Seq::<EdgeBlock>::empty(),
            node@.cover == Map::<(u64, u32), nat>::empty(),
    {
        let node = NodeState {
            edge: Vec::new(),
            edge_index: FxMap::default(),
            worker_cutoffs: FxMap::default(),
            full_edge_workers: FxMap::default(),
        };
        assert(node@.cover =~= Map::<(u64, u32), nat>::empty());
        node
    }

    /// A node whose edge is given blocks, all held by one worker.
    pub fn for_blocks(blocks: &[KvCacheStoredBlockData], worker: WorkerWithDpRank) -> (node: Self)
        requires
            blocks@.len() > 0,
        ensures
            node.wf(),
            node@.edge == edge_of_blocks(blocks@),
            node@.cover == Map::<(u64, u32), nat>::empty().insert(
                worker.spec_key(),
                blocks@.len(),
            ),
    {
        let mut edge: Vec<EdgeBlock> = Vec::new();
        for i in 0..blocks.len()
            invariant
                edge@ =~= edge_of_blocks(blocks@).take(i as int),
        {
            edge.push((blocks[i].tokens_hash, blocks[i].block_hash));
        }
        assert(edge@ =~= edge_of_blocks(blocks@));
        let mut full_edge_workers: FxMap<(u64, u32), ()> = FxMap::default();
        fx_insert(&mut full_edge_workers, worker.key(), ());
        let edge_index = Self::edge_index_for(edge.as_slice());
        let node = NodeState {
            edge,
            edge_index,
            worker_cutoffs: FxMap::default(),
            full_edge_workers,
        };
        assert(node@.cover =~= Map::<(u64, u32), nat>::empty().insert(
            worker.spec_key(),
            blocks@.len(),
        ));
        node
    }

    fn edge_index_for(edge: &[EdgeBlock]) -> (index: FxMap<u64, usize>)
        ensures
            index_matches(index@, edge@),
    {
        let mut index: FxMap<u64, usize> = FxMap::default();
        for i in 0..edge.len()
            invariant
                index_matches(index@, edge@.take(i as int)),
        {
            let ghost before = index@;
            fx_insert(&mut index, edge[i].1.0, i);
            proof {
                lemma_index_push(before, edge@.take(i as int), edge@[i as int]);
                assert(edge@.take(i as int).push(edge@[i as int]) =~= edge@.take(i + 1));
            }
        }
        assert(edge@.take(edge@.len() as int) =~= edge@);
        index
    }

    /// The edge.
    pub fn edge(&self) -> (edge: &Vec<EdgeBlock>)
        ensures
            edge@ == self@.edge,
    {
        &self.edge
    }

    /// The workers that hold the whole edge, and those that hold a prefix with its
    /// length, in no promised order.
    pub fn holders(&self) -> (r: (Vec<WorkerWithDpRank>, Vec<(WorkerWithDpRank, usize)>))
        requires
            self.wf(),
        ensures
            holders_of(self@, r.0@, r.1@),
    {
        let full = fx_worker_keys(&self.full_edge_workers);
        let partial = fx_worker_keys(&self.worker_cutoffs);
        let mut full_workers: Vec<WorkerWithDpRank> = Vec::new();
        for i in 0..full.len()
            invariant
                full_workers@.len() == i,
                forall|j: int|
                    0 <= j < i ==> (#[trigger] full_workers@[j]).spec_key() == full@[j],
        {
            full_workers.push(WorkerWithDpRank::new(full[i].0, full[i].1));
        }
        let mut worker_cutoffs: Vec<(WorkerWithDpRank, usize)> = Vec::new();
        for i in 0..partial.len()
            invariant
                forall|j: int|
                    0 <= j < partial@.len() ==> self.worker_cutoffs@.dom().contains(
                        #[trigger] partial@[j],
                    ),
                worker_cutoffs@.len() == i,
                forall|j: int|
                    0 <= j < i ==> (#[trigger] worker_cutoffs@[j]).0.spec_key() == partial@[j]
                        && worker_cutoffs@[j].1 == self.worker_cutoffs@[partial@[j]],
        {
            match fx_get(&self.worker_cutoffs, &partial[i]) {
                Some(cutoff) => {
                    worker_cutoffs.push((WorkerWithDpRank::new(partial[i].0, partial[i].1), *cutoff));
                },
                None => {
                    assert(self.worker_cutoffs@.dom().contains(partial@[i as int]));
                },
            }
        }
        proof {
            assert forall|j: int| 0 <= j < full_workers@.len() implies self@.cover.dom().contains(
                (#[trigger] full_workers@[j]).spec_key(),
            ) && self@.cover[full_workers@[j].spec_key()] == self@.edge.len() by {
                assert(full@.to_set().contains(full@[j]));
            }
            assert forall|j: int| 0 <= j < worker_cutoffs@.len() implies self@.cover.dom().contains(
                (#[trigger] worker_cutoffs@[j]).0.spec_key(),
            ) && self@.cover[worker_cutoffs@[j].0.spec_key()] == worker_cutoffs@[j].1 by {
                assert(partial@.to_set().contains(partial@[j]));
            }
            let all = holder_keys(full_workers@, worker_cutoffs@);
            assert(all =~= full@ + partial@);
            assert forall|i: int, j: int| 0 <= i < j < all.len() implies all[i] != all[j] by {
                if i < full@.len() && j >= full@.len() {
                    assert(full@.to_set().contains(full@[i]));
                    assert(partial@.to_set().contains(partial@[j - full@.len()]));
                }
            }
            assert forall|w: (u64, u32)| #[trigger] self@.cover.dom().contains(w) implies all.contains(
                w,
            ) by {
                if self.full_edge_workers@.dom().contains(w) {
                    assert(full@.to_set().contains(w));
                    let i = choose|i: int| 0 <= i < full@.len() && full@[i] == w;
                    assert(all[i] == w);
                } else {
                    assert(partial@.to_set().contains(w));
                    let i = choose|i: int| 0 <= i < partial@.len() && partial@[i] == w;
                    assert(all[full@.len() + i] == w);
                }
            }
        }
        (full_workers, worker_cutoffs)
    }

    /// The last position of a block hash on the edge.
    pub fn position_of(&self, hash: ExternalSequenceBlockHash) -> (pos: Option<usize>)
        requires
            self.wf(),
        ensures
            pos is Some <==> on_edge(self@.edge, hash),
            pos is Some ==> is_last_pos(self@.edge, hash, pos->0 as int),
    {
        match fx_get(&self.edge_index, &hash.0) {
            Some(pos) => {
                assert(self.edge@[*pos as int].1 == hash);
                Some(*pos)
            },
            None => None,
        }
    }

    /// Number of leading blocks that a worker holds.
    pub fn current_cutoff(&self, worker: WorkerWithDpRank) -> (cutoff: usize)
        requires
            self.wf(),
        ensures
            cutoff == cutoff_of(self@.cover, worker.spec_key()),
    {
        if fx_contains(&self.full_edge_workers, &worker.key()) {
            self.edge.len()
        } else {
            match fx_get(&self.worker_cutoffs, &worker.key()) {
                Some(cutoff) => *cutoff,
                None => 0,
            }
        }
    }

    /// A position of a block hash on the edge that a worker holds.
    pub fn held_position(
        &self,
        worker: WorkerWithDpRank,
        hash: ExternalSequenceBlockHash,
    ) -> (pos: Option<usize>)
        requires
            self.wf(),
        ensures
            pos is Some ==> pos->0 < self@.edge.len() && held_at(
                self@,
                worker.spec_key(),
                hash,
                pos->0 as int,
            ),
            pos is None ==> forall|p: int| !held_at(self@, worker.spec_key(), hash, p),
    {
        let pos = match self.position_of(hash) {
            Some(pos) => pos,
            None => {
                return None;
            },
        };
        let cutoff = self.current_cutoff(worker);
        proof {
            self.wf_view();
        }
        if pos < cutoff {
            return Some(pos);
        }
        // The hash occurs again after the part that the worker holds.
        for i in 0..cutoff
            invariant
                self.wf(),
                cutoff == cutoff_of(self@.cover, worker.spec_key()),
                cutoff <= self@.edge.len(),
                forall|p: int| 0 <= p < i ==> (#[trigger] self@.edge[p]).1 != hash,
        {
            if self.edge[i].1.0 == hash.0 {
                return Some(i);
            }
        }
        None
    }

    /// Whether a worker holds the block at a position of the edge.
    pub fn covers_pos(&self, worker: WorkerWithDpRank, pos: usize) -> (r: bool)
        requires
            self.wf(),
            pos < self@.edge.len(),
        ensures
            r == (pos < cutoff_of(self@.cover, worker.spec_key())),
    {
        fx_contains(&self.full_edge_workers, &worker.key()) || (match fx_get(
            &self.worker_cutoffs,
            &worker.key(),
        ) {
            Some(cutoff) => pos < *cutoff,
            None => false,
        })
    }

    /// The block hashes from a position on.
    fn uncovered_suffix_hashes(&self, cutoff: usize) -> (hashes: Vec<ExternalSequenceBlockHash>)
        requires
            cutoff <= self@.edge.len(),
        ensures
            hashes@ == edge_hashes(self@.edge).skip(cutoff as int),
    {
        let mut hashes: Vec<ExternalSequenceBlockHash> = Vec::new();
        let mut i: usize = cutoff;
        while i < self.edge.len()
            invariant
                cutoff <= i <= self.edge@.len(),
                hashes@ =~= edge_hashes(self.edge@).subrange(cutoff as int, i as int),
            decreases self.edge.len() - i,
        {
            hashes.push(self.edge[i].1);
            i += 1;
        }
        assert(hashes@ =~= edge_hashes(self@.edge).skip(cutoff as int));
        hashes
    }

    /// Takes a worker off the node.
    pub fn drop_worker(&mut self, worker: WorkerWithDpRank)
        requires
            old(self).wf(),
        ensures
            final(self).wf(),
            final(self)@.edge == old(self)@.edge,
            final(self)@.cover == old(self)@.cover.remove(worker.spec_key()),
    {
        fx_remove(&mut self.full_edge_workers, &worker.key());
        fx_remove(&mut self.worker_cutoffs, &worker.key());
        assert(self@.cover =~= old(self)@.cover.remove(worker.spec_key()));
    }

    /// Lets a worker hold the whole edge. Returns whether it did not before.
    pub fn promote_to_full(&mut self, worker: WorkerWithDpRank) -> (changed: bool)
        requires
            old(self).wf(),
            old(self)@.edge.len() > 0,
        ensures
            final(self).wf(),
            final(self)@.edge == old(self)@.edge,
            final(self)@.cover == old(self)@.cover.insert(
                worker.spec_key(),
                old(self)@.edge.len(),
            ),
            changed == (cutoff_of(old(self)@.cover, worker.spec_key()) < old(self)@.edge.len()),
    {
        if fx_contains(&self.full_edge_workers, &worker.key()) {
            assert(self@.cover =~= old(self)@.cover.insert(
                worker.spec_key(),
                old(self)@.edge.len(),
            ));
            return false;
        }
        fx_remove(&mut self.worker_cutoffs, &worker.key());
        fx_insert(&mut self.full_edge_workers, worker.key(), ());
        assert(self@.cover =~= old(self)@.cover.insert(worker.spec_key(), old(self)@.edge.len()));
        true
    }

    /// Lets a worker hold at least the first `cutoff` blocks. Returns whether it
    /// holds more than before.
    pub fn cover_prefix_for_worker(&mut self, worker: WorkerWithDpRank, cutoff: usize) -> (changed:
        bool)
        requires
            old(self).wf(),
            cutoff <= old(self)@.edge.len(),
        ensures
            final(self).wf(),
            final(self)@.edge == old(self)@.edge,
            changed == (cutoff > cutoff_of(old(self)@.cover, worker.spec_key())),
            final(self)@.cover == if changed {
                old(self)@.cover.insert(worker.spec_key(), cutoff as nat)
            } else {
                old(self)@.cover
            },
    {
        if cutoff == 0 {
            return false;
        }
        if cutoff >= self.edge.len() {
            let changed = self.promote_to_full(worker);
            proof {
                old(self).wf_view();
                assert(!changed ==> self@.cover =~= old(self)@.cover);
            }
            return changed;
        }
        if fx_contains(&self.full_edge_workers, &worker.key()) {
            return false;
        }
        let held = match fx_get(&self.worker_cutoffs, &worker.key()) {
            Some(existing) => *existing,
            None => 0,
        };
        if held >= cutoff {
            return false;
        }
        fx_insert(&mut self.worker_cutoffs, worker.key(), cutoff);
        assert(self@.cover =~= old(self)@.cover.insert(worker.spec_key(), cutoff as nat));
        true
    }

    /// Whether the edge ends with a block hash.
    pub fn tail_hash_is(&self, hash: ExternalSequenceBlockHash) -> (r: bool)
        ensures
            r == (self@.edge.len() > 0 && self@.edge.last().1 == hash),
    {
        self.edge.len() > 0 && self.edge[self.edge.len() - 1].1 == hash
    }

    /// Number of leading blocks that equal the edge from `from` on.
    fn common_len(&self, from: usize, blocks: &[KvCacheStoredBlockData]) -> (len: usize)
        requires
            from <= self@.edge.len(),
        ensures
            len <= blocks@.len(),
            from + len <= self@.edge.len(),
            self@.edge.subrange(from as int, from + len) == edge_of_blocks(blocks@).take(
                len as int,
            ),
            len < blocks@.len() && from + len < self@.edge.len() ==> self@.edge[from + len]
                != edge_of_blocks(blocks@)[len as int],
    {
        let mut len: usize = 0;
        while len < blocks.len() && len < self.edge.len() - from && self.edge[from + len].0
            == blocks[len].tokens_hash && self.edge[from + len].1 == blocks[len].block_hash
            invariant
                from <= self.edge@.len(),
                len <= blocks@.len(),
                from + len <= self.edge@.len(),
                self.edge@.subrange(from as int, from + len) =~= edge_of_blocks(blocks@).take(
                    len as int,
                ),
            decreases blocks.len() - len,
        {
            len += 1;
        }
        len
    }

    /// Whether blocks stored below the block at `parent_pos` only repeat what
    /// follows it on the edge.
    pub fn suffix_matches_store(&self, parent_pos: usize, blocks: &[KvCacheStoredBlockData]) -> (r:
        bool)
        requires
            parent_pos < usize::MAX,
        ensures
            r == repeats_suffix(self@.edge, parent_pos as int, edge_of_blocks(blocks@)),
    {
        if parent_pos + 1 > self.edge.len() {
            return false;
        }
        if blocks.len() > self.edge.len() - (parent_pos + 1) {
            return false;
        }
        let len = self.common_len(parent_pos + 1, blocks);
        proof {
            let from = parent_pos + 1;
            let new = edge_of_blocks(blocks@);
            if len == blocks@.len() {
                assert(new.take(len as int) =~= new);
            } else {
                assert(self@.edge.subrange(from, from + new.len())[len as int] != new[len as int]);
            }
        }
        len == blocks.len()
    }

    /// How many of the blocks stored below the block at `parent_pos` repeat the
    /// rest of the edge, where they go on after all of it.
    pub fn store_starts_with_suffix(&self, parent_pos: usize, blocks: &[KvCacheStoredBlockData]) -> (r:
        Option<usize>)
        requires
            parent_pos < usize::MAX,
        ensures
            r is Some <==> continues_suffix(
                self@.edge,
                parent_pos as int,
                edge_of_blocks(blocks@),
            ),
            r is Some ==> r->0 == self@.edge.len() - (parent_pos + 1),
    {
        if parent_pos + 1 > self.edge.len() {
            return None;
        }
        let rest: usize = self.edge.len() - (parent_pos + 1);
        if blocks.len() <= rest {
            return None;
        }
        let len = self.common_len(parent_pos + 1, blocks);
        proof {
            let from = parent_pos + 1;
            let new = edge_of_blocks(blocks@);
            if len == rest {
                assert(self@.edge.skip(from) =~= self@.edge.subrange(from, from + len));
            } else {
                assert(self@.edge.skip(from)[len as int] != new.take(rest as int)[len as int]);
            }
        }
        if len == rest {
            Some(rest)
        } else {
            None
        }
    }

    /// Extends the edge by blocks that one worker holds. The other workers that
    /// held the whole edge now hold what it was.
    pub fn append_blocks_to_leaf(
        &mut self,
        worker: WorkerWithDpRank,
        blocks: &[KvCacheStoredBlockData],
    )
        requires
            old(self).wf(),
            old(self)@.edge.len() > 0,
            blocks@.len() > 0,
            old(self)@.edge.len() + blocks@.len() <= usize::MAX,
        ensures
            final(self).wf(),
            final(self)@.edge == old(self)@.edge + edge_of_blocks(blocks@),
            final(self)@.cover == old(self)@.cover.insert(
                worker.spec_key(),
                old(self)@.edge.len() + blocks@.len(),
            ),
    {
        let old_len = self.edge.len();
        let ghost before = *self;
        let ghost me = worker.spec_key();
        let full = fx_worker_keys(&self.full_edge_workers);
        for i in 0..full.len()
            invariant
                full@.no_duplicates(),
                full@.to_set() == before.full_edge_workers@.dom(),
                me == worker.spec_key(),
                self.edge@ == before.edge@,
                self.edge_index@ == before.edge_index@,
                old_len == before.edge@.len(),
                before.wf(),
                forall|w: (u64, u32)| #[trigger]
                    self.full_edge_workers@.dom().contains(w)
                        <==> before.full_edge_workers@.dom().contains(w) && (w == me
                        || !full@.take(i as int).contains(w)),
                forall|w: (u64, u32)| #[trigger]
                    self.worker_cutoffs@.dom().contains(w)
                        <==> before.worker_cutoffs@.dom().contains(w) || (w != me
                        && full@.take(i as int).contains(w)),
                forall|w: (u64, u32)| #[trigger]
                    self.worker_cutoffs@.dom().contains(w) ==> self.worker_cutoffs@[w] == if w != me
                        && full@.take(i as int).contains(w) {
                        old_len
                    } else {
                        before.worker_cutoffs@[w]
                    },
        {
            let ghost done = full@.take(i as int);
            let ghost full_before = self.full_edge_workers@;
            let ghost cut_before = self.worker_cutoffs@;
            let other = full[i];
            if other.0 != worker.worker_id || other.1 != worker.dp_rank {
                fx_remove(&mut self.full_edge_workers, &other);
                fx_insert(&mut self.worker_cutoffs, other, old_len);
            }
            proof {
                let next = full@.take(i + 1);
                assert(next =~= done.push(other));
                assert(full@.to_set().contains(other));
                assert forall|w: (u64, u32)| #[trigger]
                    next.contains(w) <==> done.contains(w) || w == other by {
                    if done.contains(w) {
                        let j = choose|j: int| 0 <= j < done.len() && done[j] == w;
                        assert(next[j] == w);
                    }
                    if w == other {
                        assert(next[i as int] == w);
                    }
                    if next.contains(w) && w != other {
                        let j = choose|j: int| 0 <= j < next.len() && next[j] == w;
                        assert(done[j] == w);
                    }
                }
                assert(!done.contains(other)) by {
                    if done.contains(other) {
                        let j = choose|j: int| 0 <= j < done.len() && done[j] == other;
                        assert(full@[j] == full@[i as int]);
                    }
                }
            }
        }
        assert(full@.take(full@.len() as int) =~= full@);
        proof {
            assert forall|w: (u64, u32)| #[trigger]
                full@.contains(w) <==> before.full_edge_workers@.dom().contains(w) by {
                assert(full@.to_set().contains(w) <==> full@.contains(w));
            }
        }
        fx_remove(&mut self.worker_cutoffs, &worker.key());
        fx_insert(&mut self.full_edge_workers, worker.key(), ());
        for i in 0..blocks.len()
            invariant
                old_len + blocks@.len() <= usize::MAX,
                self.edge@ =~= before.edge@ + edge_of_blocks(blocks@).take(i as int),
                old_len == before.edge@.len(),
                index_matches(self.edge_index@, self.edge@),
                forall|w: (u64, u32)| #[trigger]
                    self.full_edge_workers@.dom().contains(w) <==> w == me,
                forall|w: (u64, u32)| #[trigger]
                    self.worker_cutoffs@.dom().contains(w) <==> w != me
                        && before@.cover.dom().contains(w),
                forall|w: (u64, u32)| #[trigger]
                    self.worker_cutoffs@.dom().contains(w) ==> self.worker_cutoffs@[w]
                        == before@.cover[w],
        {
            let ghost edge_before = self.edge@;
            let ghost index_before = self.edge_index@;
            self.edge.push((blocks[i].tokens_hash, blocks[i].block_hash));
            fx_insert(&mut self.edge_index, blocks[i].block_hash.0, old_len + i);
            proof {
                lemma_index_push(
                    index_before,
                    edge_before,
                    (blocks@[i as int].tokens_hash, blocks@[i as int].block_hash),
                );
            }
        }
        assert(edge_of_blocks(blocks@).take(blocks@.len() as int) =~= edge_of_blocks(blocks@));
        assert(self@.cover =~= before@.cover.insert(me, old_len as nat + blocks@.len()));
        proof {
            before.wf_view();
        }
    }

    /// Takes the block at a position, and with it all later blocks of the edge,
    /// away from a worker. The stale hashes are those that the worker does not
    /// hold afterwards; where it did not hold the position only the removed
    /// hash is stale.
    pub fn remove_worker_at_pos(
        &mut self,
        worker: WorkerWithDpRank,
        pos: usize,
        removed_hash: ExternalSequenceBlockHash,
    ) -> (outcome: RemoveOutcome)
        requires
            old(self).wf(),
        ensures
            final(self).wf(),
            final(self)@.edge == old(self)@.edge,
            final(self)@.cover == without_pos(old(self)@.cover, worker.spec_key(), pos as nat),
            outcome.stale_hashes@ == if pos < cutoff_of(old(self)@.cover, worker.spec_key()) {
                edge_hashes(old(self)@.edge).skip(pos as int)
            } else {
                seq![removed_hash]
            },
    {
        proof {
            self.wf_view();
        }
        let current_cutoff = self.current_cutoff(worker);
        if pos >= current_cutoff {
            let mut stale_hashes: Vec<ExternalSequenceBlockHash> = Vec::new();
            stale_hashes.push(removed_hash);
            assert(stale_hashes@ =~= seq![removed_hash]);
            return RemoveOutcome { stale_hashes };
        }
        let stale_hashes = self.uncovered_suffix_hashes(pos);
        if pos == 0 {
            self.drop_worker(worker);
        } else {
            fx_remove(&mut self.full_edge_workers, &worker.key());
            fx_insert(&mut self.worker_cutoffs, worker.key(), pos);
            assert(self@.cover =~= old(self)@.cover.insert(worker.spec_key(), pos as nat));
        }
        RemoveOutcome { stale_hashes }
    }

    /// The workers that hold something of the edge, each once.
    pub fn workers(&self) -> (workers: Vec<(u64, u32)>)
        requires
            self.wf(),
        ensures
            workers@.no_duplicates(),
            workers@.to_set() == self@.cover.dom(),
    {
        let mut workers = fx_worker_keys(&self.full_edge_workers);
        let partial = fx_worker_keys(&self.worker_cutoffs);
        let ghost full = workers@;
        for i in 0..partial.len()
            invariant
                workers@ =~= full + partial@.take(i as int),
        {
            workers.push(partial[i]);
        }
        proof {
            assert(workers@ =~= full + partial@);
            assert forall|w: (u64, u32)| #[trigger]
                workers@.to_set().contains(w) <==> self@.cover.dom().contains(w) by {
                assert(full.to_set().contains(w) <==> full.contains(w));
                assert(partial@.to_set().contains(w) <==> partial@.contains(w));
                if full.contains(w) {
                    let j = choose|j: int| 0 <= j < full.len() && full[j] == w;
                    assert(workers@[j] == w);
                }
                if partial@.contains(w) {
                    let j = choose|j: int| 0 <= j < partial@.len() && partial@[j] == w;
                    assert(workers@[full.len() + j] == w);
                }
                if workers@.contains(w) {
                    let j = choose|j: int| 0 <= j < workers@.len() && workers@[j] == w;
                    if j < full.len() {
                        assert(full[j] == w);
                    } else {
                        assert(partial@[j - full.len()] == w);
                    }
                }
            }
            assert(workers@.to_set() =~= self@.cover.dom());
            assert forall|i: int, j: int|
                0 <= i < workers@.len() && 0 <= j < workers@.len() && i != j implies workers@[i]
                != workers@[j] by {
                if i < full.len() && j >= full.len() {
                    assert(full.to_set().contains(full[i]));
                    assert(partial@.to_set().contains(partial@[j - full.len()]));
                } else if j < full.len() && i >= full.len() {
                    assert(full.to_set().contains(full[j]));
                    assert(partial@.to_set().contains(partial@[i - full.len()]));
                } else if i >= full.len() {
                    assert(partial@[i - full.len()] != partial@[j - full.len()]);
                }
            }
        }
        workers
    }

    /// The workers that hold the whole edge.
    pub fn full_workers(&self) -> (workers: Vec<WorkerWithDpRank>)
        requires
            self.wf(),
        ensures
            workers@.no_duplicates(),
            forall|w: WorkerWithDpRank| #[trigger]
                workers@.contains(w) <==> self@.cover.dom().contains(w.spec_key())
                    && self@.cover[w.spec_key()] == self@.edge.len(),
    {
        let keys = fx_worker_keys(&self.full_edge_workers);
        let mut workers: Vec<WorkerWithDpRank> = Vec::new();
        for i in 0..keys.len()
            invariant
                keys@.to_set() == self.full_edge_workers@.dom(),
                workers@.len() == i,
                forall|j: int| 0 <= j < i ==> (#[trigger] workers@[j]).spec_key() == keys@[j],
        {
            workers.push(WorkerWithDpRank::new(keys[i].0, keys[i].1));
        }
        proof {
            assert forall|w: WorkerWithDpRank| #[trigger]
                workers@.contains(w) <==> self@.cover.dom().contains(w.spec_key())
                    && self@.cover[w.spec_key()] == self@.edge.len() by {
                assert(keys@.to_set().contains(w.spec_key()) <==> keys@.contains(w.spec_key()));
                if keys@.contains(w.spec_key()) {
                    let j = choose|j: int| 0 <= j < keys@.len() && keys@[j] == w.spec_key();
                    assert(workers@[j] == w);
                }
                if workers@.contains(w) {
                    let j = choose|j: int| 0 <= j < workers@.len() && workers@[j] == w;
                    assert(keys@[j] == w.spec_key());
                }
            }
            assert forall|i: int, j: int|
                0 <= i < workers@.len() && 0 <= j < workers@.len() && i != j implies workers@[i]
                != workers@[j] by {
                assert(keys@[i] != keys@[j]);
            }
        }
        workers
    }

    /// The workers that hold a proper prefix of the edge, with its length.
    pub fn partial_workers(&self) -> (workers: Vec<(WorkerWithDpRank, usize)>)
        requires
            self.wf(),
        ensures
            forall|i: int|
                0 <= i < workers@.len() ==> {
                    let (w, k) = #[trigger] workers@[i];
                    &&& self@.cover.dom().contains(w.spec_key())
                    &&& self@.cover[w.spec_key()] == k
                    &&& 0 < k < self@.edge.len()
                },
            forall|i: int, j: int|
                0 <= i < j < workers@.len() ==> (#[trigger] workers@[i]).0 != (
                #[trigger] workers@[j]).0,
            forall|w: WorkerWithDpRank|
                self@.cover.dom().contains(#[trigger] w.spec_key()) && self@.cover[w.spec_key()]
                    < self@.edge.len() ==> exists|i: int|
                    0 <= i < workers@.len() && (#[trigger] workers@[i]).0 == w,
    {
        let keys = fx_worker_keys(&self.worker_cutoffs);
        let mut workers: Vec<(WorkerWithDpRank, usize)> = Vec::new();
        for i in 0..keys.len()
            invariant
                self.wf(),
                keys@.to_set() == self.worker_cutoffs@.dom(),
                workers@.len() == i,
                forall|j: int|
                    0 <= j < i ==> (#[trigger] workers@[j]).0.spec_key() == keys@[j]
                        && self.worker_cutoffs@.dom().contains(keys@[j]) && workers@[j].1
                        == self.worker_cutoffs@[keys@[j]],
        {
            assert(keys@.to_set().contains(keys@[i as int]));
            match fx_get(&self.worker_cutoffs, &keys[i]) {
                Some(cutoff) => {
                    workers.push((WorkerWithDpRank::new(keys[i].0, keys[i].1), *cutoff));
                },
                None => {
                    assert(false);
                },
            }
        }
        proof {
            assert forall|i: int, j: int| 0 <= i < j < workers@.len() implies (
            #[trigger] workers@[i]).0 != (#[trigger] workers@[j]).0 by {
                assert(keys@[i] != keys@[j]);
            }
            assert forall|w: WorkerWithDpRank|
                self@.cover.dom().contains(#[trigger] w.spec_key()) && self@.cover[w.spec_key()]
                    < self@.edge.len() implies exists|i: int|
                0 <= i < workers@.len() && (#[trigger] workers@[i]).0 == w by {
                assert(self.worker_cutoffs@.dom().contains(w.spec_key()));
                assert(keys@.to_set().contains(w.spec_key()));
                let i = choose|i: int| 0 <= i < keys@.len() && keys@[i] == w.spec_key();
                assert(workers@[i].0 == w);
            }
        }
        workers
    }

    /// Splits the edge at a position. This node keeps what is before it; a new
    /// node gets the rest, and each worker keeps in both what it held.
    pub fn split_off(&mut self, at: usize) -> (rest: NodeState)
        requires
            old(self).wf(),
            0 < at < old(self)@.edge.len(),
        ensures
            final(self).wf(),
            rest.wf(),
            final(self)@.edge == old(self)@.edge.take(at as int),
            rest@.edge == old(self)@.edge.skip(at as int),
            final(self)@.cover == head_cover(old(self)@.cover, at as nat),
            rest@.cover == tail_cover(old(self)@.cover, at as nat),
    {
        let ghost before = *self;
        proof {
            self.wf_view();
        }
        let workers = self.workers();
        let mut head_cutoffs: FxMap<(u64, u32), usize> = FxMap::default();
        let mut head_full: FxMap<(u64, u32), ()> = FxMap::default();
        let mut tail_cutoffs: FxMap<(u64, u32), usize> = FxMap::default();
        let mut tail_full: FxMap<(u64, u32), ()> = FxMap::default();
        let len = self.edge.len();
        for i in 0..workers.len()
            invariant
                self@ == before@,
                self.wf(),
                node_view_wf(before@),
                0 < at < len,
                len == before@.edge.len(),
                workers@.to_set() == before@.cover.dom(),
                forall|w: (u64, u32)| #[trigger]
                    head_full@.dom().contains(w) <==> workers@.take(i as int).contains(w)
                        && before@.cover[w] >= at,
                forall|w: (u64, u32)| #[trigger]
                    head_cutoffs@.dom().contains(w) <==> workers@.take(i as int).contains(w)
                        && before@.cover[w] < at,
                forall|w: (u64, u32)| #[trigger]
                    head_cutoffs@.dom().contains(w) ==> head_cutoffs@[w] == before@.cover[w],
                forall|w: (u64, u32)| #[trigger]
                    tail_full@.dom().contains(w) <==> workers@.take(i as int).contains(w)
                        && before@.cover[w] == len,
                forall|w: (u64, u32)| #[trigger]
                    tail_cutoffs@.dom().contains(w) <==> workers@.take(i as int).contains(w) && at
                        < before@.cover[w] < len,
                forall|w: (u64, u32)| #[trigger]
                    tail_cutoffs@.dom().contains(w) ==> tail_cutoffs@[w] == before@.cover[w] - at,
        {
            let w = workers[i];
            let ghost done = workers@.take(i as int);
            let ghost next = workers@.take(i + 1);
            proof {
                assert(workers@.to_set().contains(w));
                assert(next =~= done.push(w));
                assert forall|x: (u64, u32)| #[trigger]
                    next.contains(x) <==> done.contains(x) || x == w by {
                    if done.contains(x) {
                        let j = choose|j: int| 0 <= j < done.len() && done[j] == x;
                        assert(next[j] == x);
                    }
                    if x == w {
                        assert(next[i as int] == x);
                    }
                    if next.contains(x) && x != w {
                        let j = choose|j: int| 0 <= j < next.len() && next[j] == x;
                        assert(done[j] == x);
                    }
                }
            }
            let cutoff = self.current_cutoff(WorkerWithDpRank::new(w.0, w.1));
            assert(cutoff == before@.cover[w]);
            if cutoff >= at {
                fx_insert(&mut head_full, w, ());
                if cutoff == len {
                    fx_insert(&mut tail_full, w, ());
                } else if cutoff > at {
                    fx_insert(&mut tail_cutoffs, w, cutoff - at);
                }
            } else {
                fx_insert(&mut head_cutoffs, w, cutoff);
            }
        }
        proof {
            assert(workers@.take(workers@.len() as int) =~= workers@);
            assert forall|w: (u64, u32)| #[trigger]
                workers@.contains(w) <==> before@.cover.dom().contains(w) by {
                assert(workers@.to_set().contains(w) <==> workers@.contains(w));
            }
        }
        let tail = self.edge.split_off(at);
        assert(tail@ =~= before@.edge.skip(at as int));
        assert(self.edge@ =~= before@.edge.take(at as int));
        let tail_index = Self::edge_index_for(tail.as_slice());
        let head_index = Self::edge_index_for(self.edge.as_slice());
        self.edge_index = head_index;
        self.worker_cutoffs = head_cutoffs;
        self.full_edge_workers = head_full;
        let rest = NodeState {
            edge: tail,
            edge_index: tail_index,
            worker_cutoffs: tail_cutoffs,
            full_edge_workers: tail_full,
        };
        assert(self@.cover =~= head_cover(before@.cover, at as nat));
        assert(rest@.cover =~= tail_cover(before@.cover, at as nat));
        rest
    }

    /// Takes several blocks of the edge away from a worker: the first of them on
    /// the edge, and with it all later ones. Where none of the hashes is on the
    /// edge nothing happens and there is no outcome.
    pub fn remove_worker_for_hashes(
        &mut self,
        worker: WorkerWithDpRank,
        hashes: &[ExternalSequenceBlockHash],
    ) -> (outcome: Option<BatchRemoveOutcome>)
        requires
            old(self).wf(),
        ensures
            final(self).wf(),
            final(self)@.edge == old(self)@.edge,
            outcome is None <==> forall|i: int|
                0 <= i < hashes@.len() ==> !on_edge(old(self)@.edge, #[trigger] hashes@[i]),
            outcome is None ==> final(self)@.cover == old(self)@.cover,
            outcome is Some ==> {
                let first = first_pos(old(self)@.edge, hashes@);
                &&& final(self)@.cover == without_pos(
                    old(self)@.cover,
                    worker.spec_key(),
                    first as nat,
                )
                &&& outcome->0.unmatched_hashes@ == hashes@.filter(
                    |h: ExternalSequenceBlockHash| !on_edge(old(self)@.edge, h),
                )
                &&& outcome->0.stale_hashes@ == if first < cutoff_of(
                    old(self)@.cover,
                    worker.spec_key(),
                ) {
                    edge_hashes(old(self)@.edge).skip(first)
                } else {
                    hashes@.filter(|h: ExternalSequenceBlockHash| on_edge(old(self)@.edge, h))
                }
            },
    {
        let ghost edge = self@.edge;
        let ghost on = |h: ExternalSequenceBlockHash| on_edge(edge, h);
        let ghost off = |h: ExternalSequenceBlockHash| !on_edge(edge, h);
        let mut first: Option<usize> = None;
        let mut matched: Vec<ExternalSequenceBlockHash> = Vec::new();
        let mut unmatched: Vec<ExternalSequenceBlockHash> = Vec::new();
        assert(hashes@.take(0) =~= Seq::empty());
        assert(hashes@.take(0).filter(on) =~= Seq::empty());
        assert(hashes@.take(0).filter(off) =~= Seq::empty());
        for i in 0..hashes.len()
            invariant
                self.wf(),
                self@.edge == edge,
                on == (|h: ExternalSequenceBlockHash| on_edge(edge, h)),
                off == (|h: ExternalSequenceBlockHash| !on_edge(edge, h)),
                matched@ == hashes@.take(i as int).filter(on),
                unmatched@ == hashes@.take(i as int).filter(off),
                first is None <==> forall|j: int|
                    0 <= j < i ==> !on_edge(edge, #[trigger] hashes@[j]),
                first is Some ==> first->0 == first_pos(edge, hashes@.take(i as int)),
        {
            let hash = hashes[i];
            let ghost done = hashes@.take(i as int);
            let ghost next = hashes@.take(i + 1);
            proof {
                assert(next.drop_last() =~= done);
                assert(next.last() == hash);
                reveal(Seq::filter);
                lemma_first_pos(edge, done);
            }
            match self.position_of(hash) {
                Some(pos) => {
                    matched.push(hash);
                    proof {
                        lemma_last_pos_unique(edge, hash, pos as int);
                    }
                    first = match first {
                        Some(first) => if first <= pos {
                            Some(first)
                        } else {
                            Some(pos)
                        },
                        None => Some(pos),
                    };
                },
                None => {
                    unmatched.push(hash);
                },
            }
        }
        assert(hashes@.take(hashes@.len() as int) =~= hashes@);
        match first {
            None => None,
            Some(pos) => {
                proof {
                    lemma_first_pos(edge, hashes@);
                }
                let held = self.current_cutoff(worker);
                let removed_hash = self.edge[pos].1;
                let outcome = self.remove_worker_at_pos(worker, pos, removed_hash);
                let stale_hashes = if pos < held {
                    outcome.stale_hashes
                } else {
                    matched
                };
                Some(BatchRemoveOutcome { stale_hashes, unmatched_hashes: unmatched })
            },
        }
    }

    /// Number of leading local hashes of the edge that a query repeats from a
    /// position on.
    pub fn matched_len(&self, query: &[LocalBlockHash], from: usize) -> (len: usize)
        requires
            from <= query@.len(),
        ensures
            len <= self@.edge.len(),
            from + len <= query@.len(),
            forall|i: int|
                0 <= i < len ==> (#[trigger] self@.edge[i]).0 == query@[from + i],
            len < self@.edge.len() && from + len < query@.len() ==> self@.edge[len as int].0
                != query@[from + len],
    {
        let mut len: usize = 0;
        while len < self.edge.len() && len < query.len() - from && self.edge[len].0 == query[from
            + len]
            invariant
                from <= query@.len(),
                len <= self.edge@.len(),
                from + len <= query@.len(),
                forall|i: int| 0 <= i < len ==> (#[trigger] self.edge@[i]).0 == query@[from + i],
            decreases self.edge.len() - len,
        {
            len += 1;
        }
        len
    }

    /// Whether any worker holds something of the edge.
    pub fn has_any_workers(&self) -> (r: bool)
        ensures
            r == (self@.cover != Map::<(u64, u32), nat>::empty()),
    {
        let r = !self.full_edge_workers.is_empty() || !self.worker_cutoffs.is_empty();
        proof {
            if r {
                if !self.full_edge_workers@.is_empty() {
                    let w = choose|w: (u64, u32)| self.full_edge_workers@.dom().contains(w);
                    assert(self.full_edge_workers@.dom().contains(w)) by {
                        if forall|w: (u64, u32)| !self.full_edge_workers@.dom().contains(w) {
                            assert(self.full_edge_workers@ =~= Map::empty());
                        }
                    }
                    assert(self@.cover.dom().contains(w));
                } else {
                    let w = choose|w: (u64, u32)| self.worker_cutoffs@.dom().contains(w);
                    assert(self.worker_cutoffs@.dom().contains(w)) by {
                        if forall|w: (u64, u32)| !self.worker_cutoffs@.dom().contains(w) {
                            assert(self.worker_cutoffs@ =~= Map::empty());
                        }
                    }
                    assert(self@.cover.dom().contains(w));
                }
            } else {
                assert(self@.cover =~= Map::<(u64, u32), nat>::empty());
            }
        }
        r
    }
}

/// Block hashes that a worker no longer covers after a batched removal, and
/// those that the edge does not hold.
pub struct BatchRemoveOutcome {
    pub stale_hashes: Vec<ExternalSequenceBlockHash>,
    pub unmatched_hashes: Vec<ExternalSequenceBlockHash>,
}

/// The last position of a block hash on an edge.
pub open spec fn last_pos(edge: Seq<EdgeBlock>, hash: ExternalSequenceBlockHash) -> int {
    choose|pos: int| is_last_pos(edge, hash, pos)
}

/// The first position that any of the hashes has on an edge.
pub open spec fn first_pos(edge: Seq<EdgeBlock>, hashes: Seq<ExternalSequenceBlockHash>) -> int
    decreases hashes.len(),
{
    if hashes.len() == 0 {
        edge.len() as int
    } else {
        let before = first_pos(edge, hashes.drop_last());
        if on_edge(edge, hashes.last()) && last_pos(edge, hashes.last()) < before {
            last_pos(edge, hashes.last())
        } else {
            before
        }
    }
}

/// A block hash on an edge has exactly one last position.
pub proof fn lemma_last_pos_unique(
    edge: Seq<EdgeBlock>,
    hash: ExternalSequenceBlockHash,
    pos: int,
)
    requires
        is_last_pos(edge, hash, pos),
    ensures
        last_pos(edge, hash) == pos,
{
    let other = last_pos(edge, hash);
    assert(is_last_pos(edge, hash, other));
    if other < pos {
        assert(edge[pos].1 != hash);
    } else if pos < other {
        assert(edge[other].1 != hash);
    }
}

/// A block hash on an edge has a last position.
pub proof fn lemma_last_pos_exists(edge: Seq<EdgeBlock>, hash: ExternalSequenceBlockHash)
    requires
        on_edge(edge, hash),
    ensures
        is_last_pos(edge, hash, last_pos(edge, hash)),
    decreases edge.len(),
{
    if edge.last().1 == hash {
        assert(is_last_pos(edge, hash, edge.len() - 1));
    } else {
        let shorter = edge.drop_last();
        let i = choose|i: int| 0 <= i < edge.len() && (#[trigger] edge[i]).1 == hash;
        assert(shorter[i].1 == hash);
        lemma_last_pos_exists(shorter, hash);
        let pos = last_pos(shorter, hash);
        assert forall|j: int| pos < j < edge.len() implies (#[trigger] edge[j]).1 != hash by {
            if j < shorter.len() {
                assert(shorter[j].1 != hash);
            }
        }
        assert(is_last_pos(edge, hash, pos));
    }
}

/// The first position of some hashes is one of theirs where any is on the edge,
/// and none is before it.
pub proof fn lemma_first_pos(edge: Seq<EdgeBlock>, hashes: Seq<ExternalSequenceBlockHash>)
    ensures
        0 <= first_pos(edge, hashes) <= edge.len(),
        forall|i: int|
            0 <= i < hashes.len() && on_edge(edge, #[trigger] hashes[i]) ==> first_pos(edge, hashes)
                <= last_pos(edge, hashes[i]),
        first_pos(edge, hashes) < edge.len() ==> exists|i: int|
            0 <= i < hashes.len() && on_edge(edge, #[trigger] hashes[i]) && last_pos(
                edge,
                hashes[i],
            ) == first_pos(edge, hashes),
        (exists|i: int| 0 <= i < hashes.len() && on_edge(edge, #[trigger] hashes[i]))
            ==> first_pos(edge, hashes) < edge.len(),
    decreases hashes.len(),
{
    if hashes.len() > 0 {
        let shorter = hashes.drop_last();
        lemma_first_pos(edge, shorter);
        if on_edge(edge, hashes.last()) {
            lemma_last_pos_exists(edge, hashes.last());
        }
        assert forall|i: int|
            0 <= i < hashes.len() && on_edge(edge, #[trigger] hashes[i]) implies first_pos(
            edge,
            hashes,
        ) <= last_pos(edge, hashes[i]) by {
            if i < shorter.len() {
                assert(shorter[i] == hashes[i]);
            }
        }
        if first_pos(edge, hashes) < edge.len() {
            if first_pos(edge, hashes) == first_pos(edge, shorter) {
                let i = choose|i: int|
                    0 <= i < shorter.len() && on_edge(edge, #[trigger] shorter[i]) && last_pos(
                        edge,
                        shorter[i],
                    ) == first_pos(edge, shorter);
                assert(hashes[i] == shorter[i]);
            } else {
                assert(hashes[hashes.len() - 1] == hashes.last());
            }
        }
        if exists|i: int| 0 <= i < hashes.len() && on_edge(edge, #[trigger] hashes[i]) {
            let i = choose|i: int| 0 <= i < hashes.len() && on_edge(edge, #[trigger] hashes[i]);
            if i < shorter.len() {
                assert(on_edge(edge, shorter[i]));
            }
        }
    }
}

/// The coverage of the part of an edge before `at`.
pub open spec fn head_cover(cover: Map<(u64, u32), nat>, at: nat) -> Map<(u64, u32), nat> {
    Map::new(
        |w: (u64, u32)| cover.dom().contains(w),
        |w: (u64, u32)|
            if cover[w] < at {
                cover[w]
            } else {
                at
            },
    )
}

/// The coverage of the part of an edge from `at` on.
pub open spec fn tail_cover(cover: Map<(u64, u32), nat>, at: nat) -> Map<(u64, u32), nat> {
    Map::new(
        |w: (u64, u32)| cover.dom().contains(w) && cover[w] > at,
        |w: (u64, u32)| (cover[w] - at) as nat,
    )
}

/// A coverage after a worker lost the block at `pos` and all later ones.
pub open spec fn without_pos(cover: Map<(u64, u32), nat>, worker: (u64, u32), pos: nat) -> Map<
    (u64, u32),
    nat,
> {
    if pos >= cutoff_of(cover, worker) {
        cover
    } else if pos == 0 {
        cover.remove(worker)
    } else {
        cover.insert(worker, pos)
    }
}

/// Whether new blocks below `parent_pos` are a prefix of what follows it.
pub open spec fn repeats_suffix(edge: Seq<EdgeBlock>, parent_pos: int, new: Seq<EdgeBlock>) -> bool {
    &&& parent_pos + 1 <= edge.len()
    &&& parent_pos + 1 + new.len() <= edge.len()
    &&& edge.subrange(parent_pos + 1, parent_pos + 1 + new.len()) == new
}

/// Whether new blocks below `parent_pos` begin with all that follows it and go
/// on.
pub open spec fn continues_suffix(
    edge: Seq<EdgeBlock>,
    parent_pos: int,
    new: Seq<EdgeBlock>,
) -> bool {
    &&& parent_pos + 1 <= edge.len()
    &&& new.len() > edge.len() - (parent_pos + 1)
    &&& edge.skip(parent_pos + 1) == new.take(edge.len() - (parent_pos + 1))
}

proof fn lemma_index_push(index: Map<u64, usize>, edge: Seq<EdgeBlock>, block: EdgeBlock)
    requires
        index_matches(index, edge),
        edge.len() <= usize::MAX,
    ensures
        index_matches(index.insert(block.1.0, edge.len() as usize), edge.push(block)),
{
    let new = edge.push(block);
    let new_index = index.insert(block.1.0, edge.len() as usize);
    assert forall|h: u64| #[trigger] new_index.dom().contains(h) implies is_last_pos(
        new,
        ExternalSequenceBlockHash(h),
        new_index[h] as int,
    ) by {
        if h != block.1.0 {
            assert(index.dom().contains(h));
            assert(is_last_pos(edge, ExternalSequenceBlockHash(h), index[h] as int));
            assert forall|j: int| index[h] < j < new.len() implies (#[trigger] new[j]).1
                != ExternalSequenceBlockHash(h) by {
                if j < edge.len() {
                    assert(edge[j].1 != ExternalSequenceBlockHash(h));
                }
            }
        }
    }
    assert forall|i: int| 0 <= i < new.len() implies new_index.dom().contains(
        (#[trigger] new[i]).1.0,
    ) by {
        if i < edge.len() {
            assert(index.dom().contains(edge[i].1.0));
        }
    }
}

} // verus!
