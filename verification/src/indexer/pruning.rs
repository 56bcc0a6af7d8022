//! Blocks that were recorded from routing decisions and expire, and the events
//! that take them out of an index again.

use vstd::prelude::*;

use crate::protocols::{
    stored_blocks_view, EventDataView, ExternalSequenceBlockHash, KvCacheEvent, KvCacheEventData,
    KvCacheRemoveData, KvCacheStoreData, KvCacheStoredBlockData, LocalBlockHash, RouterEvent,
    RouterEventView, SequenceHash, StorageTier, StoredBlockView, WorkerWithDpRank,
};
use crate::sorting::{is_stable_sort, lex_lt, stable_sort, SortKey};

verus! {

/// A block of a worker that was recorded from a routing decision.
#[derive(Clone, Copy, Debug, PartialEq, Eq, Structural)]
pub struct BlockEntry {
    pub key: ExternalSequenceBlockHash,
    pub worker: WorkerWithDpRank,
    /// Place of the block in its sequence.
    pub seq_position: usize,
}

/// An entry that sorts by worker, rank and place in its sequence.
#[derive(Clone, Copy, Debug, PartialEq, Eq, Structural)]
pub struct ByPosition(pub BlockEntry);

impl SortKey for ByPosition {
    open spec fn rank(&self) -> Seq<int> {
        seq![
            self.0.worker.worker_id as int,
            self.0.worker.dp_rank as int,
            self.0.seq_position as int,
        ]
    }

    fn is_before(&self, other: &Self) -> (r: bool) {
        proof {
            reveal_with_fuel(lex_lt, 4);
        }
        if self.0.worker.worker_id != other.0.worker.worker_id {
            self.0.worker.worker_id < other.0.worker.worker_id
        } else if self.0.worker.dp_rank != other.0.worker.dp_rank {
            self.0.worker.dp_rank < other.0.worker.dp_rank
        } else {
            self.0.seq_position < other.0.seq_position
        }
    }
}

/// An entry that sorts by worker, rank and block hash.
#[derive(Clone, Copy, Debug, PartialEq, Eq, Structural)]
pub struct ByHash(pub BlockEntry);

impl SortKey for ByHash {
    open spec fn rank(&self) -> Seq<int> {
        seq![
            self.0.worker.worker_id as int,
            self.0.worker.dp_rank as int,
            self.0.key.0 as int,
        ]
    }

    fn is_before(&self, other: &Self) -> (r: bool) {
        proof {
            reveal_with_fuel(lex_lt, 4);
        }
        if self.0.worker.worker_id != other.0.worker.worker_id {
            self.0.worker.worker_id < other.0.worker.worker_id
        } else if self.0.worker.dp_rank != other.0.worker.dp_rank {
            self.0.worker.dp_rank < other.0.worker.dp_rank
        } else {
            self.0.key.0 < other.0.key.0
        }
    }
}

/// Blocks to remove from one worker.
pub struct WorkerRemoves {
    pub worker: WorkerWithDpRank,
    pub hashes: Vec<ExternalSequenceBlockHash>,
}

/// Model of [`WorkerRemoves`].
pub struct WorkerRemovesView {
    pub worker: WorkerWithDpRank,
    pub hashes: Seq<ExternalSequenceBlockHash>,
}

/// Model of a list of removes.
pub open spec fn removes_view(removes: Seq<WorkerRemoves>) -> Seq<WorkerRemovesView> {
    removes.map_values(
        |r: WorkerRemoves| WorkerRemovesView { worker: r.worker, hashes: r.hashes@ },
    )
}

/// Neighbouring entries of the same worker put together, in order. With
/// `distinct`, a hash is listed once where it comes several times in a row.
pub open spec fn grouped(entries: Seq<BlockEntry>, distinct: bool) -> Seq<WorkerRemovesView>
    decreases entries.len(),
{
    if entries.len() == 0 {
        Seq::empty()
    } else {
        let before = grouped(entries.drop_last(), distinct);
        let entry = entries.last();
        if before.len() > 0 && before.last().worker == entry.worker {
            let open = before.last();
            if distinct && open.hashes.len() > 0 && open.hashes.last() == entry.key {
                before
            } else {
                before.drop_last().push(
                    WorkerRemovesView {
                        worker: entry.worker,
                        hashes: open.hashes.push(entry.key),
                    },
                )
            }
        } else {
            before.push(WorkerRemovesView { worker: entry.worker, hashes: seq![entry.key] })
        }
    }
}

fn group_entries(entries: &Vec<BlockEntry>, distinct: bool) -> (removes: Vec<WorkerRemoves>)
    ensures
        removes_view(removes@) == grouped(entries@, distinct),
{
    let mut removes: Vec<WorkerRemoves> = Vec::new();
    for i in 0..entries.len()
        invariant
            removes_view(removes@) == grouped(entries@.take(i as int), distinct),
    {
        let entry = entries[i];
        let ghost before = removes_view(removes@);
        proof {
            let more = entries@.take(i + 1);
            assert(more.drop_last() =~= entries@.take(i as int));
            assert(more.last() == entry);
        }
        let open = removes.pop();
        match open {
            None => {
                let mut hashes: Vec<ExternalSequenceBlockHash> = Vec::new();
                hashes.push(entry.key);
                removes.push(WorkerRemoves { worker: entry.worker, hashes });
                assert(removes_view(removes@) =~= grouped(entries@.take(i + 1), distinct));
            },
            Some(open) => {
                let mut open = open;
                assert(before.last().hashes == open.hashes@);
                assert(before.last().worker == open.worker);
                let same = open.worker.worker_id == entry.worker.worker_id && open.worker.dp_rank
                    == entry.worker.dp_rank;
                if same {
                    let repeated = distinct && open.hashes.len() > 0 && open.hashes[open.hashes.len()
                        - 1].0 == entry.key.0;
                    if !repeated {
                        open.hashes.push(entry.key);
                    }
                    removes.push(open);
                } else {
                    removes.push(open);
                    let mut hashes: Vec<ExternalSequenceBlockHash> = Vec::new();
                    hashes.push(entry.key);
                    removes.push(WorkerRemoves { worker: entry.worker, hashes });
                }
                assert(removes_view(removes@) =~= grouped(entries@.take(i + 1), distinct));
            },
        }
    }
    assert(entries@.take(entries@.len() as int) =~= entries@);
    removes
}

/// The entries in the order of a sort.
pub open spec fn by_position(entries: Seq<BlockEntry>) -> Seq<ByPosition> {
    entries.map_values(|e: BlockEntry| ByPosition(e))
}

/// The entries in the order of a sort.
pub open spec fn by_hash(entries: Seq<BlockEntry>) -> Seq<ByHash> {
    entries.map_values(|e: BlockEntry| ByHash(e))
}

/// Groups expired entries by worker, lowest worker and rank first. The blocks of a
/// worker come in the order of their places in the sequence.
pub fn removes_by_position(entries: &Vec<BlockEntry>) -> (removes: Vec<WorkerRemoves>)
    ensures
        exists|sorted: Seq<BlockEntry>|
            is_stable_sort(by_position(entries@), by_position(sorted)) && removes_view(removes@)
                == #[trigger] grouped(sorted, false),
{
    let mut keyed: Vec<ByPosition> = Vec::new();
    for i in 0..entries.len()
        invariant
            keyed@ == by_position(entries@).take(i as int),
    {
        keyed.push(ByPosition(entries[i]));
        assert(keyed@ =~= by_position(entries@).take(i + 1));
    }
    assert(keyed@ =~= by_position(entries@));
    let keyed = stable_sort(keyed);
    let mut sorted: Vec<BlockEntry> = Vec::new();
    for i in 0..keyed.len()
        invariant
            sorted@.len() == i,
            forall|j: int| 0 <= j < i ==> ByPosition(#[trigger] sorted@[j]) == keyed@[j],
    {
        sorted.push(keyed[i].0);
    }
    assert(by_position(sorted@) =~= keyed@);
    group_entries(&sorted, false)
}

/// Groups expired entries by worker, lowest worker and rank first. The blocks of a
/// worker come in the order of their hashes, each once.
pub fn removes_by_hash(entries: &Vec<BlockEntry>) -> (removes: Vec<WorkerRemoves>)
    ensures
        exists|sorted: Seq<BlockEntry>|
            is_stable_sort(by_hash(entries@), by_hash(sorted)) && removes_view(removes@)
                == #[trigger] grouped(sorted, true),
{
    let mut keyed: Vec<ByHash> = Vec::new();
    for i in 0..entries.len()
        invariant
            keyed@ == by_hash(entries@).take(i as int),
    {
        keyed.push(ByHash(entries[i]));
        assert(keyed@ =~= by_hash(entries@).take(i + 1));
    }
    assert(keyed@ =~= by_hash(entries@));
    let keyed = stable_sort(keyed);
    let mut sorted: Vec<BlockEntry> = Vec::new();
    for i in 0..keyed.len()
        invariant
            sorted@.len() == i,
            forall|j: int| 0 <= j < i ==> ByHash(#[trigger] sorted@[j]) == keyed@[j],
    {
        sorted.push(keyed[i].0);
    }
    assert(by_hash(sorted@) =~= keyed@);
    group_entries(&sorted, true)
}

/// Model of the event that removes blocks of a worker.
pub open spec fn remove_event_view(remove: WorkerRemovesView, event_id: u64) -> RouterEventView {
    RouterEventView {
        worker_id: remove.worker.worker_id,
        storage_tier: StorageTier::Device,
        event_id,
        dp_rank: remove.worker.dp_rank,
        data: EventDataView::Removed { block_hashes: remove.hashes },
    }
}

/// The event that removes blocks of a worker.
pub fn remove_event(remove: WorkerRemoves, event_id: u64) -> (event: RouterEvent)
    ensures
        event@ == remove_event_view(
            WorkerRemovesView { worker: remove.worker, hashes: remove.hashes@ },
            event_id,
        ),
{
    RouterEvent::new(
        remove.worker.worker_id,
        KvCacheEvent {
            event_id,
            data: KvCacheEventData::Removed(KvCacheRemoveData { block_hashes: remove.hashes }),
            dp_rank: remove.worker.dp_rank,
        },
    )
}

/// Model of the blocks that a routing decision records: local and sequence hashes
/// in pairs, as far as both lists go.
pub open spec fn paired_blocks(
    local_hashes: Seq<LocalBlockHash>,
    sequence_hashes: Seq<u64>,
) -> Seq<StoredBlockView> {
    Seq::new(
        if local_hashes.len() <= sequence_hashes.len() {
            local_hashes.len()
        } else {
            sequence_hashes.len()
        },
        |i: int|
            StoredBlockView {
                block_hash: sequence_hashes[i],
                tokens_hash: local_hashes[i].0,
                mm_extra_info: None,
            },
    )
}

/// The event that stores a routing decision's blocks at its worker.
pub fn stored_event_for_hashes(
    worker: WorkerWithDpRank,
    local_hashes: &[LocalBlockHash],
    sequence_hashes: &[SequenceHash],
    event_id: u64,
) -> (event: RouterEvent)
    ensures
        event@ == (RouterEventView {
            worker_id: worker.worker_id,
            storage_tier: StorageTier::Device,
            event_id,
            dp_rank: worker.dp_rank,
            data: EventDataView::Stored {
                parent_hash: None,
                start_position: None,
                blocks: paired_blocks(local_hashes@, sequence_hashes@),
            },
        }),
        event.worker_id == worker.worker_id,
        event.event.dp_rank == worker.dp_rank,
        event.event.data matches KvCacheEventData::Stored(op) && op.parent_hash is None,
{
    let len = if local_hashes.len() <= sequence_hashes.len() {
        local_hashes.len()
    } else {
        sequence_hashes.len()
    };
    let mut blocks: Vec<KvCacheStoredBlockData> = Vec::new();
    for i in 0..len
        invariant
            len <= local_hashes@.len(),
            len <= sequence_hashes@.len(),
            blocks@.len() == i,
            forall|j: int|
                0 <= j < i ==> (#[trigger] blocks@[j])@ == (StoredBlockView {
                    block_hash: sequence_hashes@[j],
                    tokens_hash: local_hashes@[j].0,
                    mm_extra_info: None,
                }),
    {
        blocks.push(
            KvCacheStoredBlockData {
                block_hash: ExternalSequenceBlockHash(sequence_hashes[i]),
                tokens_hash: local_hashes[i],
                mm_extra_info: None,
            },
        );
    }
    assert(stored_blocks_view(blocks@) =~= paired_blocks(
        local_hashes@,
        sequence_hashes@,
    ));
    RouterEvent::new(
        worker.worker_id,
        KvCacheEvent {
            event_id,
            data: KvCacheEventData::Stored(
                KvCacheStoreData { parent_hash: None, start_position: None, blocks },
            ),
            dp_rank: worker.dp_rank,
        },
    )
}

/// The entries that a routing decision's blocks expire by.
pub open spec fn entries_for(worker: WorkerWithDpRank, sequence_hashes: Seq<u64>) -> Seq<
    BlockEntry,
> {
    Seq::new(
        sequence_hashes.len(),
        |i: int|
            BlockEntry {
                key: ExternalSequenceBlockHash(sequence_hashes[i]),
                worker,
                seq_position: i as usize,
            },
    )
}

/// The entries that a routing decision's blocks expire by.
pub fn block_entries_for_hashes(worker: WorkerWithDpRank, sequence_hashes: &[SequenceHash]) -> (entries:
    Vec<BlockEntry>)
    ensures
        entries@ == entries_for(worker, sequence_hashes@),
{
    let mut entries: Vec<BlockEntry> = Vec::new();
    for i in 0..sequence_hashes.len()
        invariant
            entries@ == entries_for(worker, sequence_hashes@).take(i as int),
    {
        entries.push(
            BlockEntry {
                key: ExternalSequenceBlockHash(sequence_hashes[i]),
                worker,
                seq_position: i,
            },
        );
        assert(entries@ =~= entries_for(worker, sequence_hashes@).take(i + 1));
    }
    assert(entries@ =~= entries_for(worker, sequence_hashes@));
    entries
}

/// Whether a block is among those to remove from a worker.
pub open spec fn is_listed(
    removes: Seq<WorkerRemovesView>,
    worker: WorkerWithDpRank,
    key: ExternalSequenceBlockHash,
) -> bool {
    exists|g: int|
        0 <= g < removes.len() && (#[trigger] removes[g]).worker == worker
            && removes[g].hashes.contains(key)
}

/// Putting entries together loses none and makes none up: a block is removed from a worker
/// exactly where there is an entry of it for that worker. No removal is without blocks, and
/// none could be joined with the next.
pub proof fn every_entry_is_removed_from_its_worker(
    entries: Seq<BlockEntry>,
    distinct: bool,
    worker: WorkerWithDpRank,
    key: ExternalSequenceBlockHash,
)
    ensures
        is_listed(grouped(entries, distinct), worker, key) <==> exists|i: int|
            0 <= i < entries.len() && (#[trigger] entries[i]).worker == worker && entries[i].key
                == key,
        forall|g: int|
            0 <= g < grouped(entries, distinct).len() ==> (#[trigger] grouped(
                entries,
                distinct,
            )[g]).hashes.len() > 0,
        entries.len() > 0 ==> grouped(entries, distinct).len() > 0 && grouped(
            entries,
            distinct,
        ).last().worker == entries.last().worker && grouped(
            entries,
            distinct,
        ).last().hashes.last() == entries.last().key,
    decreases entries.len(),
{
    if entries.len() > 0 {
        let fewer = entries.drop_last();
        let before = grouped(fewer, distinct);
        let after = grouped(entries, distinct);
        let entry = entries.last();
        every_entry_is_removed_from_its_worker(fewer, distinct, worker, key);
        let last = after.len() - 1;
        assert(after[last].worker == entry.worker);
        assert(after[last].hashes.contains(entry.key)) by {
            assert(after[last].hashes[after[last].hashes.len() - 1] == entry.key);
        }
        assert forall|g: int| 0 <= g < last implies #[trigger] after[g] == before[g] by {}
        // What was listed still is.
        if is_listed(before, worker, key) {
            let g = choose|g: int|
                0 <= g < before.len() && (#[trigger] before[g]).worker == worker
                    && before[g].hashes.contains(key);
            if g == last {
                let k = choose|k: int|
                    0 <= k < before[g].hashes.len() && before[g].hashes[k] == key;
                assert(after[g].hashes[k] == key);
            }
            assert(after[g].worker == worker && after[g].hashes.contains(key));
        }
        if entry.worker == worker && entry.key == key {
            assert(is_listed(after, worker, key));
            assert(entries[entries.len() - 1].worker == worker);
        }
        // What is listed was, or is the last entry.
        if is_listed(after, worker, key) && !(entry.worker == worker && entry.key == key) {
            let g = choose|g: int|
                0 <= g < after.len() && (#[trigger] after[g]).worker == worker
                    && after[g].hashes.contains(key);
            if g == last {
                let k = choose|k: int| 0 <= k < after[g].hashes.len() && after[g].hashes[k] == key;
                assert(g < before.len() && before[g].hashes[k] == key);
            }
            assert(before[g].worker == worker && before[g].hashes.contains(key));
        }
        if exists|i: int|
            0 <= i < fewer.len() && (#[trigger] fewer[i]).worker == worker && fewer[i].key == key {
            let i = choose|i: int|
                0 <= i < fewer.len() && (#[trigger] fewer[i]).worker == worker && fewer[i].key
                    == key;
            assert(entries[i].worker == worker && entries[i].key == key);
        }
        if exists|i: int|
            0 <= i < entries.len() && (#[trigger] entries[i]).worker == worker && entries[i].key
                == key {
            let i = choose|i: int|
                0 <= i < entries.len() && (#[trigger] entries[i]).worker == worker
                    && entries[i].key == key;
            if i < fewer.len() {
                assert(fewer[i].worker == worker && fewer[i].key == key);
            }
        }
    }
}

/// The blocks of a routing decision are recorded each under its own hash, the first at the
/// start of the sequence, and each is taken out again under the same hash.
pub proof fn recorded_blocks_expire_under_their_hashes(
    worker: WorkerWithDpRank,
    local_hashes: Seq<LocalBlockHash>,
    sequence_hashes: Seq<u64>,
    i: int,
)
    requires
        local_hashes.len() == sequence_hashes.len() <= usize::MAX,
        0 <= i < sequence_hashes.len(),
    ensures
        paired_blocks(local_hashes, sequence_hashes).len() == sequence_hashes.len(),
        entries_for(worker, sequence_hashes).len() == sequence_hashes.len(),
        paired_blocks(local_hashes, sequence_hashes)[i].block_hash == sequence_hashes[i],
        paired_blocks(local_hashes, sequence_hashes)[i].tokens_hash == local_hashes[i].0,
        entries_for(worker, sequence_hashes)[i].key.0 == paired_blocks(
            local_hashes,
            sequence_hashes,
        )[i].block_hash,
        entries_for(worker, sequence_hashes)[i].worker == worker,
        entries_for(worker, sequence_hashes)[i].seq_position == i,
{
}

/// Sorted entries go by worker, then rank, then place in the sequence.
pub proof fn entries_go_by_worker_and_position(
    entries: Seq<BlockEntry>,
    sorted: Seq<BlockEntry>,
    i: int,
    j: int,
)
    requires
        is_stable_sort(by_position(entries), by_position(sorted)),
        0 <= i < j < sorted.len(),
    ensures
        sorted[i].worker.worker_id <= sorted[j].worker.worker_id,
        sorted[i].worker.worker_id == sorted[j].worker.worker_id ==> sorted[i].worker.dp_rank
            <= sorted[j].worker.dp_rank,
        sorted[i].worker == sorted[j].worker ==> sorted[i].seq_position <= sorted[j].seq_position,
{
    reveal_with_fuel(lex_lt, 4);
    let rows = by_position(sorted);
    assert(!lex_lt(rows[j].rank(), rows[i].rank()));
    let a = rows[i].rank();
    let b = rows[j].rank();
    assert(a.skip(1) =~= seq![a[1], a[2]] && b.skip(1) =~= seq![b[1], b[2]]);
    assert(a.skip(1).skip(1) =~= seq![a[2]] && b.skip(1).skip(1) =~= seq![b[2]]);
}

} // verus!
