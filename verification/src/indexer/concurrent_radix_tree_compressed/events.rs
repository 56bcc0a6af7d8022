//! Cache events applied to a tree.

use vstd::prelude::*;

use crate::indexer::concurrent_radix_tree_compressed::find::{matches_query, scored};
use crate::indexer::concurrent_radix_tree_compressed::growth::{
    added, block_at, grown, lemma_same_shape, named, same_shape,
};
use crate::indexer::concurrent_radix_tree_compressed::lookup::{
    below, entries_of, found_at, found_below, lemma_below_child, lemma_below_self, lookup_wf,
    reach, rooted, worker_lookup_wf, LookupTable,
};
use crate::indexer::concurrent_radix_tree_compressed::model::{
    child_wf, has_child, holds, holds_prefix, is_score, lemma_cutoff_bounded, lemma_last_step,
    lemma_locate_injective, lemma_locate_valid, local_hashes, locate, score_is_unique, tree_wf,
    TreeNodeView,
};
use crate::indexer::concurrent_radix_tree_compressed::remove::{
    cut, lemma_below_same_shape, lemma_same_shape_back, lemma_unique_same_shape, lookup_taken,
    points_to, ranks_dropped, removal_only_takes, tree_taken, unique_in_tree, worker_dropped,
};
use crate::indexer::concurrent_radix_tree_compressed::store::{
    goes_on, has_all, lemma_located_below, lemma_path_to, listed, on_node, recorded, recorded_at,
    stored, stored_hashes, stored_locals,
};
use crate::indexer::concurrent_radix_tree_compressed::{
    ConcurrentRadixTreeCompressed, KvCacheEventError, WorkerLookup,
};
use crate::protocols::{
    ExternalSequenceBlockHash, KvCacheEventData, KvCacheStoredBlockData, LocalBlockHash,
    MatchDetails, RouterEvent, WorkerWithDpRank,
};

verus! {

/// The worker that an event is of.
pub open spec fn event_worker(event: &RouterEvent) -> (u64, u32) {
    (event.worker_id, event.event.dp_rank)
}

/// What an event of a worker does to a tree and its lookups.
pub open spec fn event_applied(
    before: Seq<TreeNodeView>,
    lookup_before: Map<(u64, u32), WorkerLookup>,
    after: Seq<TreeNodeView>,
    lookup_after: Map<(u64, u32), WorkerLookup>,
    event: &RouterEvent,
    r: Result<(), KvCacheEventError>,
) -> bool {
    let w = event_worker(event);
    match event.event.data {
        KvCacheEventData::Stored(op) => {
            let known = entries_of(lookup_before, w).dom();
            &&& r is Ok <==> (op.parent_hash matches Some(hash) ==> known.contains(hash.0))
            &&& r is Err ==> r->Err_0 == KvCacheEventError::ParentBlockNotFound
            &&& r is Ok ==> lookup_after.dom() == lookup_before.dom().insert(w)
            &&& r is Ok ==> exists|prefix: Seq<LocalBlockHash>|
                stored(
                    before,
                    after,
                    w,
                    entries_of(lookup_before, w),
                    entries_of(lookup_after, w),
                    op.parent_hash,
                    op.blocks@,
                    prefix,
                )
            &&& forall|v: (u64, u32)|
                v != w ==> #[trigger] entries_of(lookup_after, v) == entries_of(lookup_before, v)
        },
        KvCacheEventData::Removed(op) => {
            &&& r is Ok <==> lookup_before.dom().contains(w)
            &&& r is Err ==> r->Err_0 == KvCacheEventError::BlockNotFound
            &&& blocks_removed(before, lookup_before, after, lookup_after, w, op.block_hashes@)
        },
        KvCacheEventData::Cleared => {
            &&& r is Ok
            &&& ranks_dropped(before, after, lookup_before, event.worker_id)
            &&& lookup_after.dom() == lookup_before.dom()
            &&& forall|v: (u64, u32)|
                v.0 == event.worker_id ==> #[trigger] entries_of(lookup_after, v) == Map::<
                    u64,
                    usize,
                >::empty()
            &&& forall|v: (u64, u32)|
                v.0 != event.worker_id ==> #[trigger] entries_of(lookup_after, v) == entries_of(
                    lookup_before,
                    v,
                )
        },
    }
}

/// What the removal of blocks of a worker does to a tree and its lookups. None of
/// the blocks has an entry afterwards.
pub open spec fn blocks_removed(
    before: Seq<TreeNodeView>,
    lookup_before: Map<(u64, u32), WorkerLookup>,
    after: Seq<TreeNodeView>,
    lookup_after: Map<(u64, u32), WorkerLookup>,
    worker: (u64, u32),
    hashes: Seq<ExternalSequenceBlockHash>,
) -> bool {
    &&& tree_taken(before, after, worker, hashes)
    &&& lookup_taken(lookup_before, lookup_after, after, worker, hashes)
    &&& forall|i: int|
        0 <= i < hashes.len() ==> !entries_of(lookup_after, worker).dom().contains(
            (#[trigger] hashes[i]).0,
        )
}

impl ConcurrentRadixTreeCompressed {
    /// Applies an event of a worker. An event that cannot be applied changes
    /// nothing.
    pub fn apply_event(&mut self, lookup: &mut LookupTable, event: &RouterEvent) -> (r: Result<
        (),
        KvCacheEventError,
    >)
        requires
            old(self).wf(),
            lookup_wf(old(self)@, old(lookup)@),
        ensures
            final(self).wf(),
            lookup_wf(final(self)@, final(lookup)@),
            r is Err ==> final(self)@ == old(self)@ && final(lookup)@ == old(lookup)@,
            event_applied(
                old(self)@,
                old(lookup)@,
                final(self)@,
                final(lookup)@,
                event,
                r,
            ),
    {
        let worker = WorkerWithDpRank::new(event.worker_id, event.event.dp_rank);
        match &event.event.data {
            KvCacheEventData::Stored(op) => {
                let ghost w = worker.spec_key();
                assert(w == event_worker(event));
                self.apply_stored(lookup, worker, op)
            },
            KvCacheEventData::Removed(op) => self.apply_removed(lookup, worker, op),
            KvCacheEventData::Cleared => {
                self.clear_all_blocks(lookup, event.worker_id);
                Ok(())
            },
        }
    }
}

/// What was stored is found: a worker that held a sequence up to the parent block
/// scores that sequence and the stored blocks in full.
pub proof fn stored_sequence_is_found(
    before: Seq<TreeNodeView>,
    after: Seq<TreeNodeView>,
    worker: (u64, u32),
    entries_before: Map<u64, usize>,
    entries_after: Map<u64, usize>,
    parent_hash: Option<ExternalSequenceBlockHash>,
    blocks: Seq<KvCacheStoredBlockData>,
    prefix: Seq<LocalBlockHash>,
)
    requires
        stored(
            before,
            after,
            worker,
            entries_before,
            entries_after,
            parent_hash,
            blocks,
            prefix,
        ),
        holds_prefix(before, worker, prefix, prefix.len() as int),
    ensures
        ({
            let sequence = prefix + stored_locals(blocks);
            is_score(after, worker, sequence, sequence.len() as int)
        }),
{
    let path = prefix + stored_locals(blocks);
    let base = prefix.len() as int;
    assert forall|k: int| 1 <= k <= path.len() implies holds(
        after,
        worker,
        #[trigger] path.take(k),
    ) by {
        if k <= base {
            assert(path.take(k) =~= prefix.take(k));
            assert(holds(before, worker, prefix.take(k)));
        } else {
            assert(added(path, base, base + blocks.len(), path.take(k)));
        }
    }
}

/// What was removed is not found: where the tree has every hash once, a worker no longer
/// holds a block that it had an entry for and that was removed.
pub proof fn removed_blocks_are_gone(
    before: Seq<TreeNodeView>,
    lookup_before: Map<(u64, u32), WorkerLookup>,
    after: Seq<TreeNodeView>,
    lookup_after: Map<(u64, u32), WorkerLookup>,
    worker: (u64, u32),
    hashes: Seq<ExternalSequenceBlockHash>,
    hash: ExternalSequenceBlockHash,
    path: Seq<LocalBlockHash>,
)
    requires
        tree_wf(after),
        unique_in_tree(after),
        blocks_removed(before, lookup_before, after, lookup_after, worker, hashes),
        hashes.contains(hash),
        entries_of(lookup_before, worker).dom().contains(hash.0),
        block_at(after, path) == Some(hash),
    ensures
        !holds(after, worker, path),
{
    let (n, pos) = locate(after, 0, path)->0;
    lemma_locate_valid(after, 0, path);
    let i = choose|i: int| 0 <= i < hashes.len() && hashes[i] == hash;
    assert(!entries_of(lookup_after, worker).dom().contains(hashes[i].0));
    assert(after[n].edge[pos].1.0 == hash.0);
}

/// Storing keeps every hash at one place: where the stored hashes are distinct and the
/// tree has none of them anywhere but where it is stored, be it that it has none of them
/// at all.
pub proof fn new_hashes_stay_unique(
    before: Seq<TreeNodeView>,
    after: Seq<TreeNodeView>,
    worker: (u64, u32),
    entries_before: Map<u64, usize>,
    entries_after: Map<u64, usize>,
    parent_hash: Option<ExternalSequenceBlockHash>,
    blocks: Seq<KvCacheStoredBlockData>,
    prefix: Seq<LocalBlockHash>,
)
    requires
        tree_wf(before),
        tree_wf(after),
        unique_in_tree(before),
        stored(
            before,
            after,
            worker,
            entries_before,
            entries_after,
            parent_hash,
            blocks,
            prefix,
        ),
        forall|i: int, j: int|
            0 <= i < j < blocks.len() ==> (#[trigger] blocks[i]).block_hash != (
            #[trigger] blocks[j]).block_hash,
        forall|q: Seq<LocalBlockHash>, i: int|
            #![trigger block_at(before, q), blocks[i]]
            0 <= i < blocks.len() && block_at(before, q) == Some(blocks[i].block_hash) ==> q == (
            prefix + stored_locals(blocks)).take(prefix.len() + i + 1),
    ensures
        unique_in_tree(after),
{
    let path = prefix + stored_locals(blocks);
    let base = prefix.len() as int;
    assert forall|i: int, p: int, j: int, r: int|
        0 <= i < after.len() && 0 <= j < after.len() && below(after, 0, i) && below(after, 0, j)
            && 0 <= p < after[i].edge.len() && 0 <= r < after[j].edge.len() && (
        #[trigger] after[i].edge[p]).1 == (#[trigger] after[j].edge[r]).1 implies i == j && p
        == r by {
        let to_i = choose|steps: nat| #[trigger] reach(after, 0, i, steps);
        let to_j = choose|steps: nat| #[trigger] reach(after, 0, j, steps);
        let a = lemma_path_to(after, i, p, to_i);
        let b = lemma_path_to(after, j, r, to_j);
        assert(block_at(after, a) == block_at(after, b));
        lemma_same_hash_same_path(before, after, path, base, blocks, a, b);
    }
}

/// Blocks with the same hash are one block, where that was so and what was added has
/// hashes of its own.
proof fn lemma_same_hash_same_path(
    before: Seq<TreeNodeView>,
    after: Seq<TreeNodeView>,
    path: Seq<LocalBlockHash>,
    base: int,
    blocks: Seq<KvCacheStoredBlockData>,
    a: Seq<LocalBlockHash>,
    b: Seq<LocalBlockHash>,
)
    requires
        tree_wf(before),
        unique_in_tree(before),
        0 <= base,
        path.len() == base + blocks.len(),
        named(before, after, path, base, base + blocks.len(), base, stored_hashes(blocks)),
        forall|i: int, j: int|
            0 <= i < j < blocks.len() ==> (#[trigger] blocks[i]).block_hash != (
            #[trigger] blocks[j]).block_hash,
        forall|q: Seq<LocalBlockHash>, i: int|
            #![trigger block_at(before, q), blocks[i]]
            0 <= i < blocks.len() && block_at(before, q) == Some(blocks[i].block_hash) ==> q
                == path.take(base + i + 1),
        block_at(after, a) is Some,
        block_at(after, a) == block_at(after, b),
    ensures
        a == b,
{
    let end = base + blocks.len();
    let old_a = block_at(before, a) is Some;
    let old_b = block_at(before, b) is Some;
    if !old_a {
        assert(added(path, base, end, a));
        let k = choose|k: int| base < k <= end && a == #[trigger] path.take(k);
        assert(block_at(after, a) == Some(blocks[k - 1 - base].block_hash));
        if !old_b {
            assert(added(path, base, end, b));
            let l = choose|l: int| base < l <= end && b == #[trigger] path.take(l);
            assert(block_at(after, b) == Some(blocks[l - 1 - base].block_hash));
            assert(k == l);
        }
    } else if !old_b {
        assert(added(path, base, end, b));
        let l = choose|l: int| base < l <= end && b == #[trigger] path.take(l);
        assert(block_at(after, b) == Some(blocks[l - 1 - base].block_hash));
    } else {
        lemma_below_self(before, 0);
        lemma_located_below(before, 0, a);
        lemma_located_below(before, 0, b);
        lemma_locate_valid(before, 0, a);
        lemma_locate_valid(before, 0, b);
        lemma_locate_injective(before, a, b);
    }
}

/// Removal cuts an edge at the first block that is removed: where the tree has every
/// hash once, and a worker has entries for the first blocks of an edge, it keeps those
/// before the first one that is removed, and no others, in whatever order they are
/// removed.
pub proof fn removal_cuts_an_edge(
    before: Seq<TreeNodeView>,
    lookup_before: Map<(u64, u32), WorkerLookup>,
    after: Seq<TreeNodeView>,
    lookup_after: Map<(u64, u32), WorkerLookup>,
    worker: (u64, u32),
    hashes: Seq<ExternalSequenceBlockHash>,
    n: int,
    pos: int,
)
    requires
        tree_wf(before),
        tree_wf(after),
        rooted(before),
        rooted(after),
        lookup_wf(before, lookup_before),
        lookup_wf(after, lookup_after),
        unique_in_tree(after),
        blocks_removed(before, lookup_before, after, lookup_after, worker, hashes),
        0 <= n < before.len(),
        below(before, 0, n),
        0 <= pos < before[n].edge.len(),
        forall|p: int|
            0 <= p <= pos ==> entries_of(lookup_before, worker).dom().contains(
                (#[trigger] before[n].edge[p]).1.0,
            ),
    ensures
        entries_of(lookup_after, worker).dom().contains(before[n].edge[pos].1.0) <==> forall|p: int|
            0 <= p <= pos ==> !hashes.contains((#[trigger] before[n].edge[p]).1),
{
    let edge = before[n].edge;
    let kept = entries_of(lookup_after, worker);
    let hash = edge[pos].1;
    assert(after[n].edge == edge);
    lemma_below_same_shape(before, after, 0, n);
    if kept.dom().contains(hash.0) {
        assert forall|p: int| 0 <= p <= pos implies !hashes.contains((#[trigger] edge[p]).1) by {
            if hashes.contains(edge[p].1) {
                let i = choose|i: int| 0 <= i < hashes.len() && hashes[i] == edge[p].1;
                assert(!kept.dom().contains(hashes[i].0));
                assert(entries_of(lookup_before, worker).dom().contains(edge[p].1.0));
                assert(after[n].edge[p].1.0 == edge[p].1.0);
                assert(p >= cut(after, n, worker));
                lemma_entry_is_held(after, lookup_after, worker, n, pos);
            }
        }
    } else {
        lemma_unique_same_shape(before, after);
        lemma_entry_is_held(before, lookup_before, worker, n, pos);
        assert(entries_of(lookup_before, worker).dom().contains(hash.0));
        assert(after[n].edge[pos].1.0 == hash.0);
        let c = cut(after, n, worker) as int;
        assert(c <= pos);
        assert(hashes.contains(edge[c].1));
    }
}

/// Where the tree has every hash once, a worker holds the blocks that it has entries for.
proof fn lemma_entry_is_held(
    nodes: Seq<TreeNodeView>,
    lookup: Map<(u64, u32), WorkerLookup>,
    worker: (u64, u32),
    n: int,
    pos: int,
)
    requires
        tree_wf(nodes),
        rooted(nodes),
        lookup_wf(nodes, lookup),
        unique_in_tree(nodes),
        0 <= n < nodes.len(),
        below(nodes, 0, n),
        0 <= pos < nodes[n].edge.len(),
        entries_of(lookup, worker).dom().contains(nodes[n].edge[pos].1.0),
    ensures
        pos < cut(nodes, n, worker),
{
    let h = nodes[n].edge[pos].1.0;
    let e = ExternalSequenceBlockHash(h);
    let entries = lookup[worker]@;
    assert(worker_lookup_wf(nodes, worker, entries));
    let top = entries[h] as int;
    assert(found_below(nodes, top, worker, e));
    let (m, at) = choose|m: int, at: int| #[trigger] found_at(nodes, top, worker, e, m, at);
    lemma_cutoff_bounded(nodes, m, worker);
    assert(nodes[m].cover.dom().contains(worker));
    assert(below(nodes, 0, m));
    assert(nodes[m].edge[at].1 == nodes[n].edge[pos].1);
}

/// A run of blocks that two workers store and one of them removes in part: where the
/// blocks are new to a tree that has every hash once, the one that removes keeps the
/// entries before the first block removed, and no others of the run; the other keeps all.
pub proof fn shared_run_is_cut_for_one_worker(
    before: Seq<TreeNodeView>,
    lookup_before: Map<(u64, u32), WorkerLookup>,
    one: Seq<TreeNodeView>,
    one_lookup: Map<(u64, u32), WorkerLookup>,
    both: Seq<TreeNodeView>,
    both_lookup: Map<(u64, u32), WorkerLookup>,
    after: Seq<TreeNodeView>,
    after_lookup: Map<(u64, u32), WorkerLookup>,
    worker: (u64, u32),
    other: (u64, u32),
    blocks: Seq<KvCacheStoredBlockData>,
    removed: Seq<ExternalSequenceBlockHash>,
    i: int,
)
    requires
        worker != other,
        tree_wf(before),
        tree_wf(one),
        tree_wf(both),
        tree_wf(after),
        rooted(both),
        rooted(after),
        lookup_wf(both, both_lookup),
        lookup_wf(after, after_lookup),
        unique_in_tree(before),
        stored(
            before,
            one,
            worker,
            entries_of(lookup_before, worker),
            entries_of(one_lookup, worker),
            None,
            blocks,
            Seq::empty(),
        ),
        stored(
            one,
            both,
            other,
            entries_of(one_lookup, other),
            entries_of(both_lookup, other),
            None,
            blocks,
            Seq::empty(),
        ),
        entries_of(both_lookup, worker) == entries_of(one_lookup, worker),
        blocks_removed(both, both_lookup, after, after_lookup, worker, removed),
        forall|j: int, k: int|
            0 <= j < k < blocks.len() ==> (#[trigger] blocks[j]).block_hash != (
            #[trigger] blocks[k]).block_hash,
        forall|q: Seq<LocalBlockHash>, j: int|
            #![trigger block_at(before, q), blocks[j]]
            0 <= j < blocks.len() ==> block_at(before, q) != Some(blocks[j].block_hash),
        0 <= i < blocks.len(),
        block_at(before, stored_locals(blocks).take(1)) is None,
    ensures
        entries_of(after_lookup, worker).dom().contains(blocks[i].block_hash.0) <==> forall|j: int|
            0 <= j <= i ==> !removed.contains((#[trigger] blocks[j]).block_hash),
        entries_of(after_lookup, other).dom().contains(blocks[i].block_hash.0),
{
    let path = stored_locals(blocks);
    let hashes = stored_hashes(blocks);
    let len = blocks.len() as int;
    assert(Seq::<LocalBlockHash>::empty() + path =~= path);
    new_hashes_stay_unique(
        before,
        one,
        worker,
        entries_of(lookup_before, worker),
        entries_of(one_lookup, worker),
        None,
        blocks,
        Seq::empty(),
    );
    assert forall|k: int| 0 < k <= len implies locate(before, 0, #[trigger] path.take(k)) is None
        && block_at(one, path.take(k)) == Some(hashes[k - 1]) by {
        lemma_no_first_no_more(before, path, k);
        assert(added(path, 0, len, path.take(k)));
    }
    assert(has_all(one, path, 0, len, hashes));
    assert(same_shape(one, both));
    let n = (locate(one, 0, path.take(1))->0).0;
    assert forall|k: int| 0 < k <= len implies locate(one, 0, #[trigger] path.take(k)) == Some(
        (n, k - 1),
    ) by {
        assert(goes_on(one, path.take(1), path.take(k)));
        lemma_locate_valid(one, 0, path.take(1));
    }
    lemma_below_self(one, 0);
    lemma_located_below(one, 0, path.take(1));
    lemma_below_same_shape(one, both, 0, n);
    assert forall|k: int| 0 <= k < len implies k < both[n].edge.len() && (
    #[trigger] both[n].edge[k]).1 == blocks[k].block_hash by {
        lemma_locate_valid(one, 0, path.take(k + 1));
        assert(block_at(one, path.take(k + 1)) == Some(hashes[k]));
    }
    let node = one[0].children[path[0].0];
    assert(node as int == n) by {
        assert(path.take(1)[0] == path[0]);
        lemma_locate_valid(one, 0, path.take(1));
        assert(child_wf(one, 0, path[0].0));
    }
    lemma_run_is_recorded(
        one,
        entries_of(lookup_before, worker),
        entries_of(one_lookup, worker),
        path,
        hashes,
        node,
    );
    assert forall|k: int| 0 < k <= len implies locate(both, 0, #[trigger] path.take(k)) == Some(
        (n, k - 1),
    ) by {
        lemma_same_shape(one, both, 0, path.take(k));
    }
    lemma_run_is_recorded(
        both,
        entries_of(one_lookup, other),
        entries_of(both_lookup, other),
        path,
        hashes,
        node,
    );
    assert(hashes[i].0 == blocks[i].block_hash.0);
    lemma_same_shape_back(one, both);
    lemma_unique_same_shape(both, one);
    lemma_same_shape_back(both, after);
    lemma_unique_same_shape(after, both);
    assert forall|p: int| 0 <= p <= i implies entries_of(both_lookup, worker).dom().contains(
        (#[trigger] both[n].edge[p]).1.0,
    ) by {
        assert(both[n].edge[p].1 == blocks[p].block_hash);
        assert(entries_of(one_lookup, worker).dom().contains(hashes[p].0));
    }
    assert(both[n].edge[i].1 == blocks[i].block_hash);
    removal_cuts_an_edge(
        both,
        both_lookup,
        after,
        after_lookup,
        worker,
        removed,
        n,
        i,
    );
    assert forall|j: int| 0 <= j <= i implies both[n].edge[j].1 == (
    #[trigger] blocks[j]).block_hash by {
        assert(both[n].edge[j].1 == blocks[j].block_hash);
    }
}

/// Where the first block of a path is not in a tree, none of them is.
proof fn lemma_no_first_no_more(nodes: Seq<TreeNodeView>, path: Seq<LocalBlockHash>, k: int)
    requires
        tree_wf(nodes),
        0 < k <= path.len(),
        block_at(nodes, path.take(1)) is None,
    ensures
        locate(nodes, 0, path.take(k)) is None,
{
    let key = path[0].0;
    assert(path.take(1)[0] == path[0] && path.take(k)[0] == path[0]);
    if has_child(nodes, 0, key) {
        assert(child_wf(nodes, 0, key));
        let c = nodes[0].children[key] as int;
        assert(local_hashes(nodes[c].edge).take(1) =~= path.take(1));
    }
}

/// Blocks that were stored and are on one edge under their hashes have entries.
proof fn lemma_run_is_recorded(
    nodes: Seq<TreeNodeView>,
    before: Map<u64, usize>,
    after: Map<u64, usize>,
    path: Seq<LocalBlockHash>,
    hashes: Seq<ExternalSequenceBlockHash>,
    node: usize,
)
    requires
        recorded(nodes, before, after, path, 0, hashes, hashes.len() as int),
        path.len() == hashes.len(),
        forall|k: int|
            0 < k <= path.len() ==> locate(nodes, 0, #[trigger] path.take(k)) == Some(
                (node as int, k - 1),
            ),
        forall|k: int|
            0 <= k < hashes.len() ==> (#[trigger] nodes[node as int].edge[k]).1 == hashes[k],
    ensures
        forall|k: int| 0 <= k < hashes.len() ==> after.dom().contains((#[trigger] hashes[k]).0),
{
    assert forall|k: int| 0 <= k < hashes.len() implies after.dom().contains(
        (#[trigger] hashes[k]).0,
    ) by {
        let h = hashes[k].0;
        assert(recorded_at(nodes, before, after, path, 0, hashes, hashes.len() as int, h));
        assert(locate(nodes, 0, path.take(0 + k + 1)) == Some((node as int, k)));
        assert(nodes[node as int].edge[k].1 == hashes[k]);
        assert(on_node(nodes, path.take(0 + k + 1), hashes[k], node as int));
        assert(listed(nodes, path, 0, hashes, hashes.len() as int, h, node));
    }
}

/// A worker that was dropped from a tree is not found in it: where the tree has every
/// hash once and the worker had entries for the first blocks of sequences that it held,
/// it scores nothing on any query.
pub proof fn dropped_worker_is_not_found(
    before: Seq<TreeNodeView>,
    after: Seq<TreeNodeView>,
    worker: (u64, u32),
    entries: Map<u64, usize>,
    query: Seq<LocalBlockHash>,
    score: int,
)
    requires
        tree_wf(before),
        rooted(before),
        unique_in_tree(before),
        worker_lookup_wf(before, worker, entries),
        forall|q: Seq<LocalBlockHash>|
            #![trigger holds(before, worker, q)]
            q.len() == 1 && holds(before, worker, q) ==> entries.dom().contains(
                (block_at(before, q)->0).0,
            ),
        worker_dropped(before, after, worker, entries),
        is_score(after, worker, query, score),
    ensures
        score == 0,
{
    if score > 0 {
        let q = query.take(1);
        assert(holds(after, worker, q));
        lemma_same_shape(before, after, 0, q);
        lemma_locate_valid(before, 0, q);
        lemma_last_step(before, 0, q);
        let (c, pos) = locate(before, 0, q)->0;
        assert(cut(after, c, worker) > 0);
        assert(holds(before, worker, q));
        let hash = block_at(before, q)->0;
        let top = entries[hash.0] as int;
        assert(found_below(before, top, worker, ExternalSequenceBlockHash(hash.0)));
        let (n, at) = choose|n: int, at: int| #[trigger]
            found_at(before, top, worker, ExternalSequenceBlockHash(hash.0), n, at);
        lemma_cutoff_bounded(before, n, worker);
        assert(before[n].cover.dom().contains(worker));
        lemma_below_self(before, 0);
        lemma_below_child(before, 0, 0, q[0].0);
        assert(before[n].edge[at].1 == before[c].edge[pos].1);
        assert(n == c);
        let steps = choose|steps: nat| #[trigger] reach(before, top, c, steps);
        if steps > 0 {
            let (p, key) = choose|p: int, key: u64|
                0 <= p < before.len() && #[trigger] has_child(before, p, key)
                    && before[p].children[key] == c && reach(before, top, p, (steps - 1) as nat);
            assert(has_child(before, 0, q[0].0));
            assert(p == 0);
            if steps > 1 {
                let (r, k) = choose|r: int, k: u64|
                    0 <= r < before.len() && #[trigger] has_child(before, r, k)
                        && before[r].children[k] == p && reach(before, top, r, (steps - 2) as nat);
                assert(child_wf(before, r, k));
            }
        }
        assert(points_to(entries, c));
    }
}

/// Storing blocks for one worker changes no other worker's score, for any query.
pub proof fn storing_leaves_other_scores(
    before: Seq<TreeNodeView>,
    after: Seq<TreeNodeView>,
    worker: (u64, u32),
    path: Seq<LocalBlockHash>,
    a: int,
    b: int,
    v: (u64, u32),
    query: Seq<LocalBlockHash>,
    score: int,
)
    requires
        grown(before, after, worker, path, a, b),
        v != worker,
    ensures
        is_score(before, v, query, score) == is_score(after, v, query, score),
{
    assert forall|k: int| holds(after, v, #[trigger] query.take(k)) == holds(
        before,
        v,
        query.take(k),
    ) by {}
}

/// The answer to a query is the only one: two match details of a query agree on
/// every worker.
pub proof fn match_details_are_unique(
    nodes: Seq<TreeNodeView>,
    query: Seq<LocalBlockHash>,
    a: MatchDetails,
    b: MatchDetails,
)
    requires
        matches_query(nodes, query, a),
        matches_query(nodes, query, b),
    ensures
        a.overlap_scores.scores@ == b.overlap_scores.scores@,
        a.last_matched_hashes@ == b.last_matched_hashes@,
{
    assert forall|w: (u64, u32)| #[trigger] a.overlap_scores.scores@.dom().contains(w) implies
        b.overlap_scores.scores@.dom().contains(w) && a.overlap_scores.scores@[w]
        == b.overlap_scores.scores@[w] && a.last_matched_hashes@[w]
        == b.last_matched_hashes@[w] by {
        assert(b.overlap_scores.scores@.dom().contains(w));
        score_is_unique(
            nodes,
            w,
            query,
            a.overlap_scores.scores@[w] as int,
            b.overlap_scores.scores@[w] as int,
        );
    }
    assert forall|w: (u64, u32)| #[trigger] b.overlap_scores.scores@.dom().contains(w) implies
        a.overlap_scores.scores@.dom().contains(w) by {
        assert(a.overlap_scores.scores@.dom().contains(w));
    }
    assert(a.overlap_scores.scores@ =~= b.overlap_scores.scores@);
    assert(a.last_matched_hashes@ =~= b.last_matched_hashes@);
}

/// An event of one worker changes no other worker's score, for any query; unless it clears
/// the worker, it changes none of the worker's other ranks either.
pub proof fn events_leave_other_scores(
    before: Seq<TreeNodeView>,
    lookup_before: Map<(u64, u32), WorkerLookup>,
    after: Seq<TreeNodeView>,
    lookup_after: Map<(u64, u32), WorkerLookup>,
    event: &RouterEvent,
    v: (u64, u32),
    query: Seq<LocalBlockHash>,
    score: int,
)
    requires
        tree_wf(before),
        event_applied(before, lookup_before, after, lookup_after, event, Ok(())),
        v.0 != event.worker_id || (v.1 != event.event.dp_rank && !(event.event.data is Cleared)),
    ensures
        is_score(before, v, query, score) == is_score(after, v, query, score),
        entries_of(lookup_after, v) == entries_of(lookup_before, v),
{
    let w = event_worker(event);
    match event.event.data {
        KvCacheEventData::Stored(op) => {
            let prefix = choose|prefix: Seq<LocalBlockHash>|
                stored(
                    before,
                    after,
                    w,
                    entries_of(lookup_before, w),
                    entries_of(lookup_after, w),
                    op.parent_hash,
                    op.blocks@,
                    prefix,
                );
            storing_leaves_other_scores(
                before,
                after,
                w,
                prefix + stored_locals(op.blocks@),
                prefix.len() as int,
                prefix.len() + op.blocks@.len() as int,
                v,
                query,
                score,
            );
        },
        KvCacheEventData::Removed(op) => {
            assert forall|k: int| holds(after, v, #[trigger] query.take(k)) == holds(
                before,
                v,
                query.take(k),
            ) by {
                removal_only_takes(before, after, w, op.block_hashes@, v, query.take(k));
            }
        },
        KvCacheEventData::Cleared => {
            dropping_leaves_other_scores(
                before,
                after,
                lookup_before,
                event.worker_id,
                v,
                query,
                score,
            );
        },
    }
}

/// A worker that is dropped changes no other worker's score, for any query.
pub proof fn dropping_leaves_other_scores(
    before: Seq<TreeNodeView>,
    after: Seq<TreeNodeView>,
    lookup: Map<(u64, u32), WorkerLookup>,
    worker_id: u64,
    v: (u64, u32),
    query: Seq<LocalBlockHash>,
    score: int,
)
    requires
        tree_wf(before),
        ranks_dropped(before, after, lookup, worker_id),
        v.0 != worker_id,
    ensures
        is_score(before, v, query, score) == is_score(after, v, query, score),
{
    assert forall|k: int| holds(after, v, #[trigger] query.take(k)) == holds(
        before,
        v,
        query.take(k),
    ) by {
        let q = query.take(k);
        lemma_same_shape(before, after, 0, q);
        if locate(before, 0, q) is Some {
            lemma_locate_valid(before, 0, q);
            let (n, _) = locate(before, 0, q)->0;
            assert(cut(after, n, v) == cut(before, n, v));
        }
    }
}

/// A rank that is dropped changes no other rank's score, for any query.
pub proof fn dropping_a_rank_leaves_other_scores(
    before: Seq<TreeNodeView>,
    after: Seq<TreeNodeView>,
    worker: (u64, u32),
    entries: Map<u64, usize>,
    v: (u64, u32),
    query: Seq<LocalBlockHash>,
    score: int,
)
    requires
        tree_wf(before),
        worker_dropped(before, after, worker, entries),
        v != worker,
    ensures
        is_score(before, v, query, score) == is_score(after, v, query, score),
{
    assert forall|k: int| holds(after, v, #[trigger] query.take(k)) == holds(
        before,
        v,
        query.take(k),
    ) by {
        let q = query.take(k);
        lemma_same_shape(before, after, 0, q);
        if locate(before, 0, q) is Some {
            lemma_locate_valid(before, 0, q);
            let (n, _) = locate(before, 0, q)->0;
            assert(cut(after, n, v) == cut(before, n, v));
        }
    }
}

/// A score is the longest run of leading blocks that a worker holds: it holds each of
/// them, and where the query goes on it does not hold the next.
pub proof fn scores_count_leading_blocks(
    nodes: Seq<TreeNodeView>,
    query: Seq<LocalBlockHash>,
    details: MatchDetails,
    worker: (u64, u32),
)
    requires
        matches_query(nodes, query, details),
    ensures
        ({
            let scores = details.overlap_scores.scores@;
            if scores.dom().contains(worker) {
                let score = scores[worker] as int;
                &&& 1 <= score <= query.len()
                &&& forall|k: int|
                    1 <= k <= score ==> holds(nodes, worker, #[trigger] query.take(k))
                &&& score < query.len() ==> !holds(nodes, worker, query.take(score + 1))
                &&& details.last_matched_hashes@.dom().contains(worker)
                &&& block_at(nodes, query.take(score)) == Some(details.last_matched_hashes@[worker])
            } else {
                query.len() == 0 || !holds(nodes, worker, query.take(1))
            }
        }),
{
    let scores = details.overlap_scores.scores@;
    if scores.dom().contains(worker) {
        assert(scored(
            nodes,
            query,
            worker,
            scores[worker] as int,
            details.last_matched_hashes@[worker],
        ));
        assert(details.last_matched_hashes@.dom().contains(worker));
    }
}

} // verus!
