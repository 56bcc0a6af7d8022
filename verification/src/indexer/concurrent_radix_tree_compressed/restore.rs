//! What a dump brings back.

use vstd::prelude::*;

use crate::indexer::compressed_radix::{dumped_blocks, held_at, EdgeBlock};
use crate::indexer::concurrent_radix_tree_compressed::dump::{
    dumped_in, hangs_below, recreates, tail_hash,
};
use crate::indexer::concurrent_radix_tree_compressed::events::event_applied;
use crate::indexer::concurrent_radix_tree_compressed::growth::{added, block_at};
use crate::indexer::concurrent_radix_tree_compressed::lookup::{entries_of, found_at, node_of};
use crate::indexer::concurrent_radix_tree_compressed::model::{
    child_wf, has_child, holds, lemma_cutoff_bounded, lemma_locate_compose,
    lemma_locate_injective, lemma_locate_on_edge, lemma_locate_valid, local_hashes, locate,
    tree_wf, TreeNodeView,
};
use crate::indexer::concurrent_radix_tree_compressed::remove::cut;
use crate::indexer::concurrent_radix_tree_compressed::store::{
    listed, on_node, recorded_at, stored, stored_hashes, stored_locals,
};
use crate::indexer::concurrent_radix_tree_compressed::{KvCacheEventError, WorkerLookup};
use crate::protocols::{
    router_events_view, stored_blocks_view, EventDataView, ExternalSequenceBlockHash,
    KvCacheStoredBlockData, LocalBlockHash, RouterEvent,
};

verus! {

/// Whether a worker holds all of a node's edge, and no second block with the hash
/// of the edge's last block.
pub open spec fn parent_known(nodes: Seq<TreeNodeView>, p: int, worker: (u64, u32)) -> bool {
    &&& cut(nodes, p, worker) == nodes[p].edge.len()
    &&& forall|m: int, pos: int|
        0 <= m < nodes.len() && #[trigger] held_at(
            node_of(nodes, m),
            worker,
            nodes[p].edge.last().1,
            pos,
        ) ==> m == p && pos == nodes[p].edge.len() - 1
}

/// Whether every worker that holds something of a node knows the node's parent
/// block, by its hash.
pub open spec fn restorable(nodes: Seq<TreeNodeView>) -> bool {
    forall|p: int, n: int, w: (u64, u32)|
        0 < p < nodes.len() && 0 <= n < nodes.len() && #[trigger] hangs_below(nodes, p, n)
            && #[trigger] nodes[n].cover.dom().contains(w) ==> parent_known(nodes, p, w)
}

/// Whether trees and lookups come from one another by events, the first of them
/// empty.
pub open spec fn replayed(
    events: Seq<RouterEvent>,
    trees: Seq<Seq<TreeNodeView>>,
    lookups: Seq<Map<(u64, u32), WorkerLookup>>,
    results: Seq<Result<(), KvCacheEventError>>,
) -> bool {
    &&& trees.len() == events.len() + 1
    &&& lookups.len() == events.len() + 1
    &&& results.len() == events.len()
    &&& trees[0].len() == 1
    &&& trees[0][0].children == Map::<u64, usize>::empty()
    &&& lookups[0] == Map::<(u64, u32), WorkerLookup>::empty()
    &&& forall|i: int|
        0 <= i < events.len() ==> event_applied(
            trees[i],
            lookups[i],
            trees[i + 1],
            lookups[i + 1],
            &(#[trigger] events[i]),
            results[i],
        )
}

/// Whether what a worker holds of a node is among the first events of a dump.
spec fn among(order: Seq<(int, (u64, u32))>, i: int, n: int, worker: (u64, u32)) -> bool {
    exists|j: int| 0 <= j < i && #[trigger] order[j] == (n, worker)
}

/// Whether a tree holds what the first events of a dump are of, and nothing else.
spec fn holds_first(
    nodes: Seq<TreeNodeView>,
    order: Seq<(int, (u64, u32))>,
    tree: Seq<TreeNodeView>,
    i: int,
) -> bool {
    forall|v: (u64, u32), q: Seq<LocalBlockHash>| #[trigger]
        holds(tree, v, q) <==> holds(nodes, v, q) && among(
            order,
            i,
            (locate(nodes, 0, q)->0).0,
            v,
        )
}

/// Whether the blocks of a tree have the hashes that they have in another.
spec fn same_names(nodes: Seq<TreeNodeView>, tree: Seq<TreeNodeView>) -> bool {
    forall|q: Seq<LocalBlockHash>| #[trigger]
        block_at(tree, q) is Some ==> block_at(nodes, q) == block_at(tree, q)
}

/// Whether the workers of the first events of a dump have entries for their blocks.
spec fn entries_made(
    nodes: Seq<TreeNodeView>,
    order: Seq<(int, (u64, u32))>,
    lookup: Map<(u64, u32), WorkerLookup>,
    i: int,
) -> bool {
    forall|j: int, t: int|
        0 <= j < i && 0 <= t < cut(nodes, order[j].0, order[j].1) ==> entries_of(
            lookup,
            order[j].1,
        ).dom().contains((#[trigger] nodes[order[j].0].edge[t]).1.0)
}

/// Whether blocks are the first of an edge.
spec fn first_of_edge(edge: Seq<EdgeBlock>, blocks: Seq<KvCacheStoredBlockData>) -> bool {
    &&& blocks.len() <= edge.len()
    &&& forall|t: int|
        0 <= t < blocks.len() ==> (#[trigger] blocks[t]).block_hash == edge[t].1
            && blocks[t].tokens_hash == edge[t].0
}

/// Blocks that look like the first of an edge are the first of it.
proof fn lemma_first_of_edge(
    edge: Seq<EdgeBlock>,
    blocks: Seq<KvCacheStoredBlockData>,
    len: int,
)
    requires
        0 <= len <= edge.len(),
        stored_blocks_view(blocks) == dumped_blocks(edge).take(len),
    ensures
        first_of_edge(edge, blocks),
        blocks.len() == len,
{
    assert(stored_blocks_view(blocks).len() == blocks.len());
    assert forall|t: int| 0 <= t < blocks.len() implies (#[trigger] blocks[t]).block_hash
        == edge[t].1 && blocks[t].tokens_hash == edge[t].0 by {
        assert(stored_blocks_view(blocks)[t] == dumped_blocks(edge).take(len)[t]);
    }
}

/// From the end of a node's parent the first blocks of its edge lead along it.
proof fn lemma_leads_along(
    nodes: Seq<TreeNodeView>,
    p: int,
    n: int,
    prefix: Seq<LocalBlockHash>,
    blocks: Seq<KvCacheStoredBlockData>,
    k: int,
)
    requires
        tree_wf(nodes),
        0 <= p < nodes.len(),
        hangs_below(nodes, p, n),
        p == 0 ==> prefix.len() == 0,
        p > 0 ==> locate(nodes, 0, prefix) == Some((p, nodes[p].edge.len() - 1)),
        first_of_edge(nodes[n].edge, blocks),
        prefix.len() < k <= prefix.len() + blocks.len(),
    ensures
        locate(nodes, 0, (prefix + stored_locals(blocks)).take(k)) == Some(
            (n, k - prefix.len() - 1),
        ),
{
    let key = choose|key: u64| #[trigger] has_child(nodes, p, key) && nodes[p].children[key] == n;
    assert(child_wf(nodes, p, key));
    let path = prefix + stored_locals(blocks);
    let tail = path.subrange(prefix.len() as int, k);
    let e = local_hashes(nodes[n].edge);
    assert(e.take(tail.len() as int) =~= tail) by {
        assert forall|t: int| 0 <= t < tail.len() implies e[t] == tail[t] by {
            assert(tail[t] == blocks[t].tokens_hash);
        }
    }
    assert(tail[0] == blocks[0].tokens_hash);
    lemma_locate_on_edge(nodes, p, key, tail);
    if p == 0 {
        assert(path.take(k) =~= tail);
    } else {
        assert(path.take(k) =~= prefix + tail);
        lemma_locate_compose(nodes, 0, prefix, tail);
    }
}

/// One event of a dump does what it is meant to.
proof fn lemma_restores_one(
    nodes: Seq<TreeNodeView>,
    order: Seq<(int, (u64, u32))>,
    before: Seq<TreeNodeView>,
    after: Seq<TreeNodeView>,
    lookup_before: Map<(u64, u32), WorkerLookup>,
    lookup_after: Map<(u64, u32), WorkerLookup>,
    p: int,
    blocks: Seq<KvCacheStoredBlockData>,
    prefix: Seq<LocalBlockHash>,
    i: int,
)
    requires
        tree_wf(nodes),
        0 <= i < order.len(),
        0 <= p < nodes.len(),
        0 <= order[i].0 < nodes.len(),
        hangs_below(nodes, p, order[i].0),
        p == 0 ==> prefix.len() == 0,
        p > 0 ==> locate(nodes, 0, prefix) == Some((p, nodes[p].edge.len() - 1)),
        first_of_edge(nodes[order[i].0].edge, blocks),
        blocks.len() == cut(nodes, order[i].0, order[i].1),
        stored(
            before,
            after,
            order[i].1,
            entries_of(lookup_before, order[i].1),
            entries_of(lookup_after, order[i].1),
            tail_hash(nodes, p),
            blocks,
            prefix,
        ),
        forall|v: (u64, u32)|
            v != order[i].1 ==> #[trigger] entries_of(lookup_after, v) == entries_of(
                lookup_before,
                v,
            ),
        holds_first(nodes, order, before, i),
        same_names(nodes, before),
        entries_made(nodes, order, lookup_before, i),
    ensures
        holds_first(nodes, order, after, i + 1),
        same_names(nodes, after),
        entries_made(nodes, order, lookup_after, i + 1),
{
    let (n, w) = order[i];
    let path = prefix + stored_locals(blocks);
    let base = prefix.len() as int;
    let b = base + blocks.len();
    let hashes = stored_hashes(blocks);
    assert forall|k: int| base < k <= b implies locate(nodes, 0, #[trigger] path.take(k)) == Some(
        (n, k - base - 1),
    ) by {
        lemma_leads_along(nodes, p, n, prefix, blocks, k);
    }
    assert forall|v: (u64, u32), q: Seq<LocalBlockHash>| #[trigger]
        holds(after, v, q) <==> holds(nodes, v, q) && among(
            order,
            i + 1,
            (locate(nodes, 0, q)->0).0,
            v,
        ) by {
        let m = (locate(nodes, 0, q)->0).0;
        assert(holds(after, v, q) <==> holds(before, v, q) || (v == w && added(path, base, b, q)));
        if among(order, i, m, v) {
            let j = choose|j: int| 0 <= j < i && #[trigger] order[j] == (m, v);
            assert(0 <= j < i + 1 && order[j] == (m, v));
        }
        if added(path, base, b, q) {
            let k = choose|k: int| base < k <= b && q == #[trigger] path.take(k);
            assert(locate(nodes, 0, q) == Some((n, k - base - 1)));
            if v == w {
                assert(0 <= i < i + 1 && order[i] == (m, v));
            }
        }
        if holds(nodes, v, q) && among(order, i + 1, m, v) && !among(order, i, m, v) {
            let j = choose|j: int| 0 <= j < i + 1 && #[trigger] order[j] == (m, v);
            assert(j == i);
            let pos = (locate(nodes, 0, q)->0).1;
            lemma_locate_valid(nodes, 0, q);
            let k = base + pos + 1;
            assert(locate(nodes, 0, path.take(k)) == Some((n, k - base - 1)));
            lemma_locate_injective(nodes, q, path.take(k));
            assert(base < k <= b && q == path.take(k));
            assert(added(path, base, b, q));
        }
    }
    assert forall|q: Seq<LocalBlockHash>| #[trigger] block_at(after, q) is Some implies block_at(
        nodes,
        q,
    ) == block_at(after, q) by {
        if block_at(before, q) is None && added(path, base, b, q) {
            let k = choose|k: int| base < k <= b && q == #[trigger] path.take(k);
            assert(locate(nodes, 0, q) == Some((n, k - base - 1)));
            assert(hashes[k - 1 - base] == blocks[k - 1 - base].block_hash);
        }
    }
    assert forall|j: int, t: int|
        0 <= j < i + 1 && 0 <= t < cut(nodes, order[j].0, order[j].1) implies entries_of(
        lookup_after,
        order[j].1,
    ).dom().contains((#[trigger] nodes[order[j].0].edge[t]).1.0) by {
        let h = nodes[order[j].0].edge[t].1.0;
        let entries = entries_of(lookup_before, w);
        let made = entries_of(lookup_after, w);
        if j < i {
            assert(entries_of(lookup_before, order[j].1).dom().contains(h));
        }
        if order[j].1 == w {
            assert(recorded_at(
                after,
                entries,
                made,
                path,
                base,
                hashes,
                blocks.len() as int,
                h,
            ));
            if j == i {
                let q = path.take(base + t + 1);
                assert(hashes[t] == blocks[t].block_hash);
                assert(added(path, base, b, q));
                assert(block_at(after, q) is Some);
                assert(locate(nodes, 0, q) == Some((n, t)));
                assert(holds(after, w, q));
                assert(block_at(after, q) == Some(hashes[t]));
                lemma_entry_made(after, entries, made, path, base, hashes, t);
            }
        }
    }
}

/// Where a sequence leads is a node that can have a number.
proof fn lemma_node_number(nodes: Seq<TreeNodeView>, from: int, q: Seq<LocalBlockHash>)
    requires
        locate(nodes, from, q) is Some,
    ensures
        0 <= (locate(nodes, from, q)->0).0 <= usize::MAX,
    decreases q.len(),
{
    let c = nodes[from].children[q[0].0] as int;
    let e = local_hashes(nodes[c].edge);
    if q.len() > e.len() {
        lemma_node_number(nodes, c, q.skip(e.len() as int));
    }
}

/// A block that is on its path under its hash gets an entry.
proof fn lemma_entry_made(
    after: Seq<TreeNodeView>,
    before_entries: Map<u64, usize>,
    entries: Map<u64, usize>,
    path: Seq<LocalBlockHash>,
    base: int,
    hashes: Seq<ExternalSequenceBlockHash>,
    t: int,
)
    requires
        0 <= t < hashes.len(),
        block_at(after, path.take(base + t + 1)) == Some(hashes[t]),
        recorded_at(
            after,
            before_entries,
            entries,
            path,
            base,
            hashes,
            hashes.len() as int,
            hashes[t].0,
        ),
    ensures
        entries.dom().contains(hashes[t].0),
{
    let q = path.take(base + t + 1);
    lemma_node_number(after, 0, q);
    let node = (locate(after, 0, q)->0).0 as usize;
    assert(on_node(after, q, hashes[t], node as int));
    assert(listed(after, path, base, hashes, hashes.len() as int, hashes[t].0, node));
}

/// The first events of a dump all apply, and do what they are meant to.
proof fn lemma_restores_first(
    nodes: Seq<TreeNodeView>,
    events: Seq<RouterEvent>,
    order: Seq<(int, (u64, u32))>,
    trees: Seq<Seq<TreeNodeView>>,
    lookups: Seq<Map<(u64, u32), WorkerLookup>>,
    results: Seq<Result<(), KvCacheEventError>>,
    i: int,
)
    requires
        tree_wf(nodes),
        restorable(nodes),
        dumped_in(nodes, router_events_view(events), order),
        replayed(events, trees, lookups, results),
        0 <= i <= events.len(),
    ensures
        holds_first(nodes, order, trees[i], i),
        same_names(nodes, trees[i]),
        entries_made(nodes, order, lookups[i], i),
        forall|j: int| 0 <= j < i ==> (#[trigger] results[j]) is Ok,
    decreases i,
{
    if i == 0 {
        assert forall|q: Seq<LocalBlockHash>| locate(trees[0], 0, q) is None by {}
    } else {
        let last = i - 1;
        lemma_restores_first(nodes, events, order, trees, lookups, results, last);
        let event = events[last];
        let (n, w) = order[last];
        let view = router_events_view(events)[last];
        assert(view == event@);
        assert(recreates(nodes, view, n, w));
        let p = choose|p: int|
            0 <= p < nodes.len() && #[trigger] hangs_below(nodes, p, n) && view.data == (
            EventDataView::Stored {
                parent_hash: tail_hash(nodes, p),
                start_position: None,
                blocks: dumped_blocks(nodes[n].edge).take(nodes[n].cover[w] as int),
            });
        let before = trees[last];
        let lookup = lookups[last];
        lemma_cutoff_bounded(nodes, n, w);
        assert(event_applied(before, lookup, trees[i], lookups[i], &event, results[last]));
        let op = event.event.data->Stored_0;
        assert(event.event.data is Stored);
        lemma_first_of_edge(nodes[n].edge, op.blocks@, nodes[n].cover[w] as int);
        if p > 0 {
            assert(parent_known(nodes, p, w));
            assert(nodes[p].edge.len() > 0);
            assert(nodes[p].cover.dom().contains(w));
            assert(order.contains((p, w)));
            let j = choose|j: int| 0 <= j < order.len() && order[j] == (p, w);
            assert(hangs_below(nodes, order[j].0, order[last].0));
            assert(j < last);
            let t = nodes[p].edge.len() - 1;
            assert(nodes[order[j].0].edge[t].1 == tail_hash(nodes, p)->0);
        }
        assert(results[last] is Ok);
        let prefix = choose|prefix: Seq<LocalBlockHash>|
            stored(
                before,
                trees[i],
                w,
                entries_of(lookup, w),
                entries_of(lookups[i], w),
                op.parent_hash,
                op.blocks@,
                prefix,
            );
        if p > 0 {
            let hash = tail_hash(nodes, p)->0;
            let top = entries_of(lookup, w)[hash.0] as int;
            let (m, pos) = choose|m: int, pos: int|
                #![trigger found_at(before, top, w, hash, m, pos)]
                found_at(before, top, w, hash, m, pos) && locate(before, 0, prefix) == Some(
                    (m, pos),
                );
            assert(held_at(node_of(before, m), w, hash, pos));
            assert(holds(before, w, prefix));
            assert(block_at(before, prefix) == Some(hash));
            let (a, at) = locate(nodes, 0, prefix)->0;
            lemma_locate_valid(nodes, 0, prefix);
            assert(held_at(node_of(nodes, a), w, nodes[p].edge.last().1, at));
        }
        lemma_restores_one(
            nodes,
            order,
            before,
            trees[i],
            lookup,
            lookups[i],
            p,
            op.blocks@,
            prefix,
            last,
        );
    }
}

/// A dump brings back what a tree held: all of its events apply to an empty tree,
/// and then every worker holds what it held in the tree that was dumped, under the
/// same hashes, and nothing else. A worker that has given up a block and still holds
/// some below it, or that holds two blocks with one hash, cannot say where its blocks
/// belong.
pub proof fn dump_brings_back_the_tree(
    nodes: Seq<TreeNodeView>,
    events: Seq<RouterEvent>,
    order: Seq<(int, (u64, u32))>,
    trees: Seq<Seq<TreeNodeView>>,
    lookups: Seq<Map<(u64, u32), WorkerLookup>>,
    results: Seq<Result<(), KvCacheEventError>>,
)
    requires
        tree_wf(nodes),
        restorable(nodes),
        dumped_in(nodes, router_events_view(events), order),
        replayed(events, trees, lookups, results),
    ensures
        forall|i: int| 0 <= i < events.len() ==> (#[trigger] results[i]) is Ok,
        forall|w: (u64, u32), q: Seq<LocalBlockHash>| #[trigger]
            holds(trees.last(), w, q) <==> holds(nodes, w, q),
        forall|w: (u64, u32), q: Seq<LocalBlockHash>| #[trigger]
            holds(nodes, w, q) ==> block_at(trees.last(), q) == block_at(nodes, q),
{
    let len = events.len() as int;
    lemma_restores_first(nodes, events, order, trees, lookups, results, len);
    assert(trees.last() == trees[len]);
    assert forall|w: (u64, u32), q: Seq<LocalBlockHash>| #[trigger]
        holds(trees.last(), w, q) <==> holds(nodes, w, q) by {
        if holds(nodes, w, q) {
            let (n, pos) = locate(nodes, 0, q)->0;
            lemma_locate_valid(nodes, 0, q);
            assert(nodes[n].cover.dom().contains(w));
            assert(order.contains((n, w)));
            let j = choose|j: int| 0 <= j < order.len() && order[j] == (n, w);
            assert(0 <= j < len && order[j] == (n, w));
            assert(among(order, len, n, w));
        }
    }
    assert forall|w: (u64, u32), q: Seq<LocalBlockHash>| #[trigger]
        holds(nodes, w, q) implies block_at(trees.last(), q) == block_at(nodes, q) by {
        assert(holds(trees.last(), w, q));
        assert(block_at(trees.last(), q) is Some);
    }
}

} // verus!
