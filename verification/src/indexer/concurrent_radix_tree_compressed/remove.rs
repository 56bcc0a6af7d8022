//! Removal of blocks and of workers.

use vstd::prelude::*;

use crate::collections::{
    fx_contains, fx_get, fx_hash_keys, fx_insert, fx_remove, fx_worker_keys, FxMap,
};
use crate::indexer::compressed_radix::{
    cutoff_of, edge_hashes, first_pos, held_at, last_pos, lemma_first_pos, lemma_last_pos_exists,
    node_view_wf, on_edge, without_pos, NodeView,
};
use crate::indexer::concurrent_radix_tree_compressed::growth::{
    lemma_same_shape, lemma_same_shape_wf, same_shape, with_cover,
};
use crate::indexer::concurrent_radix_tree_compressed::lookup::{
    below, entries_of, found_at, found_below, lookup_wf, node_of,
    reach, rooted, worker_lookup_wf,
    LookupTable,
};
use crate::indexer::concurrent_radix_tree_compressed::model::{
    has_child, holds, idle, lemma_cutoff_bounded, lemma_idle_kept, lemma_locate_valid, locate,
    tree_wf, TreeNodeView,
};
use crate::indexer::concurrent_radix_tree_compressed::{
    all_idle, ConcurrentRadixTreeCompressed, KvCacheEventError, WorkerLookup,
};
use crate::protocols::{
    ExternalSequenceBlockHash, KvCacheRemoveData, LocalBlockHash, WorkerWithDpRank,
};
use crate::seqs::{lemma_filter_all, lemma_filter_none, lemma_push_contains};

verus! {

/// How far along a node's edge a worker holds the blocks.
pub open spec fn cut(nodes: Seq<TreeNodeView>, n: int, worker: (u64, u32)) -> nat {
    cutoff_of(nodes[n].cover, worker)
}

/// Whether every block hash occurs once in a tree. Nodes that were taken out of it do
/// not count.
pub open spec fn unique_in_tree(nodes: Seq<TreeNodeView>) -> bool {
    forall|i: int, p: int, j: int, r: int|
        0 <= i < nodes.len() && 0 <= j < nodes.len() && below(nodes, 0, i) && below(nodes, 0, j)
            && 0 <= p < nodes[i].edge.len() && 0 <= r < nodes[j].edge.len() && (
        #[trigger] nodes[i].edge[p]).1 == (#[trigger] nodes[j].edge[r]).1 ==> i == j && p == r
}

/// Whether a block of a node's edge has a hash and is not held by a worker.
pub open spec fn given_up(
    nodes: Seq<TreeNodeView>,
    worker: (u64, u32),
    h: u64,
    i: int,
    p: int,
) -> bool {
    &&& 0 <= i < nodes.len()
    &&& 0 <= p < nodes[i].edge.len()
    &&& nodes[i].edge[p].1.0 == h
    &&& p >= cut(nodes, i, worker)
}

/// What the removal of some blocks of a worker does to a tree: edges, children
/// and all other workers stay as they are; where the worker holds less of an edge
/// than before, it holds it up to a block that was removed.
pub open spec fn tree_taken(
    before: Seq<TreeNodeView>,
    after: Seq<TreeNodeView>,
    worker: (u64, u32),
    hashes: Seq<ExternalSequenceBlockHash>,
) -> bool {
    &&& same_shape(before, after)
    &&& forall|i: int, v: (u64, u32)|
        0 <= i < before.len() && v != worker ==> #[trigger] cut(after, i, v) == cut(before, i, v)
    &&& forall|i: int|
        0 <= i < before.len() ==> #[trigger] cut(after, i, worker) <= cut(before, i, worker)
    &&& forall|i: int|
        0 <= i < before.len() && #[trigger] cut(after, i, worker) < cut(before, i, worker)
            ==> hashes.contains(before[i].edge[cut(after, i, worker) as int].1)
}

/// What the removal of some blocks of a worker does to the lookups: only entries
/// of the worker go, and each that goes is of a removed block or of one after it
/// on an edge. Where the tree has every hash once, the worker no longer holds the block
/// of an entry that went.
pub open spec fn lookup_taken(
    before: Map<(u64, u32), WorkerLookup>,
    after: Map<(u64, u32), WorkerLookup>,
    nodes: Seq<TreeNodeView>,
    worker: (u64, u32),
    hashes: Seq<ExternalSequenceBlockHash>,
) -> bool {
    &&& after.dom() == before.dom()
    &&& forall|v: (u64, u32)|
        v != worker ==> #[trigger] entries_of(after, v) == entries_of(before, v)
    &&& forall|h: u64| #[trigger]
        entries_of(after, worker).dom().contains(h) ==> entries_of(before, worker).dom().contains(
            h,
        )
    &&& forall|h: u64| #[trigger]
        entries_of(before, worker).dom().contains(h) && !entries_of(after, worker).dom().contains(h)
            ==> hashes.contains(ExternalSequenceBlockHash(h)) || exists|i: int, p: int|
            given_up(nodes, worker, h, i, p)
    &&& unique_in_tree(nodes) ==> forall|h: u64, i: int, p: int|
        #![trigger entries_of(before, worker).dom().contains(h), nodes[i].edge[p]]
        entries_of(before, worker).dom().contains(h) && !entries_of(
            after,
            worker,
        ).dom().contains(h) && 0 <= i < nodes.len() && 0 <= p < nodes[i].edge.len()
            && nodes[i].edge[p].1.0 == h ==> p >= cut(nodes, i, worker)
}

/// Removing twice is removing.
proof fn lemma_taken_twice(
    x: Seq<TreeNodeView>,
    lx: Map<(u64, u32), WorkerLookup>,
    y: Seq<TreeNodeView>,
    ly: Map<(u64, u32), WorkerLookup>,
    z: Seq<TreeNodeView>,
    lz: Map<(u64, u32), WorkerLookup>,
    worker: (u64, u32),
    first: Seq<ExternalSequenceBlockHash>,
    second: Seq<ExternalSequenceBlockHash>,
    hashes: Seq<ExternalSequenceBlockHash>,
)
    requires
        tree_taken(x, y, worker, first),
        tree_taken(y, z, worker, second),
        lookup_taken(lx, ly, y, worker, first),
        lookup_taken(ly, lz, z, worker, second),
        forall|h: ExternalSequenceBlockHash|
            first.contains(h) || second.contains(h) ==> #[trigger] hashes.contains(h),
    ensures
        tree_taken(x, z, worker, hashes),
        lookup_taken(lx, lz, z, worker, hashes),
{
    assert forall|i: int| 0 <= i < x.len() implies y[i].edge == x[i].edge && #[trigger] z[i].edge
        == x[i].edge by {
        assert(y[i].edge == x[i].edge);
    }
    assert(same_shape(x, z)) by {
        assert forall|i: int| 0 <= i < x.len() implies (#[trigger] z[i]).edge == x[i].edge
            && z[i].children == x[i].children && z[i].start == x[i].start && z[i].internal
            == x[i].internal by {
            assert(y[i].children == x[i].children);
        }
    }
    assert forall|i: int, v: (u64, u32)| 0 <= i < x.len() && v != worker implies #[trigger] cut(
        z,
        i,
        v,
    ) == cut(x, i, v) by {
        assert(cut(y, i, v) == cut(x, i, v));
    }
    assert forall|i: int| 0 <= i < x.len() implies #[trigger] cut(z, i, worker) <= cut(
        x,
        i,
        worker,
    ) by {
        assert(cut(y, i, worker) <= cut(x, i, worker));
    }
    assert forall|i: int| 0 <= i < x.len() && #[trigger] cut(z, i, worker) < cut(
        x,
        i,
        worker,
    ) implies hashes.contains(x[i].edge[cut(z, i, worker) as int].1) by {
        let h = x[i].edge[cut(z, i, worker) as int].1;
        assert(cut(z, i, worker) <= cut(y, i, worker));
        if cut(z, i, worker) < cut(y, i, worker) {
            assert(second.contains(h));
        } else {
            assert(first.contains(h));
        }
    }
    assert forall|v: (u64, u32)| v != worker implies #[trigger] entries_of(lz, v) == entries_of(
        lx,
        v,
    ) by {
        assert(entries_of(ly, v) == entries_of(lx, v));
    }
    assert forall|h: u64| #[trigger] entries_of(lz, worker).dom().contains(h) implies entries_of(
        lx,
        worker,
    ).dom().contains(h) by {
        assert(entries_of(ly, worker).dom().contains(h));
    }
    assert forall|h: u64| #[trigger]
        entries_of(lx, worker).dom().contains(h) && !entries_of(lz, worker).dom().contains(
            h,
        ) implies hashes.contains(ExternalSequenceBlockHash(h)) || exists|i: int, p: int|
        given_up(z, worker, h, i, p) by {
        let e = ExternalSequenceBlockHash(h);
        if entries_of(ly, worker).dom().contains(h) {
            if second.contains(e) {
                assert(hashes.contains(e));
            }
        } else if first.contains(e) {
            assert(hashes.contains(e));
        } else {
            let (i, p) = choose|i: int, p: int| given_up(y, worker, h, i, p);
            assert(z[i].edge == x[i].edge);
            assert(cut(z, i, worker) <= cut(y, i, worker));
            assert(given_up(z, worker, h, i, p));
        }
    }
    if unique_in_tree(z) {
        lemma_unique_same_shape(y, z);
        assert forall|h: u64, i: int, p: int|
            #![trigger entries_of(lx, worker).dom().contains(h), z[i].edge[p]]
            entries_of(lx, worker).dom().contains(h) && !entries_of(lz, worker).dom().contains(h)
                && 0 <= i < z.len() && 0 <= p < z[i].edge.len() && z[i].edge[p].1.0 == h implies p
            >= cut(z, i, worker) by {
            assert(z[i].edge == x[i].edge);
            if !entries_of(ly, worker).dom().contains(h) {
                assert(y[i].edge[p].1.0 == h);
                assert(p >= cut(y, i, worker));
                assert(cut(z, i, worker) <= cut(y, i, worker));
            }
        }
    }
}

/// Removing nothing changes nothing.
proof fn lemma_taken_nothing(
    nodes: Seq<TreeNodeView>,
    lookup: Map<(u64, u32), WorkerLookup>,
    worker: (u64, u32),
    hashes: Seq<ExternalSequenceBlockHash>,
)
    ensures
        tree_taken(nodes, nodes, worker, hashes),
        lookup_taken(lookup, lookup, nodes, worker, hashes),
{
}

/// Other workers' shares of a tree do not depend on how far one worker holds it.
proof fn lemma_reach_same_shape(
    x: Seq<TreeNodeView>,
    y: Seq<TreeNodeView>,
    top: int,
    node: int,
    steps: nat,
)
    requires
        same_shape(x, y),
        reach(x, top, node, steps),
    ensures
        reach(y, top, node, steps),
    decreases steps,
{
    if steps > 0 {
        let (p, key) = choose|p: int, key: u64|
            0 <= p < x.len() && #[trigger] has_child(x, p, key) && x[p].children[key] == node
                && reach(x, top, p, (steps - 1) as nat);
        lemma_reach_same_shape(x, y, top, p, (steps - 1) as nat);
        assert(y[p].children == x[p].children);
        assert(has_child(y, p, key));
    }
}

/// Subtrees depend on a tree's shape alone.
pub proof fn lemma_below_same_shape(
    x: Seq<TreeNodeView>,
    y: Seq<TreeNodeView>,
    top: int,
    node: int,
)
    requires
        same_shape(x, y),
        below(x, top, node),
    ensures
        below(y, top, node),
{
    let steps = choose|steps: nat| #[trigger] reach(x, top, node, steps);
    lemma_reach_same_shape(x, y, top, node, steps);
}

/// A tree has the shape of one that has its shape.
pub proof fn lemma_same_shape_back(x: Seq<TreeNodeView>, y: Seq<TreeNodeView>)
    requires
        same_shape(x, y),
    ensures
        same_shape(y, x),
{
    assert forall|i: int| 0 <= i < y.len() implies (#[trigger] x[i]).edge == y[i].edge
        && x[i].children == y[i].children && x[i].start == y[i].start && x[i].internal
        == y[i].internal by {
        assert(y[i].edge == x[i].edge);
    }
}

/// Where hashes are depends on a tree's shape alone.
pub proof fn lemma_unique_same_shape(x: Seq<TreeNodeView>, y: Seq<TreeNodeView>)
    requires
        same_shape(x, y),
        unique_in_tree(y),
    ensures
        unique_in_tree(x),
{
    assert forall|i: int, p: int, j: int, r: int|
        0 <= i < x.len() && 0 <= j < x.len() && below(x, 0, i) && below(x, 0, j) && 0 <= p
            < x[i].edge.len() && 0 <= r < x[j].edge.len() && (#[trigger] x[i].edge[p]).1 == (
        #[trigger] x[j].edge[r]).1 implies i == j && p == r by {
        lemma_below_same_shape(x, y, 0, i);
        lemma_below_same_shape(x, y, 0, j);
        assert(y[i].edge == x[i].edge && y[j].edge == x[j].edge);
        assert(y[i].edge[p].1 == y[j].edge[r].1);
    }
}

/// Where coverage only goes, every held node stays in the tree.
proof fn lemma_rooted_same_shape(x: Seq<TreeNodeView>, y: Seq<TreeNodeView>)
    requires
        rooted(x),
        same_shape(x, y),
        forall|i: int, v: (u64, u32)|
            0 <= i < x.len() && (#[trigger] y[i]).cover.dom().contains(v)
                ==> #[trigger] x[i].cover.dom().contains(v),
    ensures
        rooted(y),
{
    assert forall|n: int|
        0 <= n < y.len() && (#[trigger] y[n]).cover != Map::<
            (u64, u32),
            nat,
        >::empty() implies below(y, 0, n) by {
        if x[n].cover == Map::<(u64, u32), nat>::empty() {
            assert forall|v: (u64, u32)| !y[n].cover.dom().contains(v) by {
                if y[n].cover.dom().contains(v) {
                    assert(x[n].cover.dom().contains(v));
                }
            }
            assert(y[n].cover =~= Map::<(u64, u32), nat>::empty());
        }
        lemma_below_same_shape(x, y, 0, n);
    }
}

/// Idle places stay idle where no worker holds more than before.
proof fn lemma_idle_same_shape(x: Seq<TreeNodeView>, y: Seq<TreeNodeView>, spare: Seq<usize>)
    requires
        all_idle(x, spare),
        same_shape(x, y),
        forall|i: int, v: (u64, u32)|
            0 <= i < x.len() && (#[trigger] y[i]).cover.dom().contains(v)
                ==> #[trigger] x[i].cover.dom().contains(v),
    ensures
        all_idle(y, spare),
{
    assert forall|i: int| 0 <= i < spare.len() implies idle(y, #[trigger] spare[i] as int) by {
        let c = spare[i] as int;
        assert(idle(x, c));
        assert forall|v: (u64, u32)| !y[c].cover.dom().contains(v) by {
            if y[c].cover.dom().contains(v) {
                assert(x[c].cover.dom().contains(v));
            }
        }
        assert(y[c].cover =~= Map::<(u64, u32), nat>::empty());
        lemma_idle_kept(x, y, c);
    }
}

/// Lookups stay resolvable where no block that an entry is of was given up.
proof fn lemma_lookup_survives(
    before: Seq<TreeNodeView>,
    after: Seq<TreeNodeView>,
    worker: (u64, u32),
    entries: Map<u64, usize>,
    kept: Map<u64, usize>,
)
    requires
        same_shape(before, after),
        worker_lookup_wf(before, worker, entries),
        forall|h: u64| #[trigger]
            kept.dom().contains(h) ==> entries.dom().contains(h) && kept[h] == entries[h],
        forall|n: int, pos: int, h: u64|
            0 <= n < before.len() && held_at(
                #[trigger] node_of(before, n),
                worker,
                ExternalSequenceBlockHash(h),
                pos,
            ) && #[trigger] kept.dom().contains(h) ==> #[trigger] held_at(
                node_of(after, n),
                worker,
                ExternalSequenceBlockHash(h),
                pos,
            ),
    ensures
        worker_lookup_wf(after, worker, kept),
{
    assert forall|h: u64| #[trigger] kept.dom().contains(h) implies 0 < kept[h] < after.len()
        && found_below(after, kept[h] as int, worker, ExternalSequenceBlockHash(h)) by {
        let e = ExternalSequenceBlockHash(h);
        let top = kept[h] as int;
        assert(found_below(before, top, worker, e));
        let (n, pos) = choose|n: int, pos: int| #[trigger] found_at(before, top, worker, e, n, pos);
        lemma_below_same_shape(before, after, top, n);
        assert(held_at(node_of(before, n), worker, e, pos));
        assert(held_at(node_of(after, n), worker, e, pos));
        assert(found_at(after, top, worker, e, n, pos));
    }
}

/// Whether the entries of a worker lost exactly some hashes, and nothing else of
/// the lookups changed.
spec fn entries_without(
    before: Map<(u64, u32), WorkerLookup>,
    after: Map<(u64, u32), WorkerLookup>,
    worker: (u64, u32),
    stale: Seq<ExternalSequenceBlockHash>,
) -> bool {
    &&& after.dom() == before.dom()
    &&& forall|v: (u64, u32)|
        v != worker ==> #[trigger] entries_of(after, v) == entries_of(before, v)
    &&& forall|h: u64| #[trigger]
        entries_of(after, worker).dom().contains(h) <==> entries_of(before, worker).dom().contains(
            h,
        ) && !stale.contains(ExternalSequenceBlockHash(h))
    &&& forall|h: u64| #[trigger]
        entries_of(after, worker).dom().contains(h) ==> entries_of(after, worker)[h] == entries_of(
            before,
            worker,
        )[h]
}

/// Removing blocks on one node's edge, with what follows them there, is removing
/// those blocks.
proof fn lemma_taken_on_node(
    nodes: Seq<TreeNodeView>,
    before: Map<(u64, u32), WorkerLookup>,
    after: Map<(u64, u32), WorkerLookup>,
    n: int,
    w: (u64, u32),
    hashes: Seq<ExternalSequenceBlockHash>,
    stale: Seq<ExternalSequenceBlockHash>,
)
    requires
        tree_wf(nodes),
        rooted(nodes),
        lookup_wf(nodes, before),
        0 <= n < nodes.len(),
        below(nodes, 0, n),
        entries_without(before, after, w, stale),
        ({
            let edge = nodes[n].edge;
            let first = first_pos(edge, hashes);
            stale == if first < cut(nodes, n, w) {
                edge_hashes(edge).skip(first)
            } else {
                hashes.filter(|h: ExternalSequenceBlockHash| on_edge(edge, h))
            }
        }),
    ensures
        ({
            let cover = without_pos(
                nodes[n].cover,
                w,
                first_pos(nodes[n].edge, hashes) as nat,
            );
            let left = with_cover(nodes, n, cover);
            &&& tree_wf(left)
            &&& lookup_wf(left, after)
            &&& tree_taken(nodes, left, w, hashes)
            &&& lookup_taken(before, after, left, w, hashes)
            &&& forall|i: int|
                0 <= i < hashes.len() && on_edge(nodes[n].edge, #[trigger] hashes[i])
                    ==> !entries_of(after, w).dom().contains(hashes[i].0)
        }),
{
    broadcast use vstd::seq_lib::group_filter_ensures;

    let edge = nodes[n].edge;
    let first = first_pos(edge, hashes);
    let cover = without_pos(nodes[n].cover, w, first as nat);
    let left = with_cover(nodes, n, cover);
    let on = |h: ExternalSequenceBlockHash| on_edge(edge, h);
    lemma_first_pos(edge, hashes);
    lemma_cutoff_bounded(nodes, n, w);
    assert(same_shape(nodes, left));
    assert forall|i: int| 0 <= i < left.len() implies node_view_wf(
        NodeView { edge: (#[trigger] left[i]).edge, cover: left[i].cover },
    ) by {
        let view = NodeView { edge: left[i].edge, cover: left[i].cover };
        assert forall|v: (u64, u32)| #[trigger] view.cover.dom().contains(v) implies 0
            < view.cover[v] <= view.edge.len() by {
            lemma_cutoff_bounded(nodes, i, v);
        }
    }
    lemma_same_shape_wf(nodes, left);
    // The tree.
    if first < cut(nodes, n, w) {
        assert(first < edge.len());
        let i = choose|i: int|
            0 <= i < hashes.len() && on_edge(edge, #[trigger] hashes[i]) && last_pos(
                edge,
                hashes[i],
            ) == first;
        lemma_last_pos_exists(edge, hashes[i]);
        assert(edge[first].1 == hashes[i]);
        assert(hashes.contains(edge[first].1));
    }
    assert(tree_taken(nodes, left, w, hashes));
    // What is stale is on the edge, at or after `first` or after what was held.
    assert forall|h: u64| #[trigger] stale.contains(ExternalSequenceBlockHash(h)) implies exists|
        p: int,
    |
        0 <= p < edge.len() && (#[trigger] edge[p]).1.0 == h && p >= cut(left, n, w) by {
        let e = ExternalSequenceBlockHash(h);
        let j = choose|j: int| 0 <= j < stale.len() && stale[j] == e;
        if first < cut(nodes, n, w) {
            assert(edge_hashes(edge).skip(first)[j] == edge[first + j].1);
            assert(edge[first + j].1.0 == h);
        } else {
            hashes.lemma_filter_pred(on, j);
            hashes.lemma_filter_contains_rev(on, e);
            assert(on(e) && hashes.contains(e));
            lemma_last_pos_exists(edge, e);
            let p = last_pos(edge, e);
            let i = choose|i: int| 0 <= i < hashes.len() && hashes[i] == e;
            assert(on_edge(edge, hashes[i]));
            assert(edge[p].1.0 == h);
        }
    }
    assert forall|i: int| 0 <= i < hashes.len() && on_edge(
        edge,
        #[trigger] hashes[i],
    ) implies stale.contains(hashes[i]) by {
        let p = last_pos(edge, hashes[i]);
        lemma_last_pos_exists(edge, hashes[i]);
        assert(first <= p);
        if first < cut(nodes, n, w) {
            assert(edge_hashes(edge).skip(first)[p - first] == hashes[i]);
        } else {
            assert(hashes.contains(hashes[i]) && on(hashes[i]));
        }
    }
    assert forall|i: int| 0 <= i < hashes.len() && on_edge(
        nodes[n].edge,
        #[trigger] hashes[i],
    ) implies !entries_of(after, w).dom().contains(hashes[i].0) by {
        assert(stale.contains(hashes[i]));
        assert(ExternalSequenceBlockHash(hashes[i].0) == hashes[i]);
    }
    // The lookups.
    assert forall|h: u64| #[trigger]
        entries_of(before, w).dom().contains(h) && !entries_of(after, w).dom().contains(
            h,
        ) implies hashes.contains(ExternalSequenceBlockHash(h)) || exists|i: int, p: int|
        given_up(left, w, h, i, p) by {
        assert(stale.contains(ExternalSequenceBlockHash(h)));
        let p = choose|p: int|
            0 <= p < edge.len() && (#[trigger] edge[p]).1.0 == h && p >= cut(left, n, w);
        assert(given_up(left, w, h, n, p));
    }
    if unique_in_tree(left) {
        lemma_below_same_shape(nodes, left, 0, n);
        assert forall|h: u64, i: int, p: int|
            #![trigger entries_of(before, w).dom().contains(h), left[i].edge[p]]
            entries_of(before, w).dom().contains(h) && !entries_of(after, w).dom().contains(h) && 0
                <= i < left.len() && 0 <= p < left[i].edge.len() && left[i].edge[p].1.0
                == h implies p >= cut(left, i, w) by {
            assert(stale.contains(ExternalSequenceBlockHash(h)));
            let r = choose|r: int|
                0 <= r < edge.len() && (#[trigger] edge[r]).1.0 == h && r >= cut(left, n, w);
            if cut(left, i, w) > 0 {
                lemma_cutoff_bounded(left, i, w);
                assert(nodes[i].cover.dom().contains(w));
                assert(below(nodes, 0, i));
                lemma_below_same_shape(nodes, left, 0, i);
                assert(left[n].edge[r].1 == left[i].edge[p].1);
            }
        }
    }
    assert(lookup_taken(before, after, left, w, hashes));
    assert forall|v: (u64, u32)| #[trigger] after.dom().contains(v) implies worker_lookup_wf(
        left,
        v,
        after[v]@,
    ) by {
        assert(before.dom().contains(v));
        assert(worker_lookup_wf(nodes, v, before[v]@));
        assert(entries_of(after, v) == after[v]@ && entries_of(before, v) == before[v]@);
        assert forall|m: int, pos: int, h: u64|
            0 <= m < nodes.len() && held_at(
                #[trigger] node_of(nodes, m),
                v,
                ExternalSequenceBlockHash(h),
                pos,
            ) && #[trigger] after[v]@.dom().contains(h) implies #[trigger] held_at(
            node_of(left, m),
            v,
            ExternalSequenceBlockHash(h),
            pos,
        ) by {
            if v == w && m == n && pos >= first && first < cut(nodes, n, w) {
                assert(edge_hashes(edge).skip(first)[pos - first] == ExternalSequenceBlockHash(h));
                assert(stale.contains(ExternalSequenceBlockHash(h)));
            }
        }
        lemma_lookup_survives(nodes, left, v, before[v]@, after[v]@);
    }
}

/// Removal takes blocks from the worker that they are removed from and from no
/// other, and gives nothing to anyone.
pub proof fn removal_only_takes(
    before: Seq<TreeNodeView>,
    after: Seq<TreeNodeView>,
    worker: (u64, u32),
    hashes: Seq<ExternalSequenceBlockHash>,
    v: (u64, u32),
    path: Seq<LocalBlockHash>,
)
    requires
        tree_wf(before),
        tree_taken(before, after, worker, hashes),
    ensures
        holds(after, v, path) ==> holds(before, v, path),
        v != worker ==> holds(after, v, path) == holds(before, v, path),
{
    lemma_same_shape(before, after, 0, path);
    if locate(before, 0, path) is Some {
        lemma_locate_valid(before, 0, path);
        let (n, _) = locate(before, 0, path)->0;
        assert(cut(after, n, v) <= cut(before, n, v));
        assert(v != worker ==> cut(after, n, v) == cut(before, n, v));
    }
}

/// Whether an entry leads to a node.
pub open spec fn points_to(entries: Map<u64, usize>, i: int) -> bool {
    exists|h: u64| #[trigger] entries.dom().contains(h) && entries[h] == i
}

/// Whether a worker was dropped from exactly the nodes that its entries lead to.
pub open spec fn worker_dropped(
    before: Seq<TreeNodeView>,
    after: Seq<TreeNodeView>,
    worker: (u64, u32),
    entries: Map<u64, usize>,
) -> bool {
    &&& same_shape(before, after)
    &&& forall|i: int, v: (u64, u32)|
        0 <= i < before.len() ==> #[trigger] cut(after, i, v) == if v == worker && points_to(
            entries,
            i,
        ) {
            0
        } else {
            cut(before, i, v)
        }
}

/// Whether all ranks of a worker that have a lookup were dropped from the nodes
/// that their entries lead to.
pub open spec fn ranks_dropped(
    before: Seq<TreeNodeView>,
    after: Seq<TreeNodeView>,
    lookup: Map<(u64, u32), WorkerLookup>,
    worker_id: u64,
) -> bool {
    &&& same_shape(before, after)
    &&& forall|i: int, v: (u64, u32)|
        0 <= i < before.len() ==> #[trigger] cut(after, i, v) == if v.0 == worker_id && points_to(
            entries_of(lookup, v),
            i,
        ) {
            0
        } else {
            cut(before, i, v)
        }
}

/// The lookups of workers that lost nothing stay resolvable.
proof fn lemma_lookup_of_others(
    before: Seq<TreeNodeView>,
    after: Seq<TreeNodeView>,
    v: (u64, u32),
    entries: Map<u64, usize>,
)
    requires
        same_shape(before, after),
        worker_lookup_wf(before, v, entries),
        forall|i: int| 0 <= i < before.len() ==> #[trigger] cut(after, i, v) == cut(before, i, v),
    ensures
        worker_lookup_wf(after, v, entries),
{
    assert forall|m: int, pos: int, h: u64|
        0 <= m < before.len() && held_at(
            #[trigger] node_of(before, m),
            v,
            ExternalSequenceBlockHash(h),
            pos,
        ) && #[trigger] entries.dom().contains(h) implies #[trigger] held_at(
        node_of(after, m),
        v,
        ExternalSequenceBlockHash(h),
        pos,
    ) by {
        assert(cut(after, m, v) == cut(before, m, v));
        assert(after[m].edge == before[m].edge);
    }
    lemma_lookup_survives(before, after, v, entries, entries);
}

impl ConcurrentRadixTreeCompressed {
    /// Drops a worker from the nodes that its entries lead to.
    fn drop_worker_nodes(&mut self, worker: WorkerWithDpRank, entries: &WorkerLookup)
        requires
            old(self).wf(),
            forall|h: u64| #[trigger]
                entries@.dom().contains(h) ==> entries@[h] < old(self)@.len(),
        ensures
            final(self).wf(),
            worker_dropped(old(self)@, final(self)@, worker.spec_key(), entries@),
    {
        let ghost nodes = self@;
        let ghost w = worker.spec_key();
        let hashes = fx_hash_keys(entries);
        for i in 0..hashes.len()
            invariant
                self.wf(),
                w == worker.spec_key(),
                same_shape(nodes, self@),
                hashes@.to_set() == entries@.dom(),
                forall|h: u64| #[trigger]
                    entries@.dom().contains(h) ==> entries@[h] < nodes.len(),
                forall|n: int, v: (u64, u32)|
                    0 <= n < nodes.len() ==> #[trigger] cut(self@, n, v) == if v == w && (exists|
                        j: int,
                    |
                        0 <= j < i && entries@[#[trigger] hashes@[j]] == n) {
                        0
                    } else {
                        cut(nodes, n, v)
                    },
        {
            let ghost x = self@;
            assert(hashes@.to_set().contains(hashes@[i as int]));
            if let Some(node) = fx_get(entries, &hashes[i]) {
                let n = *node;
                self.nodes[n].state.drop_worker(worker);
                proof {
                    let cover = x[n as int].cover.remove(w);
                    assert(self@ =~= with_cover(x, n as int, cover));
                    assert forall|m: int| 0 <= m < self@.len() implies node_view_wf(
                        NodeView { edge: (#[trigger] self@[m]).edge, cover: self@[m].cover },
                    ) by {
                        let view = NodeView { edge: self@[m].edge, cover: self@[m].cover };
                        assert forall|v: (u64, u32)| #[trigger]
                            view.cover.dom().contains(v) implies 0 < view.cover[v]
                            <= view.edge.len() by {
                            lemma_cutoff_bounded(x, m, v);
                        }
                    }
                    lemma_same_shape_wf(x, self@);
                    lemma_rooted_same_shape(x, self@);
                    lemma_idle_same_shape(x, self@, self.spare@);
                    assert forall|m: int, v: (u64, u32)|
                        0 <= m < nodes.len() implies #[trigger] cut(self@, m, v) == if v == w && (
                    exists|j: int| 0 <= j < i + 1 && entries@[#[trigger] hashes@[j]] == m) {
                        0
                    } else {
                        cut(nodes, m, v)
                    } by {
                        assert(cut(x, m, v) == if v == w && (exists|j: int|
                            0 <= j < i && entries@[#[trigger] hashes@[j]] == m) {
                            0
                        } else {
                            cut(nodes, m, v)
                        });
                        if v == w && m == n {
                            assert(entries@[hashes@[i as int]] == m);
                        }
                    }
                }
            }
        }
        proof {
            assert forall|n: int, v: (u64, u32)|
                0 <= n < nodes.len() implies #[trigger] cut(self@, n, v) == if v == w && points_to(
                entries@,
                n,
            ) {
                0
            } else {
                cut(nodes, n, v)
            } by {
                if points_to(entries@, n) {
                    let h = choose|h: u64| #[trigger] entries@.dom().contains(h) && entries@[h] == n;
                    assert(hashes@.to_set().contains(h));
                    let j = choose|j: int| 0 <= j < hashes@.len() && hashes@[j] == h;
                    assert(entries@[hashes@[j]] == n);
                }
                if exists|j: int| 0 <= j < hashes@.len() && entries@[#[trigger] hashes@[j]] == n {
                    let j = choose|j: int|
                        0 <= j < hashes@.len() && entries@[#[trigger] hashes@[j]] == n;
                    assert(hashes@.to_set().contains(hashes@[j]));
                }
            }
        }
    }

    /// Takes away all blocks of a worker, of every rank that has a lookup. The
    /// lookups go too, or are kept without entries.
    pub fn remove_or_clear_worker_blocks(
        &mut self,
        lookup: &mut LookupTable,
        worker_id: u64,
        keep_worker: bool,
    )
        requires
            old(self).wf(),
            lookup_wf(old(self)@, old(lookup)@),
        ensures
            final(self).wf(),
            lookup_wf(final(self)@, final(lookup)@),
            ranks_dropped(old(self)@, final(self)@, old(lookup)@, worker_id),
            forall|v: (u64, u32)| #[trigger]
                final(lookup)@.dom().contains(v) <==> old(lookup)@.dom().contains(v) && (v.0
                    != worker_id || keep_worker),
            forall|v: (u64, u32)|
                v.0 == worker_id ==> #[trigger] entries_of(final(lookup)@, v) == Map::<
                    u64,
                    usize,
                >::empty(),
            forall|v: (u64, u32)|
                v.0 != worker_id ==> #[trigger] entries_of(final(lookup)@, v) == entries_of(
                    old(lookup)@,
                    v,
                ),
    {
        let ghost nodes = self@;
        let ghost before = lookup@;
        let workers = fx_worker_keys(lookup);
        for i in 0..workers.len()
            invariant
                self.wf(),
                same_shape(nodes, self@),
                lookup_wf(nodes, before),
                workers@.no_duplicates(),
                workers@.to_set() == before.dom(),
                forall|n: int, v: (u64, u32)|
                    0 <= n < nodes.len() ==> #[trigger] cut(self@, n, v) == if v.0 == worker_id
                        && workers@.take(i as int).contains(v) && points_to(
                        entries_of(before, v),
                        n,
                    ) {
                        0
                    } else {
                        cut(nodes, n, v)
                    },
                forall|v: (u64, u32)| #[trigger]
                    lookup@.dom().contains(v) <==> before.dom().contains(v) && (v.0 != worker_id
                        || keep_worker || !workers@.take(i as int).contains(v)),
                forall|v: (u64, u32)| #[trigger]
                    lookup@.dom().contains(v) ==> lookup@[v]@ == if v.0 == worker_id
                        && workers@.take(i as int).contains(v) {
                        Map::<u64, usize>::empty()
                    } else {
                        before[v]@
                    },
        {
            let key = workers[i];
            let ghost done = workers@.take(i as int);
            let ghost more = workers@.take(i + 1);
            let ghost x = self@;
            proof {
                assert(more =~= done.push(key));
                lemma_push_contains(done, key);
                assert(workers@.to_set().contains(key));
                assert(!done.contains(key));
            }
            if key.0 == worker_id {
                if let Some(entries) = fx_remove(lookup, &key) {
                    let worker = WorkerWithDpRank::new(key.0, key.1);
                    assert(worker_lookup_wf(nodes, key, before[key]@));
                    assert(entries@ == entries_of(before, key));
                    self.drop_worker_nodes(worker, &entries);
                    if keep_worker {
                        fx_insert(lookup, key, FxMap::default());
                    }
                    proof {
                        assert(same_shape(nodes, self@)) by {
                            assert forall|m: int| 0 <= m < nodes.len() implies (
                            #[trigger] self@[m]).edge == nodes[m].edge && self@[m].children
                                == nodes[m].children && self@[m].start == nodes[m].start
                                && self@[m].internal == nodes[m].internal by {
                                assert(x[m].edge == nodes[m].edge);
                            }
                        }
                        assert forall|n: int, v: (u64, u32)|
                            0 <= n < nodes.len() implies #[trigger] cut(self@, n, v) == if v.0
                            == worker_id && more.contains(v) && points_to(
                            entries_of(before, v),
                            n,
                        ) {
                            0
                        } else {
                            cut(nodes, n, v)
                        } by {
                            assert(cut(x, n, v) == if v.0 == worker_id && done.contains(v)
                                && points_to(entries_of(before, v), n) {
                                0
                            } else {
                                cut(nodes, n, v)
                            });
                        }
                    }
                }
            }
        }
        proof {
            assert(workers@.take(workers@.len() as int) =~= workers@);
            assert forall|v: (u64, u32)| workers@.contains(v) == before.dom().contains(v) by {
                assert(workers@.to_set().contains(v) == workers@.contains(v));
            }
            assert forall|v: (u64, u32)| #[trigger] lookup@.dom().contains(v) implies worker_lookup_wf(
                self@,
                v,
                lookup@[v]@,
            ) by {
                assert(worker_lookup_wf(nodes, v, before[v]@));
                if v.0 != worker_id {
                    assert forall|n: int| 0 <= n < nodes.len() implies #[trigger] cut(self@, n, v)
                        == cut(nodes, n, v) by {}
                    lemma_lookup_of_others(nodes, self@, v, before[v]@);
                }
            }
        }
    }

    /// Takes away all blocks of one rank of a worker, and its lookup.
    pub fn remove_worker_dp_rank(
        &mut self,
        lookup: &mut LookupTable,
        worker_id: u64,
        dp_rank: u32,
    )
        requires
            old(self).wf(),
            lookup_wf(old(self)@, old(lookup)@),
        ensures
            final(self).wf(),
            lookup_wf(final(self)@, final(lookup)@),
            worker_dropped(
                old(self)@,
                final(self)@,
                (worker_id, dp_rank),
                entries_of(old(lookup)@, (worker_id, dp_rank)),
            ),
            final(lookup)@ == old(lookup)@.remove((worker_id, dp_rank)),
    {
        let ghost nodes = self@;
        let ghost before = lookup@;
        let worker = WorkerWithDpRank::new(worker_id, dp_rank);
        let key = worker.key();
        if let Some(entries) = fx_remove(lookup, &key) {
            assert(worker_lookup_wf(nodes, key, before[key]@));
            self.drop_worker_nodes(worker, &entries);
        }
        proof {
            assert forall|v: (u64, u32)| #[trigger] lookup@.dom().contains(v) implies worker_lookup_wf(
                self@,
                v,
                lookup@[v]@,
            ) by {
                assert(worker_lookup_wf(nodes, v, before[v]@));
                assert forall|n: int| 0 <= n < nodes.len() implies #[trigger] cut(self@, n, v)
                    == cut(nodes, n, v) by {}
                lemma_lookup_of_others(nodes, self@, v, before[v]@);
            }
        }
    }

    /// Takes away all blocks of a worker and keeps its lookups, without entries.
    pub fn clear_all_blocks(&mut self, lookup: &mut LookupTable, worker_id: u64)
        requires
            old(self).wf(),
            lookup_wf(old(self)@, old(lookup)@),
        ensures
            final(self).wf(),
            lookup_wf(final(self)@, final(lookup)@),
            ranks_dropped(old(self)@, final(self)@, old(lookup)@, worker_id),
            final(lookup)@.dom() == old(lookup)@.dom(),
            forall|v: (u64, u32)|
                v.0 == worker_id ==> #[trigger] entries_of(final(lookup)@, v) == Map::<
                    u64,
                    usize,
                >::empty(),
            forall|v: (u64, u32)|
                v.0 != worker_id ==> #[trigger] entries_of(final(lookup)@, v) == entries_of(
                    old(lookup)@,
                    v,
                ),
    {
        self.remove_or_clear_worker_blocks(lookup, worker_id, true);
        assert(lookup@.dom() =~= old(lookup)@.dom());
    }

    /// Takes hashes out of a worker's lookup.
    fn remove_lookup_hashes(
        lookup: &mut LookupTable,
        worker: WorkerWithDpRank,
        hashes: &Vec<ExternalSequenceBlockHash>,
    )
        ensures
            final(lookup)@.dom() == old(lookup)@.dom(),
            forall|v: (u64, u32)|
                v != worker.spec_key() ==> #[trigger] entries_of(final(lookup)@, v) == entries_of(
                    old(lookup)@,
                    v,
                ),
            forall|h: u64| #[trigger]
                entries_of(final(lookup)@, worker.spec_key()).dom().contains(h) <==> entries_of(
                    old(lookup)@,
                    worker.spec_key(),
                ).dom().contains(h) && !hashes@.contains(ExternalSequenceBlockHash(h)),
            forall|h: u64| #[trigger]
                entries_of(final(lookup)@, worker.spec_key()).dom().contains(h) ==> entries_of(
                    final(lookup)@,
                    worker.spec_key(),
                )[h] == entries_of(old(lookup)@, worker.spec_key())[h],
    {
        let key = worker.key();
        let ghost w = worker.spec_key();
        if let Some(entries) = fx_remove(lookup, &key) {
            let mut entries = entries;
            let ghost before = entries@;
            for i in 0..hashes.len()
                invariant
                    forall|h: u64| #[trigger]
                        entries@.dom().contains(h) <==> before.dom().contains(h) && !hashes@.take(
                            i as int,
                        ).contains(ExternalSequenceBlockHash(h)),
                    forall|h: u64| #[trigger]
                        entries@.dom().contains(h) ==> entries@[h] == before[h],
            {
                let hash = hashes[i];
                let ghost done = hashes@.take(i as int);
                let ghost more = hashes@.take(i + 1);
                proof {
                    assert(more =~= done.push(hash));
                    lemma_push_contains(done, hash);
                }
                fx_remove(&mut entries, &hash.0);
            }
            assert(hashes@.take(hashes@.len() as int) =~= hashes@);
            fx_insert(lookup, key, entries);
        }
        assert(lookup@.dom() =~= old(lookup)@.dom());
    }

    /// Removes those of some blocks that are on a node's edge, with what follows
    /// them there, and returns the others.
    fn remove_on_node(
        &mut self,
        lookup: &mut LookupTable,
        worker: WorkerWithDpRank,
        n: usize,
        hashes: &[ExternalSequenceBlockHash],
    ) -> (unmatched: Vec<ExternalSequenceBlockHash>)
        requires
            old(self).wf(),
            lookup_wf(old(self)@, old(lookup)@),
            n < old(self)@.len(),
            below(old(self)@, 0, n as int),
        ensures
            final(self).wf(),
            lookup_wf(final(self)@, final(lookup)@),
            tree_taken(old(self)@, final(self)@, worker.spec_key(), hashes@),
            lookup_taken(
                old(lookup)@,
                final(lookup)@,
                final(self)@,
                worker.spec_key(),
                hashes@,
            ),
            unmatched@ == hashes@.filter(
                |h: ExternalSequenceBlockHash| !on_edge(old(self)@[n as int].edge, h),
            ),
            forall|i: int|
                0 <= i < hashes@.len() && on_edge(old(self)@[n as int].edge, #[trigger] hashes@[i])
                    ==> !entries_of(final(lookup)@, worker.spec_key()).dom().contains(hashes@[i].0),
            final(self)@ == with_cover(
                old(self)@,
                n as int,
                without_pos(
                    old(self)@[n as int].cover,
                    worker.spec_key(),
                    first_pos(old(self)@[n as int].edge, hashes@) as nat,
                ),
            ),
    {
        let ghost nodes = self@;
        let ghost w = worker.spec_key();
        let ghost edge = nodes[n as int].edge;
        let ghost first = first_pos(edge, hashes@);
        proof {
            lemma_first_pos(edge, hashes@);
            lemma_cutoff_bounded(nodes, n as int, w);
        }
        let outcome = self.nodes[n].state.remove_worker_for_hashes(worker, hashes);
        proof {
            assert(self@ =~= with_cover(nodes, n as int, self@[n as int].cover));
            lemma_rooted_same_shape(nodes, self@);
            lemma_idle_same_shape(nodes, self@, self.spare@);
        }
        match outcome {
            None => {
                let mut unmatched: Vec<ExternalSequenceBlockHash> = Vec::new();
                for i in 0..hashes.len()
                    invariant
                        unmatched@ == hashes@.take(i as int),
                {
                    unmatched.push(hashes[i]);
                    assert(unmatched@ =~= hashes@.take(i + 1));
                }
                proof {
                    let off = |h: ExternalSequenceBlockHash| !on_edge(edge, h);
                    let on = |h: ExternalSequenceBlockHash| on_edge(edge, h);
                    assert(unmatched@ =~= hashes@);
                    lemma_filter_all(hashes@, off);
                    lemma_filter_none(hashes@, on);
                    lemma_taken_on_node(
                        nodes,
                        lookup@,
                        lookup@,
                        n as int,
                        w,
                        hashes@,
                        hashes@.filter(on),
                    );
                }
                unmatched
            },
            Some(outcome) => {
                let ghost before = lookup@;
                Self::remove_lookup_hashes(lookup, worker, &outcome.stale_hashes);
                proof {
                    lemma_taken_on_node(
                        nodes,
                        before,
                        lookup@,
                        n as int,
                        w,
                        hashes@,
                        outcome.stale_hashes@,
                    );
                }
                outcome.unmatched_hashes
            },
        }
    }

    /// Removes one block of a worker.
    fn apply_removed_hash(
        &mut self,
        lookup: &mut LookupTable,
        worker: WorkerWithDpRank,
        block_hash: ExternalSequenceBlockHash,
    )
        requires
            old(self).wf(),
            lookup_wf(old(self)@, old(lookup)@),
        ensures
            final(self).wf(),
            lookup_wf(final(self)@, final(lookup)@),
            tree_taken(old(self)@, final(self)@, worker.spec_key(), seq![block_hash]),
            lookup_taken(
                old(lookup)@,
                final(lookup)@,
                final(self)@,
                worker.spec_key(),
                seq![block_hash],
            ),
            !entries_of(final(lookup)@, worker.spec_key()).dom().contains(block_hash.0),
            !entries_of(old(lookup)@, worker.spec_key()).dom().contains(block_hash.0)
                ==> final(self)@ == old(self)@,
    {
        let ghost nodes = self@;
        let ghost w = worker.spec_key();
        let ghost one = seq![block_hash];
        match self.resolve_lookup(lookup, worker, block_hash) {
            None => {
                proof {
                    lemma_taken_nothing(nodes, lookup@, w, one);
                }
            },
            Some((n, pos)) => {
                let ghost repaired_lookup = lookup@;
                let mut hashes: Vec<ExternalSequenceBlockHash> = Vec::new();
                hashes.push(block_hash);
                proof {
                    lemma_cutoff_bounded(nodes, n as int, w);
                    assert(nodes[n as int].cover.dom().contains(w));
                    assert(nodes[n as int].edge[pos as int].1 == block_hash);
                    assert(on_edge(nodes[n as int].edge, block_hash));
                    assert(hashes@ =~= one);
                    assert(on_edge(nodes[n as int].edge, hashes@[0]));
                }
                let _ = self.remove_on_node(lookup, worker, n, hashes.as_slice());
                proof {
                    lemma_taken_nothing(nodes, old(lookup)@, w, one);
                    assert(lookup_taken(old(lookup)@, repaired_lookup, nodes, w, one));
                    lemma_taken_twice(
                        nodes,
                        old(lookup)@,
                        nodes,
                        repaired_lookup,
                        self@,
                        lookup@,
                        w,
                        one,
                        one,
                        one,
                    );
                }
            },
        }
    }

    /// Removes blocks of a worker that were found together on a node's edge.
    /// Blocks that are not on it are removed one by one.
    fn apply_removed_group(
        &mut self,
        lookup: &mut LookupTable,
        worker: WorkerWithDpRank,
        node: Option<usize>,
        block_hashes: &Vec<ExternalSequenceBlockHash>,
    )
        requires
            old(self).wf(),
            lookup_wf(old(self)@, old(lookup)@),
            node matches Some(n) ==> n < old(self)@.len() && below(old(self)@, 0, n as int),
        ensures
            final(self).wf(),
            lookup_wf(final(self)@, final(lookup)@),
            tree_taken(old(self)@, final(self)@, worker.spec_key(), block_hashes@),
            lookup_taken(
                old(lookup)@,
                final(lookup)@,
                final(self)@,
                worker.spec_key(),
                block_hashes@,
            ),
            node is None ==> final(self)@ == old(self)@ && final(lookup)@ == old(lookup)@,
            node is Some ==> forall|i: int|
                0 <= i < block_hashes@.len() ==> !entries_of(
                    final(lookup)@,
                    worker.spec_key(),
                ).dom().contains((#[trigger] block_hashes@[i]).0),
    {
        let ghost nodes = self@;
        let ghost w = worker.spec_key();
        let ghost hashes = block_hashes@;
        proof {
            lemma_taken_nothing(nodes, lookup@, w, hashes);
        }
        let n = match node {
            Some(n) => n,
            None => {
                return ;
            },
        };
        if block_hashes.len() == 0 {
            return ;
        }
        let unmatched = self.remove_on_node(lookup, worker, n, block_hashes.as_slice());
        let ghost off = |h: ExternalSequenceBlockHash| !on_edge(nodes[n as int].edge, h);
        proof {
            assert(unmatched@ == hashes.filter(off));
            assert forall|e: ExternalSequenceBlockHash| #[trigger]
                unmatched@.contains(e) implies hashes.contains(e) by {
                hashes.lemma_filter_contains_rev(off, e);
            }
        }
        for i in 0..unmatched.len()
            invariant
                self.wf(),
                lookup_wf(self@, lookup@),
                w == worker.spec_key(),
                tree_taken(nodes, self@, w, hashes),
                lookup_taken(old(lookup)@, lookup@, self@, w, hashes),
                forall|e: ExternalSequenceBlockHash| #[trigger]
                    unmatched@.contains(e) ==> hashes.contains(e),
                forall|j: int|
                    0 <= j < hashes.len() && on_edge(nodes[n as int].edge, #[trigger] hashes[j])
                        ==> !entries_of(lookup@, w).dom().contains(hashes[j].0),
                forall|j: int|
                    0 <= j < i ==> !entries_of(lookup@, w).dom().contains((#[trigger] unmatched@[j]).0),
        {
            let ghost x = self@;
            let ghost lx = lookup@;
            assert(unmatched@.contains(unmatched@[i as int]));
            self.apply_removed_hash(lookup, worker, unmatched[i]);
            proof {
                lemma_taken_twice(
                    nodes,
                    old(lookup)@,
                    x,
                    lx,
                    self@,
                    lookup@,
                    w,
                    hashes,
                    seq![unmatched@[i as int]],
                    hashes,
                );
                assert forall|j: int| 0 <= j < hashes.len() && on_edge(
                    nodes[n as int].edge,
                    #[trigger] hashes[j],
                ) implies !entries_of(lookup@, w).dom().contains(hashes[j].0) by {
                    assert(!entries_of(lx, w).dom().contains(hashes[j].0));
                }
            }
        }
        proof {
            assert forall|j: int| 0 <= j < hashes.len() implies !entries_of(
                lookup@,
                w,
            ).dom().contains((#[trigger] hashes[j]).0) by {
                if !on_edge(nodes[n as int].edge, hashes[j]) {
                    assert(off(hashes[j]));
                    hashes.lemma_filter_contains(off, j);
                    let k = choose|k: int| 0 <= k < unmatched@.len() && unmatched@[k] == hashes[j];
                    assert(!entries_of(lookup@, w).dom().contains(unmatched@[k].0));
                }
            }
        }
    }

    /// Removes blocks of a worker. Blocks that the worker's lookup does not know
    /// are passed over; with each removed block go the blocks after it on the same
    /// edge. Nothing happens, and that is an error, where the worker has no lookup.
    pub fn apply_removed(
        &mut self,
        lookup: &mut LookupTable,
        worker: WorkerWithDpRank,
        op: &KvCacheRemoveData,
    ) -> (r: Result<(), KvCacheEventError>)
        requires
            old(self).wf(),
            lookup_wf(old(self)@, old(lookup)@),
        ensures
            final(self).wf(),
            lookup_wf(final(self)@, final(lookup)@),
            r is Ok <==> old(lookup)@.dom().contains(worker.spec_key()),
            r is Err ==> r->Err_0 == KvCacheEventError::BlockNotFound && final(self)@ == old(self)@
                && final(lookup)@ == old(lookup)@,
            tree_taken(old(self)@, final(self)@, worker.spec_key(), op.block_hashes@),
            lookup_taken(
                old(lookup)@,
                final(lookup)@,
                final(self)@,
                worker.spec_key(),
                op.block_hashes@,
            ),
            forall|i: int|
                0 <= i < op.block_hashes@.len() ==> !entries_of(
                    final(lookup)@,
                    worker.spec_key(),
                ).dom().contains((#[trigger] op.block_hashes@[i]).0),
    {
        let ghost nodes = self@;
        let ghost w = worker.spec_key();
        let ghost hashes = op.block_hashes@;
        proof {
            lemma_taken_nothing(nodes, lookup@, w, hashes);
        }
        let key = worker.key();
        if !fx_contains(lookup, &key) {
            return Err(KvCacheEventError::BlockNotFound);
        }
        let mut group_node: Option<usize> = None;
        let mut group_hashes: Vec<ExternalSequenceBlockHash> = Vec::new();
        for i in 0..op.block_hashes.len()
            invariant
                self.wf(),
                lookup_wf(self@, lookup@),
                w == worker.spec_key(),
                hashes == op.block_hashes@,
                tree_taken(nodes, self@, w, hashes),
                lookup_taken(old(lookup)@, lookup@, self@, w, hashes),
                group_node matches Some(n) ==> n < self@.len() && below(self@, 0, n as int),
                group_node is None ==> group_hashes@.len() == 0,
                forall|e: ExternalSequenceBlockHash| #[trigger]
                    group_hashes@.contains(e) ==> hashes.contains(e),
                forall|j: int|
                    0 <= j < i ==> group_hashes@.contains(#[trigger] hashes[j]) || !entries_of(
                        lookup@,
                        w,
                    ).dom().contains(hashes[j].0),
        {
            let block_hash = op.block_hashes[i];
            let same_edge = match group_node {
                Some(n) => self.nodes[n].state.position_of(block_hash).is_some(),
                None => false,
            };
            assert(hashes.contains(hashes[i as int]));
            if same_edge {
                proof {
                    lemma_push_contains(group_hashes@, block_hash);
                }
                group_hashes.push(block_hash);
            } else {
                let ghost x = self@;
                let ghost lx = lookup@;
                let ghost group = group_hashes@;
                self.apply_removed_group(lookup, worker, group_node, &group_hashes);
                proof {
                    lemma_taken_twice(
                        nodes,
                        old(lookup)@,
                        x,
                        lx,
                        self@,
                        lookup@,
                        w,
                        hashes,
                        group,
                        hashes,
                    );
                    assert forall|j: int| 0 <= j < i implies !entries_of(
                        lookup@,
                        w,
                    ).dom().contains((#[trigger] hashes[j]).0) by {
                        if group.contains(hashes[j]) {
                            let k = choose|k: int| 0 <= k < group.len() && group[k] == hashes[j];
                            assert(!entries_of(lookup@, w).dom().contains(group[k].0));
                        } else {
                            assert(!entries_of(lx, w).dom().contains(hashes[j].0));
                        }
                    }
                }
                group_node = None;
                group_hashes = Vec::new();
                let ghost y = self@;
                let ghost ly = lookup@;
                let resolved = self.resolve_lookup(lookup, worker, block_hash);
                proof {
                    assert(lookup_taken(ly, lookup@, y, w, hashes));
                    lemma_taken_nothing(y, ly, w, hashes);
                    lemma_taken_twice(
                        nodes,
                        old(lookup)@,
                        y,
                        ly,
                        y,
                        lookup@,
                        w,
                        hashes,
                        hashes,
                        hashes,
                    );
                    assert forall|j: int| 0 <= j < i implies !entries_of(
                        lookup@,
                        w,
                    ).dom().contains((#[trigger] hashes[j]).0) by {
                        assert(!entries_of(ly, w).dom().contains(hashes[j].0));
                    }
                }
                if let Some((n, _)) = resolved {
                    proof {
                        lemma_cutoff_bounded(y, n as int, w);
                        assert(y[n as int].cover.dom().contains(w));
                    }
                    group_node = Some(n);
                    group_hashes.push(block_hash);
                    assert(group_hashes@[0] == block_hash);
                }
            }
        }
        let ghost x = self@;
        let ghost lx = lookup@;
        self.apply_removed_group(lookup, worker, group_node, &group_hashes);
        proof {
            lemma_taken_twice(
                nodes,
                old(lookup)@,
                x,
                lx,
                self@,
                lookup@,
                w,
                hashes,
                group_hashes@,
                hashes,
            );
            assert forall|j: int| 0 <= j < hashes.len() implies !entries_of(
                lookup@,
                w,
            ).dom().contains((#[trigger] hashes[j]).0) by {
                if group_hashes@.contains(hashes[j]) {
                    let k = choose|k: int|
                        0 <= k < group_hashes@.len() && group_hashes@[k] == hashes[j];
                    assert(!entries_of(lookup@, w).dom().contains(group_hashes@[k].0));
                } else {
                    assert(!entries_of(lx, w).dom().contains(hashes[j].0));
                }
            }
        }
        Ok(())
    }
}

} // verus!
