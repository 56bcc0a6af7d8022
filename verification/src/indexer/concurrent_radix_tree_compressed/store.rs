//! Storing of blocks.

use vstd::prelude::*;

use crate::collections::{fx_insert, fx_remove, FxMap};
use crate::indexer::compressed_radix::{
    continues_suffix, edge_hashes, edge_of_blocks, held_at, repeats_suffix, EdgeBlock, NodeState,
};
use crate::indexer::concurrent_radix_tree_compressed::find::lemma_edge_walk;
use crate::indexer::concurrent_radix_tree_compressed::growth::{
    added, appended, block_at, grown, lemma_append_grows, lemma_child_grows, lemma_cover_grows,
    lemma_grown_twice, lemma_named_kept, lemma_named_twice, lemma_same_shape, lemma_split_keeps,
    moved, named, same_shape, split_at, with_child, with_cover,
};
use crate::indexer::concurrent_radix_tree_compressed::lookup::{
    below, entries_of, found_at, found_below, lemma_below_child, lemma_below_self,
    lookup_wf, node_of, reach, rooted, worker_lookup_wf, LookupTable,
};
use crate::indexer::concurrent_radix_tree_compressed::model::{
    child_wf, has_child, holds, idle, lemma_cutoff_bounded, lemma_idle_kept, lemma_last_step,
    lemma_locate_compose, lemma_locate_on_edge, lemma_locate_valid, lemma_located_elsewhere,
    local_hashes, locate, tree_wf, vacant, TreeNodeView,
};
use crate::indexer::concurrent_radix_tree_compressed::remove::cut;
use crate::indexer::lookup_update::{pointed_entries, update_lookup_for_keys};
use crate::indexer::concurrent_radix_tree_compressed::{
    ConcurrentRadixTreeCompressed, KvCacheEventError, TreeNode, WorkerLookup,
};
use crate::protocols::{
    ExternalSequenceBlockHash, KvCacheStoreData, KvCacheStoredBlockData, LocalBlockHash,
    WorkerWithDpRank,
};
use crate::seqs::lemma_push_contains;

verus! {

/// Whether a tree has all entries, blocks and coverage of another, and all its nodes
/// but for idle places.
spec fn extends(before: Seq<TreeNodeView>, after: Seq<TreeNodeView>) -> bool {
    &&& before.len() <= after.len()
    &&& forall|i: int, k: u64|
        0 <= i < before.len() && #[trigger] has_child(before, i, k) ==> has_child(after, i, k)
            && after[i].children[k] == before[i].children[k]
    &&& forall|i: int|
        0 <= i < before.len() && !idle(before, i) ==> before[i].edge.len() <= (
        #[trigger] after[i]).edge.len()
    &&& forall|i: int, p: int|
        0 <= i < before.len() && !idle(before, i) && 0 <= p < before[i].edge.len() ==> (
        #[trigger] after[i].edge[p]) == before[i].edge[p]
    &&& forall|i: int, v: (u64, u32)|
        0 <= i < before.len() ==> #[trigger] cut(after, i, v) >= cut(before, i, v)
}

proof fn lemma_extends_reach(
    x: Seq<TreeNodeView>,
    y: Seq<TreeNodeView>,
    top: int,
    node: int,
    steps: nat,
)
    requires
        extends(x, y),
        reach(x, top, node, steps),
    ensures
        reach(y, top, node, steps),
    decreases steps,
{
    if steps > 0 {
        let (p, key) = choose|p: int, key: u64|
            0 <= p < x.len() && #[trigger] has_child(x, p, key) && x[p].children[key] == node
                && reach(x, top, p, (steps - 1) as nat);
        lemma_extends_reach(x, y, top, p, (steps - 1) as nat);
        assert(has_child(y, p, key));
    }
}

proof fn lemma_extends_below(
    x: Seq<TreeNodeView>,
    y: Seq<TreeNodeView>,
    top: int,
    node: int,
)
    requires
        extends(x, y),
        below(x, top, node),
    ensures
        below(y, top, node),
{
    let steps = choose|steps: nat| #[trigger] reach(x, top, node, steps);
    lemma_extends_reach(x, y, top, node, steps);
}

/// A larger tree resolves every lookup of the smaller one.
proof fn lemma_extends_lookup(
    x: Seq<TreeNodeView>,
    y: Seq<TreeNodeView>,
    worker: (u64, u32),
    entries: Map<u64, usize>,
)
    requires
        tree_wf(x),
        extends(x, y),
        worker_lookup_wf(x, worker, entries),
    ensures
        worker_lookup_wf(y, worker, entries),
{
    assert forall|h: u64| #[trigger] entries.dom().contains(h) implies 0 < entries[h] < y.len()
        && found_below(y, entries[h] as int, worker, ExternalSequenceBlockHash(h)) by {
        let e = ExternalSequenceBlockHash(h);
        let top = entries[h] as int;
        assert(found_below(x, top, worker, e));
        let (n, pos) = choose|n: int, pos: int| #[trigger] found_at(x, top, worker, e, n, pos);
        lemma_extends_below(x, y, top, n);
        lemma_cutoff_bounded(x, n, worker);
        assert(cut(y, n, worker) >= cut(x, n, worker));
        assert(x[n].cover.dom().contains(worker));
        assert(!idle(x, n));
        assert(y[n].edge[pos] == x[n].edge[pos]);
        assert(held_at(node_of(y, n), worker, e, pos));
        assert(found_at(y, top, worker, e, n, pos));
    }
}

/// A larger tree resolves all lookups of the smaller one.
proof fn lemma_extends_lookups(
    x: Seq<TreeNodeView>,
    y: Seq<TreeNodeView>,
    lookup: Map<(u64, u32), WorkerLookup>,
)
    requires
        tree_wf(x),
        extends(x, y),
        lookup_wf(x, lookup),
    ensures
        lookup_wf(y, lookup),
{
    assert forall|v: (u64, u32)| #[trigger] lookup.dom().contains(v) implies worker_lookup_wf(
        y,
        v,
        lookup[v]@,
    ) by {
        lemma_extends_lookup(x, y, v, lookup[v]@);
    }
}

/// Held nodes stay in the tree when it is made larger, if nodes become held only
/// where they are in the tree.
proof fn lemma_extends_rooted(x: Seq<TreeNodeView>, y: Seq<TreeNodeView>)
    requires
        rooted(x),
        extends(x, y),
        forall|n: int|
            0 <= n < y.len() && (n >= x.len() || (#[trigger] y[n]).cover != x[n].cover) ==> below(
                y,
                0,
                n,
            ),
    ensures
        rooted(y),
{
    assert forall|n: int|
        0 <= n < y.len() && (#[trigger] y[n]).cover != Map::<
            (u64, u32),
            nat,
        >::empty() implies below(y, 0, n) by {
        if n < x.len() && y[n].cover == x[n].cover {
            assert(x[n].cover != Map::<(u64, u32), nat>::empty());
            lemma_extends_below(x, y, 0, n);
        }
    }
}

/// Where a sequence leads is in the tree.
pub proof fn lemma_located_below(
    nodes: Seq<TreeNodeView>,
    from: int,
    q: Seq<LocalBlockHash>,
)
    requires
        tree_wf(nodes),
        0 <= from < nodes.len(),
        below(nodes, 0, from),
        locate(nodes, from, q) is Some,
    ensures
        below(nodes, 0, (locate(nodes, from, q)->0).0),
    decreases q.len(),
{
    assert(child_wf(nodes, from, q[0].0));
    let c = nodes[from].children[q[0].0] as int;
    lemma_below_child(nodes, 0, from, q[0].0);
    let e = local_hashes(nodes[c].edge);
    if q.len() > e.len() {
        lemma_located_below(nodes, c, q.skip(e.len() as int));
    }
}

/// The sequence that leads to a position of a node that is in the tree.
pub proof fn lemma_path_to(nodes: Seq<TreeNodeView>, node: int, pos: int, steps: nat) -> (path: Seq<
    LocalBlockHash,
>)
    requires
        tree_wf(nodes),
        0 < node < nodes.len(),
        0 <= pos < nodes[node].edge.len(),
        reach(nodes, 0, node, steps),
    ensures
        locate(nodes, 0, path) == Some((node, pos)),
        path.len() == nodes[node].start + pos + 1,
    decreases steps,
{
    let (p, key) = choose|p: int, key: u64|
        0 <= p < nodes.len() && #[trigger] has_child(nodes, p, key) && nodes[p].children[key]
            == node && reach(nodes, 0, p, (steps - 1) as nat);
    assert(child_wf(nodes, p, key));
    let tail = local_hashes(nodes[node].edge).take(pos + 1);
    assert(tail[0] == nodes[node].edge[0].0);
    lemma_locate_on_edge(nodes, p, key, tail);
    if p == 0 {
        tail
    } else {
        let head = lemma_path_to(nodes, p, nodes[p].edge.len() - 1, (steps - 1) as nat);
        lemma_locate_compose(nodes, 0, head, tail);
        head + tail
    }
}

/// Cutting a node in two keeps subtrees.
proof fn lemma_split_reach(
    nodes: Seq<TreeNodeView>,
    n: int,
    at: int,
    rest: int,
    top: int,
    node: int,
    steps: nat,
)
    requires
        tree_wf(nodes),
        vacant(nodes, rest),
        rest <= usize::MAX,
        0 < n < nodes.len(),
        n != rest,
        0 < at < nodes[n].edge.len(),
        0 <= top < nodes.len(),
        0 <= node < nodes.len(),
        reach(nodes, top, node, steps),
    ensures
        below(split_at(nodes, n, at, rest), top, node),
    decreases steps,
{
    let after = split_at(nodes, n, at, rest);
    if steps == 0 {
        lemma_below_self(after, top);
    } else {
        let (p, key) = choose|p: int, key: u64|
            0 <= p < nodes.len() && #[trigger] has_child(nodes, p, key) && nodes[p].children[key]
                == node && reach(nodes, top, p, (steps - 1) as nat);
        lemma_split_reach(nodes, n, at, rest, top, p, (steps - 1) as nat);
        if p == n {
            let link = nodes[n].edge[at].0.0;
            assert(has_child(after, n, link));
            lemma_below_child(after, top, n, link);
            assert(has_child(after, rest, key));
            lemma_below_child(after, top, rest, key);
        } else {
            assert(has_child(after, p, key));
            lemma_below_child(after, top, p, key);
        }
    }
}

/// Cutting a node in two keeps lookups resolvable and held nodes in the tree.
proof fn lemma_split_lookup(
    nodes: Seq<TreeNodeView>,
    n: int,
    at: int,
    rest: int,
    worker: (u64, u32),
    entries: Map<u64, usize>,
)
    requires
        tree_wf(nodes),
        vacant(nodes, rest),
        rest <= usize::MAX,
        0 < n < nodes.len(),
        n != rest,
        0 < at < nodes[n].edge.len(),
        worker_lookup_wf(nodes, worker, entries),
    ensures
        worker_lookup_wf(split_at(nodes, n, at, rest), worker, entries),
{
    let after = split_at(nodes, n, at, rest);
    assert forall|h: u64| #[trigger] entries.dom().contains(h) implies 0 < entries[h] < after.len()
        && found_below(after, entries[h] as int, worker, ExternalSequenceBlockHash(h)) by {
        let e = ExternalSequenceBlockHash(h);
        let top = entries[h] as int;
        assert(found_below(nodes, top, worker, e));
        let (m, pos) = choose|m: int, pos: int| #[trigger] found_at(nodes, top, worker, e, m, pos);
        let steps = choose|steps: nat| #[trigger] reach(nodes, top, m, steps);
        lemma_split_reach(nodes, n, at, rest, top, m, steps);
        lemma_cutoff_bounded(nodes, m, worker);
        assert(nodes[m].cover.dom().contains(worker));
        assert(m != rest);
        if m == n && pos >= at {
            let link = nodes[n].edge[at].0.0;
            assert(has_child(after, n, link));
            lemma_below_child(after, top, n, link);
            assert(held_at(node_of(after, rest), worker, e, pos - at));
            assert(found_at(after, top, worker, e, rest, pos - at));
        } else {
            assert(held_at(node_of(after, m), worker, e, pos));
            assert(found_at(after, top, worker, e, m, pos));
        }
    }
}

proof fn lemma_split_lookups(
    nodes: Seq<TreeNodeView>,
    n: int,
    at: int,
    rest: int,
    lookup: Map<(u64, u32), WorkerLookup>,
)
    requires
        tree_wf(nodes),
        vacant(nodes, rest),
        rest <= usize::MAX,
        0 < n < nodes.len(),
        n != rest,
        0 < at < nodes[n].edge.len(),
        lookup_wf(nodes, lookup),
    ensures
        lookup_wf(split_at(nodes, n, at, rest), lookup),
{
    assert forall|v: (u64, u32)| #[trigger] lookup.dom().contains(v) implies worker_lookup_wf(
        split_at(nodes, n, at, rest),
        v,
        lookup[v]@,
    ) by {
        lemma_split_lookup(nodes, n, at, rest, v, lookup[v]@);
    }
}

proof fn lemma_split_rooted(nodes: Seq<TreeNodeView>, n: int, at: int, rest: int)
    requires
        tree_wf(nodes),
        rooted(nodes),
        vacant(nodes, rest),
        rest <= usize::MAX,
        0 < n < nodes.len(),
        n != rest,
        0 < at < nodes[n].edge.len(),
    ensures
        rooted(split_at(nodes, n, at, rest)),
{
    let after = split_at(nodes, n, at, rest);
    assert forall|m: int|
        0 <= m < after.len() && (#[trigger] after[m]).cover != Map::<
            (u64, u32),
            nat,
        >::empty() implies below(after, 0, m) by {
        let was = if m == rest {
            n
        } else {
            m
        };
        if nodes[was].cover == Map::<(u64, u32), nat>::empty() {
            assert(after[m].cover =~= Map::<(u64, u32), nat>::empty());
        }
        let steps = choose|steps: nat| #[trigger] reach(nodes, 0, was, steps);
        lemma_split_reach(nodes, n, at, rest, 0, was, steps);
        if m == rest {
            let link = nodes[n].edge[at].0.0;
            assert(has_child(after, n, link));
            lemma_below_child(after, 0, n, link);
        }
    }
}

/// What is in the tree is not idle.
proof fn lemma_below_not_idle(nodes: Seq<TreeNodeView>, n: int)
    requires
        below(nodes, 0, n),
    ensures
        !idle(nodes, n),
{
    let steps = choose|steps: nat| #[trigger] reach(nodes, 0, n, steps);
    if steps > 0 {
        let (p, key) = choose|p: int, key: u64|
            0 <= p < nodes.len() && #[trigger] has_child(nodes, p, key) && nodes[p].children[key]
                == n && reach(nodes, 0, p, (steps - 1) as nat);
        assert(has_child(nodes, p, key));
    }
}

/// Idle places that are not used stay idle when a leaf is added.
proof fn lemma_child_keeps_idle(
    nodes: Seq<TreeNodeView>,
    p: int,
    leaf: int,
    edge: Seq<EdgeBlock>,
    cover: Map<(u64, u32), nat>,
    c: int,
)
    requires
        0 <= p < nodes.len(),
        vacant(nodes, leaf),
        leaf <= usize::MAX,
        p != leaf,
        idle(nodes, c),
        c != p,
        c != leaf,
    ensures
        idle(with_child(nodes, p, leaf, edge, cover), c),
{
    let after = with_child(nodes, p, leaf, edge, cover);
    assert forall|i: int, k: u64| 0 <= i < after.len() && #[trigger] has_child(after, i, k) implies after[i].children[k]
        != c by {
        if i != leaf && !(i == p && k == edge[0].0.0) {
            assert(has_child(nodes, i, k));
        }
    }
}

/// Idle places that are not used stay idle when a node is cut in two.
proof fn lemma_split_keeps_idle(nodes: Seq<TreeNodeView>, n: int, at: int, rest: int, c: int)
    requires
        0 <= n < nodes.len(),
        vacant(nodes, rest),
        rest <= usize::MAX,
        n != rest,
        idle(nodes, c),
        c != n,
        c != rest,
    ensures
        idle(split_at(nodes, n, at, rest), c),
{
    let after = split_at(nodes, n, at, rest);
    assert forall|i: int, k: u64| 0 <= i < after.len() && #[trigger] has_child(after, i, k) implies after[i].children[k]
        != c by {
        if i == rest {
            assert(has_child(nodes, n, k));
        } else if i != n {
            assert(has_child(nodes, i, k));
        }
    }
}

/// Whether one of the first `i` blocks that were stored along a path has a hash
/// and is on a node's edge under it.
pub open spec fn listed(
    nodes: Seq<TreeNodeView>,
    path: Seq<LocalBlockHash>,
    base: int,
    hashes: Seq<ExternalSequenceBlockHash>,
    i: int,
    h: u64,
    node: usize,
) -> bool {
    exists|j: int|
        0 <= j < i && (#[trigger] hashes[j]).0 == h && on_node(
            nodes,
            path.take(base + j + 1),
            hashes[j],
            node as int,
        )
}

/// Whether a sequence leads to a node and to a block with a hash.
pub open spec fn on_node(
    nodes: Seq<TreeNodeView>,
    q: Seq<LocalBlockHash>,
    hash: ExternalSequenceBlockHash,
    node: int,
) -> bool {
    locate(nodes, 0, q) matches Some((n, pos)) && n == node && nodes[n].edge[pos].1 == hash
}

/// What storing the first `i` blocks along a path does to a worker's entries:
/// there is one for each of the blocks, to its node, and all others stay. Blocks
/// that the tree knows under another hash get none.
pub open spec fn recorded(
    nodes: Seq<TreeNodeView>,
    before: Map<u64, usize>,
    after: Map<u64, usize>,
    path: Seq<LocalBlockHash>,
    base: int,
    hashes: Seq<ExternalSequenceBlockHash>,
    i: int,
) -> bool {
    forall|h: u64| #[trigger] recorded_at(nodes, before, after, path, base, hashes, i, h)
}

/// What storing does to a worker's entry for one hash.
pub open spec fn recorded_at(
    nodes: Seq<TreeNodeView>,
    before: Map<u64, usize>,
    after: Map<u64, usize>,
    path: Seq<LocalBlockHash>,
    base: int,
    hashes: Seq<ExternalSequenceBlockHash>,
    i: int,
    h: u64,
) -> bool {
    if exists|node: usize| listed(nodes, path, base, hashes, i, h, node) {
        after.dom().contains(h) && listed(nodes, path, base, hashes, i, h, after[h])
    } else {
        after.dom().contains(h) == before.dom().contains(h) && (after.dom().contains(h) ==> after[h]
            == before[h])
    }
}

/// Whether entries were made for those of `m` blocks that are on an edge under
/// their own hashes.
spec fn entered(
    before: Map<u64, usize>,
    after: Map<u64, usize>,
    edge: Seq<EdgeBlock>,
    off: int,
    hashes: Seq<ExternalSequenceBlockHash>,
    i: int,
    m: int,
    node: usize,
) -> bool {
    forall|h: u64| #[trigger] entered_at(before, after, edge, off, hashes, i, m, node, h)
}

spec fn entered_at(
    before: Map<u64, usize>,
    after: Map<u64, usize>,
    edge: Seq<EdgeBlock>,
    off: int,
    hashes: Seq<ExternalSequenceBlockHash>,
    i: int,
    m: int,
    node: usize,
    h: u64,
) -> bool {
    if exists|t: int|
        0 <= t < m && (#[trigger] hashes[i + t]).0 == h && edge[off + t].1 == hashes[i + t] {
        after.dom().contains(h) && after[h] == node
    } else {
        after.dom().contains(h) == before.dom().contains(h) && (after.dom().contains(h) ==> after[h]
            == before[h])
    }
}

/// Storing more blocks on one edge, in a tree that keeps where everything was.
proof fn lemma_recorded_advance(
    nodes: Seq<TreeNodeView>,
    after: Seq<TreeNodeView>,
    worker: (u64, u32),
    before: Map<u64, usize>,
    entries: Map<u64, usize>,
    entered_entries: Map<u64, usize>,
    path: Seq<LocalBlockHash>,
    base: int,
    hashes: Seq<ExternalSequenceBlockHash>,
    i: int,
    m: int,
    c: usize,
    off: int,
)
    requires
        tree_wf(nodes),
        tree_wf(after),
        extends(nodes, after),
        forall|q: Seq<LocalBlockHash>|
            locate(nodes, 0, q) is Some ==> #[trigger] locate(after, 0, q) == locate(nodes, 0, q),
        recorded(nodes, before, entries, path, base, hashes, i),
        worker_lookup_wf(nodes, worker, entries),
        c < after.len(),
        0 <= off,
        0 <= m,
        0 <= i,
        0 <= base,
        base + i + m <= path.len(),
        i + m <= hashes.len(),
        forall|t: int|
            0 <= t < m ==> locate(after, 0, #[trigger] path.take(base + i + t + 1)) == Some(
                (c as int, off + t),
            ),
        off + m <= cut(after, c as int, worker),
        entered(entries, entered_entries, after[c as int].edge, off, hashes, i, m, c),
        forall|j: int|
            0 <= j < i ==> locate(nodes, 0, #[trigger] path.take(base + j + 1)) is Some,
    ensures
        recorded(after, before, entered_entries, path, base, hashes, i + m),
        worker_lookup_wf(after, worker, entered_entries),
{
    let more = i + m;
    lemma_extends_lookup(nodes, after, worker, entries);
    let edge = after[c as int].edge;
    assert forall|j: int, node: usize| 0 <= j < i && 0 <= node implies #[trigger] on_node(
        after,
        path.take(base + j + 1),
        hashes[j],
        node as int,
    ) == on_node(nodes, path.take(base + j + 1), hashes[j], node as int) by {
        let q = path.take(base + j + 1);
        assert(locate(after, 0, q) == locate(nodes, 0, q));
        lemma_locate_valid(nodes, 0, q);
        let (n, pos) = locate(nodes, 0, q)->0;
        lemma_below_self(nodes, 0);
        lemma_located_below(nodes, 0, q);
        lemma_below_not_idle(nodes, n);
        assert(after[n].edge[pos] == nodes[n].edge[pos]);
    }
    assert forall|h: u64, node: usize| #[trigger]
        listed(nodes, path, base, hashes, i, h, node) implies listed(
        after,
        path,
        base,
        hashes,
        more,
        h,
        node,
    ) by {
        let j = choose|j: int|
            0 <= j < i && (#[trigger] hashes[j]).0 == h && on_node(
                nodes,
                path.take(base + j + 1),
                hashes[j],
                node as int,
            );
        assert(on_node(after, path.take(base + j + 1), hashes[j], node as int));
    }
    assert forall|h: u64| #[trigger]
        recorded_at(after, before, entered_entries, path, base, hashes, more, h) by {
        let now = exists|t: int|
            0 <= t < m && (#[trigger] hashes[i + t]).0 == h && edge[off + t].1 == hashes[i + t];
        assert(recorded_at(nodes, before, entries, path, base, hashes, i, h));
        assert(entered_at(entries, entered_entries, edge, off, hashes, i, m, c, h));
        if now {
            let t = choose|t: int|
                0 <= t < m && (#[trigger] hashes[i + t]).0 == h && edge[off + t].1 == hashes[i + t];
            assert(locate(after, 0, path.take(base + i + t + 1)) == Some((c as int, off + t)));
            assert(base + (i + t) + 1 == base + i + t + 1);
            assert(on_node(after, path.take(base + (i + t) + 1), hashes[i + t], c as int));
            assert(listed(after, path, base, hashes, more, h, c));
        } else {
            if exists|node: usize| listed(after, path, base, hashes, more, h, node) {
                let node = choose|node: usize|
                    listed(after, path, base, hashes, more, h, node);
                let j = choose|j: int|
                    0 <= j < more && (#[trigger] hashes[j]).0 == h && on_node(
                        after,
                        path.take(base + j + 1),
                        hashes[j],
                        node as int,
                    );
                if j >= i {
                    let t = j - i;
                    assert(base + j + 1 == base + i + t + 1);
                    assert(locate(after, 0, path.take(base + i + t + 1)) == Some(
                        (c as int, off + t),
                    ));
                    assert(hashes[i + t].0 == h && edge[off + t].1 == hashes[i + t]);
                }
                assert(on_node(nodes, path.take(base + j + 1), hashes[j], node as int));
                assert(listed(nodes, path, base, hashes, i, h, node));
            }
            if exists|node: usize| listed(nodes, path, base, hashes, i, h, node) {
                assert(listed(nodes, path, base, hashes, i, h, entries[h]));
            }
        }
    }
    assert forall|h: u64| #[trigger] entered_entries.dom().contains(h) implies 0
        < entered_entries[h] < after.len() && found_below(
        after,
        entered_entries[h] as int,
        worker,
        ExternalSequenceBlockHash(h),
    ) by {
        let e = ExternalSequenceBlockHash(h);
        assert(entered_at(entries, entered_entries, edge, off, hashes, i, m, c, h));
        if exists|t: int|
            0 <= t < m && (#[trigger] hashes[i + t]).0 == h && edge[off + t].1 == hashes[i + t] {
            let t = choose|t: int|
                0 <= t < m && (#[trigger] hashes[i + t]).0 == h && edge[off + t].1 == hashes[i + t];
            lemma_below_self(after, c as int);
            assert(edge[off + t].1 == e);
            assert(held_at(node_of(after, c as int), worker, e, off + t));
            assert(found_at(after, c as int, worker, e, c as int, off + t));
        } else {
            assert(entries.dom().contains(h));
        }
    }
}

/// Cutting a node in two where none of the stored blocks moves keeps the record.
proof fn lemma_recorded_split(
    nodes: Seq<TreeNodeView>,
    before: Map<u64, usize>,
    entries: Map<u64, usize>,
    path: Seq<LocalBlockHash>,
    base: int,
    hashes: Seq<ExternalSequenceBlockHash>,
    i: int,
    n: int,
    at: int,
    rest: int,
)
    requires
        tree_wf(nodes),
        vacant(nodes, rest),
        rest <= usize::MAX,
        0 < n < nodes.len(),
        n != rest,
        0 < at < nodes[n].edge.len(),
        0 <= base,
        0 <= i,
        base + i <= path.len(),
        i <= hashes.len(),
        base + i <= nodes[n].start + at,
        recorded(nodes, before, entries, path, base, hashes, i),
    ensures
        recorded(split_at(nodes, n, at, rest), before, entries, path, base, hashes, i),
{
    let after = split_at(nodes, n, at, rest);
    lemma_split_keeps(nodes, n, at, rest);
    assert forall|j: int, node: usize| 0 <= j < i && 0 <= node implies #[trigger] on_node(
        after,
        path.take(base + j + 1),
        hashes[j],
        node as int,
    ) == on_node(nodes, path.take(base + j + 1), hashes[j], node as int) by {
        let q = path.take(base + j + 1);
        assert(locate(after, 0, q) == moved(n, at, rest, locate(nodes, 0, q)));
        if locate(nodes, 0, q) is Some {
            lemma_locate_valid(nodes, 0, q);
            lemma_located_elsewhere(nodes, 0, q, rest);
        }
    }
    assert forall|h: u64, node: usize| #[trigger] listed(nodes, path, base, hashes, i, h, node)
        == listed(after, path, base, hashes, i, h, node) by {
        if listed(nodes, path, base, hashes, i, h, node) {
            let j = choose|j: int|
                0 <= j < i && (#[trigger] hashes[j]).0 == h && on_node(
                    nodes,
                    path.take(base + j + 1),
                    hashes[j],
                    node as int,
                );
            assert(on_node(after, path.take(base + j + 1), hashes[j], node as int));
        }
        if listed(after, path, base, hashes, i, h, node) {
            let j = choose|j: int|
                0 <= j < i && (#[trigger] hashes[j]).0 == h && on_node(
                    after,
                    path.take(base + j + 1),
                    hashes[j],
                    node as int,
                );
            assert(on_node(nodes, path.take(base + j + 1), hashes[j], node as int));
        }
    }
    assert forall|h: u64| #[trigger]
        recorded_at(after, before, entries, path, base, hashes, i, h) by {
        assert(recorded_at(nodes, before, entries, path, base, hashes, i, h));
        if exists|node: usize| listed(after, path, base, hashes, i, h, node) {
            let node = choose|node: usize| listed(after, path, base, hashes, i, h, node);
            assert(listed(nodes, path, base, hashes, i, h, node));
            assert(listed(nodes, path, base, hashes, i, h, entries[h]));
        } else if exists|node: usize| listed(nodes, path, base, hashes, i, h, node) {
            let node = choose|node: usize| listed(nodes, path, base, hashes, i, h, node);
            assert(listed(after, path, base, hashes, i, h, node));
        }
    }
}

/// Whether a sequence leads on along the edge on which another one ends.
pub open spec fn goes_on(
    nodes: Seq<TreeNodeView>,
    q: Seq<LocalBlockHash>,
    longer: Seq<LocalBlockHash>,
) -> bool {
    locate(nodes, 0, q) matches Some((n, pos)) && locate(nodes, 0, longer) == Some(
        (n, pos + (longer.len() - q.len())),
    )
}

/// Whether the blocks of a path between `a` and `b` that a tree did not have lie on one
/// edge, one after the other.
pub open spec fn on_one_edge(
    before: Seq<TreeNodeView>,
    after: Seq<TreeNodeView>,
    path: Seq<LocalBlockHash>,
    a: int,
    b: int,
) -> bool {
    forall|j: int, k: int|
        #![trigger path.take(j), path.take(k)]
        a < j <= k <= b && locate(before, 0, path.take(j)) is None ==> goes_on(
            after,
            path.take(j),
            path.take(k),
        )
}

/// Whether a tree has all blocks of a path between `a` and `b`, under the hashes given
/// for them.
pub open spec fn has_all(
    nodes: Seq<TreeNodeView>,
    path: Seq<LocalBlockHash>,
    a: int,
    b: int,
    hashes: Seq<ExternalSequenceBlockHash>,
) -> bool {
    forall|k: int|
        a < k <= b ==> block_at(nodes, #[trigger] path.take(k)) == Some(hashes[k - 1 - a])
}

/// The hashes of stored blocks.
pub open spec fn stored_hashes(blocks: Seq<KvCacheStoredBlockData>) -> Seq<
    ExternalSequenceBlockHash,
> {
    blocks.map_values(|b: KvCacheStoredBlockData| b.block_hash)
}

/// The local hashes of stored blocks.
pub open spec fn stored_locals(blocks: Seq<KvCacheStoredBlockData>) -> Seq<LocalBlockHash> {
    blocks.map_values(|b: KvCacheStoredBlockData| b.tokens_hash)
}

/// Whether a path up to `k` ends at the end of a node's edge, all of which a
/// worker holds.
spec fn at_end(
    nodes: Seq<TreeNodeView>,
    path: Seq<LocalBlockHash>,
    k: int,
    id: int,
    worker: (u64, u32),
) -> bool {
    &&& 0 <= id < nodes.len()
    &&& k == 0 ==> id == 0
    &&& k > 0 ==> locate(nodes, 0, path.take(k)) == Some((id, nodes[id].edge.len() - 1)) && cut(
        nodes,
        id,
        worker,
    ) == nodes[id].edge.len()
}

/// Makes entries for those of `m` blocks that are on an edge under their own
/// hashes.
fn enter_blocks(
    entries: &mut WorkerLookup,
    edge: &Vec<EdgeBlock>,
    off: usize,
    blocks: &Vec<KvCacheStoredBlockData>,
    i: usize,
    m: usize,
    node: usize,
)
    requires
        off + m <= edge@.len(),
        i + m <= blocks@.len(),
    ensures
        entered(
            old(entries)@,
            final(entries)@,
            edge@,
            off as int,
            stored_hashes(blocks@),
            i as int,
            m as int,
            node,
        ),
{
    let ghost before = entries@;
    let ghost hashes = stored_hashes(blocks@);
    let mut keys: Vec<ExternalSequenceBlockHash> = Vec::new();
    let edge_len = edge.len();
    let block_len = blocks.len();
    for t in 0..m
        invariant
            off + m <= edge@.len(),
            i + m <= blocks@.len(),
            edge_len == edge@.len(),
            block_len == blocks@.len(),
            hashes == stored_hashes(blocks@),
            forall|e: ExternalSequenceBlockHash| #[trigger]
                keys@.contains(e) <==> exists|j: int|
                    0 <= j < t && (#[trigger] hashes[i + j]) == e && edge@[off + j].1 == e,
    {
        let hash = blocks[i + t].block_hash;
        let ghost kept = keys@;
        proof {
            lemma_push_contains(kept, hash);
            assert(hashes[i + t] == hash);
        }
        if edge[off + t].1.0 == hash.0 {
            keys.push(hash);
        }
        assert forall|e: ExternalSequenceBlockHash| #[trigger]
            keys@.contains(e) <==> exists|j: int|
                0 <= j < t + 1 && (#[trigger] hashes[i + j]) == e && edge@[off + j].1 == e by {
            if kept.contains(e) {
                let j = choose|j: int|
                    0 <= j < t && (#[trigger] hashes[i + j]) == e && edge@[off + j].1 == e;
                assert(hashes[i + j] == e);
            }
            if exists|j: int|
                0 <= j < t + 1 && (#[trigger] hashes[i + j]) == e && edge@[off + j].1 == e {
                let j = choose|j: int|
                    0 <= j < t + 1 && (#[trigger] hashes[i + j]) == e && edge@[off + j].1 == e;
                if j < t {
                    assert(kept.contains(e));
                }
            }
        }
    }
    update_lookup_for_keys(entries, keys.as_slice(), node);
    proof {
        assert forall|h: u64| #[trigger]
            entered_at(
                before,
                entries@,
                edge@,
                off as int,
                hashes,
                i as int,
                m as int,
                node,
                h,
            ) by {
            let e = ExternalSequenceBlockHash(h);
            pointed_entries(before, keys@, node, h);
            if keys@.contains(e) {
                let j = choose|j: int|
                    0 <= j < m && (#[trigger] hashes[i + j]) == e && edge@[off + j].1 == e;
                assert(hashes[i + j].0 == h);
            }
            if exists|t: int|
                0 <= t < m && (#[trigger] hashes[i + t]).0 == h && edge@[off + t].1 == hashes[i
                    + t] {
                let t = choose|t: int|
                    0 <= t < m && (#[trigger] hashes[i + t]).0 == h && edge@[off + t].1 == hashes[i
                        + t];
                assert(hashes[i + t] == e);
            }
        }
    }
}

/// The hashes of the last blocks are among those of all blocks.
proof fn lemma_named_from(
    before: Seq<TreeNodeView>,
    after: Seq<TreeNodeView>,
    path: Seq<LocalBlockHash>,
    a: int,
    blocks: Seq<KvCacheStoredBlockData>,
    i: int,
)
    requires
        0 <= i <= blocks.len(),
        0 <= a,
        a + (blocks.len() - i) <= path.len(),
        named(
            before,
            after,
            path,
            a,
            a + (blocks.len() - i),
            a,
            edge_hashes(edge_of_blocks(blocks.subrange(i, blocks.len() as int))),
        ),
    ensures
        named(before, after, path, a, a + (blocks.len() - i), a - i, stored_hashes(blocks)),
{
    let b = a + (blocks.len() - i);
    let last = edge_hashes(edge_of_blocks(blocks.subrange(i, blocks.len() as int)));
    assert forall|q: Seq<LocalBlockHash>| #[trigger]
        block_at(after, q) == if block_at(before, q) is None && added(path, a, b, q) {
            Some(stored_hashes(blocks)[q.len() - 1 - (a - i)])
        } else {
            block_at(before, q)
        } by {
        if added(path, a, b, q) {
            let k = choose|k: int| a < k <= b && q == #[trigger] path.take(k);
            assert(last[k - 1 - a] == stored_hashes(blocks)[k - 1 - a + i]);
        }
    }
}

/// Whether a tree got new places for nodes only once none was spare, and gave none up.
pub open spec fn grows_when_full(
    before: &ConcurrentRadixTreeCompressed,
    after: &ConcurrentRadixTreeCompressed,
) -> bool {
    &&& before@.len() <= after@.len()
    &&& after.spare_places().len() <= before.spare_places().len()
    &&& after@.len() > before@.len() ==> after.spare_places().len() == 0
}

impl ConcurrentRadixTreeCompressed {
    /// Lets a worker hold the first blocks of a node's edge.
    fn cover_step(
        &mut self,
        c: usize,
        worker: WorkerWithDpRank,
        cutoff: usize,
        Ghost(path): Ghost<Seq<LocalBlockHash>>,
        Ghost(a): Ghost<int>,
        Ghost(b): Ghost<int>,
    )
        requires
            old(self).wf(),
            0 < c < old(self)@.len(),
            0 < cutoff <= old(self)@[c as int].edge.len(),
            ({
                let start = old(self)@[c as int].start;
                &&& start <= a <= b <= path.len()
                &&& a <= start + cut(old(self)@, c as int, worker.spec_key())
                &&& b == start + cutoff
                &&& forall|k: int|
                    a < k <= b ==> locate(old(self)@, 0, #[trigger] path.take(k)) == Some(
                        (c as int, k - start - 1),
                    )
            }),
            below(old(self)@, 0, c as int),
        ensures
            final(self).wf(),
            same_shape(old(self)@, final(self)@),
            extends(old(self)@, final(self)@),
            grown(old(self)@, final(self)@, worker.spec_key(), path, a, b),
            cut(final(self)@, c as int, worker.spec_key()) >= cutoff,
            final(self).spare_places() == old(self).spare_places(),
            forall|q: Seq<LocalBlockHash>| #[trigger]
                locate(final(self)@, 0, q) == locate(old(self)@, 0, q),
            forall|q: Seq<LocalBlockHash>| #[trigger]
                block_at(final(self)@, q) == block_at(old(self)@, q),
    {
        let ghost nodes = self@;
        let ghost w = worker.spec_key();
        let ghost was = cut(nodes, c as int, w);
        proof {
            lemma_cutoff_bounded(nodes, c as int, w);
        }
        let _ = self.nodes[c].state.cover_prefix_for_worker(worker, cutoff);
        proof {
            let reached = if cutoff > was {
                cutoff as nat
            } else {
                was
            };
            assert(self@[c as int].cover =~= nodes[c as int].cover.insert(w, reached));
            assert(self@ =~= with_cover(
                nodes,
                c as int,
                nodes[c as int].cover.insert(w, reached),
            ));
            lemma_cover_grows(nodes, c as int, w, reached, path, a, b);
            assert forall|i: int, v: (u64, u32)| 0 <= i < nodes.len() implies #[trigger] cut(
                self@,
                i,
                v,
            ) >= cut(nodes, i, v) by {}
            assert(extends(nodes, self@));
            lemma_extends_below(nodes, self@, 0, c as int);
            lemma_extends_rooted(nodes, self@);
            lemma_below_not_idle(nodes, c as int);
            assert forall|i: int| 0 <= i < self.spare@.len() implies idle(
                self@,
                #[trigger] self.spare@[i] as int,
            ) by {
                assert(idle(nodes, self.spare@[i] as int));
                lemma_idle_kept(nodes, self@, self.spare@[i] as int);
            }
            assert forall|q: Seq<LocalBlockHash>| #[trigger] locate(self@, 0, q) == locate(
                nodes,
                0,
                q,
            ) by {
                lemma_same_shape(nodes, self@, 0, q);
            }
            assert forall|q: Seq<LocalBlockHash>| #[trigger] block_at(self@, q) == block_at(
                nodes,
                q,
            ) by {
                lemma_same_shape(nodes, self@, 0, q);
                if locate(nodes, 0, q) is Some {
                    lemma_locate_valid(nodes, 0, q);
                }
            }
        }
    }

    /// A place for a new node: a spare one if there is one.
    fn take_place(&mut self) -> (place: usize)
        ensures
            final(self).nodes == old(self).nodes,
            old(self).spare@.len() == 0 ==> place == old(self).nodes@.len() && final(self).spare@
                == old(self).spare@,
            old(self).spare@.len() > 0 ==> place == old(self).spare@.last() && final(self).spare@
                == old(self).spare@.drop_last(),
    {
        match self.spare.pop() {
            Some(place) => place,
            None => self.nodes.len(),
        }
    }

    /// Puts a node in a place.
    fn put_node(&mut self, place: usize, node: TreeNode)
        requires
            place <= old(self).nodes@.len(),
        ensures
            final(self).spare == old(self).spare,
            final(self).nodes@ == if place < old(self).nodes@.len() {
                old(self).nodes@.update(place as int, node)
            } else {
                old(self).nodes@.push(node)
            },
    {
        if place < self.nodes.len() {
            self.nodes.set(place, node);
        } else {
            self.nodes.push(node);
        }
    }

    /// Cuts a node in two. Returns the place of the new node.
    fn split_step(&mut self, n: usize, at: usize) -> (rest: usize)
        requires
            old(self).wf(),
            0 < n < old(self)@.len(),
            below(old(self)@, 0, n as int),
            0 < at < old(self)@[n as int].edge.len(),
        ensures
            final(self).wf(),
            vacant(old(self)@, rest as int),
            rest != n,
            final(self)@ == split_at(old(self)@, n as int, at as int, rest as int),
            grows_when_full(old(self), final(self)),
    {
        let ghost nodes = self@;
        let ghost spare = self.spare@;
        let rest = self.take_place();
        proof {
            lemma_below_not_idle(nodes, n as int);
            if spare.len() > 0 {
                assert(idle(nodes, spare[spare.len() - 1] as int));
            }
        }
        let key = self.nodes[n].state.edge()[at].0.0;
        let rest_state = self.nodes[n].state.split_off(at);
        let mut link: FxMap<u64, usize> = FxMap::default();
        fx_insert(&mut link, key, rest);
        let mut children: FxMap<u64, usize> = FxMap::default();
        std::mem::swap(&mut children, &mut self.nodes[n].children);
        let internal = self.nodes[n].internal;
        let start = Ghost(nodes[n as int].start + at as nat);
        self.nodes[n].children = link;
        self.nodes[n].internal = true;
        self.put_node(rest, TreeNode { state: rest_state, children, internal, start });
        proof {
            assert(self@ =~= split_at(nodes, n as int, at as int, rest as int));
            lemma_split_keeps(nodes, n as int, at as int, rest as int);
            lemma_split_rooted(nodes, n as int, at as int, rest as int);
            assert forall|i: int| 0 <= i < self.spare@.len() implies idle(
                self@,
                #[trigger] self.spare@[i] as int,
            ) by {
                assert(self.spare@[i] == spare[i]);
                assert(idle(nodes, spare[i] as int));
                if spare.len() > 0 {
                    assert(spare[i] != spare[spare.len() - 1]);
                }
                lemma_split_keeps_idle(
                    nodes,
                    n as int,
                    at as int,
                    rest as int,
                    spare[i] as int,
                );
            }
        }
        rest
    }

    /// Puts the blocks from `i` on below a node: at the end of the node's own
    /// edge if the node never had a child, and else in a new child.
    fn grow_step(
        &mut self,
        id: usize,
        worker: WorkerWithDpRank,
        blocks: &Vec<KvCacheStoredBlockData>,
        i: usize,
        Ghost(path): Ghost<Seq<LocalBlockHash>>,
        Ghost(a): Ghost<int>,
    ) -> (place: (usize, usize))
        requires
            old(self).wf(),
            i < blocks@.len(),
            0 <= a,
            a + (blocks@.len() - i) <= path.len(),
            at_end(old(self)@, path, a, id as int, worker.spec_key()),
            stored_locals(blocks@).skip(i as int) == path.subrange(a, a + blocks@.len() - i),
            !has_child(old(self)@, id as int, blocks@[i as int].tokens_hash.0),
        ensures
            final(self).wf(),
            extends(old(self)@, final(self)@),
            grown(
                old(self)@,
                final(self)@,
                worker.spec_key(),
                path,
                a,
                a + (blocks@.len() - i),
            ),
            named(
                old(self)@,
                final(self)@,
                path,
                a,
                a + (blocks@.len() - i),
                a - i,
                stored_hashes(blocks@),
            ),
            forall|q: Seq<LocalBlockHash>|
                locate(old(self)@, 0, q) is Some ==> #[trigger] locate(final(self)@, 0, q)
                    == locate(old(self)@, 0, q),
            place.0 < final(self)@.len(),
            place.1 + (blocks@.len() - i) <= cut(
                final(self)@,
                place.0 as int,
                worker.spec_key(),
            ),
            forall|t: int|
                0 <= t < blocks@.len() - i ==> locate(
                    final(self)@,
                    0,
                    #[trigger] path.take(a + t + 1),
                ) == Some((place.0 as int, place.1 + t)),
            grows_when_full(old(self), final(self)),
    {
        let ghost nodes = self@;
        let ghost w = worker.spec_key();
        let tail = vstd::slice::slice_subrange(blocks.as_slice(), i, blocks.len());
        let ghost new = edge_of_blocks(tail@);
        let ghost b = a + tail@.len();
        proof {
            assert(local_hashes(new) =~= path.subrange(a, a + new.len())) by {
                assert forall|t: int| 0 <= t < new.len() implies local_hashes(new)[t]
                    == path.subrange(a, a + new.len())[t] by {
                    assert(stored_locals(blocks@).skip(i as int)[t] == path.subrange(
                        a,
                        a + blocks@.len() - i,
                    )[t]);
                }
            }
            if a > 0 {
                lemma_locate_valid(nodes, 0, path.take(a));
                lemma_below_self(nodes, 0);
                lemma_located_below(nodes, 0, path.take(a));
                lemma_below_not_idle(nodes, id as int);
            }
        }
        let edge_len = self.nodes[id].state.edge().len();
        if id != 0 && !self.nodes[id].internal && blocks.len() - i <= usize::MAX - edge_len {
            self.nodes[id].state.append_blocks_to_leaf(worker, tail);
            proof {
                let cover = nodes[id as int].cover.insert(
                    w,
                    nodes[id as int].edge.len() + new.len(),
                );
                assert(self@ =~= appended(nodes, id as int, new, cover));
                lemma_append_grows(nodes, id as int, w, new, path, a);
                lemma_named_from(nodes, self@, path, a, blocks@, i as int);
                lemma_cutoff_bounded(nodes, id as int, w);
                assert forall|n: int, v: (u64, u32)| 0 <= n < nodes.len() implies #[trigger] cut(
                    self@,
                    n,
                    v,
                ) >= cut(nodes, n, v) by {}
                assert(extends(nodes, self@));
                lemma_extends_below(nodes, self@, 0, id as int);
                lemma_extends_rooted(nodes, self@);
                assert forall|c: int| 0 <= c < self.spare@.len() implies idle(
                    self@,
                    #[trigger] self.spare@[c] as int,
                ) by {
                    assert(idle(nodes, self.spare@[c] as int));
                    lemma_idle_kept(nodes, self@, self.spare@[c] as int);
                }
                assert forall|t: int| 0 <= t < blocks@.len() - i implies locate(
                    self@,
                    0,
                    #[trigger] path.take(a + t + 1),
                ) == Some((id as int, edge_len + t)) by {}
            }
            (id, edge_len)
        } else {
            let ghost spare = self.spare@;
            let child = self.take_place();
            proof {
                if spare.len() > 0 {
                    assert(idle(nodes, spare[spare.len() - 1] as int));
                }
            }
            let key = blocks[i].tokens_hash.0;
            let state = NodeState::for_blocks(tail, worker);
            let start = Ghost(nodes[id as int].start + nodes[id as int].edge.len());
            fx_insert(&mut self.nodes[id].children, key, child);
            self.nodes[id].internal = true;
            self.put_node(
                child,
                TreeNode { state, children: FxMap::default(), internal: false, start },
            );
            proof {
                let cover = Map::<(u64, u32), nat>::empty().insert(w, new.len());
                assert(new[0].0.0 == key);
                assert(self@ =~= with_child(nodes, id as int, child as int, new, cover));
                lemma_child_grows(nodes, id as int, child as int, w, new, path, a);
                assert forall|c: int| 0 <= c < self.spare@.len() implies idle(
                    self@,
                    #[trigger] self.spare@[c] as int,
                ) by {
                    assert(self.spare@[c] == spare[c]);
                    assert(idle(nodes, spare[c] as int));
                    if spare.len() > 0 {
                        assert(spare[c] != spare[spare.len() - 1]);
                    }
                    lemma_child_keeps_idle(
                        nodes,
                        id as int,
                        child as int,
                        new,
                        cover,
                        spare[c] as int,
                    );
                }
                lemma_named_from(nodes, self@, path, a, blocks@, i as int);
                assert forall|n: int, v: (u64, u32)| 0 <= n < nodes.len() implies #[trigger] cut(
                    self@,
                    n,
                    v,
                ) >= cut(nodes, n, v) by {}
                assert(extends(nodes, self@));
                if a == 0 {
                    lemma_below_self(self@, 0);
                } else {
                    lemma_extends_below(nodes, self@, 0, id as int);
                }
                assert(has_child(self@, id as int, key));
                lemma_below_child(self@, 0, id as int, key);
                lemma_extends_rooted(nodes, self@);
                assert forall|t: int| 0 <= t < blocks@.len() - i implies locate(
                    self@,
                    0,
                    #[trigger] path.take(a + t + 1),
                ) == Some((child as int, t)) by {}
            }
            (child, 0)
        }
    }

    /// Puts the blocks from `i` on below a node that has no child for the first of them.
    fn store_rest(
        &mut self,
        lookup: &LookupTable,
        entries: &mut WorkerLookup,
        worker: WorkerWithDpRank,
        blocks: &Vec<KvCacheStoredBlockData>,
        id: usize,
        i: usize,
        Ghost(nodes0): Ghost<Seq<TreeNodeView>>,
        Ghost(before): Ghost<Map<u64, usize>>,
        Ghost(path): Ghost<Seq<LocalBlockHash>>,
        Ghost(base): Ghost<int>,
    )
        requires
            old(self).wf(),
            i < blocks@.len(),
            0 <= base,
            path.len() == base + blocks@.len(),
            path.skip(base) == stored_locals(blocks@),
            at_end(old(self)@, path, base + i, id as int, worker.spec_key()),
            !has_child(old(self)@, id as int, blocks@[i as int].tokens_hash.0),
            lookup_wf(old(self)@, lookup@),
            worker_lookup_wf(old(self)@, worker.spec_key(), old(entries)@),
            grown(nodes0, old(self)@, worker.spec_key(), path, base, base + i),
            named(nodes0, old(self)@, path, base, base + i, base, stored_hashes(blocks@)),
            recorded(
                old(self)@,
                before,
                old(entries)@,
                path,
                base,
                stored_hashes(blocks@),
                i as int,
            ),
            same_blocks(nodes0, old(self)@),
        ensures
            final(self).wf(),
            lookup_wf(final(self)@, lookup@),
            worker_lookup_wf(final(self)@, worker.spec_key(), final(entries)@),
            grown(
                nodes0,
                final(self)@,
                worker.spec_key(),
                path,
                base,
                base + blocks@.len(),
            ),
            named(
                nodes0,
                final(self)@,
                path,
                base,
                base + blocks@.len(),
                base,
                stored_hashes(blocks@),
            ),
            recorded(
                final(self)@,
                before,
                final(entries)@,
                path,
                base,
                stored_hashes(blocks@),
                blocks@.len() as int,
            ),
            on_one_edge(nodes0, final(self)@, path, base, base + blocks@.len()),
            !has_all(nodes0, path, base, base + blocks@.len(), stored_hashes(blocks@)),
            grows_when_full(old(self), final(self)),
    {
        let ghost nodes = self@;
        let ghost w = worker.spec_key();
        let ghost hashes = stored_hashes(blocks@);
        let ghost old_entries = entries@;
        let ghost a = base + i;
        let ghost m = blocks@.len() - i;
        proof {
            lemma_grown_located(nodes0, nodes, w, path, base, i as int);
            assert(stored_locals(blocks@).skip(i as int) =~= path.subrange(a, a + m)) by {
                assert forall|t: int| 0 <= t < m implies stored_locals(blocks@).skip(i as int)[t]
                    == path.subrange(a, a + m)[t] by {
                    assert(path.skip(base)[i + t] == stored_locals(blocks@)[i + t]);
                }
            }
            assert(path[a] == stored_locals(blocks@).skip(i as int)[0]);
            lemma_no_child_no_block(nodes, path, a, id as int);
            lemma_same_block(nodes0, nodes, path.take(a + 1));
        }
        let (node, off) = self.grow_step(id, worker, blocks, i, Ghost(path), Ghost(a));
        proof {
            lemma_cutoff_bounded(self@, node as int, w);
        }
        enter_blocks(
            entries,
            self.nodes[node].state.edge(),
            off,
            blocks,
            i,
            blocks.len() - i,
            node,
        );
        proof {
            assert forall|t: int| 0 <= t < m implies locate(
                self@,
                0,
                #[trigger] path.take(base + i + t + 1),
            ) == Some((node as int, off + t)) by {
                assert(path.take(a + t + 1) == path.take(base + i + t + 1));
            }
            lemma_recorded_advance(
                nodes,
                self@,
                w,
                before,
                old_entries,
                entries@,
                path,
                base,
                hashes,
                i as int,
                m,
                node,
                off as int,
            );
            lemma_extends_lookups(nodes, self@, lookup@);
            lemma_grown_twice(nodes0, nodes, self@, w, path, base, a, a + m);
            lemma_named_twice(nodes0, nodes, self@, path, base, a, a + m, base, hashes);
            lemma_run_on_one_edge(
                nodes0,
                nodes,
                self@,
                path,
                base,
                i as int,
                m,
                node as int,
                off as int,
            );
        }
    }

    /// Puts the blocks from `i` on below a node, along the edges that are there
    /// already as far as they go.
    #[verifier::rlimit(40)]
    #[verifier::spinoff_prover]
    fn store_below(
        &mut self,
        lookup: &LookupTable,
        entries: &mut WorkerLookup,
        worker: WorkerWithDpRank,
        blocks: &Vec<KvCacheStoredBlockData>,
        id: usize,
        i: usize,
        Ghost(nodes0): Ghost<Seq<TreeNodeView>>,
        Ghost(before): Ghost<Map<u64, usize>>,
        Ghost(path): Ghost<Seq<LocalBlockHash>>,
        Ghost(base): Ghost<int>,
    )
        requires
            old(self).wf(),
            i <= blocks@.len(),
            0 <= base,
            path.len() == base + blocks@.len(),
            path.skip(base) == stored_locals(blocks@),
            at_end(old(self)@, path, base + i, id as int, worker.spec_key()),
            lookup_wf(old(self)@, lookup@),
            worker_lookup_wf(old(self)@, worker.spec_key(), old(entries)@),
            grown(nodes0, old(self)@, worker.spec_key(), path, base, base + i),
            named(nodes0, old(self)@, path, base, base + i, base, stored_hashes(blocks@)),
            recorded(
                old(self)@,
                before,
                old(entries)@,
                path,
                base,
                stored_hashes(blocks@),
                i as int,
            ),
            same_blocks(nodes0, old(self)@),
            has_all(nodes0, path, base, base + blocks@.len(), stored_hashes(blocks@))
                ==> same_shape(nodes0, old(self)@),
        ensures
            final(self).wf(),
            lookup_wf(final(self)@, lookup@),
            worker_lookup_wf(final(self)@, worker.spec_key(), final(entries)@),
            grown(
                nodes0,
                final(self)@,
                worker.spec_key(),
                path,
                base,
                base + blocks@.len(),
            ),
            named(
                nodes0,
                final(self)@,
                path,
                base,
                base + blocks@.len(),
                base,
                stored_hashes(blocks@),
            ),
            recorded(
                final(self)@,
                before,
                final(entries)@,
                path,
                base,
                stored_hashes(blocks@),
                blocks@.len() as int,
            ),
            on_one_edge(nodes0, final(self)@, path, base, base + blocks@.len()),
            has_all(nodes0, path, base, base + blocks@.len(), stored_hashes(blocks@))
                ==> same_shape(nodes0, final(self)@),
            grows_when_full(old(self), final(self)),
    {
        let ghost w = worker.spec_key();
        let ghost hashes = stored_hashes(blocks@);
        let mut locals: Vec<LocalBlockHash> = Vec::new();
        for j in 0..blocks.len()
            invariant
                locals@ == stored_locals(blocks@).take(j as int),
        {
            locals.push(blocks[j].tokens_hash);
            assert(locals@ =~= stored_locals(blocks@).take(j + 1));
        }
        assert(locals@ =~= stored_locals(blocks@));
        let mut id = id;
        let mut i = i;
        while i < blocks.len()
            invariant
                self.wf(),
                w == worker.spec_key(),
                hashes == stored_hashes(blocks@),
                locals@ == stored_locals(blocks@),
                i <= blocks@.len(),
                0 <= base,
                path.len() == base + blocks@.len(),
                path.skip(base) == stored_locals(blocks@),
                at_end(self@, path, base + i, id as int, w),
                lookup_wf(self@, lookup@),
                worker_lookup_wf(self@, w, entries@),
                grown(nodes0, self@, w, path, base, base + i),
                named(nodes0, self@, path, base, base + i, base, hashes),
                recorded(self@, before, entries@, path, base, hashes, i as int),
                same_blocks(nodes0, self@),
                has_all(nodes0, path, base, base + blocks@.len(), hashes) ==> same_shape(
                    nodes0,
                    self@,
                ),
                grows_when_full(old(self), self),
            decreases blocks@.len() - i,
        {
            let ghost nodes = self@;
            let ghost old_entries = entries@;
            let ghost a = base + i;
            let key = blocks[i].tokens_hash.0;
            proof {
                assert(path[a].0 == key) by {
                    assert(path.skip(base)[i as int] == stored_locals(blocks@)[i as int]);
                }
                lemma_grown_located(nodes0, nodes, w, path, base, i as int);
                if a > 0 {
                    lemma_locate_valid(nodes, 0, path.take(a));
                    lemma_below_self(nodes, 0);
                    lemma_located_below(nodes, 0, path.take(a));
                } else {
                    lemma_below_self(nodes, 0);
                }
            }
            let child = match self.child(id, key) {
                Some(child) => child,
                None => {
                    self.store_rest(
                        lookup,
                        entries,
                        worker,
                        blocks,
                        id,
                        i,
                        Ghost(nodes0),
                        Ghost(before),
                        Ghost(path),
                        Ghost(base),
                    );
                    return ;
                },
            };
            proof {
                assert(child_wf(nodes, id as int, key));
                lemma_below_child(nodes, 0, id as int, key);
            }
            let len = self.nodes[child].state.edge().len();
            let m = self.nodes[child].state.matched_len(locals.as_slice(), i);
            proof {
                assert(nodes[child as int].edge[0].0 == locals@[i as int]);
                assert(m >= 1);
                assert forall|t: int| 0 <= t < m implies (#[trigger] nodes[child as int].edge[t]).0
                    == path[a + t] by {
                    assert(path.skip(base)[i + t] == locals@[i + t]);
                }
                if m < len && a + m < path.len() {
                    assert(path.skip(base)[i + m] == locals@[i + m]);
                }
                lemma_edge_walk(nodes, path, id as int, a, m as int);
                assert(nodes[child as int].start == a);
            }
            self.cover_step(child, worker, m, Ghost(path), Ghost(a), Ghost(a + m));
            enter_blocks(entries, self.nodes[child].state.edge(), 0, blocks, i, m, child);
            let ghost covered = self@;
            proof {
                assert forall|t: int| 0 <= t < m implies locate(
                    covered,
                    0,
                    #[trigger] path.take(base + i + t + 1),
                ) == Some((child as int, t)) by {
                    assert(locate(nodes, 0, path.take(base + i + t + 1)) == Some(
                        (child as int, t),
                    ));
                }
                lemma_recorded_advance(
                    nodes,
                    covered,
                    w,
                    before,
                    old_entries,
                    entries@,
                    path,
                    base,
                    hashes,
                    i as int,
                    m as int,
                    child,
                    0,
                );
                lemma_extends_lookups(nodes, covered, lookup@);
                lemma_grown_twice(nodes0, nodes, covered, w, path, base, a, a + m);
                assert forall|k: int| a < k <= a + m implies locate(
                    nodes,
                    0,
                    #[trigger] path.take(k),
                ) is Some by {
                    assert(locate(nodes, 0, path.take(k)) == Some((child as int, k - a - 1)));
                }
                lemma_named_kept(nodes, covered, path, a, a + m, base, hashes);
                lemma_named_twice(nodes0, nodes, covered, path, base, a, a + m, base, hashes);
                lemma_same_blocks_kept(nodes0, nodes, covered);
                lemma_cutoff_bounded(covered, child as int, w);
                assert(covered[child as int].edge == nodes[child as int].edge);
                assert(covered[child as int].start == a);
            }
            i += m;
            if m < len {
                if i == blocks.len() {
                    proof {
                        lemma_nothing_new(nodes0, self@, w, path, base, i as int);
                    }
                    return ;
                }
                proof {
                    lemma_extends_below(nodes, covered, 0, child as int);
                    lemma_same_block(nodes0, nodes, path.take(a + m + 1));
                }
                let rest = self.split_step(child, m);
                proof {
                    lemma_split_keeps(covered, child as int, m as int, rest as int);
                    lemma_split_lookups(covered, child as int, m as int, rest as int, lookup@);
                    lemma_split_lookup(covered, child as int, m as int, rest as int, w, entries@);
                    lemma_recorded_split(
                        covered,
                        before,
                        entries@,
                        path,
                        base,
                        hashes,
                        i as int,
                        child as int,
                        m as int,
                        rest as int,
                    );
                    assert(grown(nodes0, self@, w, path, base, base + i)) by {
                        assert forall|v: (u64, u32), q: Seq<LocalBlockHash>| #[trigger]
                            holds(self@, v, q) <==> holds(nodes0, v, q) || (v == w && added(
                                path,
                                base,
                                base + i,
                                q,
                            )) by {
                            assert(holds(self@, v, q) == holds(covered, v, q));
                        }
                    }
                    assert(named(nodes0, self@, path, base, base + i, base, hashes)) by {
                        assert forall|q: Seq<LocalBlockHash>| #[trigger]
                            block_at(self@, q) == block_at(covered, q) by {}
                    }
                    lemma_same_blocks_kept(nodes0, covered, self@);
                    let t = m - 1;
                    assert(base + i == a + m);
                    assert(locate(covered, 0, path.take(a + m)) == Some((child as int, t)));
                    assert(locate(self@, 0, path.take(a + m)) == Some((child as int, t)));
                }
            } else {
                proof {
                    assert(base + i == a + m);
                    assert(locate(covered, 0, path.take(a + m)) == Some((child as int, m - 1)));
                }
            }
            id = child;
        }
        proof {
            lemma_nothing_new(nodes0, self@, w, path, base, i as int);
        }
    }

    /// Stores blocks of a worker after a parent block, or at the start of a
    /// sequence. A parent that the worker's lookup does not know is an error, and
    /// then nothing happens.
    pub fn apply_stored(
        &mut self,
        lookup: &mut LookupTable,
        worker: WorkerWithDpRank,
        op: &KvCacheStoreData,
    ) -> (r: Result<(), KvCacheEventError>)
        requires
            old(self).wf(),
            lookup_wf(old(self)@, old(lookup)@),
        ensures
            final(self).wf(),
            lookup_wf(final(self)@, final(lookup)@),
            r is Err <==> op.parent_hash is Some && !entries_of(
                old(lookup)@,
                worker.spec_key(),
            ).dom().contains((op.parent_hash->0).0),
            r is Err ==> r->Err_0 == KvCacheEventError::ParentBlockNotFound && final(self)@ == old(
                self,
            )@ && final(lookup)@ == old(lookup)@,
            r is Ok ==> final(lookup)@.dom() == old(lookup)@.dom().insert(worker.spec_key()),
            r is Ok ==> exists|prefix: Seq<LocalBlockHash>|
                stored(
                    old(self)@,
                    final(self)@,
                    worker.spec_key(),
                    entries_of(old(lookup)@, worker.spec_key()),
                    entries_of(final(lookup)@, worker.spec_key()),
                    op.parent_hash,
                    op.blocks@,
                    prefix,
                ),
            forall|v: (u64, u32)|
                v != worker.spec_key() ==> #[trigger] entries_of(final(lookup)@, v) == entries_of(
                    old(lookup)@,
                    v,
                ),
            grows_when_full(old(self), final(self)),
    {
        let ghost nodes = self@;
        let ghost w = worker.spec_key();
        let ghost before = entries_of(lookup@, w);
        let ghost table = lookup@;
        let key = worker.key();
        let parent: Option<(usize, usize)> = match op.parent_hash {
            None => None,
            Some(hash) => match self.find_entry(lookup, worker, hash) {
                Some((_, n, pos)) => Some((n, pos)),
                None => {
                    return Err(KvCacheEventError::ParentBlockNotFound);
                },
            },
        };
        let mut entries: WorkerLookup = match fx_remove(lookup, &key) {
            Some(entries) => entries,
            None => FxMap::default(),
        };
        let ghost locals = stored_locals(op.blocks@);
        let ghost hashes = stored_hashes(op.blocks@);
        let ghost mut prefix: Seq<LocalBlockHash> = Seq::empty();
        proof {
            assert(entries@ =~= before);
            assert(worker_lookup_wf(nodes, w, entries@)) by {
                if table.dom().contains(w) {
                    assert(worker_lookup_wf(nodes, w, table[w]@));
                }
            }
            assert(lookup_wf(nodes, lookup@)) by {
                assert forall|v: (u64, u32)| #[trigger] lookup@.dom().contains(
                    v,
                ) implies worker_lookup_wf(nodes, v, lookup@[v]@) by {
                    assert(worker_lookup_wf(nodes, v, table[v]@));
                }
            }
            if parent is Some {
                let (n, pos) = parent->0;
                lemma_cutoff_bounded(nodes, n as int, w);
                assert(nodes[n as int].cover.dom().contains(w));
                let steps = choose|steps: nat| #[trigger] reach(nodes, 0, n as int, steps);
                prefix = lemma_path_to(nodes, n as int, pos as int, steps);
            }
        }
        let ghost path = prefix + locals;
        let ghost base = prefix.len() as int;
        proof {
            assert(path.skip(base) =~= locals);
            assert(path.take(base) =~= prefix);
            lemma_recorded_none(nodes, before, path, base, hashes);
        }
        match parent {
            None => {
                proof {
                    assert(grown(nodes, nodes, w, path, base, base));
                    lemma_named_kept(nodes, nodes, path, base, base, base, hashes);
                    lemma_same_blocks_kept(nodes, nodes, nodes);
                }
                self.store_below(
                    lookup,
                    &mut entries,
                    worker,
                    &op.blocks,
                    0,
                    0,
                    Ghost(nodes),
                    Ghost(before),
                    Ghost(path),
                    Ghost(base),
                );
            },
            Some((n, pos)) => {
                let len = self.nodes[n].state.edge().len();
                assert(pos < len);
                proof {
                    let edge = nodes[n as int].edge;
                    let new = edge_of_blocks(op.blocks@);
                    if pos + 1 == len {
                        // At the end of the edge one of the first two cases applies.
                        assert(edge.skip(pos + 1) =~= new.take(0));
                        assert(edge.subrange(pos + 1, pos + 1) =~= new.take(0));
                        assert(new.len() == 0 ==> new =~= new.take(0));
                    }
                }
                if self.nodes[n].state.suffix_matches_store(pos, op.blocks.as_slice()) {
                    // All of it is on the edge already.
                    let m = op.blocks.len();
                    proof {
                        assert forall|k: int| base < k <= base + m implies locate(
                            nodes,
                            0,
                            #[trigger] path.take(k),
                        ) == Some((n as int, k - nodes[n as int].start - 1)) by {
                            assert forall|t: int| 0 <= t < k - base implies (
                            #[trigger] path[base + t]) == nodes[n as int].edge[pos + 1 + t].0 by {
                                assert(path[base + t] == locals[t]);
                                assert(nodes[n as int].edge.subrange(
                                    pos + 1,
                                    pos + 1 + op.blocks@.len(),
                                )[t] == edge_of_blocks(
                                    op.blocks@,
                                )[t]);
                            }
                            lemma_along_edge(nodes, n as int, pos as int, path, base, k - base);
                        }
                    }
                    self.cover_step(
                        n,
                        worker,
                        pos + 1 + m,
                        Ghost(path),
                        Ghost(base),
                        Ghost(base + m),
                    );
                    enter_blocks(
                        &mut entries,
                        self.nodes[n].state.edge(),
                        pos + 1,
                        &op.blocks,
                        0,
                        m,
                        n,
                    );
                    proof {
                        lemma_recorded_advance(
                            nodes,
                            self@,
                            w,
                            before,
                            before,
                            entries@,
                            path,
                            base,
                            hashes,
                            0,
                            m as int,
                            n,
                            pos + 1,
                        );
                        lemma_extends_lookups(nodes, self@, lookup@);
                        lemma_named_kept(nodes, self@, path, base, base + m, base, hashes);
                        lemma_same_blocks_kept(nodes, nodes, self@);
                        lemma_nothing_new(nodes, self@, w, path, base, m as int);
                    }
                } else if let Some(m) = self.nodes[n].state.store_starts_with_suffix(
                    pos,
                    op.blocks.as_slice(),
                ) {
                    // The rest of the edge comes first.
                    proof {
                        assert forall|k: int| base < k <= base + m implies locate(
                            nodes,
                            0,
                            #[trigger] path.take(k),
                        ) == Some((n as int, k - nodes[n as int].start - 1)) by {
                            assert forall|t: int| 0 <= t < k - base implies (
                            #[trigger] path[base + t]) == nodes[n as int].edge[pos + 1 + t].0 by {
                                assert(path[base + t] == locals[t]);
                                assert(nodes[n as int].edge.skip(pos + 1)[t] == edge_of_blocks(
                                    op.blocks@,
                                ).take(m as int)[t]);
                            }
                            lemma_along_edge(nodes, n as int, pos as int, path, base, k - base);
                        }
                        if m == 0 {
                            assert(locate(nodes, 0, path.take(base)) == Some((n as int, len - 1)));
                        } else {
                            assert(locate(nodes, 0, path.take(base + m)) == Some(
                                (n as int, len - 1),
                            ));
                        }
                    }
                    self.cover_step(
                        n,
                        worker,
                        len,
                        Ghost(path),
                        Ghost(base),
                        Ghost(base + m),
                    );
                    enter_blocks(
                        &mut entries,
                        self.nodes[n].state.edge(),
                        pos + 1,
                        &op.blocks,
                        0,
                        m,
                        n,
                    );
                    proof {
                        lemma_recorded_advance(
                            nodes,
                            self@,
                            w,
                            before,
                            before,
                            entries@,
                            path,
                            base,
                            hashes,
                            0,
                            m as int,
                            n,
                            pos + 1,
                        );
                        lemma_extends_lookups(nodes, self@, lookup@);
                        lemma_cutoff_bounded(self@, n as int, w);
                        lemma_named_kept(nodes, self@, path, base, base + m, base, hashes);
                        lemma_same_blocks_kept(nodes, nodes, self@);
                    }
                    self.store_below(
                        lookup,
                        &mut entries,
                        worker,
                        &op.blocks,
                        n,
                        m,
                        Ghost(nodes),
                        Ghost(before),
                        Ghost(path),
                        Ghost(base),
                    );
                } else {
                    // The blocks leave the edge right after the parent.
                    proof {
                        if has_all(nodes, path, base, base + op.blocks@.len(), hashes) {
                            lemma_repeats_or_continues(
                                nodes,
                                n as int,
                                pos as int,
                                prefix,
                                op.blocks@,
                            );
                        }
                    }
                    let rest = self.split_step(n, pos + 1);
                    proof {
                        lemma_split_keeps(nodes, n as int, pos + 1, rest as int);
                        lemma_split_lookups(nodes, n as int, pos + 1, rest as int, lookup@);
                        lemma_split_lookup(nodes, n as int, pos + 1, rest as int, w, entries@);
                        lemma_recorded_none(self@, before, path, base, hashes);
                        lemma_named_kept(nodes, self@, path, base, base, base, hashes);
                        lemma_same_blocks_kept(nodes, nodes, self@);
                        assert(locate(self@, 0, path.take(base)) == Some((n as int, pos as int)));
                        assert(grown(nodes, self@, w, path, base, base)) by {
                            assert forall|v: (u64, u32), q: Seq<LocalBlockHash>| #[trigger]
                                holds(self@, v, q) <==> holds(nodes, v, q) || (v == w && added(
                                    path,
                                    base,
                                    base,
                                    q,
                                )) by {}
                        }
                    }
                    self.store_below(
                        lookup,
                        &mut entries,
                        worker,
                        &op.blocks,
                        n,
                        0,
                        Ghost(nodes),
                        Ghost(before),
                        Ghost(path),
                        Ghost(base),
                    );
                }
            },
        }
        fx_insert(lookup, key, entries);
        proof {
            assert(lookup@.dom() =~= table.dom().insert(w));
            assert(stored(
                nodes,
                self@,
                w,
                before,
                entries_of(lookup@, w),
                op.parent_hash,
                op.blocks@,
                prefix,
            ));
        }
        Ok(())
    }
}

/// What storing blocks does. `prefix` is the sequence that leads to the parent
/// block. The worker holds the sequence's prefixes that end with the stored
/// blocks; nothing else changes for it or for any other worker. Blocks that the
/// tree did not have are in it under their hashes, on one edge; it has all others as
/// before. Where it had all of them under their hashes, nodes and edges stay.
pub open spec fn stored(
    before: Seq<TreeNodeView>,
    after: Seq<TreeNodeView>,
    worker: (u64, u32),
    entries_before: Map<u64, usize>,
    entries_after: Map<u64, usize>,
    parent_hash: Option<ExternalSequenceBlockHash>,
    blocks: Seq<KvCacheStoredBlockData>,
    prefix: Seq<LocalBlockHash>,
) -> bool {
    let path = prefix + stored_locals(blocks);
    let base = prefix.len() as int;
    &&& match parent_hash {
        None => prefix.len() == 0,
        Some(hash) => exists|n: int, pos: int|
            #![trigger found_at(before, entries_before[hash.0] as int, worker, hash, n, pos)]
            found_at(before, entries_before[hash.0] as int, worker, hash, n, pos) && locate(
                before,
                0,
                prefix,
            ) == Some((n, pos)),
    }
    &&& grown(before, after, worker, path, base, base + blocks.len())
    &&& named(before, after, path, base, base + blocks.len(), base, stored_hashes(blocks))
    &&& recorded(
        after,
        entries_before,
        entries_after,
        path,
        base,
        stored_hashes(blocks),
        blocks.len() as int,
    )
    &&& on_one_edge(before, after, path, base, base + blocks.len())
    &&& has_all(before, path, base, base + blocks.len(), stored_hashes(blocks)) ==> same_shape(
        before,
        after,
    )
}

/// Where the next block of a path has no child to go to, the tree does not have it.
proof fn lemma_no_child_no_block(
    nodes: Seq<TreeNodeView>,
    path: Seq<LocalBlockHash>,
    a: int,
    id: int,
)
    requires
        tree_wf(nodes),
        0 <= id < nodes.len(),
        0 <= a < path.len(),
        a == 0 ==> id == 0,
        a > 0 ==> locate(nodes, 0, path.take(a)) == Some((id, nodes[id].edge.len() - 1)),
        !has_child(nodes, id, path[a].0),
    ensures
        block_at(nodes, path.take(a + 1)) is None,
{
    let tail = seq![path[a]];
    assert(path.take(a + 1) =~= path.take(a) + tail);
    if a > 0 {
        lemma_locate_compose(nodes, 0, path.take(a), tail);
    }
}

/// Where a worker holds a path in a tree that has the same blocks as before, none of
/// them is new.
proof fn lemma_nothing_new(
    before: Seq<TreeNodeView>,
    after: Seq<TreeNodeView>,
    worker: (u64, u32),
    path: Seq<LocalBlockHash>,
    base: int,
    i: int,
)
    requires
        grown(before, after, worker, path, base, base + i),
        same_blocks(before, after),
    ensures
        on_one_edge(before, after, path, base, base + i),
{
    lemma_grown_located(before, after, worker, path, base, i);
    assert forall|j: int, k: int|
        #![trigger path.take(j), path.take(k)]
        base < j <= k <= base + i && locate(before, 0, path.take(j)) is None implies goes_on(
        after,
        path.take(j),
        path.take(k),
    ) by {
        let t = j - base - 1;
        assert(locate(after, 0, path.take(base + t + 1)) is Some);
        lemma_same_block(before, after, path.take(j));
    }
}

/// Whether a tree has the blocks of another, and no others.
#[verifier::opaque]
spec fn same_blocks(x: Seq<TreeNodeView>, y: Seq<TreeNodeView>) -> bool {
    forall|q: Seq<LocalBlockHash>| #[trigger] block_at(y, q) == block_at(x, q)
}

proof fn lemma_same_block(x: Seq<TreeNodeView>, y: Seq<TreeNodeView>, q: Seq<LocalBlockHash>)
    requires
        same_blocks(x, y),
    ensures
        block_at(y, q) == block_at(x, q),
{
    reveal(same_blocks);
}

/// Blocks stay the same over steps that keep them.
proof fn lemma_same_blocks_kept(
    x: Seq<TreeNodeView>,
    y: Seq<TreeNodeView>,
    z: Seq<TreeNodeView>,
)
    requires
        x == y || same_blocks(x, y),
        forall|q: Seq<LocalBlockHash>| #[trigger] block_at(z, q) == block_at(y, q),
    ensures
        same_blocks(x, z),
{
    reveal(same_blocks);
}

/// Blocks that were put on one edge after all that a tree had of a path.
proof fn lemma_run_on_one_edge(
    before: Seq<TreeNodeView>,
    nodes: Seq<TreeNodeView>,
    after: Seq<TreeNodeView>,
    path: Seq<LocalBlockHash>,
    base: int,
    i: int,
    m: int,
    node: int,
    off: int,
)
    requires
        0 <= base,
        0 <= i,
        0 <= m,
        base + i + m <= path.len(),
        same_blocks(before, nodes),
        forall|j: int|
            0 <= j < i ==> locate(nodes, 0, #[trigger] path.take(base + j + 1)) is Some,
        forall|t: int|
            0 <= t < m ==> locate(after, 0, #[trigger] path.take(base + i + t + 1)) == Some(
                (node, off + t),
            ),
    ensures
        on_one_edge(before, after, path, base, base + i + m),
{
    assert forall|j: int, k: int|
        #![trigger path.take(j), path.take(k)]
        base < j <= k <= base + i + m && locate(before, 0, path.take(j)) is None implies goes_on(
        after,
        path.take(j),
        path.take(k),
    ) by {
        if j <= base + i {
            let t = j - base - 1;
            assert(locate(nodes, 0, path.take(base + t + 1)) is Some);
            lemma_same_block(before, nodes, path.take(j));
        } else {
            let from = j - base - i - 1;
            let to = k - base - i - 1;
            assert(locate(after, 0, path.take(base + i + from + 1)) == Some((node, off + from)));
            assert(locate(after, 0, path.take(base + i + to + 1)) == Some((node, off + to)));
        }
    }
}

/// A sequence that ends within an edge goes on along it.
proof fn lemma_stays_on_edge(
    nodes: Seq<TreeNodeView>,
    n: int,
    pos: int,
    path: Seq<LocalBlockHash>,
    base: int,
    m: int,
)
    requires
        tree_wf(nodes),
        0 < base,
        0 <= m,
        base + m <= path.len(),
        locate(nodes, 0, path.take(base)) == Some((n, pos)),
        pos + m < nodes[n].edge.len(),
        locate(nodes, 0, path.take(base + m)) is Some,
    ensures
        locate(nodes, 0, path.take(base + m)) == Some((n, pos + m)),
{
    let head = path.take(base);
    lemma_locate_valid(nodes, 0, head);
    lemma_last_step(nodes, 0, head);
    let split = base - (pos + 1);
    let tail = path.subrange(split, base + m);
    let key = head[split].0;
    assert(tail[0] == head[split]);
    assert(path.take(base + m) =~= path.take(split) + tail);
    if split == 0 {
        assert(path.take(split) + tail =~= tail);
        lemma_locate_on_edge(nodes, 0, key, tail);
    } else {
        assert(head.take(split) =~= path.take(split));
        let (p, _) = locate(nodes, 0, path.take(split))->0;
        lemma_locate_valid(nodes, 0, path.take(split));
        lemma_locate_on_edge(nodes, p, key, tail);
        lemma_locate_compose(nodes, 0, path.take(split), tail);
    }
}

/// Blocks that a tree has after a parent, under their hashes, repeat what follows the
/// parent on its edge or go on after all of it.
proof fn lemma_repeats_or_continues(
    nodes: Seq<TreeNodeView>,
    n: int,
    pos: int,
    prefix: Seq<LocalBlockHash>,
    blocks: Seq<KvCacheStoredBlockData>,
)
    requires
        tree_wf(nodes),
        prefix.len() > 0,
        locate(nodes, 0, prefix) == Some((n, pos)),
        has_all(
            nodes,
            prefix + stored_locals(blocks),
            prefix.len() as int,
            (prefix.len() + blocks.len()) as int,
            stored_hashes(blocks),
        ),
    ensures
        repeats_suffix(nodes[n].edge, pos, edge_of_blocks(blocks)) || continues_suffix(
            nodes[n].edge,
            pos,
            edge_of_blocks(blocks),
        ),
{
    let path = prefix + stored_locals(blocks);
    let base = prefix.len() as int;
    let edge = nodes[n].edge;
    let new = edge_of_blocks(blocks);
    lemma_locate_valid(nodes, 0, prefix);
    assert(path.take(base) =~= prefix);
    assert forall|t: int| 0 <= t < new.len() && pos + 1 + t < edge.len() implies edge[pos + 1 + t]
        == #[trigger] new[t] by {
        let q = path.take(base + t + 1);
        assert(block_at(nodes, q) == Some(stored_hashes(blocks)[t]));
        lemma_stays_on_edge(nodes, n, pos, path, base, t + 1);
        lemma_locate_valid(nodes, 0, q);
        assert(q.last() == stored_locals(blocks)[t]);
    }
    if new.len() <= edge.len() - (pos + 1) {
        assert(edge.subrange(pos + 1, pos + 1 + new.len()) =~= new);
    } else {
        assert(edge.skip(pos + 1) =~= new.take(edge.len() - (pos + 1)));
    }
}

/// Storing nothing records nothing.
proof fn lemma_recorded_none(
    nodes: Seq<TreeNodeView>,
    before: Map<u64, usize>,
    path: Seq<LocalBlockHash>,
    base: int,
    hashes: Seq<ExternalSequenceBlockHash>,
)
    ensures
        recorded(nodes, before, before, path, base, hashes, 0),
{
    assert forall|h: u64| #[trigger]
        recorded_at(nodes, before, before, path, base, hashes, 0, h) by {
        assert forall|node: usize| !listed(nodes, path, base, hashes, 0, h, node) by {}
    }
}

/// What a worker holds along a path is in the tree.
proof fn lemma_grown_located(
    before: Seq<TreeNodeView>,
    after: Seq<TreeNodeView>,
    worker: (u64, u32),
    path: Seq<LocalBlockHash>,
    base: int,
    i: int,
)
    requires
        grown(before, after, worker, path, base, base + i),
    ensures
        forall|j: int|
            0 <= j < i ==> locate(after, 0, #[trigger] path.take(base + j + 1)) is Some,
{
    assert forall|j: int| 0 <= j < i implies locate(after, 0, #[trigger] path.take(base + j + 1)) is Some by {
        let k = base + j + 1;
        assert(added(path, base, base + i, path.take(k)));
        assert(holds(after, worker, path.take(k)));
    }
}

/// A path that goes on as an edge does stays on that edge.
proof fn lemma_along_edge(
    nodes: Seq<TreeNodeView>,
    n: int,
    pos: int,
    path: Seq<LocalBlockHash>,
    base: int,
    m: int,
)
    requires
        tree_wf(nodes),
        0 < base,
        0 <= m,
        base + m <= path.len(),
        locate(nodes, 0, path.take(base)) == Some((n, pos)),
        pos + m < nodes[n].edge.len(),
        forall|t: int| 0 <= t < m ==> (#[trigger] path[base + t]) == nodes[n].edge[pos + 1 + t].0,
    ensures
        locate(nodes, 0, path.take(base + m)) == Some((n, pos + m)),
{
    let head = path.take(base);
    let e = local_hashes(nodes[n].edge);
    lemma_locate_valid(nodes, 0, head);
    lemma_last_step(nodes, 0, head);
    let split = base - (pos + 1);
    let tail = path.subrange(split, base + m);
    let key = head[split].0;
    assert(e.take(tail.len() as int) =~= tail) by {
        assert forall|t: int| 0 <= t < tail.len() implies e[t] == tail[t] by {
            if t <= pos {
                assert(head.skip(split)[t] == e.take(pos + 1)[t]);
            } else {
                assert(path[base + (t - pos - 1)] == nodes[n].edge[pos + 1 + (t - pos - 1)].0);
            }
        }
    }
    assert(path.take(base + m) =~= path.take(split) + tail);
    if split == 0 {
        assert(path.take(split) + tail =~= tail);
        lemma_locate_on_edge(nodes, 0, key, tail);
    } else {
        assert(head.take(split) =~= path.take(split));
        let (p, _) = locate(nodes, 0, path.take(split))->0;
        lemma_locate_valid(nodes, 0, path.take(split));
        lemma_locate_on_edge(nodes, p, key, tail);
        lemma_locate_compose(nodes, 0, path.take(split), tail);
    }
}

} // verus!
