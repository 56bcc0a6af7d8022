//! Cleanup of leaves that no worker holds.

use vstd::prelude::*;

use crate::collections::fx_remove;
use crate::indexer::compressed_radix::{cutoff_of, held_at, node_view_wf, NodeView};
use crate::indexer::concurrent_radix_tree_compressed::lookup::{
    below, found_at, found_below, lookup_wf, node_of, reach, rooted, worker_lookup_wf,
};
use crate::indexer::concurrent_radix_tree_compressed::model::{
    child_wf, has_child, holds, idle, lemma_locate_valid, local_hashes, locate, parents_unique, tree_wf, TreeNodeView,
};
use crate::indexer::concurrent_radix_tree_compressed::{
    all_idle, ConcurrentRadixTreeCompressed, WorkerLookup,
};
use crate::protocols::{ExternalSequenceBlockHash, LocalBlockHash};
use crate::seqs::lemma_push_contains;

verus! {

/// Whether a node is held by nobody and leads nowhere.
pub open spec fn stale_leaf(node: TreeNodeView) -> bool {
    &&& node.cover == Map::<(u64, u32), nat>::empty()
    &&& node.children == Map::<u64, usize>::empty()
}

/// Whether the places of all leaves that were taken out of a tree are listed.
pub open spec fn places_listed(
    before: Seq<TreeNodeView>,
    after: Seq<TreeNodeView>,
    spare: Seq<usize>,
) -> bool {
    forall|i: int, k: u64|
        0 <= i < before.len() && #[trigger] has_child(before, i, k) && !has_child(after, i, k)
            ==> spare.contains(before[i].children[k])
}

/// Whether some stale leaves were taken out of a tree, and nothing else changed.
pub open spec fn pruned(before: Seq<TreeNodeView>, after: Seq<TreeNodeView>) -> bool {
    &&& before.len() == after.len()
    &&& forall|i: int|
        0 <= i < before.len() ==> (#[trigger] after[i]).edge == before[i].edge && after[i].cover
            == before[i].cover && after[i].start == before[i].start && after[i].internal
            == before[i].internal
    &&& forall|i: int, k: u64|
        0 <= i < before.len() && #[trigger] has_child(after, i, k) ==> has_child(before, i, k)
            && after[i].children[k] == before[i].children[k]
    &&& forall|i: int, k: u64|
        0 <= i < before.len() && #[trigger] has_child(before, i, k) && !has_child(after, i, k)
            ==> stale_leaf(after[before[i].children[k] as int])
}

/// Taking out a stale leaf of a pruned tree prunes it further.
proof fn lemma_pruned_further(
    x: Seq<TreeNodeView>,
    y: Seq<TreeNodeView>,
    p: int,
    key: u64,
)
    requires
        tree_wf(x),
        tree_wf(y),
        pruned(x, y),
        0 <= p < y.len(),
        has_child(y, p, key),
        stale_leaf(y[y[p].children[key] as int]),
    ensures
        ({
            let z = y.update(p, TreeNodeView { children: y[p].children.remove(key), ..y[p] });
            tree_wf(z) && pruned(x, z)
        }),
{
    let z = y.update(p, TreeNodeView { children: y[p].children.remove(key), ..y[p] });
    assert(child_wf(y, p, key));
    let c = y[p].children[key] as int;
    assert(c != p) by {
        if c == p {
            assert(!has_child(y, c, key));
        }
    }
    assert forall|i: int, k: u64| 0 <= i < z.len() && #[trigger] has_child(z, i, k) implies has_child(
        y,
        i,
        k,
    ) && z[i].children[k] == y[i].children[k] by {}
    assert(tree_wf(z)) by {
        assert forall|i: int, k: u64| 0 <= i < z.len() && #[trigger] has_child(
            z,
            i,
            k,
        ) implies child_wf(z, i, k) by {
            assert(has_child(y, i, k));
            assert(child_wf(y, i, k));
        }
        assert(parents_unique(z)) by {
            assert forall|i: int, k: u64, j: int, l: u64|
                0 <= i < z.len() && 0 <= j < z.len() && #[trigger] has_child(z, i, k)
                    && #[trigger] has_child(z, j, l) && z[i].children[k]
                    == z[j].children[l] implies i == j && k == l by {
                assert(has_child(y, i, k) && has_child(y, j, l));
            }
        }
        assert forall|i: int| 0 <= i < z.len() implies node_view_wf(
            NodeView { edge: (#[trigger] z[i]).edge, cover: z[i].cover },
        ) by {
            assert(node_view_wf(NodeView { edge: y[i].edge, cover: y[i].cover }));
        }
        assert forall|i: int| 0 < i < z.len() implies (#[trigger] z[i]).edge.len() > 0 by {
            assert(y[i].edge.len() > 0);
        }
        assert(z[0].edge == y[0].edge);
    }
    assert forall|i: int| 0 <= i < x.len() implies (#[trigger] z[i]).edge == x[i].edge && z[i].cover
        == x[i].cover && z[i].start == x[i].start && z[i].internal == x[i].internal by {
        assert(y[i].edge == x[i].edge);
    }
    assert forall|i: int, k: u64|
        0 <= i < x.len() && #[trigger] has_child(x, i, k) && !has_child(z, i, k) implies stale_leaf(
        z[x[i].children[k] as int],
    ) by {
        assert(child_wf(x, i, k));
        let d = x[i].children[k] as int;
        if has_child(y, i, k) {
            assert(i == p && k == key);
            assert(d == c);
        } else {
            assert(stale_leaf(y[d]));
            if d == p {
                assert(!has_child(y, d, key));
            }
        }
    }
}

/// Pruning changes nothing of where sequences lead that end on a held node.
proof fn lemma_pruned_locate(
    x: Seq<TreeNodeView>,
    y: Seq<TreeNodeView>,
    from: int,
    q: Seq<LocalBlockHash>,
)
    requires
        tree_wf(x),
        pruned(x, y),
        0 <= from < x.len(),
    ensures
        locate(y, from, q) is Some ==> locate(x, from, q) == locate(y, from, q),
        locate(x, from, q) is Some && x[(locate(x, from, q)->0).0].cover != Map::<
            (u64, u32),
            nat,
        >::empty() ==> locate(y, from, q) == locate(x, from, q),
    decreases q.len(),
{
    if q.len() > 0 && has_child(x, from, q[0].0) {
        assert(child_wf(x, from, q[0].0));
        let c = x[from].children[q[0].0] as int;
        assert(y[c].edge == x[c].edge);
        let e = local_hashes(x[c].edge);
        if q.len() > e.len() {
            let rest = q.skip(e.len() as int);
            lemma_pruned_locate(x, y, c, rest);
            if !has_child(y, from, q[0].0) {
                assert(!has_child(y, c, rest[0].0));
                assert(locate(y, c, rest) is None);
            }
        }
    }
}

/// Cleanup changes nothing of what the workers hold.
pub proof fn pruning_keeps_holdings(
    x: Seq<TreeNodeView>,
    y: Seq<TreeNodeView>,
    worker: (u64, u32),
    path: Seq<LocalBlockHash>,
)
    requires
        tree_wf(x),
        pruned(x, y),
    ensures
        holds(y, worker, path) == holds(x, worker, path),
{
    lemma_pruned_locate(x, y, 0, path);
    if locate(x, 0, path) is Some {
        lemma_locate_valid(x, 0, path);
        let (n, _) = locate(x, 0, path)->0;
        assert(y[n].cover == x[n].cover);
        if cutoff_of(x[n].cover, worker) > 0 {
            assert(x[n].cover.dom().contains(worker));
        }
    }
}

/// Nodes that are held or lead on stay in the subtrees that they are in.
proof fn lemma_pruned_reach(
    x: Seq<TreeNodeView>,
    y: Seq<TreeNodeView>,
    top: int,
    node: int,
    steps: nat,
)
    requires
        tree_wf(x),
        pruned(x, y),
        0 <= node < x.len(),
        !stale_leaf(y[node]),
        reach(x, top, node, steps),
    ensures
        reach(y, top, node, steps),
    decreases steps,
{
    if steps > 0 {
        let (p, key) = choose|p: int, key: u64|
            0 <= p < x.len() && #[trigger] has_child(x, p, key) && x[p].children[key] == node
                && reach(x, top, p, (steps - 1) as nat);
        assert(has_child(y, p, key));
        lemma_pruned_reach(x, y, top, p, (steps - 1) as nat);
    }
}

/// Every held node stays in the tree.
proof fn lemma_pruned_rooted(x: Seq<TreeNodeView>, y: Seq<TreeNodeView>)
    requires
        tree_wf(x),
        rooted(x),
        pruned(x, y),
    ensures
        rooted(y),
{
    assert forall|n: int|
        0 <= n < y.len() && (#[trigger] y[n]).cover != Map::<
            (u64, u32),
            nat,
        >::empty() implies below(y, 0, n) by {
        assert(y[n].cover == x[n].cover);
        let steps = choose|steps: nat| #[trigger] reach(x, 0, n, steps);
        lemma_pruned_reach(x, y, 0, n, steps);
    }
}

/// Cleanup leaves every lookup resolvable.
pub proof fn pruning_keeps_lookups(
    x: Seq<TreeNodeView>,
    y: Seq<TreeNodeView>,
    lookup: Map<(u64, u32), WorkerLookup>,
)
    requires
        tree_wf(x),
        pruned(x, y),
        lookup_wf(x, lookup),
    ensures
        lookup_wf(y, lookup),
{
    assert forall|w: (u64, u32)| #[trigger] lookup.dom().contains(w) implies worker_lookup_wf(
        y,
        w,
        lookup[w]@,
    ) by {
        let entries = lookup[w]@;
        assert(worker_lookup_wf(x, w, entries));
        assert forall|h: u64| #[trigger] entries.dom().contains(h) implies 0 < entries[h] < y.len()
            && found_below(y, entries[h] as int, w, ExternalSequenceBlockHash(h)) by {
            let e = ExternalSequenceBlockHash(h);
            let top = entries[h] as int;
            assert(found_below(x, top, w, e));
            let (n, pos) = choose|n: int, pos: int| #[trigger] found_at(x, top, w, e, n, pos);
            let steps = choose|steps: nat| #[trigger] reach(x, top, n, steps);
            assert(y[n].cover == x[n].cover && y[n].edge == x[n].edge);
            assert(y[n].cover.dom().contains(w));
            lemma_pruned_reach(x, y, top, n, steps);
            assert(held_at(node_of(y, n), w, e, pos));
            assert(found_at(y, top, w, e, n, pos));
        }
    }
}

/// A leaf that was taken out is idle, and places that were idle stay so.
proof fn lemma_swept_idle(y: Seq<TreeNodeView>, p: int, key: u64, spare: Seq<usize>)
    requires
        tree_wf(y),
        0 <= p < y.len(),
        has_child(y, p, key),
        stale_leaf(y[y[p].children[key] as int]),
        all_idle(y, spare),
    ensures
        all_idle(
            y.update(p, TreeNodeView { children: y[p].children.remove(key), ..y[p] }),
            spare.push(y[p].children[key]),
        ),
{
    let z = y.update(p, TreeNodeView { children: y[p].children.remove(key), ..y[p] });
    let child = y[p].children[key];
    let more = spare.push(child);
    assert(child_wf(y, p, key));
    assert(p != child) by {
        if p == child {
            assert(!has_child(y, child as int, key));
        }
    }
    assert forall|i: int, k: u64| 0 <= i < z.len() && #[trigger] has_child(z, i, k) implies has_child(
        y,
        i,
        k,
    ) && z[i].children[k] == y[i].children[k] by {}
    assert forall|i: int| 0 <= i < more.len() implies idle(z, #[trigger] more[i] as int) by {
        let c = more[i] as int;
        if i < spare.len() {
            assert(spare[i] == more[i]);
            assert(idle(y, spare[i] as int));
            assert(c != p);
        } else {
            assert forall|q: int, k: u64| 0 <= q < z.len() && #[trigger] has_child(z, q, k) implies z[q].children[k]
                != c by {
                if y[q].children[k] == c {
                    assert(q == p && k == key);
                }
            }
        }
    }
    assert(more.no_duplicates()) by {
        assert forall|i: int| 0 <= i < spare.len() implies spare[i] != child by {
            assert(idle(y, spare[i] as int));
        }
    }
}

/// An entry of a node: the node, the key and the child.
struct CleanupEdge {
    parent: usize,
    key: u64,
    child: usize,
}

/// What holds of the nodes and entries met so far, in the order of a walk from
/// the root that visits the nodes of one level after those of the one above.
spec fn walked(
    nodes: Seq<TreeNodeView>,
    queue: Seq<usize>,
    edges: Seq<CleanupEdge>,
    done: int,
) -> bool {
    &&& queue.len() == edges.len() + 1
    &&& queue[0] == 0
    &&& 0 <= done <= queue.len()
    &&& forall|j: int|
        0 <= j < edges.len() ==> {
            let e = #[trigger] edges[j];
            &&& queue[j + 1] == e.child
            &&& e.parent < nodes.len()
            &&& has_child(nodes, e.parent as int, e.key)
            &&& nodes[e.parent as int].children[e.key] == e.child
        }
    &&& forall|j: int| 0 <= j < queue.len() ==> (#[trigger] queue[j]) < nodes.len()
    &&& queue.no_duplicates()
}

/// Whether the entries of the first nodes of the walk were all met, and met after
/// the entry of the node itself.
spec fn expanded(
    nodes: Seq<TreeNodeView>,
    queue: Seq<usize>,
    edges: Seq<CleanupEdge>,
    done: int,
) -> bool {
    forall|i: int, k: u64|
        0 <= i < done && #[trigger] has_child(nodes, queue[i] as int, k) ==> exists|j: int|
            i <= j < edges.len() && (#[trigger] edges[j]).parent == queue[i] && edges[j].key == k
}

/// Whether the entries met so far are of the first nodes of the walk.
spec fn from_queue(queue: Seq<usize>, edges: Seq<CleanupEdge>, done: int) -> bool {
    forall|j: int|
        0 <= j < edges.len() ==> exists|i: int|
            0 <= i < done && i <= j && (#[trigger] queue[i]) == (#[trigger] edges[j]).parent
}

/// A walk that has expanded every node that it met has met every node of the
/// tree.
proof fn lemma_walk_complete(
    nodes: Seq<TreeNodeView>,
    queue: Seq<usize>,
    edges: Seq<CleanupEdge>,
    node: int,
    steps: nat,
)
    requires
        tree_wf(nodes),
        walked(nodes, queue, edges, queue.len() as int),
        expanded(nodes, queue, edges, queue.len() as int),
        reach(nodes, 0, node, steps),
    ensures
        exists|i: int| 0 <= i < queue.len() && (#[trigger] queue[i]) == node,
    decreases steps,
{
    if steps == 0 {
        assert(queue[0] == node);
    } else {
        let (p, key) = choose|p: int, key: u64|
            0 <= p < nodes.len() && #[trigger] has_child(nodes, p, key) && nodes[p].children[key]
                == node && reach(nodes, 0, p, (steps - 1) as nat);
        lemma_walk_complete(nodes, queue, edges, p, (steps - 1) as nat);
        let i = choose|i: int| 0 <= i < queue.len() && (#[trigger] queue[i]) == p;
        let j = choose|j: int|
            i <= j < edges.len() && (#[trigger] edges[j]).parent == queue[i] && edges[j].key == key;
        assert(queue[j + 1] == node);
    }
}

/// A list without repetition of numbers below a bound is no longer than the
/// bound.
proof fn lemma_distinct_len(s: Seq<usize>, bound: nat)
    requires
        s.no_duplicates(),
        forall|i: int| 0 <= i < s.len() ==> (#[trigger] s[i]) < bound,
    ensures
        s.len() <= bound,
{
    let ints = s.map_values(|x: usize| x as int);
    assert(ints.no_duplicates());
    ints.unique_seq_to_set();
    let all = vstd::set_lib::set_int_range(0, bound as int);
    vstd::set_lib::lemma_int_range(0, bound as int);
    assert(ints.to_set().subset_of(all)) by {
        assert forall|x: int| ints.to_set().contains(x) implies all.contains(x) by {
            let i = choose|i: int| 0 <= i < ints.len() && ints[i] == x;
            assert(s[i] < bound);
        }
    }
    vstd::set_lib::lemma_len_subset(ints.to_set(), all);
}

impl ConcurrentRadixTreeCompressed {
    /// Takes out the leaves that no worker holds, and those that become such
    /// leaves. New nodes get their places.
    pub fn run_cleanup_for_test(&mut self)
        requires
            old(self).wf(),
        ensures
            final(self).wf(),
            pruned(old(self)@, final(self)@),
            places_listed(old(self)@, final(self)@, final(self).spare_places()),
            forall|i: int, k: u64|
                0 <= i < old(self)@.len() && below(old(self)@, 0, i) && #[trigger] has_child(
                    final(self)@,
                    i,
                    k,
                ) ==> !stale_leaf(final(self)@[final(self)@[i].children[k] as int]),
    {
        self.sweep_stale_children();
    }

    /// Takes out the leaves that no worker holds, and those that become such
    /// leaves. New nodes get their places.
    pub fn sweep_stale_children(&mut self)
        requires
            old(self).wf(),
        ensures
            final(self).wf(),
            pruned(old(self)@, final(self)@),
            places_listed(old(self)@, final(self)@, final(self).spare_places()),
            forall|i: int, k: u64|
                0 <= i < old(self)@.len() && below(old(self)@, 0, i) && #[trigger] has_child(
                    final(self)@,
                    i,
                    k,
                ) ==> !stale_leaf(final(self)@[final(self)@[i].children[k] as int]),
    {
        let ghost nodes = self@;
        let mut queue: Vec<usize> = Vec::new();
        let mut edges: Vec<CleanupEdge> = Vec::new();
        queue.push(0);
        let mut at: usize = 0;
        while at < queue.len()
            invariant
                self.wf(),
                nodes == self@,
                at <= queue@.len(),
                walked(nodes, queue@, edges@, at as int),
                expanded(nodes, queue@, edges@, at as int),
                from_queue(queue@, edges@, at as int),
            decreases nodes.len() - at,
        {
            let parent = queue[at];
            let keys = self.child_keys(parent);
            let ghost q0 = queue@;
            let ghost e0 = edges@;
            proof {
                lemma_distinct_len(queue@, nodes.len());
            }
            for i in 0..keys.len()
                invariant
                    self.wf(),
                    nodes == self@,
                    at < q0.len(),
                    parent == q0[at as int],
                    parent < nodes.len(),
                    keys@.no_duplicates(),
                    keys@.to_set() == nodes[parent as int].children.dom(),
                    walked(nodes, q0, e0, at as int),
                    from_queue(q0, e0, at as int),
                    walked(nodes, queue@, edges@, at as int),
                    queue@.len() == q0.len() + i,
                    forall|j: int| 0 <= j < q0.len() ==> queue@[j] == q0[j],
                    forall|j: int| 0 <= j < e0.len() ==> edges@[j] == e0[j],
                    forall|j: int|
                        0 <= j < i ==> (#[trigger] edges@[e0.len() + j]).parent == parent
                            && edges@[e0.len() + j].key == keys@[j],
            {
                let key = keys[i];
                assert(keys@.to_set().contains(key));
                assert(has_child(nodes, parent as int, key));
                if let Some(child) = self.child(parent, key) {
                    proof {
                        assert(child_wf(nodes, parent as int, key));
                        assert forall|j: int| 0 <= j < queue@.len() implies queue@[j] != child by {
                            if queue@[j] == child {
                                assert(j > 0);
                                let e = edges@[j - 1];
                                assert(has_child(nodes, e.parent as int, e.key));
                                assert(e.parent == parent && e.key == key);
                                if j - 1 < e0.len() {
                                    let m = choose|m: int|
                                        0 <= m < at && m <= j - 1 && (#[trigger] q0[m]) == (
                                        #[trigger] e0[j - 1]).parent;
                                    assert(q0[m] == q0[at as int]);
                                } else {
                                    assert(edges@[e0.len() + (j - 1 - e0.len())].key
                                        == keys@[j - 1 - e0.len()]);
                                }
                            }
                        }
                    }
                    queue.push(child);
                    edges.push(CleanupEdge { parent, key, child });
                }
            }
            proof {
                assert(expanded(nodes, queue@, edges@, at + 1)) by {
                    assert forall|i: int, k: u64|
                        0 <= i < at + 1 && #[trigger] has_child(
                            nodes,
                            queue@[i] as int,
                            k,
                        ) implies exists|j: int|
                        i <= j < edges@.len() && (#[trigger] edges@[j]).parent == queue@[i]
                            && edges@[j].key == k by {
                        if i < at {
                            assert(has_child(nodes, q0[i] as int, k));
                            let j = choose|j: int|
                                i <= j < e0.len() && (#[trigger] e0[j]).parent == q0[i] && e0[j].key
                                    == k;
                            assert(edges@[j].parent == queue@[i]);
                        } else {
                            assert(keys@.to_set().contains(k));
                            let m = choose|m: int| 0 <= m < keys@.len() && keys@[m] == k;
                            assert(edges@[e0.len() + m].key == k);
                        }
                    }
                }
                assert(from_queue(queue@, edges@, at + 1)) by {
                    assert forall|j: int| 0 <= j < edges@.len() implies exists|i: int|
                        0 <= i < at + 1 && i <= j && (#[trigger] queue@[i]) == (
                        #[trigger] edges@[j]).parent by {
                        if j < e0.len() {
                            let i = choose|i: int|
                                0 <= i < at && i <= j && (#[trigger] q0[i]) == (
                                #[trigger] e0[j]).parent;
                            assert(queue@[i] == edges@[j].parent);
                        } else {
                            assert(edges@[e0.len() + (j - e0.len())].parent == parent);
                            assert(queue@[at as int] == edges@[j].parent);
                        }
                    }
                }
            }
            at += 1;
        }
        let mut left: usize = edges.len();
        while left > 0
            invariant
                self.wf(),
                tree_wf(nodes),
                rooted(nodes),
                pruned(nodes, self@),
                places_listed(nodes, self@, self.spare@),
                left <= edges@.len(),
                walked(nodes, queue@, edges@, queue@.len() as int),
                from_queue(queue@, edges@, queue@.len() as int),
                // Entries not yet looked at are as they were.
                forall|j: int|
                    0 <= j < left ==> has_child(
                        self@,
                        (#[trigger] edges@[j]).parent as int,
                        edges@[j].key,
                    ),
                // No entry that was looked at leads to a stale leaf.
                forall|j: int|
                    left <= j < edges@.len() && has_child(
                        self@,
                        (#[trigger] edges@[j]).parent as int,
                        edges@[j].key,
                    ) ==> !stale_leaf(self@[edges@[j].child as int]),
            decreases left,
        {
            left -= 1;
            let parent = edges[left].parent;
            let key = edges[left].key;
            let child = edges[left].child;
            let ghost y = self@;
            proof {
                assert(has_child(y, parent as int, key));
                assert(child_wf(y, parent as int, key));
                assert(has_child(nodes, parent as int, key));
                assert(queue@[left + 1] == child);
            }
            let stale = !self.nodes[child].state.has_any_workers()
                && self.nodes[child].children.is_empty();
            assert(stale == stale_leaf(y[child as int])) by {
                if self.nodes@[child as int].children@.is_empty() {
                    assert(y[child as int].children =~= Map::<u64, usize>::empty());
                }
            }
            if stale {
                let ghost spare = self.spare@;
                fx_remove(&mut self.nodes[parent].children, &key);
                self.spare.push(child);
                proof {
                    let z = y.update(
                        parent as int,
                        TreeNodeView { children: y[parent as int].children.remove(key), ..y[parent as int]
                        },
                    );
                    assert(self@ =~= z);
                    lemma_pruned_further(nodes, y, parent as int, key);
                    lemma_pruned_rooted(nodes, self@);
                    lemma_swept_idle(y, parent as int, key, spare);
                    lemma_push_contains(spare, child);
                    assert forall|i: int, k: u64|
                        0 <= i < nodes.len() && #[trigger] has_child(nodes, i, k) && !has_child(
                            self@,
                            i,
                            k,
                        ) implies self.spare@.contains(nodes[i].children[k]) by {
                        if has_child(y, i, k) {
                            assert(i == parent && k == key);
                        } else {
                            assert(spare.contains(nodes[i].children[k]));
                        }
                    }
                    assert forall|j: int| 0 <= j < left implies has_child(
                        self@,
                        (#[trigger] edges@[j]).parent as int,
                        edges@[j].key,
                    ) by {
                        assert(has_child(y, edges@[j].parent as int, edges@[j].key));
                        if edges@[j].parent == parent && edges@[j].key == key {
                            assert(edges@[j].child == child);
                            assert(queue@[j + 1] == queue@[left + 1]);
                        }
                    }
                    assert forall|j: int|
                        left <= j < edges@.len() && has_child(
                            self@,
                            (#[trigger] edges@[j]).parent as int,
                            edges@[j].key,
                        ) implies !stale_leaf(self@[edges@[j].child as int]) by {
                        assert(has_child(y, edges@[j].parent as int, edges@[j].key));
                        if j > left {
                            assert(!stale_leaf(y[edges@[j].child as int]));
                            // Were it the parent, its entry would come first.
                            if edges@[j].child == parent {
                                let i = choose|i: int|
                                    0 <= i < queue@.len() && i <= left && (#[trigger] queue@[i])
                                        == (#[trigger] edges@[left as int]).parent;
                                assert(queue@[j + 1] == queue@[i]);
                                assert(j + 1 == i);
                            }
                        } else {
                            assert(j == left);
                        }
                    }
                }
            }
        }
        proof {
            assert forall|i: int, k: u64|
                0 <= i < nodes.len() && below(nodes, 0, i) && #[trigger] has_child(
                    self@,
                    i,
                    k,
                ) implies !stale_leaf(self@[self@[i].children[k] as int]) by {
                let steps = choose|steps: nat| #[trigger] reach(nodes, 0, i, steps);
                lemma_walk_complete(nodes, queue@, edges@, i, steps);
                let m = choose|m: int| 0 <= m < queue@.len() && (#[trigger] queue@[m]) == i;
                assert(has_child(nodes, queue@[m] as int, k));
                let j = choose|j: int|
                    m <= j < edges@.len() && (#[trigger] edges@[j]).parent == queue@[m]
                        && edges@[j].key == k;
                assert(has_child(self@, edges@[j].parent as int, edges@[j].key));
            }
        }
    }
}

} // verus!
