//! The events that recreate a tree.

use vstd::prelude::*;

use crate::indexer::compressed_radix::{
    append_dump_events, dumped_blocks, edge_events, holder_keys, holders_of, node_view_wf,
};
use crate::indexer::concurrent_radix_tree_compressed::lookup::{below, node_of, reach, rooted};
use crate::indexer::concurrent_radix_tree_compressed::model::{
    child_wf, has_child, lemma_cutoff_bounded, tree_wf, TreeNodeView,
};
use crate::indexer::concurrent_radix_tree_compressed::ConcurrentRadixTreeCompressed;
use crate::protocols::{
    router_events_view, EventDataView, ExternalSequenceBlockHash, RouterEvent, RouterEventView,
    StorageTier, WorkerWithDpRank,
};

verus! {

/// The hash of the last block above a node's children; the root has none.
pub open spec fn tail_hash(nodes: Seq<TreeNodeView>, n: int) -> Option<ExternalSequenceBlockHash> {
    if nodes[n].edge.len() == 0 {
        None
    } else {
        Some(nodes[n].edge.last().1)
    }
}

/// Whether a node is a child of another.
pub open spec fn hangs_below(nodes: Seq<TreeNodeView>, p: int, n: int) -> bool {
    exists|key: u64| #[trigger] has_child(nodes, p, key) && nodes[p].children[key] == n
}

/// Whether an event recreates what a worker holds of a node's edge, below the node's
/// parent.
pub open spec fn recreates(
    nodes: Seq<TreeNodeView>,
    event: RouterEventView,
    n: int,
    worker: (u64, u32),
) -> bool {
    &&& 0 <= n < nodes.len()
    &&& nodes[n].cover.dom().contains(worker)
    &&& event.worker_id == worker.0
    &&& event.dp_rank == worker.1
    &&& event.storage_tier == StorageTier::Device
    &&& exists|p: int|
        0 <= p < nodes.len() && #[trigger] hangs_below(nodes, p, n) && event.data
            == (EventDataView::Stored {
            parent_hash: tail_hash(nodes, p),
            start_position: None,
            blocks: dumped_blocks(nodes[n].edge).take(nodes[n].cover[worker] as int),
        })
}

/// Whether events recreate a tree, each of them what one worker holds of one node's
/// edge: nothing twice and nothing left out, parents before their children, and
/// numbered as they stand.
pub open spec fn dumped_in(
    nodes: Seq<TreeNodeView>,
    events: Seq<RouterEventView>,
    order: Seq<(int, (u64, u32))>,
) -> bool {
    &&& order.len() == events.len()
    &&& order.no_duplicates()
    &&& forall|i: int|
        0 <= i < events.len() ==> recreates(
            nodes,
            #[trigger] events[i],
            order[i].0,
            order[i].1,
        ) && events[i].event_id == i
    &&& forall|n: int, w: (u64, u32)|
        0 <= n < nodes.len() && #[trigger] nodes[n].cover.dom().contains(w) ==> order.contains(
            (n, w),
        )
    &&& forall|i: int, j: int|
        0 <= i < order.len() && 0 <= j < order.len() && #[trigger] hangs_below(
            nodes,
            order[i].0,
            order[j].0,
        ) ==> i < j
}

/// A node on a walk, and the hash of the last block above it.
type Step = (usize, Option<ExternalSequenceBlockHash>);

/// Whether a node was passed on a walk.
spec fn passed(walk: Seq<Step>, n: int) -> bool {
    exists|j: int| 0 <= j < walk.len() && (#[trigger] walk[j]).0 == n
}

/// Whether a step leads to a child of an earlier node.
spec fn comes_from(nodes: Seq<TreeNodeView>, walk: Seq<Step>, j: int, m: int) -> bool {
    &&& 0 <= m < j
    &&& hangs_below(nodes, walk[m].0 as int, walk[j].0 as int)
    &&& walk[j].1 == tail_hash(nodes, walk[m].0 as int)
}

/// Whether a step leads to a child of some earlier node.
spec fn comes_down(nodes: Seq<TreeNodeView>, walk: Seq<Step>, j: int) -> bool {
    exists|m: int| #[trigger] comes_from(nodes, walk, j, m)
}

/// Whether a walk starts at the root and goes down, to no node twice.
spec fn goes_down(nodes: Seq<TreeNodeView>, walk: Seq<Step>) -> bool {
    &&& walk.len() > 0
    &&& walk[0].0 == 0
    &&& forall|j: int| 0 <= j < walk.len() ==> (#[trigger] walk[j]).0 < nodes.len()
    &&& forall|i: int, j: int|
        0 <= i < j < walk.len() ==> (#[trigger] walk[i]).0 != (#[trigger] walk[j]).0
    &&& forall|j: int| 0 < j < walk.len() ==> #[trigger] comes_down(nodes, walk, j)
}

/// Whether the children of a node were passed.
spec fn children_passed(nodes: Seq<TreeNodeView>, walk: Seq<Step>, n: int) -> bool {
    forall|key: u64| #[trigger]
        has_child(nodes, n, key) ==> passed(walk, nodes[n].children[key] as int)
}

/// A walk that goes down passes parents before their children.
proof fn lemma_parent_first(nodes: Seq<TreeNodeView>, walk: Seq<Step>, a: int, b: int)
    requires
        tree_wf(nodes),
        goes_down(nodes, walk),
        0 <= a < walk.len(),
        0 <= b < walk.len(),
        hangs_below(nodes, walk[a].0 as int, walk[b].0 as int),
    ensures
        a < b,
{
    let p = walk[a].0 as int;
    let n = walk[b].0 as int;
    let k = choose|k: u64| #[trigger] has_child(nodes, p, k) && nodes[p].children[k] == n;
    assert(child_wf(nodes, p, k));
    assert(n != 0);
    assert(b != 0);
    assert(comes_down(nodes, walk, b));
    let m = choose|m: int| #[trigger] comes_from(nodes, walk, b, m);
    assert(comes_from(nodes, walk, b, m));
    let q = walk[m].0 as int;
    let l = choose|l: u64| #[trigger] has_child(nodes, q, l) && nodes[q].children[l] == n;
    assert(has_child(nodes, p, k) && has_child(nodes, q, l));
    assert(p == q);
    if m != a {
        if m < a {
            assert(walk[m].0 != walk[a].0);
        } else {
            assert(walk[a].0 != walk[m].0);
        }
    }
}

/// A walk that passes the children of all its nodes passes the whole tree.
proof fn lemma_walk_is_whole(nodes: Seq<TreeNodeView>, walk: Seq<Step>, n: int, steps: nat)
    requires
        tree_wf(nodes),
        goes_down(nodes, walk),
        forall|j: int|
            0 <= j < walk.len() ==> children_passed(nodes, walk, (#[trigger] walk[j]).0 as int),
        0 <= n < nodes.len(),
        reach(nodes, 0, n, steps),
    ensures
        passed(walk, n),
    decreases steps,
{
    if steps == 0 {
        assert(walk[0].0 == n);
    } else {
        let (p, key) = choose|p: int, key: u64|
            0 <= p < nodes.len() && #[trigger] has_child(nodes, p, key) && nodes[p].children[key]
                == n && reach(nodes, 0, p, (steps - 1) as nat);
        lemma_walk_is_whole(nodes, walk, p, (steps - 1) as nat);
        let j = choose|j: int| 0 <= j < walk.len() && (#[trigger] walk[j]).0 == p;
        assert(children_passed(nodes, walk, walk[j].0 as int));
    }
}

/// A walk has no more steps than the tree has nodes.
proof fn lemma_walk_is_short(nodes: Seq<TreeNodeView>, walk: Seq<Step>)
    requires
        goes_down(nodes, walk),
    ensures
        walk.len() <= nodes.len(),
{
    let places = walk.map_values(|s: Step| s.0 as int);
    assert(places.no_duplicates()) by {
        assert forall|i: int, j: int|
            0 <= i < places.len() && 0 <= j < places.len() && i != j implies places[i]
            != places[j] by {
            if i < j {
                assert(walk[i].0 != walk[j].0);
            } else {
                assert(walk[j].0 != walk[i].0);
            }
        }
    }
    places.unique_seq_to_set();
    let all = vstd::set_lib::set_int_range(0, nodes.len() as int);
    vstd::set_lib::lemma_int_range(0, nodes.len() as int);
    assert forall|x: int| places.to_set().contains(x) implies all.contains(x) by {
        let j = choose|j: int| 0 <= j < places.len() && places[j] == x;
        assert(walk[j].0 < nodes.len());
    }
    vstd::set_lib::lemma_len_subset(places.to_set(), all);
}

/// A walk that goes down may go on to a child that it has not passed.
proof fn lemma_step_down(nodes: Seq<TreeNodeView>, walk: Seq<Step>, m: int, step: Step)
    requires
        goes_down(nodes, walk),
        0 <= m < walk.len(),
        step.0 < nodes.len(),
        hangs_below(nodes, walk[m].0 as int, step.0 as int),
        step.1 == tail_hash(nodes, walk[m].0 as int),
        !passed(walk, step.0 as int),
    ensures
        goes_down(nodes, walk.push(step)),
{
    let longer = walk.push(step);
    assert forall|i: int, j: int| 0 <= i < j < longer.len() implies (#[trigger] longer[i]).0 != (
    #[trigger] longer[j]).0 by {
        assert(longer[i] == walk[i]);
        if j < walk.len() {
            assert(walk[i].0 != walk[j].0);
        } else {
            assert(walk[i].0 != step.0);
        }
    }
    assert forall|j: int| 0 < j < longer.len() implies #[trigger] comes_down(
        nodes,
        longer,
        j,
    ) by {
        if j < walk.len() {
            assert(comes_down(nodes, walk, j));
            let k = choose|k: int| #[trigger] comes_from(nodes, walk, j, k);
            assert(comes_from(nodes, walk, j, k));
            assert(comes_from(nodes, longer, j, k));
        } else {
            assert(comes_from(nodes, longer, j, m));
        }
    }
}

/// The events of one more node of a walk recreate it as well.
proof fn lemma_node_dumped(
    nodes: Seq<TreeNodeView>,
    walk: Seq<Step>,
    i: int,
    events: Seq<RouterEventView>,
    order: Seq<(int, (u64, u32))>,
    at: Seq<int>,
    full_workers: Seq<WorkerWithDpRank>,
    worker_cutoffs: Seq<(WorkerWithDpRank, usize)>,
)
    requires
        tree_wf(nodes),
        goes_down(nodes, walk),
        0 <= i < walk.len(),
        recreated_so_far(nodes, walk, i, events, order, at),
        holders_of(node_of(nodes, walk[i].0 as int), full_workers, worker_cutoffs),
        events.len() + full_workers.len() + worker_cutoffs.len() <= u64::MAX,
    ensures
        ({
            let n = walk[i].0 as int;
            let added = holder_keys(full_workers, worker_cutoffs);
            recreated_so_far(
                nodes,
                walk,
                i + 1,
                events + edge_events(
                    events.len() as u64,
                    walk[i].1,
                    nodes[n].edge,
                    full_workers,
                    worker_cutoffs,
                ),
                order + added.map_values(|w: (u64, u32)| (n, w)),
                at + added.map_values(|w: (u64, u32)| i),
            )
        }),
{
    let n = walk[i].0 as int;
    let node = node_of(nodes, n);
    let added = holder_keys(full_workers, worker_cutoffs);
    let more = edge_events(
        events.len() as u64,
        walk[i].1,
        nodes[n].edge,
        full_workers,
        worker_cutoffs,
    );
    let all_events = events + more;
    let pairs = added.map_values(|w: (u64, u32)| (n, w));
    let all_order = order + pairs;
    let all_at = at + added.map_values(|w: (u64, u32)| i);
    assert(walk[i].0 < nodes.len());
    assert(node_view_wf(node)) by {
        assert(nodes[n].edge == node.edge);
    }
    if added.len() > 0 {
        assert(node.cover.dom().contains(added[0])) by {
            if full_workers.len() > 0 {
                assert(node.cover.dom().contains(full_workers[0].spec_key()));
            } else {
                assert(node.cover.dom().contains(worker_cutoffs[0].0.spec_key()));
            }
        }
        assert(i != 0) by {
            if i == 0 {
                assert(nodes[0].edge.len() == 0);
                assert(0 < node.cover[added[0]] <= node.edge.len());
            }
        }
        assert(comes_down(nodes, walk, i));
        let m = choose|m: int| #[trigger] comes_from(nodes, walk, i, m);
        assert(comes_from(nodes, walk, i, m));
        let p = walk[m].0 as int;
        assert(walk[m].0 < nodes.len());
        assert(hangs_below(nodes, p, n));
        assert forall|t: int| 0 <= t < more.len() implies recreates(
            nodes,
            #[trigger] more[t],
            n,
            added[t],
        ) && more[t].event_id == events.len() + t by {
            let blocks = dumped_blocks(nodes[n].edge);
            if t < full_workers.len() {
                assert(node.cover.dom().contains(full_workers[t].spec_key()));
                assert(blocks.take(blocks.len() as int) =~= blocks);
            } else {
                let u = t - full_workers.len();
                assert(node.cover.dom().contains(worker_cutoffs[u].0.spec_key()));
            }
        }
    }
    assert forall|t: int| 0 <= t < all_events.len() implies recreates(
        nodes,
        #[trigger] all_events[t],
        all_order[t].0,
        all_order[t].1,
    ) && all_events[t].event_id == t by {
        if t < events.len() {
            assert(all_events[t] == events[t]);
            assert(all_order[t] == order[t]);
        } else {
            let u = t - events.len();
            assert(all_events[t] == more[u]);
            assert(all_order[t] == (n, added[u]));
        }
    }
    assert(all_order.no_duplicates()) by {
        assert forall|a: int, b: int|
            0 <= a < all_order.len() && 0 <= b < all_order.len() && a != b implies all_order[a]
            != all_order[b] by {
            lemma_pairs_differ(nodes, walk, i, events, order, at, added, a, b);
            lemma_pairs_differ(nodes, walk, i, events, order, at, added, b, a);
        }
    }
    assert forall|t: int| 0 <= t < all_at.len() implies 0 <= #[trigger] all_at[t] < i + 1
        && walk[all_at[t]].0 == all_order[t].0 by {
        if t < at.len() {
            assert(all_at[t] == at[t]);
            assert(0 <= at[t] < i);
        }
    }
    assert forall|a: int, b: int| 0 <= a <= b < all_at.len() implies #[trigger] all_at[a]
        <= #[trigger] all_at[b] by {
        if b < at.len() {
            assert(at[a] <= at[b]);
        } else if a < at.len() {
            assert(at[a] < i);
        }
    }
    assert forall|j: int, w: (u64, u32)|
        0 <= j < i + 1 && #[trigger] nodes[walk[j].0 as int].cover.dom().contains(
            w,
        ) implies all_order.contains((walk[j].0 as int, w)) by {
        if j < i {
            assert(order.contains((walk[j].0 as int, w)));
            let t = choose|t: int| 0 <= t < order.len() && order[t] == (walk[j].0 as int, w);
            assert(all_order[t] == order[t]);
        } else {
            assert(node.cover.dom().contains(w));
            assert(added.contains(w));
            let t = choose|t: int| 0 <= t < added.len() && added[t] == w;
            assert(all_order[order.len() + t] == (n, w));
        }
    }
}

/// Of two events, one before the other, each recreates something else.
proof fn lemma_pairs_differ(
    nodes: Seq<TreeNodeView>,
    walk: Seq<Step>,
    i: int,
    events: Seq<RouterEventView>,
    order: Seq<(int, (u64, u32))>,
    at: Seq<int>,
    added: Seq<(u64, u32)>,
    a: int,
    b: int,
)
    requires
        goes_down(nodes, walk),
        0 <= i < walk.len(),
        recreated_so_far(nodes, walk, i, events, order, at),
        forall|s: int, t: int| 0 <= s < t < added.len() ==> added[s] != added[t],
        0 <= a < order.len() + added.len(),
        0 <= b < order.len() + added.len(),
    ensures
        ({
            let all = order + added.map_values(|w: (u64, u32)| (walk[i].0 as int, w));
            a < b ==> all[a] != all[b]
        }),
{
    if a < b {
        if b < order.len() {
            assert(order[a] != order[b]);
        } else if a < order.len() {
            assert(0 <= at[a] < i);
            assert(walk[at[a]].0 != walk[i].0);
        } else {
            assert(added[a - order.len()] != added[b - order.len()]);
        }
    }
}

/// The events of a whole walk recreate the tree.
proof fn lemma_all_dumped(
    nodes: Seq<TreeNodeView>,
    walk: Seq<Step>,
    events: Seq<RouterEventView>,
    order: Seq<(int, (u64, u32))>,
    at: Seq<int>,
)
    requires
        tree_wf(nodes),
        rooted(nodes),
        goes_down(nodes, walk),
        forall|j: int|
            0 <= j < walk.len() ==> children_passed(nodes, walk, (#[trigger] walk[j]).0 as int),
        recreated_so_far(nodes, walk, walk.len() as int, events, order, at),
    ensures
        dumped_in(nodes, events, order),
{
    assert forall|n: int, w: (u64, u32)|
        0 <= n < nodes.len() && #[trigger] nodes[n].cover.dom().contains(w) implies order.contains(
        (n, w),
    ) by {
        assert(nodes[n].cover != Map::<(u64, u32), nat>::empty());
        assert(below(nodes, 0, n));
        let steps = choose|steps: nat| #[trigger] reach(nodes, 0, n, steps);
        lemma_walk_is_whole(nodes, walk, n, steps);
        let j = choose|j: int| 0 <= j < walk.len() && (#[trigger] walk[j]).0 == n;
        assert(nodes[walk[j].0 as int].cover.dom().contains(w));
    }
    assert forall|i: int, j: int|
        0 <= i < order.len() && 0 <= j < order.len() && #[trigger] hangs_below(
            nodes,
            order[i].0,
            order[j].0,
        ) implies i < j by {
        assert(0 <= at[i] < walk.len() && 0 <= at[j] < walk.len());
        lemma_parent_first(nodes, walk, at[i], at[j]);
        if j <= i {
            assert(at[j] <= at[i]);
        }
    }
}

impl ConcurrentRadixTreeCompressed {
    /// The nodes of the tree, from the root down, with the hashes above them.
    fn walk(&self) -> (walk: Vec<Step>)
        requires
            self.wf(),
        ensures
            goes_down(self@, walk@),
            forall|j: int|
                0 <= j < walk@.len() ==> children_passed(
                    self@,
                    walk@,
                    (#[trigger] walk@[j]).0 as int,
                ),
    {
        let ghost nodes = self@;
        let mut walk: Vec<Step> = Vec::new();
        walk.push((0, None));
        let mut i: usize = 0;
        proof {
            self.wf_model();
        }
        while i < walk.len()
            invariant
                self.wf(),
                nodes == self@,
                tree_wf(nodes),
                i <= walk@.len(),
                goes_down(nodes, walk@),
                forall|j: int|
                    0 <= j < i ==> children_passed(nodes, walk@, (#[trigger] walk@[j]).0 as int),
                forall|j: int, m: int|
                    0 < j < walk@.len() && #[trigger] comes_from(nodes, walk@, j, m) ==> m < i,
            decreases nodes.len() - i,
        {
            proof {
                lemma_walk_is_short(nodes, walk@);
            }
            let n = walk[i].0;
            assert(walk@[i as int].0 < nodes.len());
            let tail = if self.edge_of(n).len() == 0 {
                None
            } else {
                Some(self.edge_of(n)[self.edge_of(n).len() - 1].1)
            };
            assert(tail == tail_hash(nodes, n as int));
            let keys = self.child_keys(n);
            let ghost before = walk@;
            for k in 0..keys.len()
                invariant
                    self.wf(),
                    nodes == self@,
                    tree_wf(nodes),
                    i < before.len(),
                    n == before[i as int].0,
                    n < nodes.len(),
                    tail == tail_hash(nodes, n as int),
                    keys@.no_duplicates(),
                    keys@.to_set() == nodes[n as int].children.dom(),
                    goes_down(nodes, before),
                    forall|j: int, m: int|
                        0 < j < before.len() && #[trigger] comes_from(nodes, before, j, m) ==> m
                            < i,
                    goes_down(nodes, walk@),
                    walk@.len() == before.len() + k,
                    forall|j: int| 0 <= j < before.len() ==> walk@[j] == #[trigger] before[j],
                    forall|j: int|
                        0 <= j < k ==> (#[trigger] walk@[before.len() + j]).0
                            == nodes[n as int].children[keys@[j]],
            {
                let key = keys[k];
                assert(keys@.to_set().contains(keys@[k as int]));
                assert(has_child(nodes, n as int, key));
                assert(child_wf(nodes, n as int, key));
                let ghost shorter = walk@;
                if let Some(child) = self.child(n, key) {
                    walk.push((child, tail));
                }
                proof {
                    let c = nodes[n as int].children[key];
                    assert(walk@ == shorter.push((c, tail)));
                    assert(hangs_below(nodes, n as int, c as int));
                    assert(!passed(shorter, c as int)) by {
                        if passed(shorter, c as int) {
                            let t = choose|t: int|
                                0 <= t < shorter.len() && (#[trigger] shorter[t]).0 == c as int;
                            assert(shorter[t].0 == c);
                            assert(t != 0);
                            if t < before.len() {
                                assert(before[t] == shorter[t]);
                                assert(before[t].0 == c);
                                lemma_parent_first(nodes, before, i as int, t);
                                assert(comes_down(nodes, before, t));
                                let m = choose|m: int| #[trigger] comes_from(nodes, before, t, m);
                                assert(comes_from(nodes, before, t, m));
                                assert(m < i);
                                let q = before[m].0 as int;
                                let l = choose|l: u64| #[trigger]
                                    has_child(nodes, q, l) && nodes[q].children[l] == c;
                                assert(has_child(nodes, q, l) && has_child(nodes, n as int, key));
                                assert(before[m].0 != before[i as int].0);
                            } else {
                                let u = t - before.len();
                                assert(shorter[before.len() + u].0
                                    == nodes[n as int].children[keys@[u]]);
                                assert(keys@.to_set().contains(keys@[u]));
                                assert(has_child(nodes, n as int, keys@[u]));
                                assert(keys@[u] == key);
                            }
                        }
                    }
                    lemma_step_down(nodes, shorter, i as int, (c, tail));
                }
            }
            proof {
                assert forall|j: int| 0 <= j < i + 1 implies children_passed(
                    nodes,
                    walk@,
                    (#[trigger] walk@[j]).0 as int,
                ) by {
                    assert(walk@[j] == before[j]);
                    assert forall|key: u64| #[trigger]
                        has_child(nodes, walk@[j].0 as int, key) implies passed(
                        walk@,
                        nodes[walk@[j].0 as int].children[key] as int,
                    ) by {
                        let c = nodes[walk@[j].0 as int].children[key];
                        if j < i {
                            assert(children_passed(nodes, before, before[j].0 as int));
                            let t = choose|t: int|
                                0 <= t < before.len() && (#[trigger] before[t]).0 == c as int;
                            assert(walk@[t].0 == c);
                        } else {
                            assert(keys@.to_set().contains(key));
                            let t = choose|t: int| 0 <= t < keys@.len() && keys@[t] == key;
                            assert(walk@[before.len() + t].0 == c);
                        }
                    }
                }
                assert forall|j: int, m: int|
                    0 < j < walk@.len() && #[trigger] comes_from(nodes, walk@, j, m) implies m < i
                    + 1 by {
                    if j < before.len() {
                        assert(walk@[j] == before[j] && walk@[m] == before[m]);
                        assert(comes_from(nodes, before, j, m));
                    } else {
                        let u = j - before.len();
                        assert(walk@[before.len() + u].0 == nodes[n as int].children[keys@[u]]);
                        assert(keys@.to_set().contains(keys@[u]));
                        assert(has_child(nodes, n as int, keys@[u]));
                        let q = walk@[m].0 as int;
                        let l = choose|l: u64| #[trigger]
                            has_child(nodes, q, l) && nodes[q].children[l] == walk@[j].0;
                        assert(has_child(nodes, q, l) && has_child(nodes, n as int, keys@[u]));
                        assert(q == n);
                        assert(walk@[i as int] == before[i as int]);
                        if m > i {
                            assert(walk@[i as int].0 != walk@[m].0);
                        }
                    }
                }
            }
            i = i + 1;
        }
        walk
    }

    /// The events that recreate the tree.
    pub fn dump_tree_as_events(&self) -> (events: Vec<RouterEvent>)
        requires
            self.wf(),
        ensures
            exists|order: Seq<(int, (u64, u32))>| #[trigger]
                dumped_in(self@, router_events_view(events@), order),
    {
        let ghost nodes = self@;
        proof {
            self.wf_model();
        }
        let walk = self.walk();
        let mut events: Vec<RouterEvent> = Vec::new();
        let mut event_id: u64 = 0;
        let ghost mut order: Seq<(int, (u64, u32))> = Seq::empty();
        let ghost mut at: Seq<int> = Seq::empty();
        for i in 0..walk.len()
            invariant
                self.wf(),
                nodes == self@,
                tree_wf(nodes),
                goes_down(nodes, walk@),
                event_id == events@.len(),
                recreated_so_far(nodes, walk@, i as int, router_events_view(events@), order, at),
        {
            let n = walk[i].0;
            assert(walk@[i as int].0 < nodes.len());
            let ghost before = router_events_view(events@);
            let (full_workers, worker_cutoffs) = self.holders_at(n);
            let edge = self.edge_of(n);
            proof {
                assert forall|j: int| 0 <= j < worker_cutoffs@.len() implies (
                #[trigger] worker_cutoffs@[j]).1 <= edge@.len() by {
                    let w = worker_cutoffs@[j].0.spec_key();
                    assert(nodes[n as int].cover.dom().contains(w));
                    lemma_cutoff_bounded(
                        nodes,
                        n as int,
                        w,
                    );
                }
            }
            append_dump_events(
                &mut events,
                &mut event_id,
                walk[i].1,
                edge.as_slice(),
                full_workers.as_slice(),
                worker_cutoffs.as_slice(),
            );
            proof {
                let added = holder_keys(full_workers@, worker_cutoffs@);
                let more = edge_events(
                    before.len() as u64,
                    walk@[i as int].1,
                    edge@,
                    full_workers@,
                    worker_cutoffs@,
                );
                assert(events.len() == events@.len());
                assert(router_events_view(events@) == before + more);
                lemma_node_dumped(
                    nodes,
                    walk@,
                    i as int,
                    before,
                    order,
                    at,
                    full_workers@,
                    worker_cutoffs@,
                );
                order = order + added.map_values(|w: (u64, u32)| (n as int, w));
                at = at + added.map_values(|w: (u64, u32)| i as int);
            }
        }
        proof {
            lemma_all_dumped(nodes, walk@, router_events_view(events@), order, at);
        }
        events
    }

    fn holders_at(&self, node: usize) -> (r: (
        Vec<WorkerWithDpRank>,
        Vec<(WorkerWithDpRank, usize)>,
    ))
        requires
            self.wf(),
            node < self@.len(),
        ensures
            holders_of(node_of(self@, node as int), r.0@, r.1@),
    {
        assert(self.nodes@[node as int].state.wf());
        assert(self@[node as int] == self.nodes@[node as int].model());
        self.nodes[node].state.holders()
    }
}

/// Whether events recreate the nodes before a place of a walk; `at` tells for each
/// event the place of its node.
spec fn recreated_so_far(
    nodes: Seq<TreeNodeView>,
    walk: Seq<Step>,
    upto: int,
    events: Seq<RouterEventView>,
    order: Seq<(int, (u64, u32))>,
    at: Seq<int>,
) -> bool {
    &&& order.len() == events.len()
    &&& at.len() == events.len()
    &&& order.no_duplicates()
    &&& forall|i: int|
        0 <= i < events.len() ==> recreates(
            nodes,
            #[trigger] events[i],
            order[i].0,
            order[i].1,
        ) && events[i].event_id == i
    &&& forall|i: int|
        0 <= i < at.len() ==> 0 <= #[trigger] at[i] < upto && walk[at[i]].0 == order[i].0
    &&& forall|i: int, j: int| 0 <= i <= j < at.len() ==> #[trigger] at[i] <= #[trigger] at[j]
    &&& forall|j: int, w: (u64, u32)|
        0 <= j < upto && #[trigger] nodes[walk[j].0 as int].cover.dom().contains(w)
            ==> order.contains((walk[j].0 as int, w))
}

} // verus!
