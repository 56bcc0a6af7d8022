//! What a compressed radix tree says of workers and block sequences.

use vstd::prelude::*;

use crate::indexer::compressed_radix::{cutoff_of, node_view_wf, EdgeBlock, NodeView};
use crate::protocols::LocalBlockHash;

verus! {

/// Model of a tree node.
pub struct TreeNodeView {
    /// The blocks between the parent and this node.
    pub edge: Seq<EdgeBlock>,
    /// How many leading blocks of the edge each worker holds.
    pub cover: Map<(u64, u32), nat>,
    /// The children, by the local hash of their first block.
    pub children: Map<u64, usize>,
    /// Whether the node has or ever had a child.
    pub internal: bool,
    /// Number of blocks between the root and this node's edge.
    pub start: nat,
}

/// The local hashes of an edge.
pub open spec fn local_hashes(edge: Seq<EdgeBlock>) -> Seq<LocalBlockHash> {
    edge.map_values(|b: EdgeBlock| b.0)
}

/// Whether the entry of a node for a key leads to a proper child: one whose edge
/// starts with the key and right below the node.
pub open spec fn child_wf(nodes: Seq<TreeNodeView>, i: int, key: u64) -> bool {
    let c = nodes[i].children[key] as int;
    &&& 0 < c < nodes.len()
    &&& nodes[c].edge[0].0.0 == key
    &&& nodes[c].start == nodes[i].start + nodes[i].edge.len()
    &&& nodes[i].internal
}

/// Whether two entries that lead to one node are the same entry.
pub open spec fn parents_unique(nodes: Seq<TreeNodeView>) -> bool {
    forall|i: int, k: u64, j: int, l: u64|
        0 <= i < nodes.len() && 0 <= j < nodes.len() && #[trigger] has_child(nodes, i, k)
            && #[trigger] has_child(nodes, j, l) && nodes[i].children[k] == nodes[j].children[l]
            ==> i == j && k == l
}

/// Whether a node has a child for a key.
pub open spec fn has_child(nodes: Seq<TreeNodeView>, i: int, key: u64) -> bool {
    nodes[i].children.dom().contains(key)
}

/// What always holds of a tree: node 0 is the root and has no edge, all other
/// nodes have one, coverages make sense, children hang right below their
/// parent, and no node has two parents.
pub open spec fn tree_wf(nodes: Seq<TreeNodeView>) -> bool {
    &&& nodes.len() > 0
    &&& nodes[0].edge.len() == 0
    &&& nodes[0].start == 0
    &&& nodes[0].internal
    &&& forall|i: int| 0 < i < nodes.len() ==> (#[trigger] nodes[i]).edge.len() > 0
    &&& forall|i: int|
        0 <= i < nodes.len() ==> node_view_wf(
            NodeView { edge: (#[trigger] nodes[i]).edge, cover: nodes[i].cover },
        )
    &&& forall|i: int, k: u64|
        0 <= i < nodes.len() && #[trigger] has_child(nodes, i, k) ==> child_wf(nodes, i, k)
    &&& parents_unique(nodes)
}

/// Whether a place is idle: its node has no parent, no children and no holders.
pub open spec fn idle(nodes: Seq<TreeNodeView>, c: int) -> bool {
    &&& 0 < c < nodes.len()
    &&& nodes[c].cover == Map::<(u64, u32), nat>::empty()
    &&& nodes[c].children == Map::<u64, usize>::empty()
    &&& forall|p: int, k: u64|
        0 <= p < nodes.len() && #[trigger] has_child(nodes, p, k) ==> nodes[p].children[k] != c
}

/// Whether a new node can have a place: an idle one, or the next.
pub open spec fn vacant(nodes: Seq<TreeNodeView>, c: int) -> bool {
    idle(nodes, c) || c == nodes.len()
}

/// The nodes with another node in a place, be it the next place.
pub open spec fn placed(nodes: Seq<TreeNodeView>, c: int, node: TreeNodeView) -> Seq<TreeNodeView> {
    if c < nodes.len() {
        nodes.update(c, node)
    } else {
        nodes.push(node)
    }
}

/// Where a sequence of local hashes leads from the end of a node's edge: the
/// node and the position on its edge of the last block of the sequence.
pub open spec fn locate(nodes: Seq<TreeNodeView>, from: int, path: Seq<LocalBlockHash>) -> Option<
    (int, int),
>
    decreases path.len(),
{
    if path.len() == 0 || !has_child(nodes, from, path[0].0) {
        None
    } else {
        let c = nodes[from].children[path[0].0] as int;
        let e = local_hashes(nodes[c].edge);
        if path.len() <= e.len() {
            if e.take(path.len() as int) == path {
                Some((c, path.len() - 1))
            } else {
                None
            }
        } else if e.len() > 0 && path.take(e.len() as int) == e {
            locate(nodes, c, path.skip(e.len() as int))
        } else {
            None
        }
    }
}

/// Whether a worker holds the last block of a sequence.
pub open spec fn holds(
    nodes: Seq<TreeNodeView>,
    worker: (u64, u32),
    path: Seq<LocalBlockHash>,
) -> bool {
    locate(nodes, 0, path) matches Some((n, pos)) && pos < cutoff_of(nodes[n].cover, worker)
}

/// Whether a worker holds the first `len` blocks of a sequence, every one of
/// them.
pub open spec fn holds_prefix(
    nodes: Seq<TreeNodeView>,
    worker: (u64, u32),
    path: Seq<LocalBlockHash>,
    len: int,
) -> bool {
    forall|k: int| 1 <= k <= len ==> holds(nodes, worker, #[trigger] path.take(k))
}

/// Whether `score` is the number of leading blocks of a query that a worker
/// holds.
pub open spec fn is_score(
    nodes: Seq<TreeNodeView>,
    worker: (u64, u32),
    query: Seq<LocalBlockHash>,
    score: int,
) -> bool {
    &&& 0 <= score <= query.len()
    &&& holds_prefix(nodes, worker, query, score)
    &&& score == query.len() || !holds(nodes, worker, query.take(score + 1))
}

/// A worker has one score for a query.
pub proof fn score_is_unique(
    nodes: Seq<TreeNodeView>,
    worker: (u64, u32),
    query: Seq<LocalBlockHash>,
    a: int,
    b: int,
)
    requires
        is_score(nodes, worker, query, a),
        is_score(nodes, worker, query, b),
    ensures
        a == b,
{
    if a < b {
        assert(holds(nodes, worker, query.take(a + 1)));
    } else if b < a {
        assert(holds(nodes, worker, query.take(b + 1)));
    }
}

/// No worker's coverage is longer than the edge.
pub proof fn lemma_cutoff_bounded(nodes: Seq<TreeNodeView>, n: int, worker: (u64, u32))
    requires
        tree_wf(nodes),
        0 <= n < nodes.len(),
    ensures
        cutoff_of(nodes[n].cover, worker) <= nodes[n].edge.len(),
        nodes[n].cover.dom().contains(worker) ==> cutoff_of(nodes[n].cover, worker) > 0,
{
    let view = NodeView { edge: nodes[n].edge, cover: nodes[n].cover };
    assert(node_view_wf(view));
    assert(view.cover.dom().contains(worker) ==> 0 < view.cover[worker] <= view.edge.len());
}

/// Where a sequence leads, its node is not the root and its position is on the
/// node's edge and spells the sequence's last hash.
pub proof fn lemma_locate_valid(nodes: Seq<TreeNodeView>, from: int, path: Seq<LocalBlockHash>)
    requires
        tree_wf(nodes),
        0 <= from < nodes.len(),
        locate(nodes, from, path) is Some,
    ensures
        ({
            let (n, pos) = locate(nodes, from, path)->0;
            &&& 0 < n < nodes.len()
            &&& 0 <= pos < nodes[n].edge.len()
            &&& nodes[n].edge[pos].0 == path.last()
            &&& nodes[n].start + pos + 1 == nodes[from].start + nodes[from].edge.len() + path.len()
        }),
    decreases path.len(),
{
    let c = nodes[from].children[path[0].0] as int;
    assert(child_wf(nodes, from, path[0].0));
    let e = local_hashes(nodes[c].edge);
    if path.len() <= e.len() {
        assert(e.take(path.len() as int)[path.len() - 1] == path.last());
    } else {
        lemma_locate_valid(nodes, c, path.skip(e.len() as int));
    }
}

/// No sequence leads to a vacant place.
pub proof fn lemma_located_elsewhere(
    nodes: Seq<TreeNodeView>,
    from: int,
    path: Seq<LocalBlockHash>,
    c: int,
)
    requires
        tree_wf(nodes),
        vacant(nodes, c),
        0 <= from < nodes.len(),
    ensures
        locate(nodes, from, path) matches Some((n, _)) ==> n != c,
    decreases path.len(),
{
    if path.len() > 0 && has_child(nodes, from, path[0].0) {
        assert(child_wf(nodes, from, path[0].0));
        let d = nodes[from].children[path[0].0] as int;
        let e = local_hashes(nodes[d].edge);
        if path.len() > e.len() {
            lemma_located_elsewhere(nodes, d, path.skip(e.len() as int), c);
        }
    }
}

/// A place stays idle where the children of all nodes stay and its own holders do not
/// come back.
pub proof fn lemma_idle_kept(x: Seq<TreeNodeView>, y: Seq<TreeNodeView>, c: int)
    requires
        idle(x, c),
        x.len() == y.len(),
        forall|i: int| 0 <= i < x.len() ==> (#[trigger] y[i]).children == x[i].children,
        y[c].cover == Map::<(u64, u32), nat>::empty(),
    ensures
        idle(y, c),
{
    assert forall|p: int, k: u64| 0 <= p < y.len() && #[trigger] has_child(y, p, k) implies y[p].children[k]
        != c by {
        assert(y[p].children == x[p].children);
        assert(has_child(x, p, k));
    }
}

/// From a sequence that ends at the end of a node's edge, a longer sequence goes
/// on where that node's children lead.
pub proof fn lemma_locate_compose(
    nodes: Seq<TreeNodeView>,
    from: int,
    head: Seq<LocalBlockHash>,
    tail: Seq<LocalBlockHash>,
)
    requires
        tree_wf(nodes),
        0 <= from < nodes.len(),
        tail.len() > 0,
        locate(nodes, from, head) matches Some((n, pos)) && pos == nodes[n].edge.len() - 1,
    ensures
        locate(nodes, from, head + tail) == locate(
            nodes,
            (locate(nodes, from, head)->0).0,
            tail,
        ),
    decreases head.len(),
{
    let c = nodes[from].children[head[0].0] as int;
    assert(child_wf(nodes, from, head[0].0));
    let e = local_hashes(nodes[c].edge);
    let whole = head + tail;
    assert(whole[0] == head[0]);
    if head.len() <= e.len() {
        assert(head.len() == e.len());
        assert(e.take(e.len() as int) =~= e);
        assert(whole.take(e.len() as int) =~= head);
        assert(whole.skip(e.len() as int) =~= tail);
    } else {
        lemma_locate_compose(nodes, c, head.skip(e.len() as int), tail);
        assert(whole.take(e.len() as int) =~= head.take(e.len() as int));
        assert(whole.skip(e.len() as int) =~= head.skip(e.len() as int) + tail);
    }
}

/// Along an edge a sequence stays on it.
pub proof fn lemma_locate_on_edge(
    nodes: Seq<TreeNodeView>,
    from: int,
    key: u64,
    path: Seq<LocalBlockHash>,
)
    requires
        tree_wf(nodes),
        0 <= from < nodes.len(),
        has_child(nodes, from, key),
        0 < path.len() <= nodes[nodes[from].children[key] as int].edge.len(),
        path[0].0 == key,
    ensures
        locate(nodes, from, path) == (if local_hashes(
            nodes[nodes[from].children[key] as int].edge,
        ).take(path.len() as int) == path {
            Some((nodes[from].children[key] as int, path.len() - 1))
        } else {
            None
        }),
{
}

/// Two sequences that lead to the same block are the same.
pub proof fn lemma_locate_injective(
    nodes: Seq<TreeNodeView>,
    a: Seq<LocalBlockHash>,
    b: Seq<LocalBlockHash>,
)
    requires
        tree_wf(nodes),
        locate(nodes, 0, a) is Some,
        locate(nodes, 0, a) == locate(nodes, 0, b),
    ensures
        a == b,
{
    lemma_locate_valid(nodes, 0, a);
    lemma_locate_valid(nodes, 0, b);
    lemma_locate_injective_from(nodes, 0, 0, a, b);
}

/// Two ways down that end at the same block and are equally long start at the
/// same node.
proof fn lemma_locate_injective_from(
    nodes: Seq<TreeNodeView>,
    from_a: int,
    from_b: int,
    a: Seq<LocalBlockHash>,
    b: Seq<LocalBlockHash>,
)
    requires
        tree_wf(nodes),
        0 <= from_a < nodes.len(),
        0 <= from_b < nodes.len(),
        locate(nodes, from_a, a) is Some,
        locate(nodes, from_a, a) == locate(nodes, from_b, b),
        a.len() == b.len(),
        from_a == from_b || (from_a != 0 && from_b != 0),
    ensures
        from_a == from_b,
        a == b,
    decreases a.len(),
{
    // Cut both at the last node boundary by walking from the end: the last edge
    // is the same, its parent is unique, and what is left is shorter.
    lemma_locate_valid(nodes, from_a, a);
    lemma_locate_valid(nodes, from_b, b);
    let (n, pos) = locate(nodes, from_a, a)->0;
    lemma_last_step(nodes, from_a, a);
    lemma_last_step(nodes, from_b, b);
    let split = a.len() - (pos + 1);
    let ka = a[split].0;
    let kb = b[split].0;
    if split == 0 {
        assert(has_child(nodes, from_a, ka) && has_child(nodes, from_b, kb));
        assert(nodes[from_a].children[ka] == nodes[from_b].children[kb]);
        assert(a =~= local_hashes(nodes[n].edge).take(pos + 1));
        assert(b =~= local_hashes(nodes[n].edge).take(pos + 1));
    } else {
        let (pa, _) = locate(nodes, from_a, a.take(split))->0;
        let (pb, _) = locate(nodes, from_b, b.take(split))->0;
        assert(has_child(nodes, pa, ka) && has_child(nodes, pb, kb));
        lemma_locate_valid(nodes, from_a, a.take(split));
        lemma_locate_valid(nodes, from_b, b.take(split));
        assert(nodes[pa].children[ka] == nodes[pb].children[kb]);
        assert(pa == pb);
        lemma_locate_injective_from(nodes, from_a, from_b, a.take(split), b.take(split));
        assert(a =~= a.take(split) + a.skip(split));
        assert(b =~= b.take(split) + b.skip(split));
        assert(a.skip(split) =~= local_hashes(nodes[n].edge).take(pos + 1));
        assert(b.skip(split) =~= local_hashes(nodes[n].edge).take(pos + 1));
    }
}

/// The last edge of a way down: what is before it leads to the end of the
/// parent's edge, and the rest spells the start of the node's edge.
pub proof fn lemma_last_step(nodes: Seq<TreeNodeView>, from: int, path: Seq<LocalBlockHash>)
    requires
        tree_wf(nodes),
        0 <= from < nodes.len(),
        locate(nodes, from, path) is Some,
    ensures
        ({
            let (n, pos) = locate(nodes, from, path)->0;
            let split = path.len() - (pos + 1);
            &&& 0 <= split < path.len()
            &&& path.skip(split) == local_hashes(nodes[n].edge).take(pos + 1)
            &&& split == 0 ==> has_child(nodes, from, path[0].0)
                && nodes[from].children[path[0].0] == n
            &&& split > 0 ==> {
                &&& locate(nodes, from, path.take(split)) is Some
                &&& ({
                    let (p, at) = locate(nodes, from, path.take(split))->0;
                    &&& at == nodes[p].edge.len() - 1
                    &&& has_child(nodes, p, path[split].0)
                    &&& nodes[p].children[path[split].0] == n
                })
            }
        }),
    decreases path.len(),
{
    let c = nodes[from].children[path[0].0] as int;
    assert(child_wf(nodes, from, path[0].0));
    let e = local_hashes(nodes[c].edge);
    let (n, pos) = locate(nodes, from, path)->0;
    lemma_locate_valid(nodes, from, path);
    if path.len() <= e.len() {
        assert(path.skip(0) =~= path);
    } else {
        let rest = path.skip(e.len() as int);
        lemma_locate_valid(nodes, c, rest);
        lemma_last_step(nodes, c, rest);
        let split = path.len() - (pos + 1);
        let rest_split = rest.len() - (pos + 1);
        assert(split == rest_split + e.len());
        assert(path.skip(split) =~= rest.skip(rest_split));
        if rest_split == 0 {
            assert(path.take(split) =~= e);
            assert(e.take(e.len() as int) =~= e);
            assert(path.take(split)[0] == path[0]);
            assert(path[split] == rest[0]);
        } else {
            let head = path.take(split);
            assert(head.take(e.len() as int) =~= path.take(e.len() as int));
            assert(head.skip(e.len() as int) =~= rest.take(rest_split));
            assert(head[0] == path[0]);
            assert(path[split] == rest[rest_split]);
        }
    }
}

} // verus!
