//! How the shape of a tree changes while blocks are stored, and what that does
//! to what the workers hold.

use vstd::prelude::*;

use crate::indexer::compressed_radix::{
    cutoff_of, edge_hashes, head_cover, node_view_wf, tail_cover, EdgeBlock, NodeView,
};
use crate::indexer::concurrent_radix_tree_compressed::model::{
    child_wf, has_child, holds, lemma_cutoff_bounded, lemma_last_step, lemma_locate_compose,
    lemma_locate_injective, lemma_locate_on_edge, lemma_locate_valid, lemma_located_elsewhere,
    local_hashes, locate, parents_unique, placed, tree_wf, vacant, TreeNodeView,
};
use crate::protocols::{ExternalSequenceBlockHash, LocalBlockHash};

verus! {

/// The tree with another coverage of one node.
pub open spec fn with_cover(
    nodes: Seq<TreeNodeView>,
    n: int,
    cover: Map<(u64, u32), nat>,
) -> Seq<TreeNodeView> {
    nodes.update(n, TreeNodeView { cover, ..nodes[n] })
}

/// The tree with a leaf's edge made longer.
pub open spec fn appended(
    nodes: Seq<TreeNodeView>,
    n: int,
    blocks: Seq<EdgeBlock>,
    cover: Map<(u64, u32), nat>,
) -> Seq<TreeNodeView> {
    nodes.update(n, TreeNodeView { edge: nodes[n].edge + blocks, cover, ..nodes[n] })
}

/// The tree with one more leaf below a node, in some place.
pub open spec fn with_child(
    nodes: Seq<TreeNodeView>,
    p: int,
    leaf: int,
    edge: Seq<EdgeBlock>,
    cover: Map<(u64, u32), nat>,
) -> Seq<TreeNodeView> {
    placed(
        nodes.update(
            p,
            TreeNodeView {
                children: nodes[p].children.insert(edge[0].0.0, leaf as usize),
                internal: true,
                ..nodes[p]
            },
        ),
        leaf,
        TreeNodeView {
            edge,
            cover,
            children: Map::empty(),
            internal: false,
            start: nodes[p].start + nodes[p].edge.len(),
        },
    )
}

/// The tree with a node cut in two: the node keeps the first blocks of its edge,
/// and a new node below it, in some place, gets the others and the children.
pub open spec fn split_at(nodes: Seq<TreeNodeView>, n: int, at: int, rest: int) -> Seq<
    TreeNodeView,
> {
    placed(
        nodes.update(
            n,
            TreeNodeView {
                edge: nodes[n].edge.take(at),
                cover: head_cover(nodes[n].cover, at as nat),
                children: Map::<u64, usize>::empty().insert(nodes[n].edge[at].0.0, rest as usize),
                internal: true,
                start: nodes[n].start,
            },
        ),
        rest,
        TreeNodeView {
            edge: nodes[n].edge.skip(at),
            cover: tail_cover(nodes[n].cover, at as nat),
            children: nodes[n].children,
            internal: nodes[n].internal,
            start: nodes[n].start + at as nat,
        },
    )
}

/// Whether a sequence is one of the prefixes of a path that are longer than `a`
/// and no longer than `b`.
pub open spec fn added(
    path: Seq<LocalBlockHash>,
    a: int,
    b: int,
    q: Seq<LocalBlockHash>,
) -> bool {
    exists|k: int| a < k <= b && q == #[trigger] path.take(k)
}

/// Whether a worker holds the prefixes of a path between `a` and `b` besides what
/// it held before, and nothing else changed for anyone.
pub open spec fn grown(
    before: Seq<TreeNodeView>,
    after: Seq<TreeNodeView>,
    worker: (u64, u32),
    path: Seq<LocalBlockHash>,
    a: int,
    b: int,
) -> bool {
    forall|v: (u64, u32), q: Seq<LocalBlockHash>| #[trigger]
        holds(after, v, q) <==> holds(before, v, q) || (v == worker && added(path, a, b, q))
}

/// The hash of the block that a sequence leads to.
pub open spec fn block_at(nodes: Seq<TreeNodeView>, q: Seq<LocalBlockHash>) -> Option<
    ExternalSequenceBlockHash,
> {
    match locate(nodes, 0, q) {
        Some((n, pos)) => Some(nodes[n].edge[pos].1),
        None => None,
    }
}

/// Whether the blocks that the tree had keep their hashes, and the only new blocks
/// are those along a path between `a` and `b` that were not there yet. They have
/// the hashes given for the blocks of the path from `base` on.
pub open spec fn named(
    before: Seq<TreeNodeView>,
    after: Seq<TreeNodeView>,
    path: Seq<LocalBlockHash>,
    a: int,
    b: int,
    base: int,
    hashes: Seq<ExternalSequenceBlockHash>,
) -> bool {
    forall|q: Seq<LocalBlockHash>| #[trigger]
        block_at(after, q) == if block_at(before, q) is None && added(path, a, b, q) {
            Some(hashes[q.len() - 1 - base])
        } else {
            block_at(before, q)
        }
}

/// Naming blocks along a path in two steps is naming them in one.
pub proof fn lemma_named_twice(
    x: Seq<TreeNodeView>,
    y: Seq<TreeNodeView>,
    z: Seq<TreeNodeView>,
    path: Seq<LocalBlockHash>,
    a: int,
    b: int,
    c: int,
    base: int,
    hashes: Seq<ExternalSequenceBlockHash>,
)
    requires
        a <= b <= c,
        named(x, y, path, a, b, base, hashes),
        named(y, z, path, b, c, base, hashes),
    ensures
        named(x, z, path, a, c, base, hashes),
{
    assert forall|q: Seq<LocalBlockHash>| #[trigger]
        block_at(z, q) == if block_at(x, q) is None && added(path, a, c, q) {
            Some(hashes[q.len() - 1 - base])
        } else {
            block_at(x, q)
        } by {
        let y_at = block_at(y, q);
        if added(path, a, b, q) {
            let k = choose|k: int| a < k <= b && q == #[trigger] path.take(k);
            assert(a < k <= c && q == path.take(k));
        }
        if added(path, b, c, q) {
            let k = choose|k: int| b < k <= c && q == #[trigger] path.take(k);
            assert(a < k <= c && q == path.take(k));
        }
        if added(path, a, c, q) {
            let k = choose|k: int| a < k <= c && q == #[trigger] path.take(k);
            if k <= b {
                assert(a < k <= b && q == path.take(k));
            } else {
                assert(b < k <= c && q == path.take(k));
            }
        }
    }
}

/// Where all blocks of a path are there already, keeping all blocks names them.
pub proof fn lemma_named_kept(
    x: Seq<TreeNodeView>,
    y: Seq<TreeNodeView>,
    path: Seq<LocalBlockHash>,
    a: int,
    b: int,
    base: int,
    hashes: Seq<ExternalSequenceBlockHash>,
)
    requires
        forall|q: Seq<LocalBlockHash>| #[trigger] block_at(y, q) == block_at(x, q),
        forall|k: int| a < k <= b ==> locate(x, 0, #[trigger] path.take(k)) is Some,
    ensures
        named(x, y, path, a, b, base, hashes),
{
    assert forall|q: Seq<LocalBlockHash>| #[trigger]
        block_at(y, q) == if block_at(x, q) is None && added(path, a, b, q) {
            Some(hashes[q.len() - 1 - base])
        } else {
            block_at(x, q)
        } by {
        if added(path, a, b, q) {
            let k = choose|k: int| a < k <= b && q == #[trigger] path.take(k);
            assert(locate(x, 0, path.take(k)) is Some);
        }
    }
}

/// Growing along a path in two steps is growing along it in one.
pub proof fn lemma_grown_twice(
    x: Seq<TreeNodeView>,
    y: Seq<TreeNodeView>,
    z: Seq<TreeNodeView>,
    worker: (u64, u32),
    path: Seq<LocalBlockHash>,
    a: int,
    b: int,
    c: int,
)
    requires
        a <= b <= c,
        grown(x, y, worker, path, a, b),
        grown(y, z, worker, path, b, c),
    ensures
        grown(x, z, worker, path, a, c),
{
    assert forall|v: (u64, u32), q: Seq<LocalBlockHash>| #[trigger]
        holds(z, v, q) <==> holds(x, v, q) || (v == worker && added(path, a, c, q)) by {
        assert(holds(y, v, q) <==> holds(x, v, q) || (v == worker && added(path, a, b, q)));
        if added(path, a, b, q) {
            let k = choose|k: int| a < k <= b && q == #[trigger] path.take(k);
            assert(a < k <= c && q == path.take(k));
        }
        if added(path, b, c, q) {
            let k = choose|k: int| b < k <= c && q == #[trigger] path.take(k);
            assert(a < k <= c && q == path.take(k));
        }
        if added(path, a, c, q) {
            let k = choose|k: int| a < k <= c && q == #[trigger] path.take(k);
            if k <= b {
                assert(a < k <= b && q == path.take(k));
            } else {
                assert(b < k <= c && q == path.take(k));
            }
        }
    }
}

/// Whether two trees have the same edges and the same children.
pub open spec fn same_shape(x: Seq<TreeNodeView>, y: Seq<TreeNodeView>) -> bool {
    &&& x.len() == y.len()
    &&& forall|i: int|
        0 <= i < x.len() ==> (#[trigger] y[i]).edge == x[i].edge && y[i].children == x[i].children
            && y[i].start == x[i].start && y[i].internal == x[i].internal
}

/// Coverage has no say in where a sequence leads.
pub proof fn lemma_same_shape(
    x: Seq<TreeNodeView>,
    y: Seq<TreeNodeView>,
    from: int,
    q: Seq<LocalBlockHash>,
)
    requires
        tree_wf(x),
        same_shape(x, y),
        0 <= from < x.len(),
    ensures
        locate(x, from, q) == locate(y, from, q),
    decreases q.len(),
{
    assert(y[from].children == x[from].children);
    if q.len() > 0 && has_child(x, from, q[0].0) {
        assert(child_wf(x, from, q[0].0));
        let c = x[from].children[q[0].0] as int;
        assert(y[c].edge == x[c].edge);
        let e = local_hashes(x[c].edge);
        if q.len() > e.len() {
            lemma_same_shape(x, y, c, q.skip(e.len() as int));
        }
    }
}

/// A tree of the same shape with sensible coverages is well-formed too.
pub proof fn lemma_same_shape_wf(x: Seq<TreeNodeView>, y: Seq<TreeNodeView>)
    requires
        tree_wf(x),
        same_shape(x, y),
        forall|i: int|
            0 <= i < y.len() ==> node_view_wf(
                NodeView { edge: (#[trigger] y[i]).edge, cover: y[i].cover },
            ),
    ensures
        tree_wf(y),
{
    assert(y[0].edge == x[0].edge);
    assert forall|i: int| 0 < i < y.len() implies (#[trigger] y[i]).edge.len() > 0 by {
        assert(x[i].edge.len() > 0);
    }
    assert forall|i: int, k: u64| 0 <= i < y.len() && #[trigger] has_child(y, i, k) implies child_wf(
        y,
        i,
        k,
    ) by {
        assert(y[i].children == x[i].children);
        assert(has_child(x, i, k));
        assert(child_wf(x, i, k));
        let c = x[i].children[k] as int;
        assert(y[c].edge == x[c].edge);
    }
    assert(parents_unique(y)) by {
        assert forall|i: int, k: u64, j: int, l: u64|
            0 <= i < y.len() && 0 <= j < y.len() && #[trigger] has_child(y, i, k)
                && #[trigger] has_child(y, j, l) && y[i].children[k] == y[j].children[l] implies i
            == j && k == l by {
            assert(y[i].children == x[i].children && y[j].children == x[j].children);
            assert(has_child(x, i, k) && has_child(x, j, l));
        }
    }
}

/// Raising a worker's coverage of a node that lies on a path adds the prefixes
/// that end there.
pub proof fn lemma_cover_grows(
    nodes: Seq<TreeNodeView>,
    n: int,
    worker: (u64, u32),
    cut: nat,
    path: Seq<LocalBlockHash>,
    a: int,
    b: int,
)
    requires
        tree_wf(nodes),
        0 < n < nodes.len(),
        0 < cut <= nodes[n].edge.len(),
        ({
            let was = cutoff_of(nodes[n].cover, worker);
            let start = nodes[n].start;
            &&& a <= b <= path.len()
            &&& start <= a <= start + was
            &&& b <= start + cut
            &&& cut == was || cut == b - start
            &&& cut >= was
            &&& forall|k: int|
                a < k <= b ==> locate(nodes, 0, #[trigger] path.take(k)) == Some(
                    (n, k - start - 1),
                )
        }),
    ensures
        tree_wf(with_cover(nodes, n, nodes[n].cover.insert(worker, cut))),
        same_shape(nodes, with_cover(nodes, n, nodes[n].cover.insert(worker, cut))),
        grown(
            nodes,
            with_cover(nodes, n, nodes[n].cover.insert(worker, cut)),
            worker,
            path,
            a,
            b,
        ),
{
    let cover = nodes[n].cover.insert(worker, cut);
    let after = with_cover(nodes, n, cover);
    let start = nodes[n].start;
    assert forall|i: int| 0 <= i < after.len() implies node_view_wf(
        NodeView { edge: (#[trigger] after[i]).edge, cover: after[i].cover },
    ) by {
        assert(node_view_wf(NodeView { edge: nodes[i].edge, cover: nodes[i].cover }));
        if i == n {
            assert forall|w: (u64, u32)| #[trigger] cover.dom().contains(w) implies 0 < cover[w]
                <= nodes[n].edge.len() by {
                if w != worker {
                    assert(nodes[n].cover.dom().contains(w));
                }
            }
        }
    }
    lemma_same_shape_wf(nodes, after);
    assert forall|v: (u64, u32), q: Seq<LocalBlockHash>| #[trigger]
        holds(after, v, q) <==> holds(nodes, v, q) || (v == worker && added(path, a, b, q)) by {
        lemma_same_shape(nodes, after, 0, q);
        let at = locate(nodes, 0, q);
        if at is Some {
            lemma_locate_valid(nodes, 0, q);
        }
        if added(path, a, b, q) {
            let k = choose|k: int| a < k <= b && q == #[trigger] path.take(k);
            assert(at == Some((n, k - start - 1)));
        }
        if v == worker && holds(after, v, q) && !holds(nodes, v, q) {
            let (m, pos) = at->0;
            assert(m == n);
            let k = start + pos + 1;
            assert(locate(nodes, 0, path.take(k)) == Some((n, k - start - 1)));
            lemma_locate_injective(nodes, q, path.take(k));
            assert(a < k <= b && q == path.take(k));
        }
        if holds(nodes, v, q) && (at->0).0 == n {
            assert(cutoff_of(cover, v) >= cutoff_of(nodes[n].cover, v));
        }
    }
}

/// Making a leaf's edge longer keeps where sequences lead, and only sequences
/// that reach the new part lead anywhere new.
proof fn lemma_appended_locate(
    nodes: Seq<TreeNodeView>,
    n: int,
    blocks: Seq<EdgeBlock>,
    cover: Map<(u64, u32), nat>,
    from: int,
    q: Seq<LocalBlockHash>,
)
    requires
        tree_wf(nodes),
        0 < n < nodes.len(),
        nodes[n].children == Map::<u64, usize>::empty(),
        0 <= from < nodes.len(),
    ensures
        ({
            let old_at = locate(nodes, from, q);
            let new_at = locate(appended(nodes, n, blocks, cover), from, q);
            &&& old_at is Some ==> new_at == old_at
            &&& new_at is Some && ((new_at->0).0 != n || (new_at->0).1 < nodes[n].edge.len())
                ==> old_at == new_at
        }),
    decreases q.len(),
{
    let after = appended(nodes, n, blocks, cover);
    assert(after[from].children == nodes[from].children);
    if q.len() > 0 && has_child(nodes, from, q[0].0) {
        assert(child_wf(nodes, from, q[0].0));
        let c = nodes[from].children[q[0].0] as int;
        let e = local_hashes(nodes[c].edge);
        let f = local_hashes(after[c].edge);
        if c == n {
            assert(f.take(e.len() as int) =~= e);
            if q.len() <= e.len() {
                assert(f.take(q.len() as int) =~= e.take(q.len() as int));
            } else {
                assert(locate(nodes, n, q.skip(e.len() as int)) is None);
                if q.len() > f.len() {
                    assert(locate(after, n, q.skip(f.len() as int)) is None);
                }
            }
        } else {
            if q.len() > e.len() {
                lemma_appended_locate(nodes, n, blocks, cover, c, q.skip(e.len() as int));
            }
        }
    }
}

/// A worker that holds a whole leaf and appends blocks to it holds the prefixes
/// that end with them.
pub proof fn lemma_append_grows(
    nodes: Seq<TreeNodeView>,
    n: int,
    worker: (u64, u32),
    blocks: Seq<EdgeBlock>,
    path: Seq<LocalBlockHash>,
    a: int,
)
    requires
        tree_wf(nodes),
        0 < n < nodes.len(),
        !nodes[n].internal,
        blocks.len() > 0,
        0 < a,
        a + blocks.len() <= path.len(),
        cutoff_of(nodes[n].cover, worker) == nodes[n].edge.len(),
        locate(nodes, 0, path.take(a)) == Some((n, nodes[n].edge.len() - 1)),
        local_hashes(blocks) == path.subrange(a, a + blocks.len()),
    ensures
        ({
            let cover = nodes[n].cover.insert(worker, nodes[n].edge.len() + blocks.len());
            let after = appended(nodes, n, blocks, cover);
            let b = a + blocks.len();
            &&& tree_wf(after)
            &&& grown(nodes, after, worker, path, a, b)
            &&& named(nodes, after, path, a, b, a, edge_hashes(blocks))
            &&& forall|k: int|
                a < k <= b ==> locate(after, 0, #[trigger] path.take(k)) == Some(
                    (n, nodes[n].edge.len() + k - a - 1),
                )
            &&& forall|q: Seq<LocalBlockHash>|
                locate(nodes, 0, q) is Some ==> #[trigger] locate(after, 0, q) == locate(
                    nodes,
                    0,
                    q,
                )
        }),
{
    let len = nodes[n].edge.len();
    let cover = nodes[n].cover.insert(worker, len + blocks.len());
    let after = appended(nodes, n, blocks, cover);
    let b = a + blocks.len();
    assert(nodes[n].children =~= Map::<u64, usize>::empty()) by {
        assert forall|k: u64| !nodes[n].children.dom().contains(k) by {
            if has_child(nodes, n, k) {
                assert(child_wf(nodes, n, k));
            }
        }
    }
    lemma_locate_valid(nodes, 0, path.take(a));
    // Well-formedness.
    assert forall|i: int| 0 <= i < after.len() implies node_view_wf(
        NodeView { edge: (#[trigger] after[i]).edge, cover: after[i].cover },
    ) by {
        assert(node_view_wf(NodeView { edge: nodes[i].edge, cover: nodes[i].cover }));
        if i == n {
            assert forall|w: (u64, u32)| #[trigger] cover.dom().contains(w) implies 0 < cover[w]
                <= after[n].edge.len() by {
                if w != worker {
                    assert(nodes[n].cover.dom().contains(w));
                }
            }
        }
    }
    assert forall|i: int, k: u64| 0 <= i < after.len() && #[trigger] has_child(
        after,
        i,
        k,
    ) implies child_wf(after, i, k) by {
        assert(has_child(nodes, i, k));
        assert(child_wf(nodes, i, k));
        assert(i != n);
        let c = nodes[i].children[k] as int;
        assert(after[c].edge[0] == nodes[c].edge[0]);
    }
    assert(parents_unique(after)) by {
        assert forall|i: int, k: u64, j: int, l: u64|
            0 <= i < after.len() && 0 <= j < after.len() && #[trigger] has_child(after, i, k)
                && #[trigger] has_child(after, j, l) && after[i].children[k]
                == after[j].children[l] implies i == j && k == l by {
            assert(has_child(nodes, i, k) && has_child(nodes, j, l));
        }
    }
    assert(tree_wf(after));
    // Where sequences lead.
    assert forall|q: Seq<LocalBlockHash>| locate(nodes, 0, q) is Some implies #[trigger] locate(
        after,
        0,
        q,
    ) == locate(nodes, 0, q) by {
        lemma_appended_locate(nodes, n, blocks, cover, 0, q);
    }
    assert forall|k: int| a < k <= b implies locate(after, 0, #[trigger] path.take(k)) == Some(
        (n, len + k - a - 1),
    ) by {
        lemma_path_onto_edge(nodes, after, n, blocks, path, a, k);
    }
    assert forall|q: Seq<LocalBlockHash>| #[trigger]
        block_at(after, q) == if block_at(nodes, q) is None && added(path, a, b, q) {
            Some(edge_hashes(blocks)[q.len() - 1 - a])
        } else {
            block_at(nodes, q)
        } by {
        lemma_appended_locate(nodes, n, blocks, cover, 0, q);
        let at = locate(after, 0, q);
        if locate(nodes, 0, q) is Some {
            lemma_locate_valid(nodes, 0, q);
        } else if at is Some {
            lemma_locate_valid(after, 0, q);
            let k = a + ((at->0).1 - len) + 1;
            assert(locate(after, 0, path.take(k)) == at);
            lemma_locate_injective(after, q, path.take(k));
            assert(a < k <= b && q == path.take(k));
        }
        if added(path, a, b, q) {
            let k = choose|k: int| a < k <= b && q == #[trigger] path.take(k);
            assert(at == Some((n, len + k - a - 1)));
        }
    }
    assert forall|v: (u64, u32), q: Seq<LocalBlockHash>| #[trigger]
        holds(after, v, q) <==> holds(nodes, v, q) || (v == worker && added(path, a, b, q)) by {
        lemma_appended_locate(nodes, n, blocks, cover, 0, q);
        let at = locate(after, 0, q);
        if at is Some {
            lemma_locate_valid(after, 0, q);
            let (m, pos) = at->0;
            if m == n && pos >= len {
                let k = a + (pos - len) + 1;
                assert(locate(after, 0, path.take(k)) == at);
                lemma_locate_injective(after, q, path.take(k));
                assert(a < k <= b && q == path.take(k));
                assert(v != worker ==> cutoff_of(cover, v) == cutoff_of(nodes[n].cover, v));
                lemma_cutoff_bounded(nodes, n, v);
            } else {
                assert(m != n ==> after[m] == nodes[m]);
                assert(locate(nodes, 0, q) == at);
            }
        }
        if added(path, a, b, q) {
            let k = choose|k: int| a < k <= b && q == #[trigger] path.take(k);
            assert(at == Some((n, len + k - a - 1)));
        }
    }
}

/// A path that reaches the end of an edge goes on along what was appended to
/// that edge.
proof fn lemma_path_onto_edge(
    nodes: Seq<TreeNodeView>,
    after: Seq<TreeNodeView>,
    n: int,
    blocks: Seq<EdgeBlock>,
    path: Seq<LocalBlockHash>,
    a: int,
    k: int,
)
    requires
        tree_wf(nodes),
        tree_wf(after),
        0 < n < nodes.len(),
        nodes.len() == after.len(),
        after[n].edge == nodes[n].edge + blocks,
        forall|i: int|
            0 <= i < nodes.len() && i != n ==> (#[trigger] after[i]).edge == nodes[i].edge,
        forall|i: int|
            0 <= i < nodes.len() ==> (#[trigger] after[i]).children == nodes[i].children,
        forall|q: Seq<LocalBlockHash>|
            locate(nodes, 0, q) is Some ==> #[trigger] locate(after, 0, q) == locate(nodes, 0, q),
        0 < a < k <= a + blocks.len() <= path.len(),
        locate(nodes, 0, path.take(a)) == Some((n, nodes[n].edge.len() - 1)),
        local_hashes(blocks) == path.subrange(a, a + blocks.len()),
    ensures
        locate(after, 0, path.take(k)) == Some((n, nodes[n].edge.len() + k - a - 1)),
{
    let head = path.take(a);
    let len = nodes[n].edge.len();
    lemma_locate_valid(nodes, 0, head);
    lemma_last_step(nodes, 0, head);
    let split = a - len;
    let tail = path.subrange(split, k);
    let key = head[split].0;
    let e = local_hashes(after[n].edge);
    assert(head.skip(split) =~= local_hashes(nodes[n].edge)) by {
        assert(local_hashes(nodes[n].edge).take(len as int) =~= local_hashes(nodes[n].edge));
    }
    assert(e.take(tail.len() as int) =~= tail) by {
        assert forall|i: int| 0 <= i < tail.len() implies e[i] == tail[i] by {
            if i < len {
                assert(head.skip(split)[i] == local_hashes(nodes[n].edge)[i]);
            } else {
                assert(local_hashes(blocks)[i - len] == path.subrange(a, a + blocks.len())[i
                    - len]);
            }
        }
    }
    assert(path.take(k) =~= path.take(split) + tail);
    if split == 0 {
        assert(path.take(split) + tail =~= tail);
        assert(has_child(after, 0, key));
        lemma_locate_on_edge(after, 0, key, tail);
    } else {
        assert(head.take(split) =~= path.take(split));
        let (p, at) = locate(nodes, 0, path.take(split))->0;
        lemma_locate_valid(nodes, 0, path.take(split));
        assert(locate(after, 0, path.take(split)) == Some((p, at)));
        assert(p != n) by {
            assert(nodes[p].start + at + 1 == split);
            assert(nodes[n].start == split);
        }
        assert(has_child(nodes, p, key));
        assert(has_child(after, p, key));
        lemma_locate_on_edge(after, p, key, tail);
        lemma_locate_compose(after, 0, path.take(split), tail);
    }
}

/// One more leaf keeps where sequences lead, and only sequences that reach it
/// lead anywhere new.
proof fn lemma_with_child_locate(
    nodes: Seq<TreeNodeView>,
    p: int,
    leaf: int,
    edge: Seq<EdgeBlock>,
    cover: Map<(u64, u32), nat>,
    from: int,
    q: Seq<LocalBlockHash>,
)
    requires
        tree_wf(nodes),
        vacant(nodes, leaf),
        leaf <= usize::MAX,
        0 <= p < nodes.len(),
        p != leaf,
        edge.len() > 0,
        !has_child(nodes, p, edge[0].0.0),
        0 <= from < nodes.len(),
        from != leaf,
    ensures
        ({
            let old_at = locate(nodes, from, q);
            let new_at = locate(with_child(nodes, p, leaf, edge, cover), from, q);
            &&& old_at is Some ==> new_at == old_at
            &&& new_at is Some && (new_at->0).0 != leaf ==> old_at == new_at
        }),
    decreases q.len(),
{
    let after = with_child(nodes, p, leaf, edge, cover);
    if q.len() > 0 && has_child(nodes, from, q[0].0) {
        assert(child_wf(nodes, from, q[0].0));
        let c = nodes[from].children[q[0].0] as int;
        assert(after[from].children[q[0].0] == c);
        assert(after[c].edge == nodes[c].edge);
        let e = local_hashes(nodes[c].edge);
        if q.len() > e.len() {
            lemma_with_child_locate(nodes, p, leaf, edge, cover, c, q.skip(e.len() as int));
        }
    } else if q.len() > 0 && has_child(after, from, q[0].0) {
        assert(after[from].children[q[0].0] == leaf);
        let e = local_hashes(edge);
        if q.len() > e.len() {
            assert(locate(after, leaf, q.skip(e.len() as int)) is None);
        }
    }
}

/// A worker that stores blocks below a node in a leaf of their own holds the
/// prefixes that end with them.
pub proof fn lemma_child_grows(
    nodes: Seq<TreeNodeView>,
    p: int,
    leaf: int,
    worker: (u64, u32),
    blocks: Seq<EdgeBlock>,
    path: Seq<LocalBlockHash>,
    a: int,
)
    requires
        tree_wf(nodes),
        vacant(nodes, leaf),
        leaf <= usize::MAX,
        0 <= p < nodes.len(),
        p != leaf,
        blocks.len() > 0,
        0 <= a,
        a + blocks.len() <= path.len(),
        a == 0 ==> p == 0,
        a > 0 ==> locate(nodes, 0, path.take(a)) == Some((p, nodes[p].edge.len() - 1)),
        local_hashes(blocks) == path.subrange(a, a + blocks.len()),
        !has_child(nodes, p, blocks[0].0.0),
    ensures
        ({
            let cover = Map::<(u64, u32), nat>::empty().insert(worker, blocks.len());
            let after = with_child(nodes, p, leaf, blocks, cover);
            let b = a + blocks.len();
            &&& tree_wf(after)
            &&& grown(nodes, after, worker, path, a, b)
            &&& named(nodes, after, path, a, b, a, edge_hashes(blocks))
            &&& forall|k: int|
                a < k <= b ==> locate(after, 0, #[trigger] path.take(k)) == Some(
                    (leaf, k - a - 1),
                )
            &&& forall|q: Seq<LocalBlockHash>|
                locate(nodes, 0, q) is Some ==> #[trigger] locate(after, 0, q) == locate(
                    nodes,
                    0,
                    q,
                )
        }),
{
    let cover = Map::<(u64, u32), nat>::empty().insert(worker, blocks.len());
    let after = with_child(nodes, p, leaf, blocks, cover);
    let key = blocks[0].0.0;
    let b = a + blocks.len();
    if a > 0 {
        lemma_locate_valid(nodes, 0, path.take(a));
    }
    assert forall|i: int| 0 <= i < after.len() implies node_view_wf(
        NodeView { edge: (#[trigger] after[i]).edge, cover: after[i].cover },
    ) by {
        if i != leaf {
            assert(node_view_wf(NodeView { edge: nodes[i].edge, cover: nodes[i].cover }));
        }
    }
    assert forall|i: int, k: u64| 0 <= i < after.len() && #[trigger] has_child(
        after,
        i,
        k,
    ) implies child_wf(after, i, k) by {
        if i == p && k == key {
        } else {
            assert(has_child(nodes, i, k));
            assert(child_wf(nodes, i, k));
        }
    }
    assert(parents_unique(after)) by {
        assert forall|i: int, k: u64, j: int, l: u64|
            0 <= i < after.len() && 0 <= j < after.len() && #[trigger] has_child(after, i, k)
                && #[trigger] has_child(after, j, l) && after[i].children[k]
                == after[j].children[l] implies i == j && k == l by {
            if !(i == p && k == key) {
                assert(has_child(nodes, i, k));
                assert(child_wf(nodes, i, k));
            }
            if !(j == p && l == key) {
                assert(has_child(nodes, j, l));
                assert(child_wf(nodes, j, l));
            }
        }
    }
    assert(tree_wf(after)) by {
        assert(after[0].edge == nodes[0].edge);
    }
    assert forall|q: Seq<LocalBlockHash>| locate(nodes, 0, q) is Some implies #[trigger] locate(
        after,
        0,
        q,
    ) == locate(nodes, 0, q) by {
        lemma_with_child_locate(nodes, p, leaf, blocks, cover, 0, q);
    }
    assert forall|k: int| a < k <= b implies locate(after, 0, #[trigger] path.take(k)) == Some(
        (leaf, k - a - 1),
    ) by {
        let tail = path.subrange(a, k);
        assert(path.take(k) =~= path.take(a) + tail);
        let e = local_hashes(blocks);
        assert(e.take(tail.len() as int) =~= tail) by {
            assert forall|i: int| 0 <= i < tail.len() implies e[i] == tail[i] by {
                assert(e[i] == path.subrange(a, b)[i]);
            }
        }
        assert(e[0] == path.subrange(a, b)[0]);
        assert(after[leaf].edge == blocks);
        assert(has_child(after, p, key));
        lemma_locate_on_edge(after, p, key, tail);
        if a > 0 {
            assert(after[p].edge == nodes[p].edge);
            lemma_locate_compose(after, 0, path.take(a), tail);
        } else {
            assert(path.take(a) + tail =~= tail);
        }
    }
    assert forall|q: Seq<LocalBlockHash>| #[trigger]
        block_at(after, q) == if block_at(nodes, q) is None && added(path, a, b, q) {
            Some(edge_hashes(blocks)[q.len() - 1 - a])
        } else {
            block_at(nodes, q)
        } by {
        lemma_with_child_locate(nodes, p, leaf, blocks, cover, 0, q);
        lemma_located_elsewhere(nodes, 0, q, leaf);
        let at = locate(after, 0, q);
        if locate(nodes, 0, q) is Some {
            lemma_locate_valid(nodes, 0, q);
        } else if at is Some {
            lemma_locate_valid(after, 0, q);
            let k = a + (at->0).1 + 1;
            assert(locate(after, 0, path.take(k)) == at);
            lemma_locate_injective(after, q, path.take(k));
            assert(a < k <= b && q == path.take(k));
        }
        if added(path, a, b, q) {
            let k = choose|k: int| a < k <= b && q == #[trigger] path.take(k);
            assert(at == Some((leaf, k - a - 1)));
        }
    }
    assert forall|v: (u64, u32), q: Seq<LocalBlockHash>| #[trigger]
        holds(after, v, q) <==> holds(nodes, v, q) || (v == worker && added(path, a, b, q)) by {
        lemma_with_child_locate(nodes, p, leaf, blocks, cover, 0, q);
        lemma_located_elsewhere(nodes, 0, q, leaf);
        let at = locate(after, 0, q);
        if at is Some {
            lemma_locate_valid(after, 0, q);
            let (m, pos) = at->0;
            if m == leaf {
                let k = a + pos + 1;
                assert(locate(after, 0, path.take(k)) == at);
                lemma_locate_injective(after, q, path.take(k));
                assert(a < k <= b && q == path.take(k));
                if locate(nodes, 0, q) is Some {
                    lemma_locate_valid(nodes, 0, q);
                }
            } else {
                assert(after[m].cover == nodes[m].cover);
                assert(locate(nodes, 0, q) == at);
            }
        }
        if added(path, a, b, q) {
            let k = choose|k: int| a < k <= b && q == #[trigger] path.take(k);
            assert(at == Some((leaf, k - a - 1)));
        }
    }
}

/// Where a block of a tree is after node `n` was cut in two.
pub open spec fn moved(n: int, at: int, rest: int, place: Option<(int, int)>) -> Option<(int, int)> {
    match place {
        Some((m, pos)) => if m == n && pos >= at {
            Some((rest, pos - at))
        } else {
            place
        },
        None => None,
    }
}

/// Cutting a node in two moves blocks and changes nothing else of where
/// sequences lead.
proof fn lemma_split_locate(
    nodes: Seq<TreeNodeView>,
    n: int,
    at: int,
    rest: int,
    from: int,
    q: Seq<LocalBlockHash>,
)
    requires
        tree_wf(nodes),
        vacant(nodes, rest),
        rest <= usize::MAX,
        0 < n < nodes.len(),
        n != rest,
        0 < at < nodes[n].edge.len(),
        0 <= from < nodes.len(),
        from != rest,
    ensures
        locate(
            split_at(nodes, n, at, rest),
            if from == n {
                rest
            } else {
                from
            },
            q,
        ) == moved(n, at, rest, locate(nodes, from, q)),
    decreases q.len(),
{
    let after = split_at(nodes, n, at, rest);
    let start = if from == n {
        rest
    } else {
        from
    };
    assert(after[start].children == nodes[from].children);
    if q.len() > 0 && has_child(nodes, from, q[0].0) {
        assert(child_wf(nodes, from, q[0].0));
        let c = nodes[from].children[q[0].0] as int;
        let e = local_hashes(nodes[c].edge);
        if c == n {
            let head = local_hashes(after[n].edge);
            let tail = local_hashes(after[rest].edge);
            assert(head =~= e.take(at));
            assert(tail =~= e.skip(at));
            if q.len() <= at {
                assert(head.take(q.len() as int) =~= e.take(q.len() as int));
            } else {
                let q2 = q.skip(at);
                if q.take(at) == head {
                    assert(has_child(after, n, e[at].0));
                    if q.len() <= e.len() {
                        if e.take(q.len() as int) == q {
                            assert(q2[0] == e[at]) by {
                                assert(e.take(q.len() as int)[at] == q[at]);
                            }
                            assert(tail.take(q2.len() as int) =~= q2) by {
                                assert forall|i: int| 0 <= i < q2.len() implies tail[i] == q2[i] by {
                                    assert(e.take(q.len() as int)[at + i] == q[at + i]);
                                }
                            }
                        } else if q2[0] == e[at] && tail.take(q2.len() as int) == q2 {
                            assert(e.take(q.len() as int) =~= q) by {
                                assert forall|i: int| 0 <= i < q.len() implies e[i] == q[i] by {
                                    if i < at {
                                        assert(q.take(at)[i] == head[i]);
                                    } else {
                                        assert(tail.take(q2.len() as int)[i - at] == q2[i - at]);
                                    }
                                }
                            }
                        } else if q2[0].0 == e[at].0 {
                            assert(q2[0] == e[at]);
                        }
                        assert(locate(after, n, q2) == moved(
                            n,
                            at,
                            rest,
                            locate(nodes, from, q),
                        ));
                    } else {
                        let q3 = q.skip(e.len() as int);
                        assert(q2.skip(tail.len() as int) =~= q3);
                        lemma_split_locate(nodes, n, at, rest, n, q3);
                        if q.take(e.len() as int) == e {
                            assert(q2[0] == e[at]) by {
                                assert(q.take(e.len() as int)[at] == e[at]);
                            }
                            assert(q2.take(tail.len() as int) =~= tail) by {
                                assert forall|i: int| 0 <= i < tail.len() implies q2[i] == tail[i] by {
                                    assert(q.take(e.len() as int)[at + i] == e[at + i]);
                                }
                            }
                        } else if q2[0] == e[at] && q2.take(tail.len() as int) == tail {
                            assert(q.take(e.len() as int) =~= e) by {
                                assert forall|i: int| 0 <= i < e.len() implies q[i] == e[i] by {
                                    if i < at {
                                        assert(q.take(at)[i] == head[i]);
                                    } else {
                                        assert(q2.take(tail.len() as int)[i - at] == tail[i - at]);
                                    }
                                }
                            }
                        } else if q2[0].0 == e[at].0 {
                            assert(q2[0] == e[at]);
                        }
                        assert(locate(after, n, q2) == moved(
                            n,
                            at,
                            rest,
                            locate(nodes, from, q),
                        ));
                    }
                } else {
                    if q.len() <= e.len() && e.take(q.len() as int) == q {
                        assert(q.take(at) =~= head) by {
                            assert forall|i: int| 0 <= i < at implies q[i] == head[i] by {
                                assert(e.take(q.len() as int)[i] == q[i]);
                            }
                        }
                    }
                    if q.len() > e.len() && q.take(e.len() as int) == e {
                        assert(q.take(at) =~= head) by {
                            assert forall|i: int| 0 <= i < at implies q[i] == head[i] by {
                                assert(q.take(e.len() as int)[i] == e[i]);
                            }
                        }
                    }
                }
            }
        } else {
            assert(after[c].edge == nodes[c].edge);
            if q.len() > e.len() {
                lemma_split_locate(nodes, n, at, rest, c, q.skip(e.len() as int));
            }
        }
    }
}

/// Cutting a node in two changes nothing of what the workers hold.
pub proof fn lemma_split_keeps(nodes: Seq<TreeNodeView>, n: int, at: int, rest: int)
    requires
        tree_wf(nodes),
        vacant(nodes, rest),
        rest <= usize::MAX,
        0 < n < nodes.len(),
        n != rest,
        0 < at < nodes[n].edge.len(),
    ensures
        tree_wf(split_at(nodes, n, at, rest)),
        forall|v: (u64, u32), q: Seq<LocalBlockHash>| #[trigger]
            holds(split_at(nodes, n, at, rest), v, q) <==> holds(nodes, v, q),
        forall|q: Seq<LocalBlockHash>| #[trigger]
            locate(split_at(nodes, n, at, rest), 0, q) == moved(n, at, rest, locate(nodes, 0, q)),
        forall|q: Seq<LocalBlockHash>| #[trigger]
            block_at(split_at(nodes, n, at, rest), q) == block_at(nodes, q),
{
    let after = split_at(nodes, n, at, rest);
    let key = nodes[n].edge[at].0.0;
    assert forall|i: int| 0 <= i < after.len() implies node_view_wf(
        NodeView { edge: (#[trigger] after[i]).edge, cover: after[i].cover },
    ) by {
        let view = NodeView { edge: after[i].edge, cover: after[i].cover };
        let from = if i == rest {
            n
        } else {
            i
        };
        assert forall|w: (u64, u32)| #[trigger] view.cover.dom().contains(w) implies 0
            < view.cover[w] <= view.edge.len() by {
            lemma_cutoff_bounded(nodes, from, w);
        }
    }
    assert forall|i: int, k: u64| 0 <= i < after.len() && #[trigger] has_child(
        after,
        i,
        k,
    ) implies child_wf(after, i, k) by {
        if i == n {
        } else {
            let from = if i == rest {
                n
            } else {
                i
            };
            assert(has_child(nodes, from, k));
            assert(child_wf(nodes, from, k));
            let c = nodes[from].children[k] as int;
            assert(after[c].edge[0] == nodes[c].edge[0]);
            assert(after[c].start == nodes[c].start);
        }
    }
    assert(parents_unique(after)) by {
        assert forall|i: int, k: u64, j: int, l: u64|
            0 <= i < after.len() && 0 <= j < after.len() && #[trigger] has_child(after, i, k)
                && #[trigger] has_child(after, j, l) && after[i].children[k]
                == after[j].children[l] implies i == j && k == l by {
            if i != n {
                let from = if i == rest {
                    n
                } else {
                    i
                };
                assert(has_child(nodes, from, k));
                assert(child_wf(nodes, from, k));
            }
            if j != n {
                let from = if j == rest {
                    n
                } else {
                    j
                };
                assert(has_child(nodes, from, l));
                assert(child_wf(nodes, from, l));
            }
        }
    }
    assert(tree_wf(after)) by {
        assert(after[0] == nodes[0]);
        assert forall|i: int| 0 < i < after.len() implies (#[trigger] after[i]).edge.len() > 0 by {
            if i != rest {
                assert(nodes[i].edge.len() > 0);
            }
        }
    }
    assert forall|q: Seq<LocalBlockHash>| #[trigger] locate(after, 0, q) == moved(
        n,
        at,
        rest,
        locate(nodes, 0, q),
    ) by {
        lemma_split_locate(nodes, n, at, rest, 0, q);
    }
    assert forall|q: Seq<LocalBlockHash>| #[trigger] block_at(after, q) == block_at(nodes, q) by {
        assert(locate(after, 0, q) == moved(n, at, rest, locate(nodes, 0, q)));
        if locate(nodes, 0, q) is Some {
            lemma_locate_valid(nodes, 0, q);
            lemma_located_elsewhere(nodes, 0, q, rest);
        }
    }
    assert forall|v: (u64, u32), q: Seq<LocalBlockHash>| #[trigger]
        holds(after, v, q) <==> holds(nodes, v, q) by {
        assert(locate(after, 0, q) == moved(n, at, rest, locate(nodes, 0, q)));
        if locate(nodes, 0, q) is Some {
            lemma_locate_valid(nodes, 0, q);
            lemma_located_elsewhere(nodes, 0, q, rest);
            lemma_cutoff_bounded(nodes, n, v);
        }
    }
}

} // verus!
