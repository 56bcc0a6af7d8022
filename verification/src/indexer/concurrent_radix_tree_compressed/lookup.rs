//! From block hashes to the nodes that hold them.

use vstd::prelude::*;

use crate::collections::{fx_contains, fx_get, fx_insert, fx_remove, FxMap};
use crate::indexer::compressed_radix::{cutoff_of, edge_hashes, held_at, NodeView};
use crate::indexer::concurrent_radix_tree_compressed::model::{
    child_wf, has_child, lemma_cutoff_bounded, tree_wf, TreeNodeView,
};
use crate::indexer::concurrent_radix_tree_compressed::{
    ConcurrentRadixTreeCompressed, WorkerLookup,
};
use crate::indexer::lookup_update::{pointed_entries, update_lookup_for_keys};
use crate::protocols::{ExternalSequenceBlockHash, WorkerWithDpRank};
use crate::seqs::lemma_push_contains;

verus! {

/// The lookups of all workers, by worker.
pub type LookupTable = FxMap<(u64, u32), WorkerLookup>;

/// Whether a node is reached from another by going down `steps` times.
pub open spec fn reach(nodes: Seq<TreeNodeView>, top: int, node: int, steps: nat) -> bool
    decreases steps,
{
    if steps == 0 {
        top == node
    } else {
        exists|p: int, key: u64|
            0 <= p < nodes.len() && #[trigger] has_child(nodes, p, key) && nodes[p].children[key]
                == node && reach(nodes, top, p, (steps - 1) as nat)
    }
}

/// Whether a node is in the subtree of another.
pub open spec fn below(nodes: Seq<TreeNodeView>, top: int, node: int) -> bool {
    exists|steps: nat| #[trigger] reach(nodes, top, node, steps)
}

/// The part of a node that says which blocks are held.
pub open spec fn node_of(nodes: Seq<TreeNodeView>, n: int) -> NodeView {
    NodeView { edge: nodes[n].edge, cover: nodes[n].cover }
}

/// Whether a worker's block is found in the subtree of a node.
pub open spec fn found_below(
    nodes: Seq<TreeNodeView>,
    top: int,
    worker: (u64, u32),
    hash: ExternalSequenceBlockHash,
) -> bool {
    exists|n: int, pos: int| #[trigger] found_at(nodes, top, worker, hash, n, pos)
}

/// Whether a worker's block is at a position of a node below another.
pub open spec fn found_at(
    nodes: Seq<TreeNodeView>,
    top: int,
    worker: (u64, u32),
    hash: ExternalSequenceBlockHash,
    n: int,
    pos: int,
) -> bool {
    &&& 0 <= n < nodes.len()
    &&& below(nodes, top, n)
    &&& held_at(node_of(nodes, n), worker, hash, pos)
}

/// Whether every entry of a worker's lookup leads to a node, not the root, in whose
/// subtree the worker holds the block.
pub open spec fn worker_lookup_wf(
    nodes: Seq<TreeNodeView>,
    worker: (u64, u32),
    entries: Map<u64, usize>,
) -> bool {
    forall|h: u64| #[trigger]
        entries.dom().contains(h) ==> 0 < entries[h] < nodes.len() && found_below(
            nodes,
            entries[h] as int,
            worker,
            ExternalSequenceBlockHash(h),
        )
}

/// What always holds of the lookups of a tree: every entry can be resolved.
pub open spec fn lookup_wf(
    nodes: Seq<TreeNodeView>,
    lookup: Map<(u64, u32), WorkerLookup>,
) -> bool {
    forall|w: (u64, u32)| #[trigger]
        lookup.dom().contains(w) ==> worker_lookup_wf(nodes, w, lookup[w]@)
}

/// Whether every node that some worker holds is in the tree.
pub open spec fn rooted(nodes: Seq<TreeNodeView>) -> bool {
    forall|n: int|
        0 <= n < nodes.len() && (#[trigger] nodes[n]).cover != Map::<(u64, u32), nat>::empty()
            ==> below(nodes, 0, n)
}

/// The entries of a worker.
pub open spec fn entries_of(
    lookup: Map<(u64, u32), WorkerLookup>,
    worker: (u64, u32),
) -> Map<u64, usize> {
    if lookup.dom().contains(worker) {
        lookup[worker]@
    } else {
        Map::empty()
    }
}

/// Whether some entries of a worker for the first blocks of an edge were made to
/// lead to the edge's node, and no others changed.
pub open spec fn repaired(
    before: Map<u64, usize>,
    after: Map<u64, usize>,
    front: Seq<ExternalSequenceBlockHash>,
    node: usize,
) -> bool {
    &&& after.dom() == before.dom()
    &&& forall|h: u64| #[trigger]
        after.dom().contains(h) ==> after[h] == before[h] || (after[h] == node && front.contains(
            ExternalSequenceBlockHash(h),
        ))
}

/// A node is in its own subtree.
pub proof fn lemma_below_self(nodes: Seq<TreeNodeView>, n: int)
    ensures
        below(nodes, n, n),
{
    assert(reach(nodes, n, n, 0));
}

/// A child is in every subtree that its parent is in.
pub proof fn lemma_below_child(nodes: Seq<TreeNodeView>, top: int, p: int, key: u64)
    requires
        0 <= p < nodes.len(),
        has_child(nodes, p, key),
        below(nodes, top, p),
    ensures
        below(nodes, top, nodes[p].children[key] as int),
{
    let steps = choose|steps: nat| #[trigger] reach(nodes, top, p, steps);
    assert(reach(nodes, top, nodes[p].children[key] as int, steps + 1));
}

/// Number of marks that are not set.
spec fn unmarked(marks: Seq<bool>) -> nat
    decreases marks.len(),
{
    if marks.len() == 0 {
        0
    } else {
        unmarked(marks.drop_last()) + if marks.last() {
            0nat
        } else {
            1
        }
    }
}

proof fn lemma_unmarked_update(marks: Seq<bool>, i: int)
    requires
        0 <= i < marks.len(),
        !marks[i],
    ensures
        unmarked(marks.update(i, true)) == unmarked(marks) - 1,
    decreases marks.len(),
{
    let after = marks.update(i, true);
    if i == marks.len() - 1 {
        assert(after.drop_last() =~= marks.drop_last());
    } else {
        lemma_unmarked_update(marks.drop_last(), i);
        assert(after.drop_last() =~= marks.drop_last().update(i, true));
    }
}

/// A set of nodes with all their children holds every subtree that it touches.
proof fn lemma_closed_set(nodes: Seq<TreeNodeView>, marks: Seq<bool>, top: int, node: int, steps: nat)
    requires
        tree_wf(nodes),
        marks.len() == nodes.len(),
        0 <= top < nodes.len(),
        marks[top],
        forall|p: int, key: u64|
            0 <= p < nodes.len() && marks[p] && #[trigger] has_child(nodes, p, key)
                ==> marks[nodes[p].children[key] as int],
        reach(nodes, top, node, steps),
    ensures
        0 <= node < nodes.len(),
        marks[node],
    decreases steps,
{
    if steps > 0 {
        let (p, key) = choose|p: int, key: u64|
            0 <= p < nodes.len() && #[trigger] has_child(nodes, p, key) && nodes[p].children[key]
                == node && reach(nodes, top, p, (steps - 1) as nat);
        lemma_closed_set(nodes, marks, top, p, (steps - 1) as nat);
        assert(child_wf(nodes, p, key));
    }
}

/// Whether a list of nodes or the marks have every child of the marked nodes.
spec fn children_known(
    nodes: Seq<TreeNodeView>,
    marks: Seq<bool>,
    stack: Seq<usize>,
) -> bool {
    forall|p: int, key: u64|
        0 <= p < nodes.len() && marks[p] && #[trigger] has_child(nodes, p, key)
            ==> marks[nodes[p].children[key] as int] || stack.contains(nodes[p].children[key])
}

impl ConcurrentRadixTreeCompressed {
    /// A node in a subtree on which a worker holds a block.
    pub fn find_in_subtree(
        &self,
        top: usize,
        worker: WorkerWithDpRank,
        hash: ExternalSequenceBlockHash,
    ) -> (found: Option<(usize, usize)>)
        requires
            self.wf(),
            top < self@.len(),
        ensures
            found is Some <==> found_below(self@, top as int, worker.spec_key(), hash),
            found is Some ==> found_at(
                self@,
                top as int,
                worker.spec_key(),
                hash,
                (found->0).0 as int,
                (found->0).1 as int,
            ),
    {
        let ghost nodes = self@;
        let ghost w = worker.spec_key();
        proof {
            lemma_below_self(nodes, top as int);
        }
        let mut marks: Vec<bool> = Vec::new();
        for i in 0..self.nodes.len()
            invariant
                marks@.len() == i,
                forall|j: int| 0 <= j < i ==> !(#[trigger] marks@[j]),
        {
            marks.push(false);
        }
        let mut stack: Vec<usize> = Vec::new();
        stack.push(top);
        assert(stack@[0] == top);
        while stack.len() > 0
            invariant
                self.wf(),
                nodes == self@,
                w == worker.spec_key(),
                top < nodes.len(),
                marks@.len() == nodes.len(),
                nodes.len() == self.nodes@.len(),
                forall|i: int|
                    0 <= i < stack@.len() ==> #[trigger] stack@[i] < nodes.len() && below(
                        nodes,
                        top as int,
                        stack@[i] as int,
                    ),
                marks@[top as int] || stack@.contains(top),
                children_known(nodes, marks@, stack@),
                forall|n: int, pos: int|
                    0 <= n < nodes.len() && marks@[n] ==> !#[trigger] held_at(
                        node_of(nodes, n),
                        w,
                        hash,
                        pos,
                    ),
            decreases unmarked(marks@), stack@.len(),
        {
            let ghost stack_before = stack@;
            let ghost marks_before = marks@;
            let n = stack[stack.len() - 1];
            stack.truncate(stack.len() - 1);
            proof {
                assert(stack_before.last() == n);
                assert(stack_before =~= stack@.push(n));
                assert forall|x: usize| stack_before.contains(x) implies x == n || stack@.contains(
                    x,
                ) by {
                    let j = choose|j: int| 0 <= j < stack_before.len() && stack_before[j] == x;
                    if j < stack@.len() {
                        assert(stack@[j] == x);
                    }
                }
            }
            if marks[n] {
                continue ;
            }
            if let Some(pos) = self.nodes[n].state.held_position(worker, hash) {
                assert(self.nodes@[n as int].state@ == node_of(nodes, n as int));
                assert(found_at(nodes, top as int, w, hash, n as int, pos as int));
                return Some((n, pos));
            }
            assert(self.nodes@[n as int].state@ == node_of(nodes, n as int));
            proof {
                lemma_unmarked_update(marks@, n as int);
            }
            marks.set(n, true);
            let keys = self.child_keys(n);
            let ghost popped = stack@;
            for i in 0..keys.len()
                invariant
                    self.wf(),
                    nodes == self@,
                    n < nodes.len(),
                    below(nodes, top as int, n as int),
                    keys@.to_set() == nodes[n as int].children.dom(),
                    stack@.len() == popped.len() + i,
                    forall|j: int| 0 <= j < popped.len() ==> stack@[j] == popped[j],
                    forall|j: int|
                        0 <= j < i ==> stack@[popped.len() + j]
                            == nodes[n as int].children[#[trigger] keys@[j]],
                    forall|j: int|
                        0 <= j < stack@.len() ==> #[trigger] stack@[j] < nodes.len() && below(
                            nodes,
                            top as int,
                            stack@[j] as int,
                        ),
            {
                let key = keys[i];
                assert(keys@.to_set().contains(key));
                assert(has_child(nodes, n as int, key));
                if let Some(child) = self.child(n, key) {
                    proof {
                        assert(child_wf(nodes, n as int, key));
                        lemma_below_child(nodes, top as int, n as int, key);
                    }
                    stack.push(child);
                }
            }
            proof {
                assert forall|x: usize| popped.contains(x) implies stack@.contains(x) by {
                    let j = choose|j: int| 0 <= j < popped.len() && popped[j] == x;
                    assert(stack@[j] == x);
                }
                assert forall|p: int, key: u64|
                    0 <= p < nodes.len() && marks@[p] && #[trigger] has_child(
                        nodes,
                        p,
                        key,
                    ) implies marks@[nodes[p].children[key] as int] || stack@.contains(
                    nodes[p].children[key],
                ) by {
                    assert(child_wf(nodes, p, key));
                    if p == n {
                        assert(keys@.to_set().contains(key));
                        let j = choose|j: int| 0 <= j < keys@.len() && keys@[j] == key;
                        assert(stack@[popped.len() + j] == nodes[p].children[key]);
                    } else {
                        assert(marks_before[p]);
                        assert(marks_before[nodes[p].children[key] as int]
                            || stack_before.contains(nodes[p].children[key]));
                    }
                }
            }
        }
        proof {
            assert forall|n: int, pos: int| !#[trigger] found_at(
                nodes,
                top as int,
                w,
                hash,
                n,
                pos,
            ) by {
                if found_at(nodes, top as int, w, hash, n, pos) {
                    let steps = choose|steps: nat| #[trigger] reach(nodes, top as int, n, steps);
                    lemma_closed_set(nodes, marks@, top as int, n, steps);
                }
            }
        }
        None
    }

    /// The node on which a worker holds a block, by the worker's lookup, and the
    /// node that the lookup has for it.
    pub fn find_entry(
        &self,
        lookup: &LookupTable,
        worker: WorkerWithDpRank,
        hash: ExternalSequenceBlockHash,
    ) -> (found: Option<(usize, usize, usize)>)
        requires
            self.wf(),
            lookup_wf(self@, lookup@),
        ensures
            found is Some <==> entries_of(lookup@, worker.spec_key()).dom().contains(hash.0),
            found matches Some((top, n, pos)) ==> top == entries_of(
                lookup@,
                worker.spec_key(),
            )[hash.0] && found_at(
                self@,
                top as int,
                worker.spec_key(),
                hash,
                n as int,
                pos as int,
            ),
    {
        let ghost nodes = self@;
        let ghost w = worker.spec_key();
        let key = worker.key();
        let top = match fx_get(lookup, &key) {
            Some(entries) => match fx_get(entries, &hash.0) {
                Some(node) => *node,
                None => {
                    return None;
                },
            },
            None => {
                return None;
            },
        };
        proof {
            assert(lookup@.dom().contains(w));
            assert(worker_lookup_wf(nodes, w, lookup@[w]@));
            assert(found_below(nodes, top as int, w, hash));
        }
        match self.find_in_subtree(top, worker, hash) {
            Some((n, pos)) => Some((top, n, pos)),
            None => None,
        }
    }

    /// The node on which a worker holds a block, by the worker's lookup. An entry
    /// that leads to a node above is corrected, and with it the entries of the
    /// blocks before it on the same edge.
    pub fn resolve_lookup(
        &self,
        lookup: &mut LookupTable,
        worker: WorkerWithDpRank,
        hash: ExternalSequenceBlockHash,
    ) -> (found: Option<(usize, usize)>)
        requires
            self.wf(),
            lookup_wf(self@, old(lookup)@),
        ensures
            lookup_wf(self@, final(lookup)@),
            final(lookup)@.dom() == old(lookup)@.dom(),
            forall|v: (u64, u32)|
                v != worker.spec_key() ==> #[trigger] entries_of(final(lookup)@, v) == entries_of(
                    old(lookup)@,
                    v,
                ),
            found is Some <==> entries_of(old(lookup)@, worker.spec_key()).dom().contains(hash.0),
            found is None ==> final(lookup)@ == old(lookup)@,
            found is Some ==> {
                let (n, pos) = found->0;
                let before = entries_of(old(lookup)@, worker.spec_key());
                &&& found_at(
                    self@,
                    before[hash.0] as int,
                    worker.spec_key(),
                    hash,
                    n as int,
                    pos as int,
                )
                &&& repaired(
                    before,
                    entries_of(final(lookup)@, worker.spec_key()),
                    edge_hashes(self@[n as int].edge).take(pos + 1),
                    n,
                )
                &&& entries_of(final(lookup)@, worker.spec_key())[hash.0] == n
            },
    {
        let (top, n, pos) = match self.find_entry(lookup, worker, hash) {
            Some(found) => found,
            None => {
                return None;
            },
        };
        if n != top {
            self.repair_lookup_for_resolved_node(lookup, worker, n, pos);
            assert(edge_hashes(self@[n as int].edge).take(pos + 1)[pos as int] == hash) by {
                lemma_cutoff_bounded(self@, n as int, worker.spec_key());
            }
        }
        Some((n, pos))
    }

    /// Lets the lookup entries of the first blocks of an edge lead to its node.
    pub(crate) fn repair_lookup_for_resolved_node(
        &self,
        lookup: &mut LookupTable,
        worker: WorkerWithDpRank,
        node: usize,
        pos: usize,
    )
        requires
            self.wf(),
            lookup_wf(self@, old(lookup)@),
            old(lookup)@.dom().contains(worker.spec_key()),
            node < self@.len(),
            pos < cutoff_of(
                self@[node as int].cover,
                worker.spec_key(),
            ),
        ensures
            lookup_wf(self@, final(lookup)@),
            final(lookup)@.dom() == old(lookup)@.dom(),
            forall|v: (u64, u32)|
                v != worker.spec_key() ==> #[trigger] entries_of(final(lookup)@, v) == entries_of(
                    old(lookup)@,
                    v,
                ),
            repaired(
                entries_of(old(lookup)@, worker.spec_key()),
                entries_of(final(lookup)@, worker.spec_key()),
                edge_hashes(self@[node as int].edge).take(pos + 1),
                node,
            ),
            forall|h: u64|
                edge_hashes(self@[node as int].edge).take(pos + 1).contains(
                    ExternalSequenceBlockHash(h),
                ) && #[trigger] entries_of(old(lookup)@, worker.spec_key()).dom().contains(h)
                    ==> entries_of(final(lookup)@, worker.spec_key())[h] == node,
    {
        let ghost nodes = self@;
        let ghost w = worker.spec_key();
        let ghost before = lookup@[w]@;
        proof {
            lemma_cutoff_bounded(nodes, node as int, w);
        }
        let key = worker.key();
        let edge = self.edge_of(node);
        let len = edge.len();
        assert(pos < len);
        let ghost front = edge_hashes(nodes[node as int].edge).take(pos + 1);
        if let Some(entries) = fx_remove(lookup, &key) {
            let mut entries = entries;
            let mut hashes: Vec<ExternalSequenceBlockHash> = Vec::new();
            for i in 0..pos + 1
                invariant
                    edge@ == nodes[node as int].edge,
                    pos < edge@.len(),
                    front == edge_hashes(edge@).take(pos + 1),
                    entries@ == before,
                    forall|e: ExternalSequenceBlockHash| #[trigger]
                        hashes@.contains(e) <==> front.take(i as int).contains(e)
                            && before.dom().contains(e.0),
            {
                let hash = edge[i].1;
                let ghost done = front.take(i as int);
                let ghost more = front.take(i + 1);
                let ghost kept = hashes@;
                proof {
                    assert(more =~= done.push(hash));
                    lemma_push_contains(done, hash);
                    lemma_push_contains(kept, hash);
                }
                if fx_contains(&entries, &hash.0) {
                    hashes.push(hash);
                }
            }
            assert(front.take(pos + 1) =~= front);
            update_lookup_for_keys(&mut entries, hashes.as_slice(), node);
            proof {
                assert forall|h: u64| #[trigger] entries@.dom().contains(h) implies 0
                    < entries@[h] < nodes.len() && found_below(
                    nodes,
                    entries@[h] as int,
                    w,
                    ExternalSequenceBlockHash(h),
                ) by {
                    pointed_entries(before, hashes@, node, h);
                    if hashes@.contains(ExternalSequenceBlockHash(h)) {
                        let j = choose|j: int|
                            0 <= j < front.len() && front[j] == ExternalSequenceBlockHash(h);
                        lemma_below_self(nodes, node as int);
                        assert(found_at(
                            nodes,
                            node as int,
                            w,
                            ExternalSequenceBlockHash(h),
                            node as int,
                            j,
                        ));
                    } else {
                        assert(before.dom().contains(h));
                        assert(worker_lookup_wf(nodes, w, before));
                    }
                }
            }
            proof {
                assert forall|h: u64|
                    #![trigger entries@.dom().contains(h)]
                    #![trigger before.dom().contains(h)]
                    entries@.dom().contains(h) == before.dom().contains(h) && (
                    before.dom().contains(h) ==> entries@[h] == if front.contains(
                        ExternalSequenceBlockHash(h),
                    ) {
                        node
                    } else {
                        before[h]
                    }) by {
                    pointed_entries(before, hashes@, node, h);
                }
                assert(entries@.dom() =~= before.dom());
            }
            fx_insert(lookup, key, entries);
        }
        assert(lookup@.dom() =~= old(lookup)@.dom());
    }
}

} // verus!
