//! Matching of queries against the tree.

use vstd::prelude::*;

use crate::collections::fx_insert;
use crate::indexer::compressed_radix::cutoff_of;
use crate::indexer::concurrent_radix_tree_compressed::model::{
    child_wf, has_child, holds, holds_prefix, is_score, lemma_cutoff_bounded, lemma_locate_compose, lemma_locate_on_edge,
    local_hashes, locate, tree_wf, TreeNodeView,
};
use crate::indexer::concurrent_radix_tree_compressed::ConcurrentRadixTreeCompressed;
use crate::protocols::{ExternalSequenceBlockHash, LocalBlockHash, MatchDetails, WorkerWithDpRank};

verus! {

/// Whether match details are those of a query: exactly the workers that hold its
/// first block are listed, each with the number of leading blocks that it holds
/// and the hash of the last of them.
pub open spec fn matches_query(
    nodes: Seq<TreeNodeView>,
    query: Seq<LocalBlockHash>,
    details: MatchDetails,
) -> bool {
    &&& details.overlap_scores.frequencies@.len() == 0
    &&& details.last_matched_hashes@.dom() == details.overlap_scores.scores@.dom()
    &&& forall|w: (u64, u32)| #[trigger]
        details.overlap_scores.scores@.dom().contains(w) <==> query.len() > 0 && holds(
            nodes,
            w,
            query.take(1),
        )
    &&& forall|w: (u64, u32)| #[trigger]
        details.overlap_scores.scores@.dom().contains(w) ==> scored(
            nodes,
            query,
            w,
            details.overlap_scores.scores@[w] as int,
            details.last_matched_hashes@[w],
        )
}

/// Whether a worker's score and last block are those of a query.
pub open spec fn scored(
    nodes: Seq<TreeNodeView>,
    query: Seq<LocalBlockHash>,
    worker: (u64, u32),
    score: int,
    last: ExternalSequenceBlockHash,
) -> bool {
    &&& score >= 1
    &&& is_score(nodes, worker, query, score)
    &&& locate(nodes, 0, query.take(score)) matches Some((n, pos)) && nodes[n].edge[pos].1 == last
}

/// What is known of a worker while the query is matched up to `depth`: it holds
/// the first `score` blocks, and where that is less than `depth` no more.
spec fn partly_scored(
    nodes: Seq<TreeNodeView>,
    query: Seq<LocalBlockHash>,
    depth: int,
    worker: (u64, u32),
    score: int,
    last: ExternalSequenceBlockHash,
) -> bool {
    &&& 1 <= score <= depth <= query.len()
    &&& holds_prefix(nodes, worker, query, score)
    &&& score < depth ==> !holds(nodes, worker, query.take(score + 1))
    &&& locate(nodes, 0, query.take(score)) matches Some((n, pos)) && nodes[n].edge[pos].1 == last
}

/// Where the prefixes of a query lead while they run along one more edge.
pub(crate) proof fn lemma_edge_walk(
    nodes: Seq<TreeNodeView>,
    query: Seq<LocalBlockHash>,
    id: int,
    depth: int,
    m: int,
)
    requires
        tree_wf(nodes),
        0 <= id < nodes.len(),
        0 <= depth < query.len(),
        depth == 0 ==> id == 0,
        depth > 0 ==> locate(nodes, 0, query.take(depth)) == Some(
            (id, nodes[id].edge.len() - 1),
        ),
        has_child(nodes, id, query[depth].0),
        ({
            let c = nodes[id].children[query[depth].0] as int;
            &&& 1 <= m <= nodes[c].edge.len()
            &&& depth + m <= query.len()
            &&& forall|i: int| 0 <= i < m ==> (#[trigger] nodes[c].edge[i]).0 == query[depth + i]
            &&& m < nodes[c].edge.len() && depth + m < query.len() ==> nodes[c].edge[m].0
                != query[depth + m]
        }),
    ensures
        ({
            let c = nodes[id].children[query[depth].0] as int;
            &&& forall|k: int|
                depth < k <= depth + m ==> locate(nodes, 0, #[trigger] query.take(k)) == Some(
                    (c, k - depth - 1),
                )
            &&& m < nodes[c].edge.len() && depth + m < query.len() ==> locate(
                nodes,
                0,
                query.take(depth + m + 1),
            ) is None
        }),
{
    let c = nodes[id].children[query[depth].0] as int;
    assert(child_wf(nodes, id, query[depth].0));
    let e = local_hashes(nodes[c].edge);
    assert forall|k: int| depth < k <= depth + m implies locate(nodes, 0, #[trigger] query.take(k))
        == Some((c, k - depth - 1)) by {
        let tail = query.subrange(depth, k);
        assert(query.take(k) =~= query.take(depth) + tail);
        lemma_locate_on_edge(nodes, id, query[depth].0, tail);
        assert(e.take(tail.len() as int) =~= tail) by {
            assert forall|i: int| 0 <= i < tail.len() implies e[i] == tail[i] by {
                assert(nodes[c].edge[i].0 == query[depth + i]);
            }
        }
        if depth > 0 {
            lemma_locate_compose(nodes, 0, query.take(depth), tail);
        } else {
            assert(query.take(depth) + tail =~= tail);
        }
    }
    if m < nodes[c].edge.len() && depth + m < query.len() {
        let k = depth + m + 1;
        let tail = query.subrange(depth, k);
        assert(query.take(k) =~= query.take(depth) + tail);
        lemma_locate_on_edge(nodes, id, query[depth].0, tail);
        assert(e.take(tail.len() as int)[m] != tail[m]);
        if depth > 0 {
            lemma_locate_compose(nodes, 0, query.take(depth), tail);
        } else {
            assert(query.take(depth) + tail =~= tail);
        }
    }
}

/// Where no child goes on, no longer prefix of a query leads anywhere.
proof fn lemma_dead_end(
    nodes: Seq<TreeNodeView>,
    query: Seq<LocalBlockHash>,
    id: int,
    depth: int,
)
    requires
        tree_wf(nodes),
        0 <= id < nodes.len(),
        0 <= depth < query.len(),
        depth == 0 ==> id == 0,
        depth > 0 ==> locate(nodes, 0, query.take(depth)) == Some(
            (id, nodes[id].edge.len() - 1),
        ),
        !has_child(nodes, id, query[depth].0),
    ensures
        locate(nodes, 0, query.take(depth + 1)) is None,
{
    let tail = query.subrange(depth, depth + 1);
    assert(query.take(depth + 1) =~= query.take(depth) + tail);
    assert(tail[0] == query[depth]);
    if depth > 0 {
        lemma_locate_compose(nodes, 0, query.take(depth), tail);
    } else {
        assert(query.take(depth) + tail =~= tail);
    }
}

impl ConcurrentRadixTreeCompressed {
    /// How many leading blocks of a query each worker holds, and the last of
    /// them. Workers that do not hold the first block are not listed.
    pub fn find_match_details(&self, query: &[LocalBlockHash]) -> (details: MatchDetails)
        requires
            self.wf(),
            query@.len() <= u32::MAX,
        ensures
            matches_query(self@, query@, details),
    {
        let ghost nodes = self@;
        let ghost q = query@;
        let mut details = MatchDetails::new();
        if query.len() == 0 {
            return details;
        }
        let mut id: usize = 0;
        let mut depth: usize = 0;
        // The workers that hold everything up to `depth`.
        let mut active: Vec<(u64, u32)> = Vec::new();
        let mut at_root = true;
        while depth < query.len()
            invariant
                self.wf(),
                nodes == self@,
                q == query@,
                0 < q.len() <= u32::MAX,
                id < nodes.len(),
                depth <= q.len(),
                at_root <==> depth == 0,
                at_root ==> id == 0 && details.overlap_scores.scores@ == Map::<
                    (u64, u32),
                    u32,
                >::empty(),
                depth > 0 ==> locate(nodes, 0, q.take(depth as int)) == Some(
                    (id as int, nodes[id as int].edge.len() - 1),
                ),
                details.overlap_scores.frequencies@.len() == 0,
                details.last_matched_hashes@.dom() == details.overlap_scores.scores@.dom(),
                !at_root ==> forall|w: (u64, u32)| #[trigger]
                    details.overlap_scores.scores@.dom().contains(w) <==> holds(
                        nodes,
                        w,
                        q.take(1),
                    ),
                forall|w: (u64, u32)| #[trigger]
                    details.overlap_scores.scores@.dom().contains(w) ==> partly_scored(
                        nodes,
                        q,
                        depth as int,
                        w,
                        details.overlap_scores.scores@[w] as int,
                        details.last_matched_hashes@[w],
                    ),
                !at_root ==> forall|w: (u64, u32)| #[trigger]
                    active@.contains(w) <==> details.overlap_scores.scores@.dom().contains(w)
                        && details.overlap_scores.scores@[w] == depth,
            decreases query.len() - depth,
        {
            let key = query[depth].0;
            let child = match self.child(id, key) {
                Some(child) => child,
                None => {
                    proof {
                        lemma_dead_end(nodes, q, id as int, depth as int);
                        assert forall|w: (u64, u32)| #[trigger]
                            details.overlap_scores.scores@.dom().contains(w) implies scored(
                            nodes,
                            q,
                            w,
                            details.overlap_scores.scores@[w] as int,
                            details.last_matched_hashes@[w],
                        ) by {
                            let score = details.overlap_scores.scores@[w] as int;
                            assert(partly_scored(
                                nodes,
                                q,
                                depth as int,
                                w,
                                score,
                                details.last_matched_hashes@[w],
                            ));
                        }
                    }
                    return details;
                },
            };
            proof {
                assert(child_wf(nodes, id as int, key));
            }
            let len = self.nodes[child].state.edge().len();
            let m = self.nodes[child].state.matched_len(query, depth);
            proof {
                assert(nodes[child as int].edge[0].0 == q[depth as int]);
                assert(m >= 1);
                lemma_edge_walk(nodes, q, id as int, depth as int, m as int);
            }
            let candidates = if at_root {
                self.nodes[child].state.workers()
            } else {
                active
            };
            let ghost before = details;
            let ghost d = depth as int;
            let mut next: Vec<(u64, u32)> = Vec::new();
            for i in 0..candidates.len()
                invariant
                    self.wf(),
                    nodes == self@,
                    q == query@,
                    q.len() <= u32::MAX,
                    d == depth,
                    child < nodes.len(),
                    len == nodes[child as int].edge.len(),
                    1 <= m <= len,
                    depth + m <= q.len(),
                    details.overlap_scores.frequencies@.len() == 0,
                    details.last_matched_hashes@.dom() == details.overlap_scores.scores@.dom(),
                    forall|w: (u64, u32)| #[trigger]
                        details.overlap_scores.scores@.dom().contains(w)
                            <==> before.overlap_scores.scores@.dom().contains(w) || (
                        candidates@.take(i as int).contains(w) && cutoff_of(
                            nodes[child as int].cover,
                            w,
                        ) > 0),
                    forall|w: (u64, u32)| #[trigger]
                        details.overlap_scores.scores@.dom().contains(w) ==> ({
                            let cut = cutoff_of(nodes[child as int].cover, w) as int;
                            let reach = if cut < m {
                                cut
                            } else {
                                m as int
                            };
                            if candidates@.take(i as int).contains(w) && cut > 0 {
                                &&& details.overlap_scores.scores@[w] == depth + reach
                                &&& details.last_matched_hashes@[w] == nodes[child as int].edge[reach
                                    - 1].1
                            } else {
                                &&& details.overlap_scores.scores@[w]
                                    == before.overlap_scores.scores@[w]
                                &&& details.last_matched_hashes@[w]
                                    == before.last_matched_hashes@[w]
                            }
                        }),
                    forall|w: (u64, u32)| #[trigger]
                        next@.contains(w) <==> candidates@.take(i as int).contains(w) && m == len
                            && cutoff_of(nodes[child as int].cover, w) == len,
            {
                let w = candidates[i];
                let ghost done = candidates@.take(i as int);
                let ghost more = candidates@.take(i + 1);
                let ghost next_before = next@;
                proof {
                    assert(more =~= done.push(w));
                    assert forall|x: (u64, u32)| #[trigger]
                        more.contains(x) <==> done.contains(x) || x == w by {
                        if done.contains(x) {
                            let j = choose|j: int| 0 <= j < done.len() && done[j] == x;
                            assert(more[j] == x);
                        }
                        if x == w {
                            assert(more[i as int] == x);
                        }
                        if more.contains(x) && x != w {
                            let j = choose|j: int| 0 <= j < more.len() && more[j] == x;
                            assert(done[j] == x);
                        }
                    }
                }
                let state = &self.nodes[child].state;
                let cut = state.current_cutoff(WorkerWithDpRank::new(w.0, w.1));
                assert(cut == cutoff_of(nodes[child as int].cover, w));
                if cut > 0 {
                    let reach = if cut < m {
                        cut
                    } else {
                        m
                    };
                    fx_insert(&mut details.overlap_scores.scores, w, (depth + reach) as u32);
                    fx_insert(&mut details.last_matched_hashes, w, state.edge()[reach - 1].1);
                    assert(details.last_matched_hashes@.dom()
                        =~= details.overlap_scores.scores@.dom());
                    if m == len && cut == len {
                        next.push(w);
                    }
                }
                proof {
                    assert forall|x: (u64, u32)| #[trigger]
                        next@.contains(x) <==> next_before.contains(x) || (x == w && m == len
                            && cut == len && cut > 0) by {
                        if next_before.contains(x) {
                            let j = choose|j: int|
                                0 <= j < next_before.len() && next_before[j] == x;
                            assert(next@[j] == x);
                        }
                        if x == w && m == len && cut == len && cut > 0 {
                            assert(next@[next@.len() - 1] == x);
                        }
                        if next@.contains(x) && !next_before.contains(x) {
                            let j = choose|j: int| 0 <= j < next@.len() && next@[j] == x;
                            if j < next_before.len() {
                                assert(next_before[j] == x);
                            }
                        }
                    }
                }
            }
            proof {
                let new_depth = depth + m;
                assert(candidates@.take(candidates@.len() as int) =~= candidates@);
                let c = child as int;
                assert forall|w: (u64, u32)| at_root implies (#[trigger] candidates@.contains(w)
                    <==> cutoff_of(nodes[c].cover, w) > 0) by {
                    assert(candidates@.to_set().contains(w) <==> candidates@.contains(w));
                    lemma_cutoff_bounded(nodes, c, w);
                }
                assert forall|w: (u64, u32)| #[trigger]
                    details.overlap_scores.scores@.dom().contains(w) <==> holds(
                        nodes,
                        w,
                        q.take(1),
                    ) by {
                    if at_root {
                        assert(locate(nodes, 0, q.take(1)) == Some((c, 0int)));
                        assert(candidates@.contains(w) <==> cutoff_of(nodes[c].cover, w) > 0);
                    } else {
                        assert(before.overlap_scores.scores@.dom().contains(w) <==> holds(
                            nodes,
                            w,
                            q.take(1),
                        ));
                        if candidates@.contains(w) {
                            assert(before.overlap_scores.scores@.dom().contains(w));
                        }
                    }
                }
                assert forall|w: (u64, u32)| #[trigger]
                    details.overlap_scores.scores@.dom().contains(w) implies partly_scored(
                    nodes,
                    q,
                    new_depth,
                    w,
                    details.overlap_scores.scores@[w] as int,
                    details.last_matched_hashes@[w],
                ) by {
                    let score = details.overlap_scores.scores@[w] as int;
                    let cut = cutoff_of(nodes[c].cover, w) as int;
                    let reach = if cut < m {
                        cut
                    } else {
                        m as int
                    };
                    if candidates@.contains(w) && cut > 0 {
                        assert(score == depth + reach);
                        assert forall|k: int| 1 <= k <= score implies holds(
                            nodes,
                            w,
                            #[trigger] q.take(k),
                        ) by {
                            if k <= depth {
                                assert(before.overlap_scores.scores@.dom().contains(w));
                                assert(partly_scored(
                                    nodes,
                                    q,
                                    d,
                                    w,
                                    before.overlap_scores.scores@[w] as int,
                                    before.last_matched_hashes@[w],
                                ));
                            } else {
                                assert(locate(nodes, 0, q.take(k)) == Some((c, k - depth - 1)));
                            }
                        }
                        if score < new_depth {
                            assert(locate(nodes, 0, q.take(score + 1)) == Some((c, reach)));
                        }
                        assert(locate(nodes, 0, q.take(score)) == Some((c, reach - 1)));
                    } else {
                        assert(before.overlap_scores.scores@.dom().contains(w));
                        assert(partly_scored(
                            nodes,
                            q,
                            d,
                            w,
                            before.overlap_scores.scores@[w] as int,
                            before.last_matched_hashes@[w],
                        ));
                        if score == depth {
                            // It was active but holds nothing of this edge.
                            assert(candidates@.contains(w));
                            assert(locate(nodes, 0, q.take(score + 1)) == Some((c, 0int)));
                            assert(cut == 0);
                        }
                    }
                }
            }
            if m < len {
                proof {
                    assert forall|w: (u64, u32)| #[trigger]
                        details.overlap_scores.scores@.dom().contains(w) implies scored(
                        nodes,
                        q,
                        w,
                        details.overlap_scores.scores@[w] as int,
                        details.last_matched_hashes@[w],
                    ) by {
                        assert(partly_scored(
                            nodes,
                            q,
                            depth + m,
                            w,
                            details.overlap_scores.scores@[w] as int,
                            details.last_matched_hashes@[w],
                        ));
                    }
                }
                return details;
            }
            proof {
                assert forall|w: (u64, u32)| #[trigger]
                    next@.contains(w) <==> details.overlap_scores.scores@.dom().contains(w)
                        && details.overlap_scores.scores@[w] == depth + m by {
                    let cut = cutoff_of(nodes[child as int].cover, w) as int;
                    if next@.contains(w) {
                        assert(candidates@.contains(w));
                        assert(cut == len);
                        assert(details.overlap_scores.scores@.dom().contains(w));
                    }
                    if details.overlap_scores.scores@.dom().contains(w) && !(candidates@.contains(w)
                        && cut > 0) {
                        assert(before.overlap_scores.scores@.dom().contains(w));
                        assert(partly_scored(
                            nodes,
                            q,
                            d,
                            w,
                            before.overlap_scores.scores@[w] as int,
                            before.last_matched_hashes@[w],
                        ));
                    }
                    lemma_cutoff_bounded(nodes, child as int, w);
                }
            }
            depth += m;
            id = child;
            active = next;
            at_root = false;
        }
        proof {
            assert forall|w: (u64, u32)| #[trigger]
                details.overlap_scores.scores@.dom().contains(w) implies scored(
                nodes,
                q,
                w,
                details.overlap_scores.scores@[w] as int,
                details.last_matched_hashes@[w],
            ) by {
                assert(partly_scored(
                    nodes,
                    q,
                    depth as int,
                    w,
                    details.overlap_scores.scores@[w] as int,
                    details.last_matched_hashes@[w],
                ));
            }
        }
        details
    }
}

} // verus!
