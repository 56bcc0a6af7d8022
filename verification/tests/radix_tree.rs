//! The compressed radix tree, event by event.

use kv_router::indexer::concurrent_radix_tree_compressed::lookup::LookupTable;
use kv_router::indexer::concurrent_radix_tree_compressed::{
    ConcurrentRadixTreeCompressed, KvCacheEventError,
};
use kv_router::protocols::{
    ExternalSequenceBlockHash, KvCacheEventData, LocalBlockHash, RouterEvent, WorkerWithDpRank,
};
use kv_router::test_utils::{
    make_clear_event, make_remove_event, make_remove_event_with_parent, make_store_event,
    make_store_event_with_dp_rank, make_store_event_with_parent, remove_event,
};

fn worker(worker_id: u64) -> WorkerWithDpRank {
    WorkerWithDpRank::new(worker_id, 0)
}

fn direct_lookup() -> LookupTable {
    LookupTable::default()
}

fn worker_lookup_len(lookup: &LookupTable, worker: WorkerWithDpRank) -> Option<usize> {
    lookup.get(&worker.key()).map(|worker_lookup| worker_lookup.len())
}

fn local_hashes(query: &[u64]) -> Vec<LocalBlockHash> {
    query.iter().copied().map(LocalBlockHash).collect()
}

fn remove_hashes_with_parent(
    prefix_hashes: &[u64],
    local_hashes: &[u64],
) -> Vec<ExternalSequenceBlockHash> {
    match make_remove_event_with_parent(0, prefix_hashes, local_hashes).event.data {
        KvCacheEventData::Removed(op) => op.block_hashes,
        _ => unreachable!("a remove event"),
    }
}

fn apply_direct(
    index: &mut ConcurrentRadixTreeCompressed,
    lookup: &mut LookupTable,
    event: RouterEvent,
) {
    index.apply_event(lookup, &event).unwrap();
}

fn direct_score(
    index: &ConcurrentRadixTreeCompressed,
    query: &[u64],
    worker: WorkerWithDpRank,
) -> Option<u32> {
    let details = index.find_match_details(&local_hashes(query));
    details.overlap_scores.scores.get(&worker.key()).copied()
}

fn assert_direct_score(
    index: &ConcurrentRadixTreeCompressed,
    query: &[u64],
    worker: WorkerWithDpRank,
    expected: u32,
) {
    assert_eq!(direct_score(index, query, worker), Some(expected));
}

#[derive(Debug, PartialEq, Eq, PartialOrd, Ord)]
struct EdgeTopology {
    edge: Vec<u64>,
    children: Vec<EdgeTopology>,
}

fn edge_topology(edge: &[u64], children: Vec<EdgeTopology>) -> EdgeTopology {
    EdgeTopology { edge: edge.to_vec(), children }
}

fn topology_below(index: &ConcurrentRadixTreeCompressed, node: usize) -> Vec<EdgeTopology> {
    let mut children: Vec<EdgeTopology> = index
        .child_keys(node)
        .into_iter()
        .map(|key| {
            let child = index.child(node, key).unwrap();
            EdgeTopology {
                edge: index.edge_of(child).iter().map(|block| block.0 .0).collect(),
                children: topology_below(index, child),
            }
        })
        .collect();
    children.sort();
    children
}

fn edge_topology_for_test(index: &ConcurrentRadixTreeCompressed) -> Vec<EdgeTopology> {
    topology_below(index, 0)
}

fn gather_lengths(topology: &[EdgeTopology], lengths: &mut Vec<usize>) {
    for edge in topology {
        lengths.push(edge.edge.len());
        gather_lengths(&edge.children, lengths);
    }
}

fn edge_lengths_for_test(index: &ConcurrentRadixTreeCompressed) -> Vec<usize> {
    let mut lengths = Vec::new();
    gather_lengths(&edge_topology_for_test(index), &mut lengths);
    lengths.sort();
    lengths
}

fn raw_child_edge_count(index: &ConcurrentRadixTreeCompressed) -> usize {
    edge_lengths_for_test(index).len()
}

fn assert_edge_lengths(index: &ConcurrentRadixTreeCompressed, expected: &[usize]) {
    assert_eq!(edge_lengths_for_test(index), expected.to_vec());
}

#[test]
fn race_divergent_tail_extensions_split_compressed_leaf() {
    let mut index = ConcurrentRadixTreeCompressed::new();
    let worker1 = worker(1);
    let worker2 = worker(2);
    let mut lookup1 = direct_lookup();
    let mut lookup2 = direct_lookup();

    apply_direct(&mut index, &mut lookup1, make_store_event(1, &[1, 2, 3, 4]));
    apply_direct(&mut index, &mut lookup2, make_store_event(2, &[1, 2, 3, 4]));
    apply_direct(
        &mut index,
        &mut lookup1,
        make_store_event_with_parent(1, &[1, 2, 3, 4], &[5, 6]),
    );
    apply_direct(
        &mut index,
        &mut lookup2,
        make_store_event_with_parent(2, &[1, 2, 3, 4], &[7, 8]),
    );

    assert_eq!(raw_child_edge_count(&index), 3);
    assert_edge_lengths(&index, &[2, 2, 4]);
    assert_direct_score(&index, &[1, 2, 3, 4, 5, 6], worker1, 6);
    assert_direct_score(&index, &[1, 2, 3, 4, 5, 6], worker2, 4);
    assert_direct_score(&index, &[1, 2, 3, 4, 7, 8], worker1, 4);
    assert_direct_score(&index, &[1, 2, 3, 4, 7, 8], worker2, 6);
    assert_eq!(worker_lookup_len(&lookup1, worker1), Some(6));
    assert_eq!(worker_lookup_len(&lookup2, worker2), Some(6));
}

#[test]
fn race_identical_tail_extensions_stay_compressed() {
    let mut index = ConcurrentRadixTreeCompressed::new();
    let worker1 = worker(1);
    let worker2 = worker(2);
    let mut lookup1 = direct_lookup();
    let mut lookup2 = direct_lookup();

    apply_direct(&mut index, &mut lookup1, make_store_event(1, &[1, 2, 3, 4]));
    apply_direct(&mut index, &mut lookup2, make_store_event(2, &[1, 2, 3, 4]));
    apply_direct(
        &mut index,
        &mut lookup1,
        make_store_event_with_parent(1, &[1, 2, 3, 4], &[5, 6]),
    );
    apply_direct(
        &mut index,
        &mut lookup2,
        make_store_event_with_parent(2, &[1, 2, 3, 4], &[5, 6]),
    );

    assert_eq!(raw_child_edge_count(&index), 1);
    assert_edge_lengths(&index, &[6]);
    assert_direct_score(&index, &[1, 2, 3, 4, 5, 6], worker1, 6);
    assert_direct_score(&index, &[1, 2, 3, 4, 5, 6], worker2, 6);
    assert_eq!(worker_lookup_len(&lookup1, worker1), Some(6));
    assert_eq!(worker_lookup_len(&lookup2, worker2), Some(6));
}

#[test]
fn race_suffix_reuse_with_divergent_split_preserves_workers() {
    let mut index = ConcurrentRadixTreeCompressed::new();
    let worker0 = worker(0);
    let worker1 = worker(1);
    let worker2 = worker(2);
    let mut lookup0 = direct_lookup();
    let mut lookup1 = direct_lookup();
    let mut lookup2 = direct_lookup();

    apply_direct(&mut index, &mut lookup0, make_store_event(0, &[1, 2, 3, 4, 5, 6]));
    apply_direct(&mut index, &mut lookup1, make_store_event(1, &[1, 2, 3]));
    apply_direct(&mut index, &mut lookup2, make_store_event(2, &[1, 2, 3]));
    apply_direct(
        &mut index,
        &mut lookup1,
        make_store_event_with_parent(1, &[1, 2, 3], &[4, 5, 6]),
    );
    apply_direct(
        &mut index,
        &mut lookup2,
        make_store_event_with_parent(2, &[1, 2, 3], &[7, 8]),
    );

    assert_eq!(raw_child_edge_count(&index), 3);
    assert_edge_lengths(&index, &[2, 3, 3]);
    assert_direct_score(&index, &[1, 2, 3, 4, 5, 6], worker0, 6);
    assert_direct_score(&index, &[1, 2, 3, 4, 5, 6], worker1, 6);
    assert_direct_score(&index, &[1, 2, 3, 4, 5, 6], worker2, 3);
    assert_direct_score(&index, &[1, 2, 3, 7, 8], worker0, 3);
    assert_direct_score(&index, &[1, 2, 3, 7, 8], worker1, 3);
    assert_direct_score(&index, &[1, 2, 3, 7, 8], worker2, 5);
}

#[test]
fn race_split_with_remove_repairs_stale_lookup_on_restore() {
    let mut index = ConcurrentRadixTreeCompressed::new();
    let worker1 = worker(1);
    let worker2 = worker(2);
    let mut lookup1 = direct_lookup();
    let mut lookup2 = direct_lookup();

    apply_direct(&mut index, &mut lookup1, make_store_event(1, &[1, 2, 3, 4]));
    apply_direct(&mut index, &mut lookup2, make_store_event(2, &[1, 2, 3, 4]));
    apply_direct(&mut index, &mut lookup1, make_store_event_with_parent(1, &[1, 2], &[7]));
    apply_direct(&mut index, &mut lookup2, make_remove_event_with_parent(2, &[1, 2], &[3]));

    assert_direct_score(&index, &[1, 2, 7], worker1, 3);
    assert_direct_score(&index, &[1, 2, 3, 4], worker2, 2);

    apply_direct(
        &mut index,
        &mut lookup2,
        make_store_event_with_parent(2, &[1, 2], &[3, 4]),
    );

    assert_direct_score(&index, &[1, 2, 3, 4], worker2, 4);
}

#[test]
fn race_remove_keeps_children_needed_by_another_full_worker() {
    let mut index = ConcurrentRadixTreeCompressed::new();
    let worker1 = worker(1);
    let worker2 = worker(2);
    let worker3 = worker(3);
    let mut lookup1 = direct_lookup();
    let mut lookup2 = direct_lookup();
    let mut lookup3 = direct_lookup();

    apply_direct(&mut index, &mut lookup1, make_store_event(1, &[1, 2, 3, 4]));
    apply_direct(&mut index, &mut lookup2, make_store_event(2, &[1, 2, 3, 4]));
    apply_direct(
        &mut index,
        &mut lookup1,
        make_store_event_with_parent(1, &[1, 2, 3, 4], &[5, 6]),
    );
    apply_direct(&mut index, &mut lookup3, make_store_event(3, &[1, 2, 3, 4]));
    apply_direct(
        &mut index,
        &mut lookup3,
        make_store_event_with_parent(3, &[1, 2, 3, 4], &[7, 8]),
    );
    assert_direct_score(&index, &[1, 2, 3, 4, 5, 6], worker1, 6);
    apply_direct(&mut index, &mut lookup2, make_remove_event_with_parent(2, &[1], &[2]));

    assert_eq!(raw_child_edge_count(&index), 3);
    assert_edge_lengths(&index, &[2, 2, 4]);
    assert_direct_score(&index, &[1, 2, 3, 4, 5, 6], worker1, 6);
    assert_direct_score(&index, &[1, 2, 3, 4], worker2, 1);
    assert_direct_score(&index, &[1, 2, 3, 4, 7, 8], worker3, 6);
}

#[test]
fn race_cleanup_with_dead_child_reuse_keeps_restored_child() {
    for cleanup_first in [true, false] {
        let mut index = ConcurrentRadixTreeCompressed::new();
        let worker = worker(0);
        let mut lookup = direct_lookup();

        apply_direct(&mut index, &mut lookup, make_store_event(0, &[1, 2, 3]));
        apply_direct(
            &mut index,
            &mut lookup,
            make_store_event_with_parent(0, &[1, 2, 3], &[4, 5]),
        );
        apply_direct(
            &mut index,
            &mut lookup,
            make_store_event_with_parent(0, &[1, 2, 3], &[6, 7]),
        );
        apply_direct(
            &mut index,
            &mut lookup,
            make_remove_event_with_parent(0, &[1, 2, 3], &[4, 5]),
        );
        apply_direct(
            &mut index,
            &mut lookup,
            make_remove_event_with_parent(0, &[1, 2, 3], &[6, 7]),
        );

        assert_eq!(raw_child_edge_count(&index), 3);
        assert_direct_score(&index, &[1, 2, 3], worker, 3);

        if cleanup_first {
            index.run_cleanup_for_test();
        }
        apply_direct(
            &mut index,
            &mut lookup,
            make_store_event_with_parent(0, &[1, 2, 3], &[4, 5]),
        );
        if !cleanup_first {
            index.run_cleanup_for_test();
        }

        let edge_lengths = edge_lengths_for_test(&index);
        assert!(edge_lengths == vec![5] || edge_lengths == vec![2, 3]);
        assert_eq!(raw_child_edge_count(&index), edge_lengths.len());
        assert_direct_score(&index, &[1, 2, 3, 4, 5], worker, 5);
    }
}

#[test]
fn race_find_during_split_never_overcounts() {
    let mut index = ConcurrentRadixTreeCompressed::new();
    let branches: Vec<(WorkerWithDpRank, Vec<u64>)> = vec![
        (worker(1), vec![5, 6]),
        (worker(2), vec![7, 8]),
        (worker(3), vec![9, 10]),
        (worker(4), vec![11, 12]),
    ];
    let mut lookups = Vec::new();
    for (worker, _) in &branches {
        let mut lookup = direct_lookup();
        apply_direct(
            &mut index,
            &mut lookup,
            make_store_event(worker.worker_id, &[1, 2, 3, 4]),
        );
        lookups.push(lookup);
    }
    for (at, (worker, suffix)) in branches.iter().enumerate() {
        apply_direct(
            &mut index,
            &mut lookups[at],
            make_store_event_with_parent(worker.worker_id, &[1, 2, 3, 4], suffix),
        );
        for (branch_worker, suffix) in &branches {
            let mut query = vec![1, 2, 3, 4];
            query.extend(suffix);
            let details = index.find_match_details(&local_hashes(&query));
            for (score_worker, score) in &details.overlap_scores.scores {
                let max_expected = if *score_worker == branch_worker.key() { 6 } else { 4 };
                assert!(*score <= query.len() as u32);
                assert!(*score <= max_expected);
            }
        }
    }

    assert_eq!(raw_child_edge_count(&index), 5);
    assert_edge_lengths(&index, &[2, 2, 2, 2, 4]);
    for (branch_worker, suffix) in &branches {
        let mut query = vec![1, 2, 3, 4];
        query.extend(suffix);
        for (other_worker, _) in &branches {
            let expected = if other_worker == branch_worker { 6 } else { 4 };
            assert_direct_score(&index, &query, *other_worker, expected);
        }
    }
}

#[test]
fn remove_multiple_hashes_from_same_compressed_edge() {
    let mut index = ConcurrentRadixTreeCompressed::new();
    let worker0 = worker(0);
    let worker1 = worker(1);
    let mut lookup0 = direct_lookup();
    let mut lookup1 = direct_lookup();

    apply_direct(&mut index, &mut lookup0, make_store_event(0, &[1, 2, 3, 4, 5, 6]));
    apply_direct(&mut index, &mut lookup1, make_store_event(1, &[1, 2, 3, 4, 5, 6]));

    assert_direct_score(&index, &[1, 2, 3, 4, 5, 6], worker0, 6);
    assert_direct_score(&index, &[1, 2, 3, 4, 5, 6], worker1, 6);

    apply_direct(
        &mut index,
        &mut lookup0,
        make_remove_event_with_parent(0, &[1, 2], &[3, 4, 5]),
    );

    assert_direct_score(&index, &[1, 2, 3, 4, 5, 6], worker0, 2);
    assert_direct_score(&index, &[1, 2, 3, 4, 5, 6], worker1, 6);

    apply_direct(
        &mut index,
        &mut lookup0,
        make_store_event_with_parent(0, &[1, 2], &[3, 4, 5, 6]),
    );

    assert_direct_score(&index, &[1, 2, 3, 4, 5, 6], worker0, 6);
    assert_direct_score(&index, &[1, 2, 3, 4, 5, 6], worker1, 6);
}

#[test]
fn batched_remove_uses_minimum_edge_position_not_event_order() {
    let mut index = ConcurrentRadixTreeCompressed::new();
    let worker0 = worker(0);
    let worker1 = worker(1);
    let mut lookup0 = direct_lookup();
    let mut lookup1 = direct_lookup();

    apply_direct(&mut index, &mut lookup0, make_store_event(0, &[1, 2, 3, 4, 5, 6]));
    apply_direct(&mut index, &mut lookup1, make_store_event(1, &[1, 2, 3, 4, 5, 6]));

    let remove_hashes = remove_hashes_with_parent(&[1, 2], &[3, 4, 5]);
    let out_of_order_hashes = vec![remove_hashes[2], remove_hashes[0], remove_hashes[1]];
    apply_direct(&mut index, &mut lookup0, remove_event(0, 0, 0, out_of_order_hashes));

    assert_direct_score(&index, &[1, 2, 3, 4, 5, 6], worker0, 2);
    assert_direct_score(&index, &[1, 2, 3, 4, 5, 6], worker1, 6);
    assert_eq!(worker_lookup_len(&lookup0, worker0), Some(2));

    apply_direct(
        &mut index,
        &mut lookup0,
        make_store_event_with_parent(0, &[1, 2], &[3, 4, 5, 6]),
    );

    assert_direct_score(&index, &[1, 2, 3, 4, 5, 6], worker0, 6);
    assert_direct_score(&index, &[1, 2, 3, 4, 5, 6], worker1, 6);
    assert_eq!(worker_lookup_len(&lookup0, worker0), Some(6));
}

#[test]
fn batched_remove_processes_hashes_moved_by_split_before_restore() {
    let mut index = ConcurrentRadixTreeCompressed::new();
    let worker0 = worker(0);
    let worker1 = worker(1);
    let mut lookup0 = direct_lookup();
    let mut lookup1 = direct_lookup();

    apply_direct(&mut index, &mut lookup0, make_store_event(0, &[1, 2, 3, 4, 5, 6]));
    apply_direct(&mut index, &mut lookup1, make_store_event(1, &[1, 2, 3, 4, 5, 6]));
    let remove_hashes = remove_hashes_with_parent(&[1, 2], &[3, 4, 5]);
    assert!(lookup0[&worker0.key()].contains_key(&remove_hashes[0].0));

    apply_direct(
        &mut index,
        &mut lookup1,
        make_store_event_with_parent(1, &[1, 2, 3], &[7]),
    );
    assert_eq!(
        edge_topology_for_test(&index),
        vec![edge_topology(
            &[1, 2, 3],
            vec![edge_topology(&[4, 5, 6], vec![]), edge_topology(&[7], vec![])],
        )],
    );

    apply_direct(&mut index, &mut lookup0, remove_event(0, 42, 0, remove_hashes));
    assert_direct_score(&index, &[1, 2, 3, 4, 5, 6], worker0, 2);
    assert_direct_score(&index, &[1, 2, 3, 4, 5, 6], worker1, 6);

    apply_direct(
        &mut index,
        &mut lookup0,
        make_store_event_with_parent(0, &[1, 2], &[3]),
    );

    assert_direct_score(&index, &[1, 2, 3, 4, 5, 6], worker0, 3);
    assert_direct_score(&index, &[1, 2, 3, 4, 5, 6], worker1, 6);
    assert_eq!(worker_lookup_len(&lookup0, worker0), Some(3));
}

#[test]
fn batched_remove_falls_back_when_all_grouped_hashes_move_before_restore() {
    let mut index = ConcurrentRadixTreeCompressed::new();
    let worker0 = worker(0);
    let worker1 = worker(1);
    let mut lookup0 = direct_lookup();
    let mut lookup1 = direct_lookup();

    apply_direct(&mut index, &mut lookup0, make_store_event(0, &[1, 2, 3, 4, 5, 6]));
    apply_direct(&mut index, &mut lookup1, make_store_event(1, &[1, 2, 3, 4, 5, 6]));
    let remove_hashes = remove_hashes_with_parent(&[1, 2, 3], &[4, 5]);
    assert!(lookup0[&worker0.key()].contains_key(&remove_hashes[0].0));

    apply_direct(
        &mut index,
        &mut lookup1,
        make_store_event_with_parent(1, &[1, 2, 3], &[7]),
    );
    assert_eq!(
        edge_topology_for_test(&index),
        vec![edge_topology(
            &[1, 2, 3],
            vec![edge_topology(&[4, 5, 6], vec![]), edge_topology(&[7], vec![])],
        )],
    );

    apply_direct(&mut index, &mut lookup0, remove_event(0, 42, 0, remove_hashes));
    assert_direct_score(&index, &[1, 2, 3, 4, 5, 6], worker0, 3);
    assert_direct_score(&index, &[1, 2, 3, 4, 5, 6], worker1, 6);
    assert_eq!(worker_lookup_len(&lookup0, worker0), Some(3));

    apply_direct(
        &mut index,
        &mut lookup0,
        make_store_event_with_parent(0, &[1, 2, 3], &[4]),
    );

    assert_direct_score(&index, &[1, 2, 3, 4, 5, 6], worker0, 4);
    assert_direct_score(&index, &[1, 2, 3, 4, 5, 6], worker1, 6);
    assert_eq!(worker_lookup_len(&lookup0, worker0), Some(4));
}

#[test]
fn test_internal_split_reparents_existing_children_to_suffix() {
    let mut index = ConcurrentRadixTreeCompressed::new();
    let worker1 = worker(1);
    let worker2 = worker(2);
    let worker3 = worker(3);
    let mut lookup1 = direct_lookup();
    let mut lookup2 = direct_lookup();
    let mut lookup3 = direct_lookup();

    apply_direct(&mut index, &mut lookup1, make_store_event(1, &[1, 2, 3, 4]));
    apply_direct(&mut index, &mut lookup2, make_store_event(2, &[1, 2, 3, 4]));
    apply_direct(
        &mut index,
        &mut lookup1,
        make_store_event_with_parent(1, &[1, 2, 3, 4], &[5, 6]),
    );
    apply_direct(
        &mut index,
        &mut lookup2,
        make_store_event_with_parent(2, &[1, 2, 3, 4], &[7, 8]),
    );

    assert_eq!(
        edge_topology_for_test(&index),
        vec![edge_topology(
            &[1, 2, 3, 4],
            vec![edge_topology(&[5, 6], vec![]), edge_topology(&[7, 8], vec![])],
        )],
    );

    apply_direct(&mut index, &mut lookup3, make_store_event(3, &[1, 2, 3, 4]));
    apply_direct(
        &mut index,
        &mut lookup3,
        make_store_event_with_parent(3, &[1, 2], &[9]),
    );

    assert_eq!(
        edge_topology_for_test(&index),
        vec![edge_topology(
            &[1, 2],
            vec![
                edge_topology(
                    &[3, 4],
                    vec![edge_topology(&[5, 6], vec![]), edge_topology(&[7, 8], vec![])],
                ),
                edge_topology(&[9], vec![]),
            ],
        )],
    );
    assert_direct_score(&index, &[1, 2, 3, 4, 5, 6], worker1, 6);
    assert_direct_score(&index, &[1, 2, 3, 4, 7, 8], worker2, 6);
    assert_direct_score(&index, &[1, 2, 9], worker3, 3);
}

#[test]
fn test_restore_after_mid_chain_remove_updates_score() {
    let mut index = ConcurrentRadixTreeCompressed::new();
    let mut lookup = direct_lookup();
    let worker = worker(0);

    apply_direct(&mut index, &mut lookup, make_store_event(0, &[1, 2, 3]));
    assert_direct_score(&index, &[1, 2, 3], worker, 3);
    assert_eq!(worker_lookup_len(&lookup, worker), Some(3));

    apply_direct(&mut index, &mut lookup, make_remove_event_with_parent(0, &[1], &[2]));
    assert_direct_score(&index, &[1, 2, 3], worker, 1);
    assert_eq!(worker_lookup_len(&lookup, worker), Some(1));

    apply_direct(&mut index, &mut lookup, make_store_event_with_parent(0, &[1], &[2, 3]));
    assert_direct_score(&index, &[1, 2, 3], worker, 3);
    assert_eq!(worker_lookup_len(&lookup, worker), Some(3));
}

#[test]
fn test_cleanup_prunes_dead_children_under_live_prefix() {
    let mut index = ConcurrentRadixTreeCompressed::new();
    let mut lookup = direct_lookup();

    apply_direct(&mut index, &mut lookup, make_store_event(0, &[1, 2, 3]));
    for suffix in [[4, 5], [6, 7]] {
        apply_direct(
            &mut index,
            &mut lookup,
            make_store_event_with_parent(0, &[1, 2, 3], &suffix),
        );
    }
    for suffix in [[4, 5], [6, 7]] {
        apply_direct(
            &mut index,
            &mut lookup,
            make_remove_event_with_parent(0, &[1, 2, 3], &suffix),
        );
    }
    assert_eq!(snapshot_tree(&index), vec![make_store_event(0, &[1, 2, 3])]);
    assert_eq!(raw_child_edge_count(&index), 3);

    index.run_cleanup_for_test();

    assert_eq!(raw_child_edge_count(&index), 1);
    assert_eq!(snapshot_tree(&index), vec![make_store_event(0, &[1, 2, 3])]);
    assert_direct_score(&index, &[1, 2, 3], worker(0), 3);
}

#[test]
fn test_cleanup_does_not_reopen_internal_node_for_extension() {
    let mut index = ConcurrentRadixTreeCompressed::new();
    let mut lookup = direct_lookup();

    apply_direct(&mut index, &mut lookup, make_store_event(0, &[1, 2, 3]));
    for suffix in [[4, 5], [6, 7]] {
        apply_direct(
            &mut index,
            &mut lookup,
            make_store_event_with_parent(0, &[1, 2, 3], &suffix),
        );
    }
    for suffix in [[4, 5], [6, 7]] {
        apply_direct(
            &mut index,
            &mut lookup,
            make_remove_event_with_parent(0, &[1, 2, 3], &suffix),
        );
    }
    index.run_cleanup_for_test();
    assert_edge_lengths(&index, &[3]);

    apply_direct(
        &mut index,
        &mut lookup,
        make_store_event_with_parent(0, &[1, 2, 3], &[8, 9]),
    );

    assert_edge_lengths(&index, &[2, 3]);
    assert_direct_score(&index, &[1, 2, 3, 8, 9], worker(0), 5);
}

#[test]
fn blocks_below_an_unknown_parent_are_refused_and_change_nothing() {
    let mut index = ConcurrentRadixTreeCompressed::new();
    let mut lookup = direct_lookup();
    let refused =
        index.apply_event(&mut lookup, &make_store_event_with_parent(0, &[1, 2], &[3]));
    assert_eq!(refused, Err(KvCacheEventError::ParentBlockNotFound));
    assert_eq!(index.node_count(), 1);
    assert_eq!(direct_score(&index, &[1, 2, 3], worker(0)), None);
}

#[test]
fn removing_blocks_of_an_unknown_worker_is_refused() {
    let mut index = ConcurrentRadixTreeCompressed::new();
    let mut lookup = direct_lookup();
    apply_direct(&mut index, &mut lookup, make_store_event(0, &[1, 2]));
    let refused =
        index.apply_event(&mut lookup, &make_remove_event_with_parent(7, &[1], &[2]));
    assert_eq!(refused, Err(KvCacheEventError::BlockNotFound));
    assert_direct_score(&index, &[1, 2], worker(0), 2);
}

#[test]
fn clearing_takes_every_rank_of_a_worker_and_no_other() {
    let mut index = ConcurrentRadixTreeCompressed::new();
    let mut lookup = direct_lookup();
    apply_direct(&mut index, &mut lookup, make_store_event(0, &[1, 2]));
    apply_direct(&mut index, &mut lookup, make_store_event_with_dp_rank(0, &[1, 2], 1));
    apply_direct(&mut index, &mut lookup, make_store_event(1, &[1, 2]));

    apply_direct(&mut index, &mut lookup, make_clear_event(0));

    assert_eq!(direct_score(&index, &[1, 2], worker(0)), None);
    assert_eq!(direct_score(&index, &[1, 2], WorkerWithDpRank::new(0, 1)), None);
    assert_direct_score(&index, &[1, 2], worker(1), 2);
}

#[test]
fn dropping_one_rank_leaves_its_siblings() {
    let mut index = ConcurrentRadixTreeCompressed::new();
    let mut lookup = direct_lookup();
    apply_direct(&mut index, &mut lookup, make_store_event(0, &[1, 2]));
    apply_direct(&mut index, &mut lookup, make_store_event_with_dp_rank(0, &[1, 2], 1));

    index.remove_worker_dp_rank(&mut lookup, 0, 1);

    assert_direct_score(&index, &[1, 2], worker(0), 2);
    assert_eq!(direct_score(&index, &[1, 2], WorkerWithDpRank::new(0, 1)), None);
}

#[test]
fn a_block_stored_again_after_a_sweep_is_removed() {
    let mut index = ConcurrentRadixTreeCompressed::new();
    let mut lookup = direct_lookup();
    for _ in 0..3 {
        apply_direct(&mut index, &mut lookup, make_store_event(0, &[1, 2]));
        assert_direct_score(&index, &[1, 2], worker(0), 2);
        apply_direct(&mut index, &mut lookup, make_remove_event(0, &[1, 2]));
        assert_eq!(direct_score(&index, &[1, 2], worker(0)), None);
        index.run_cleanup_for_test();
        assert_eq!(raw_child_edge_count(&index), 0);
    }
    apply_direct(&mut index, &mut lookup, make_store_event(0, &[1, 2]));
    assert_direct_score(&index, &[1, 2], worker(0), 2);
}

#[test]
fn places_of_swept_nodes_are_used_again() {
    let mut index = ConcurrentRadixTreeCompressed::new();
    let mut lookup = direct_lookup();
    apply_direct(&mut index, &mut lookup, make_store_event(1, &[9]));
    for round in 0..4 {
        let tail = 10 + round;
        apply_direct(&mut index, &mut lookup, make_store_event(0, &[1, 2, 3]));
        apply_direct(&mut index, &mut lookup, make_store_event(0, &[1, 2, tail]));
        assert_eq!(index.node_count(), 5);
        assert_direct_score(&index, &[1, 2, 3], worker(0), 3);
        assert_direct_score(&index, &[1, 2, tail], worker(0), 3);
        apply_direct(&mut index, &mut lookup, make_clear_event(0));
        index.run_cleanup_for_test();
        assert_eq!(direct_score(&index, &[1, 2, 3], worker(0)), None);
        assert_direct_score(&index, &[9], worker(1), 1);
    }
}

#[test]
fn the_last_matched_hash_is_that_of_the_deepest_block() {
    let mut index = ConcurrentRadixTreeCompressed::new();
    let mut lookup = direct_lookup();
    let event = make_store_event(0, &[1, 2, 3]);
    let hashes: Vec<ExternalSequenceBlockHash> = match &event.event.data {
        KvCacheEventData::Stored(op) => op.blocks.iter().map(|b| b.block_hash).collect(),
        _ => unreachable!("a store event"),
    };
    apply_direct(&mut index, &mut lookup, event);
    let details = index.find_match_details(&local_hashes(&[1, 2, 9]));
    assert_eq!(details.overlap_scores.scores[&(0, 0)], 2);
    assert_eq!(details.last_matched_hashes[&(0, 0)], hashes[1]);
}

fn snapshot_events(mut events: Vec<RouterEvent>) -> Vec<RouterEvent> {
    for event in &mut events {
        event.event.event_id = 0;
    }
    events.sort_by_key(|event| format!("{event:?}"));
    events
}

fn snapshot_tree(index: &ConcurrentRadixTreeCompressed) -> Vec<RouterEvent> {
    snapshot_events(index.dump_tree_as_events())
}

#[test]
fn test_extends_decode_tail_in_place() {
    let mut index = ConcurrentRadixTreeCompressed::new();
    let mut lookup = direct_lookup();

    apply_direct(&mut index, &mut lookup, make_store_event(0, &[1, 2, 3]));
    apply_direct(&mut index, &mut lookup, make_store_event_with_parent(0, &[1, 2, 3], &[4]));
    apply_direct(&mut index, &mut lookup, make_store_event_with_parent(0, &[1, 2, 3, 4], &[5]));
    apply_direct(&mut index, &mut lookup, make_store_event_with_parent(0, &[1, 2, 3, 4, 5], &[6]));

    assert_direct_score(&index, &[1, 2, 3, 4, 5, 6], worker(0), 6);
    assert_eq!(raw_child_edge_count(&index), 1);
    assert_eq!(snapshot_tree(&index), vec![make_store_event(0, &[1, 2, 3, 4, 5, 6])]);
}

#[test]
fn test_extension_downgrade_can_split_later() {
    let mut index = ConcurrentRadixTreeCompressed::new();
    let mut lookup = direct_lookup();
    let worker1 = worker(1);
    let worker2 = worker(2);

    apply_direct(&mut index, &mut lookup, make_store_event(1, &[1, 2, 3]));
    apply_direct(&mut index, &mut lookup, make_store_event(2, &[1, 2, 3]));
    apply_direct(&mut index, &mut lookup, make_store_event_with_parent(1, &[1, 2, 3], &[4, 5, 6]));

    assert_eq!(raw_child_edge_count(&index), 1);
    assert_direct_score(&index, &[1, 2, 3, 4, 5, 6], worker1, 6);
    assert_direct_score(&index, &[1, 2, 3, 4, 5, 6], worker2, 3);

    apply_direct(&mut index, &mut lookup, make_store_event_with_parent(2, &[1, 2, 3], &[7, 8]));

    assert_eq!(raw_child_edge_count(&index), 3);
    assert_direct_score(&index, &[1, 2, 3, 4, 5, 6], worker1, 6);
    assert_direct_score(&index, &[1, 2, 3, 4, 5, 6], worker2, 3);
    assert_direct_score(&index, &[1, 2, 3, 7, 8], worker1, 3);
    assert_direct_score(&index, &[1, 2, 3, 7, 8], worker2, 5);

    let expected = snapshot_events(vec![
        make_store_event(1, &[1, 2, 3]),
        make_store_event_with_parent(1, &[1, 2, 3], &[4, 5, 6]),
        make_store_event(2, &[1, 2, 3]),
        make_store_event_with_parent(2, &[1, 2, 3], &[7, 8]),
    ]);
    assert_eq!(snapshot_tree(&index), expected);
}

#[test]
fn test_reuses_prefix_suffix_and_extends_to_nine() {
    let mut index = ConcurrentRadixTreeCompressed::new();
    let mut lookup = direct_lookup();
    let worker1 = worker(1);
    let worker2 = worker(2);

    apply_direct(&mut index, &mut lookup, make_store_event(1, &[1, 2, 3, 4, 5, 6]));
    assert_eq!(raw_child_edge_count(&index), 1);
    assert_direct_score(&index, &[1, 2, 3, 4, 5, 6], worker1, 6);

    apply_direct(&mut index, &mut lookup, make_store_event(2, &[1, 2, 3]));
    assert_eq!(raw_child_edge_count(&index), 1);
    assert_direct_score(&index, &[1, 2, 3, 4, 5, 6], worker1, 6);
    assert_direct_score(&index, &[1, 2, 3, 4, 5, 6], worker2, 3);

    apply_direct(&mut index, &mut lookup, make_store_event_with_parent(2, &[1, 2, 3], &[4, 5, 6]));
    assert_eq!(raw_child_edge_count(&index), 1);
    assert_direct_score(&index, &[1, 2, 3, 4, 5, 6], worker1, 6);
    assert_direct_score(&index, &[1, 2, 3, 4, 5, 6], worker2, 6);

    apply_direct(
        &mut index,
        &mut lookup,
        make_store_event_with_parent(2, &[1, 2, 3, 4, 5, 6], &[7, 8, 9]),
    );
    assert_eq!(raw_child_edge_count(&index), 1);
    assert_direct_score(&index, &[1, 2, 3, 4, 5, 6, 7, 8, 9], worker1, 6);
    assert_direct_score(&index, &[1, 2, 3, 4, 5, 6, 7, 8, 9], worker2, 9);

    let expected = snapshot_events(vec![
        make_store_event(1, &[1, 2, 3, 4, 5, 6]),
        make_store_event(2, &[1, 2, 3, 4, 5, 6, 7, 8, 9]),
    ]);
    assert_eq!(snapshot_tree(&index), expected);
}

#[test]
fn test_reuses_internal_suffix_and_extends_leaf_without_split() {
    let mut index = ConcurrentRadixTreeCompressed::new();
    let mut lookup = direct_lookup();
    let worker1 = worker(1);
    let worker2 = worker(2);
    let one_to_10: Vec<u64> = (1..=10).collect();
    let one_to_35: Vec<u64> = (1..=35).collect();
    let one_to_40: Vec<u64> = (1..=40).collect();
    let eleven_to_40: Vec<u64> = (11..=40).collect();

    apply_direct(&mut index, &mut lookup, make_store_event(1, &one_to_35));
    apply_direct(&mut index, &mut lookup, make_store_event(2, &one_to_10));

    assert_eq!(raw_child_edge_count(&index), 1);
    assert_direct_score(&index, &one_to_40, worker1, 35);
    assert_direct_score(&index, &one_to_40, worker2, 10);

    apply_direct(
        &mut index,
        &mut lookup,
        make_store_event_with_parent(2, &one_to_10, &eleven_to_40),
    );

    assert_eq!(raw_child_edge_count(&index), 1);
    assert_direct_score(&index, &one_to_40, worker1, 35);
    assert_direct_score(&index, &one_to_40, worker2, 40);

    let expected = snapshot_events(vec![
        make_store_event(1, &one_to_35),
        make_store_event(2, &one_to_40),
    ]);
    assert_eq!(snapshot_tree(&index), expected);
}

#[test]
fn test_partial_node_drops_unreachable_descendants() {
    let mut index = ConcurrentRadixTreeCompressed::new();
    let mut lookup = direct_lookup();

    apply_direct(&mut index, &mut lookup, make_store_event(0, &[1, 2, 3]));
    apply_direct(&mut index, &mut lookup, make_store_event_with_parent(0, &[1, 2, 3], &[4, 5]));
    apply_direct(&mut index, &mut lookup, make_remove_event_with_parent(0, &[1], &[2]));

    assert_eq!(snapshot_tree(&index), vec![make_store_event(0, &[1])]);
}

#[test]
fn a_dump_names_parents_first_and_recreates_the_tree() {
    let mut index = ConcurrentRadixTreeCompressed::new();
    let mut lookup = direct_lookup();
    apply_direct(&mut index, &mut lookup, make_store_event(1, &[1, 2, 3]));
    apply_direct(&mut index, &mut lookup, make_store_event(2, &[1, 2]));
    apply_direct(&mut index, &mut lookup, make_store_event_with_parent(1, &[1, 2, 3], &[4, 5]));
    apply_direct(&mut index, &mut lookup, make_store_event_with_parent(2, &[1, 2], &[7, 8]));
    apply_direct(&mut index, &mut lookup, make_store_event(3, &[9]));

    let dump = index.dump_tree_as_events();
    let ids: Vec<u64> = dump.iter().map(|event| event.event.event_id).collect();
    assert_eq!(ids, (0..dump.len() as u64).collect::<Vec<_>>());

    let mut copy = ConcurrentRadixTreeCompressed::new();
    let mut copy_lookup = direct_lookup();
    for event in dump {
        copy.apply_event(&mut copy_lookup, &event).unwrap();
    }
    for query in [&[1, 2, 3, 4, 5][..], &[1, 2, 7, 8], &[9], &[1, 2, 3]] {
        for id in 1..=3 {
            assert_eq!(
                direct_score(&copy, query, worker(id)),
                direct_score(&index, query, worker(id))
            );
        }
    }
    assert_eq!(snapshot_tree(&copy), snapshot_tree(&index));
}

#[test]
fn stored_blocks_keep_their_hashes_when_edges_are_cut() {
    let mut index = ConcurrentRadixTreeCompressed::new();
    let mut lookup = direct_lookup();
    let stored = make_store_event(1, &[1, 2, 3, 4]);
    let hashes = stored_hashes(&stored);
    apply_direct(&mut index, &mut lookup, stored);
    apply_direct(&mut index, &mut lookup, make_store_event(2, &[1, 2, 9]));

    for len in 1..=4 {
        let query: Vec<u64> = (1..=len as u64).collect();
        let details = index.find_match_details(&local_hashes(&query));
        assert_eq!(details.last_matched_hashes.get(&worker(1).key()), Some(&hashes[len - 1]));
    }
}

fn stored_hashes(event: &RouterEvent) -> Vec<ExternalSequenceBlockHash> {
    match &event.event.data {
        KvCacheEventData::Stored(op) => op.blocks.iter().map(|block| block.block_hash).collect(),
        _ => unreachable!("a store event"),
    }
}

#[test]
fn new_hashes_are_in_the_tree_once() {
    let mut index = ConcurrentRadixTreeCompressed::new();
    let mut lookup = direct_lookup();
    apply_direct(&mut index, &mut lookup, make_store_event(1, &[1, 2, 3, 4]));
    apply_direct(&mut index, &mut lookup, make_store_event(1, &[1, 2, 7]));
    apply_direct(&mut index, &mut lookup, make_store_event_with_parent(1, &[1, 2, 7], &[3, 4]));
    apply_direct(&mut index, &mut lookup, make_store_event(1, &[1, 2, 3, 4]));

    let mut hashes: Vec<u64> = index
        .dump_tree_as_events()
        .iter()
        .flat_map(|event| stored_hashes(event))
        .map(|hash| hash.0)
        .collect();
    assert_eq!(hashes.len(), 7);
    hashes.sort();
    hashes.dedup();
    assert_eq!(hashes.len(), 7);
}

#[test]
fn a_shared_run_is_cut_for_one_worker() {
    let mut index = ConcurrentRadixTreeCompressed::new();
    let mut lookup = direct_lookup();
    let stored = make_store_event(0, &[1, 2, 3, 4, 5, 6]);
    let hashes = stored_hashes(&stored);
    apply_direct(&mut index, &mut lookup, stored);
    apply_direct(&mut index, &mut lookup, make_store_event(1, &[1, 2, 3, 4, 5, 6]));
    let removed = vec![hashes[4], hashes[2], hashes[3]];
    apply_direct(&mut index, &mut lookup, remove_event(0, 0, 0, removed));

    for (i, hash) in hashes.iter().enumerate() {
        assert_eq!(lookup[&worker(0).key()].contains_key(&hash.0), i < 2);
        assert!(lookup[&worker(1).key()].contains_key(&hash.0));
    }
}

#[test]
fn a_new_run_below_a_branch_lies_on_one_edge() {
    let mut index = ConcurrentRadixTreeCompressed::new();
    let mut lookup = direct_lookup();
    apply_direct(&mut index, &mut lookup, make_store_event(0, &[1, 2, 3]));
    apply_direct(&mut index, &mut lookup, make_store_event(0, &[1, 2, 7, 8, 9]));
    assert_eq!(worker_lookup_len(&lookup, worker(0)), Some(6));

    apply_direct(&mut index, &mut lookup, make_remove_event_with_parent(0, &[1, 2], &[7]));
    assert_eq!(worker_lookup_len(&lookup, worker(0)), Some(3));
    assert_direct_score(&index, &[1, 2, 7, 8, 9], worker(0), 2);
    assert_direct_score(&index, &[1, 2, 3], worker(0), 3);
}

#[test]
fn removed_blocks_are_not_found_again() {
    let mut index = ConcurrentRadixTreeCompressed::new();
    let mut lookup = direct_lookup();
    apply_direct(&mut index, &mut lookup, make_store_event(1, &[1, 2, 3]));
    apply_direct(&mut index, &mut lookup, make_store_event(2, &[1, 2, 3]));
    apply_direct(&mut index, &mut lookup, make_remove_event_with_parent(1, &[1], &[2]));
    assert_eq!(direct_score(&index, &[1, 2, 3], worker(1)), Some(1));
    assert_eq!(direct_score(&index, &[1, 2, 3], worker(2)), Some(3));
}

#[test]
fn a_dropped_worker_is_not_found_even_after_a_cut() {
    let mut index = ConcurrentRadixTreeCompressed::new();
    let mut lookup = direct_lookup();
    apply_direct(&mut index, &mut lookup, make_store_event(1, &[1, 2, 3, 4]));
    apply_direct(&mut index, &mut lookup, make_store_event(2, &[1, 2, 9]));
    index.remove_worker_dp_rank(&mut lookup, 1, 0);
    for query in [&[1, 2, 3, 4][..], &[1, 2, 9], &[1]] {
        assert_eq!(direct_score(&index, query, worker(1)), None);
    }
    assert_eq!(direct_score(&index, &[1, 2, 9], worker(2)), Some(3));
}
