//! A shared block cache for development: a set of block hashes that can be asked
//! which blocks of a query it has.

use dashmap::DashSet;
use std::collections::hash_map::RandomState;
use std::ops::Range;
use vstd::prelude::*;

use crate::collections::{
    dash_hashes, dash_hashes_contains, dash_hashes_insert, dash_hashes_is_empty, dash_hashes_len,
    dash_hashes_new, dash_hashes_remove,
};
use crate::protocols::{are_runs_of, hit_count, total_length, SharedCacheHits};
use crate::seqs::lemma_push_contains;

verus! {

/// How the shared cache is started.
#[derive(Clone, Copy, Debug, PartialEq, Eq, Structural)]
pub struct SharedCacheConfig {
    pub port: u16,
}

/// Asks which blocks are there.
#[derive(Debug, PartialEq, Eq)]
pub struct SharedCacheQueryRequest {
    pub block_hashes: Vec<u64>,
}

/// The positions of the blocks that are there, as half-open ranges in ascending
/// order.
#[derive(Debug, PartialEq, Eq)]
pub struct SharedCacheQueryResponse {
    pub ranges: Vec<[u32; 2]>,
}

/// Asks to store blocks.
#[derive(Debug, PartialEq, Eq)]
pub struct StoreRequest {
    pub block_hashes: Vec<u64>,
}

/// Asks to remove blocks.
#[derive(Debug, PartialEq, Eq)]
pub struct RemoveRequest {
    pub block_hashes: Vec<u64>,
}

/// The hashes of the blocks that are there.
pub struct SharedCacheStore {
    blocks: DashSet<u64, RandomState>,
}

impl View for SharedCacheStore {
    type V = Set<u64>;

    closed spec fn view(&self) -> Set<u64> {
        dash_hashes(&self.blocks)
    }
}

/// Which blocks of a query are there.
pub open spec fn hits_in(blocks: Set<u64>, query: Seq<u64>) -> Seq<bool> {
    query.map_values(|h: u64| blocks.contains(h))
}

impl SharedCacheStore {
    /// Nothing is there.
    pub fn new() -> (store: Self)
        ensures
            store@ == Set::<u64>::empty(),
    {
        SharedCacheStore { blocks: dash_hashes_new() }
    }

    /// Stores blocks.
    pub fn store(&mut self, hashes: &[u64])
        ensures
            final(self)@ == old(self)@.union(hashes@.to_set()),
    {
        let ghost before = self@;
        assert(before =~= before.union(hashes@.take(0).to_set()));
        for i in 0..hashes.len()
            invariant
                self@ == before.union(hashes@.take(i as int).to_set()),
        {
            dash_hashes_insert(&mut self.blocks, hashes[i]);
            proof {
                assert(hashes@.take(i + 1) =~= hashes@.take(i as int).push(hashes@[i as int]));
                lemma_push_contains(hashes@.take(i as int), hashes@[i as int]);
                assert(self@ =~= before.union(hashes@.take(i + 1).to_set()));
            }
        }
        assert(hashes@.take(hashes@.len() as int) =~= hashes@);
    }

    /// Removes blocks.
    pub fn remove(&mut self, hashes: &[u64])
        ensures
            final(self)@ == old(self)@.difference(hashes@.to_set()),
    {
        let ghost before = self@;
        assert(before =~= before.difference(hashes@.take(0).to_set()));
        for i in 0..hashes.len()
            invariant
                self@ == before.difference(hashes@.take(i as int).to_set()),
        {
            dash_hashes_remove(&mut self.blocks, hashes[i]);
            proof {
                assert(hashes@.take(i + 1) =~= hashes@.take(i as int).push(hashes@[i as int]));
                lemma_push_contains(hashes@.take(i as int), hashes@[i as int]);
                assert(self@ =~= before.difference(hashes@.take(i + 1).to_set()));
            }
        }
        assert(hashes@.take(hashes@.len() as int) =~= hashes@);
    }

    /// Which blocks of a query are there.
    pub fn check_blocks(&self, block_hashes: &[u64]) -> (hits: SharedCacheHits)
        requires
            block_hashes@.len() <= u32::MAX,
        ensures
            are_runs_of(hits.ranges@, hits_in(self@, block_hashes@)),
            hits.total_hits == hit_count(hits_in(self@, block_hashes@)),
            hits.total_hits == total_length(hits.ranges@),
    {
        let mut hits: Vec<bool> = Vec::new();
        for i in 0..block_hashes.len()
            invariant
                hits@ == hits_in(self@, block_hashes@.take(i as int)),
        {
            hits.push(dash_hashes_contains(&self.blocks, block_hashes[i]));
            assert(hits@ =~= hits_in(self@, block_hashes@.take(i + 1)));
        }
        assert(block_hashes@.take(block_hashes@.len() as int) =~= block_hashes@);
        SharedCacheHits::from_hits(&hits)
    }

    /// Answers a query.
    pub fn answer(&self, request: &SharedCacheQueryRequest) -> (response: SharedCacheQueryResponse)
        requires
            request.block_hashes@.len() <= u32::MAX,
        ensures
            exists|hits: SharedCacheHits|
                #![trigger hits.ranges@]
                are_runs_of(hits.ranges@, hits_in(self@, request.block_hashes@))
                    && response.ranges@.len() == hits.ranges@.len() && forall|i: int|
                    0 <= i < hits.ranges@.len() ==> (#[trigger] response.ranges@[i])@ == seq![
                        hits.ranges@[i].start,
                        hits.ranges@[i].end,
                    ],
    {
        let hits = self.check_blocks(request.block_hashes.as_slice());
        let mut ranges: Vec<[u32; 2]> = Vec::new();
        for i in 0..hits.ranges.len()
            invariant
                ranges@.len() == i,
                forall|j: int|
                    0 <= j < i ==> (#[trigger] ranges@[j])@ == seq![
                        hits.ranges@[j].start,
                        hits.ranges@[j].end,
                    ],
        {
            let pair = [hits.ranges[i].start, hits.ranges[i].end];
            assert(pair@ =~= seq![hits.ranges@[i as int].start, hits.ranges@[i as int].end]);
            ranges.push(pair);
        }
        let response = SharedCacheQueryResponse { ranges };
        assert(are_runs_of(hits.ranges@, hits_in(self@, request.block_hashes@)));
        response
    }

    /// Number of blocks.
    pub fn len(&self) -> (len: usize)
        ensures
            len == self@.len(),
    {
        dash_hashes_len(&self.blocks)
    }

    /// Whether there are no blocks.
    pub fn is_empty(&self) -> (r: bool)
        ensures
            r == (self@ == Set::<u64>::empty()),
    {
        dash_hashes_is_empty(&self.blocks)
    }
}

impl Default for SharedCacheStore {
    fn default() -> (store: Self)
        ensures
            store@ == Set::<u64>::empty(),
    {
        SharedCacheStore::new()
    }
}

/// What is stored is found, and what is removed is not.
pub proof fn stored_blocks_are_found(blocks: Set<u64>, stored: Seq<u64>, removed: Seq<u64>, hash: u64)
    ensures
        stored.contains(hash) ==> blocks.union(stored.to_set()).contains(hash),
        removed.contains(hash) ==> !blocks.difference(removed.to_set()).contains(hash),
        !removed.contains(hash) ==> blocks.difference(removed.to_set()).contains(hash)
            == blocks.contains(hash),
{
}

/// A position of a query is in an answered range exactly if the cache has its block.
pub proof fn ranges_hold_the_blocks_that_are_there(
    blocks: Set<u64>,
    query: Seq<u64>,
    ranges: Seq<Range<u32>>,
    position: int,
)
    requires
        are_runs_of(ranges, hits_in(blocks, query)),
        0 <= position < query.len(),
    ensures
        blocks.contains(query[position]) <==> exists|i: int|
            0 <= i < ranges.len() && (#[trigger] ranges[i]).start <= position < ranges[i].end,
{
    assert(hits_in(blocks, query)[position] == blocks.contains(query[position]));
}

/// A query that goes one block further has one hit more if the cache has the block.
pub proof fn each_block_that_is_there_is_a_hit(blocks: Set<u64>, query: Seq<u64>, next: u64)
    ensures
        hit_count(hits_in(blocks, Seq::empty())) == 0,
        blocks.contains(next) ==> hit_count(hits_in(blocks, query.push(next))) == hit_count(
            hits_in(blocks, query),
        ) + 1,
        !blocks.contains(next) ==> hit_count(hits_in(blocks, query.push(next))) == hit_count(
            hits_in(blocks, query),
        ),
{
    let more = hits_in(blocks, query.push(next));
    assert(more.drop_last() =~= hits_in(blocks, query));
    assert(more.last() == blocks.contains(next));
}

} // verus!
