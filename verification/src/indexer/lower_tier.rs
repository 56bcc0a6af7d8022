//! Blocks in slower memory: one index per tier, and the walk from one tier to the
//! next along a sequence.

use vstd::prelude::*;

use crate::collections::{fx_contains, fx_get, fx_insert, fx_worker_keys, FxMap};
use crate::protocols::{
    stored_blocks_view, ExternalSequenceBlockHash, KvCacheEventData, KvCacheStoredBlockData,
    LocalBlockHash, MatchDetails, OverlapScores, RouterEvent, StorageTier, StoredBlockView,
};
use crate::seqs::lemma_push_contains;

verus! {

/// One block of a worker in a tier: what comes after the parent block, or at the
/// start of a sequence, for a local hash.
#[derive(Clone, Copy, Debug, PartialEq, Eq)]
pub struct LowerTierLink {
    pub worker: (u64, u32),
    pub parent: Option<u64>,
    pub local: u64,
    pub hash: u64,
}

/// Whether a link is the one of a worker after a parent for a local hash.
pub open spec fn links(
    link: LowerTierLink,
    worker: (u64, u32),
    parent: Option<u64>,
    local: u64,
) -> bool {
    link.worker == worker && link.parent == parent && link.local == local
}

/// The block of a worker that follows a parent for a local hash.
pub open spec fn follower(
    all: Seq<LowerTierLink>,
    worker: (u64, u32),
    parent: Option<u64>,
    local: u64,
) -> Option<u64>
    decreases all.len(),
{
    if all.len() == 0 {
        None
    } else if links(all.last(), worker, parent, local) {
        Some(all.last().hash)
    } else {
        follower(all.drop_last(), worker, parent, local)
    }
}

/// Where a worker's match of a sequence goes on: from which position, and after
/// which block.
#[derive(Clone, Copy, Debug, PartialEq, Eq, Structural)]
pub struct LowerTierContinuation {
    pub start_pos: usize,
    pub last_matched_hash: Option<ExternalSequenceBlockHash>,
}

impl LowerTierContinuation {
    pub fn new(start_pos: usize, last_matched_hash: ExternalSequenceBlockHash) -> (c: Self)
        ensures
            c.start_pos == start_pos,
            c.last_matched_hash == Some(last_matched_hash),
    {
        LowerTierContinuation { start_pos, last_matched_hash: Some(last_matched_hash) }
    }

    /// A match that starts without a block before it.
    pub fn from_root(start_pos: usize) -> (c: Self)
        ensures
            c.start_pos == start_pos,
            c.last_matched_hash is None,
    {
        LowerTierContinuation { start_pos, last_matched_hash: None }
    }
}

/// The block that a continuation goes on after.
pub open spec fn anchor(c: LowerTierContinuation) -> Option<u64> {
    match c.last_matched_hash {
        Some(hash) => Some(hash.0),
        None => None,
    }
}

/// Where a worker's match ends in a tier when it goes on from a continuation.
pub open spec fn advanced(
    all: Seq<LowerTierLink>,
    worker: (u64, u32),
    sequence: Seq<LocalBlockHash>,
    c: LowerTierContinuation,
) -> LowerTierContinuation
    decreases sequence.len() - c.start_pos,
{
    if c.start_pos >= sequence.len() || c.start_pos == usize::MAX {
        c
    } else {
        match follower(all, worker, anchor(c), sequence[c.start_pos as int].0) {
            Some(hash) => advanced(
                all,
                worker,
                sequence,
                LowerTierContinuation {
                    start_pos: (c.start_pos + 1) as usize,
                    last_matched_hash: Some(ExternalSequenceBlockHash(hash)),
                },
            ),
            None => c,
        }
    }
}

/// A match never gets shorter, and never longer than the sequence.
pub proof fn advancing_only_extends(
    all: Seq<LowerTierLink>,
    worker: (u64, u32),
    sequence: Seq<LocalBlockHash>,
    c: LowerTierContinuation,
)
    requires
        sequence.len() <= usize::MAX,
    ensures
        c.start_pos <= advanced(all, worker, sequence, c).start_pos,
        c.start_pos <= sequence.len() ==> advanced(all, worker, sequence, c).start_pos
            <= sequence.len(),
        advanced(all, worker, sequence, c).start_pos == c.start_pos ==> advanced(
            all,
            worker,
            sequence,
            c,
        ) == c,
    decreases sequence.len() - c.start_pos,
{
    if c.start_pos < sequence.len() {
        if let Some(hash) = follower(all, worker, anchor(c), sequence[c.start_pos as int].0) {
            advancing_only_extends(
                all,
                worker,
                sequence,
                LowerTierContinuation {
                    start_pos: (c.start_pos + 1) as usize,
                    last_matched_hash: Some(ExternalSequenceBlockHash(hash)),
                },
            );
        }
    }
}

/// The links of blocks that were stored one after the other below a parent block.
pub open spec fn chain_links(
    worker: (u64, u32),
    parent: Option<u64>,
    blocks: Seq<StoredBlockView>,
) -> Seq<LowerTierLink> {
    Seq::new(
        blocks.len(),
        |i: int|
            LowerTierLink {
                worker,
                parent: link_parent(parent, blocks, i),
                local: blocks[i].tokens_hash,
                hash: blocks[i].block_hash,
            },
    )
}

/// The block before one of some blocks that were stored below a parent block.
pub open spec fn link_parent(
    parent: Option<u64>,
    blocks: Seq<StoredBlockView>,
    i: int,
) -> Option<u64> {
    if i == 0 {
        parent
    } else {
        Some(blocks[i - 1].block_hash)
    }
}

/// Whether no two of some blocks come after the same block.
pub open spec fn parents_differ(parent: Option<u64>, blocks: Seq<StoredBlockView>) -> bool {
    forall|i: int, j: int|
        0 <= i < j < blocks.len() ==> #[trigger] link_parent(parent, blocks, i)
            != #[trigger] link_parent(parent, blocks, j)
}

/// Each block of a chain that was stored last follows the block before it.
proof fn lemma_chain_follows(
    all: Seq<LowerTierLink>,
    worker: (u64, u32),
    parent: Option<u64>,
    blocks: Seq<StoredBlockView>,
    n: int,
    i: int,
)
    requires
        parents_differ(parent, blocks),
        0 <= i < n <= blocks.len(),
    ensures
        follower(
            all + chain_links(worker, parent, blocks).take(n),
            worker,
            link_parent(parent, blocks, i),
            blocks[i].tokens_hash,
        ) == Some(blocks[i].block_hash),
    decreases n,
{
    let chain = chain_links(worker, parent, blocks);
    let whole = all + chain.take(n);
    assert(whole.last() == chain[n - 1]);
    assert(whole.drop_last() =~= all + chain.take(n - 1));
    if i < n - 1 {
        assert(link_parent(parent, blocks, i) != link_parent(parent, blocks, n - 1));
        lemma_chain_follows(all, worker, parent, blocks, n - 1, i);
    }
}

/// What was stored is matched: a match that has come to the parent of stored blocks
/// goes on at least to the last of them, along a sequence that they spell.
pub proof fn stored_chain_is_matched(
    all: Seq<LowerTierLink>,
    worker: (u64, u32),
    blocks: Seq<StoredBlockView>,
    sequence: Seq<LocalBlockHash>,
    c: LowerTierContinuation,
    i: int,
)
    requires
        parents_differ(anchor(c), blocks),
        c.start_pos + blocks.len() <= sequence.len() <= usize::MAX,
        forall|j: int|
            0 <= j < blocks.len() ==> sequence[c.start_pos + j].0 == (
            #[trigger] blocks[j]).tokens_hash,
        0 <= i <= blocks.len(),
    ensures
        ({
            let after = all + chain_links(worker, anchor(c), blocks);
            let reached = LowerTierContinuation {
                start_pos: (c.start_pos + i) as usize,
                last_matched_hash: if i == 0 {
                    c.last_matched_hash
                } else {
                    Some(ExternalSequenceBlockHash(blocks[i - 1].block_hash))
                },
            };
            &&& advanced(after, worker, sequence, c) == advanced(after, worker, sequence, reached)
            &&& advanced(after, worker, sequence, c).start_pos >= c.start_pos + i
        }),
    decreases i,
{
    let chain = chain_links(worker, anchor(c), blocks);
    let after = all + chain;
    if i == 0 {
        advancing_only_extends(after, worker, sequence, c);
    } else {
        stored_chain_is_matched(all, worker, blocks, sequence, c, i - 1);
        let before = LowerTierContinuation {
            start_pos: (c.start_pos + (i - 1)) as usize,
            last_matched_hash: if i == 1 {
                c.last_matched_hash
            } else {
                Some(ExternalSequenceBlockHash(blocks[i - 2].block_hash))
            },
        };
        let reached = LowerTierContinuation {
            start_pos: (c.start_pos + i) as usize,
            last_matched_hash: Some(ExternalSequenceBlockHash(blocks[i - 1].block_hash)),
        };
        lemma_chain_follows(all, worker, anchor(c), blocks, blocks.len() as int, i - 1);
        assert(chain.take(blocks.len() as int) =~= chain);
        assert(anchor(before) == link_parent(anchor(c), blocks, i - 1));
        assert(sequence[c.start_pos + (i - 1)].0 == blocks[i - 1].tokens_hash);
        assert(advanced(after, worker, sequence, before) == advanced(
            after,
            worker,
            sequence,
            reached,
        ));
        advancing_only_extends(after, worker, sequence, reached);
    }
}

/// What leaves a tier: some blocks of a rank, or all blocks of a rank or of a worker.
pub enum LowerTierRemoval {
    Blocks { worker: (u64, u32), hashes: Vec<ExternalSequenceBlockHash> },
    Rank((u64, u32)),
    Worker(u64),
}

/// Whether a block leaves.
pub open spec fn leaves(link: LowerTierLink, removal: LowerTierRemoval) -> bool {
    match removal {
        LowerTierRemoval::Blocks { worker, hashes } => link.worker == worker && hashes@.contains(
            ExternalSequenceBlockHash(link.hash),
        ),
        LowerTierRemoval::Rank(worker) => link.worker == worker,
        LowerTierRemoval::Worker(worker_id) => link.worker.0 == worker_id,
    }
}

/// The blocks of a tier that stay.
pub open spec fn without(all: Seq<LowerTierLink>, removal: LowerTierRemoval) -> Seq<LowerTierLink> {
    all.filter(|link: LowerTierLink| !leaves(link, removal))
}

/// What has left a tier is matched there no more, and nothing else changes: blocks that
/// left are not followed to, and ranks of which nothing left are matched as before.
pub proof fn removed_blocks_are_not_matched(
    all: Seq<LowerTierLink>,
    removal: LowerTierRemoval,
    worker: (u64, u32),
    parent: Option<u64>,
    local: u64,
)
    ensures
        follower(without(all, removal), worker, parent, local) matches Some(hash) ==> !leaves(
            LowerTierLink { worker, parent, local, hash },
            removal,
        ),
        (forall|i: int|
            0 <= i < all.len() && (#[trigger] all[i]).worker == worker ==> !leaves(all[i], removal))
            ==> follower(without(all, removal), worker, parent, local) == follower(
            all,
            worker,
            parent,
            local,
        ),
    decreases all.len(),
{
    reveal(Seq::filter);
    let stays = |link: LowerTierLink| !leaves(link, removal);
    if all.len() > 0 {
        let fewer = all.drop_last();
        removed_blocks_are_not_matched(fewer, removal, worker, parent, local);
        if stays(all.last()) {
            let kept = without(all, removal);
            assert(kept =~= without(fewer, removal).push(all.last()));
            assert(kept.drop_last() =~= without(fewer, removal));
        }
        assert forall|i: int|
            0 <= i < fewer.len() && (#[trigger] fewer[i]).worker == worker && (forall|j: int|
                0 <= j < all.len() && (#[trigger] all[j]).worker == worker ==> !leaves(
                    all[j],
                    removal,
                )) implies !leaves(fewer[i], removal) by {
            assert(all[i] == fewer[i]);
        }
    }
}

/// What an event of a rank makes of a tier's blocks.
pub open spec fn tier_after(all: Seq<LowerTierLink>, event: RouterEvent) -> Seq<LowerTierLink> {
    let worker = (event.worker_id, event.event.dp_rank);
    match event.event.data {
        KvCacheEventData::Stored(op) => all + chain_links(
            worker,
            match op.parent_hash {
                Some(hash) => Some(hash.0),
                None => None,
            },
            stored_blocks_view(op.blocks@),
        ),
        KvCacheEventData::Removed(op) => without(
            all,
            LowerTierRemoval::Blocks { worker, hashes: op.block_hashes },
        ),
        KvCacheEventData::Cleared => without(all, LowerTierRemoval::Worker(event.worker_id)),
    }
}

/// Removal is of one rank or worker: every other rank is matched as before.
pub proof fn removal_leaves_other_ranks(
    all: Seq<LowerTierLink>,
    removal: LowerTierRemoval,
    v: (u64, u32),
    parent: Option<u64>,
    local: u64,
)
    requires
        match removal {
            LowerTierRemoval::Blocks { worker, .. } => v != worker,
            LowerTierRemoval::Rank(worker) => v != worker,
            LowerTierRemoval::Worker(worker_id) => v.0 != worker_id,
        },
    ensures
        follower(without(all, removal), v, parent, local) == follower(all, v, parent, local),
{
    removed_blocks_are_not_matched(all, removal, v, parent, local);
}

/// A rank or a worker that leaves a tier matches nothing there any more.
pub proof fn removed_ranks_match_nothing(
    all: Seq<LowerTierLink>,
    removal: LowerTierRemoval,
    v: (u64, u32),
    parent: Option<u64>,
    local: u64,
)
    requires
        match removal {
            LowerTierRemoval::Blocks { .. } => false,
            LowerTierRemoval::Rank(worker) => v == worker,
            LowerTierRemoval::Worker(worker_id) => v.0 == worker_id,
        },
    ensures
        follower(without(all, removal), v, parent, local) is None,
{
    removed_blocks_are_not_matched(all, removal, v, parent, local);
}

/// A removal event takes the named blocks from the rank that sent it and no others: its
/// rank is led to none of them, is led where it was led if that is not one of them, and
/// is led nowhere that it was not led before; all other ranks are matched as before.
pub proof fn removal_events_take_named_blocks_of_their_rank(
    all: Seq<LowerTierLink>,
    event: RouterEvent,
    v: (u64, u32),
    parent: Option<u64>,
    local: u64,
)
    requires
        event.event.data is Removed,
    ensures
        ({
            let removed = event.event.data->Removed_0.block_hashes@;
            let before = follower(all, v, parent, local);
            let after = follower(tier_after(all, event), v, parent, local);
            if v == (event.worker_id, event.event.dp_rank) {
                &&& after matches Some(hash) ==> !removed.contains(ExternalSequenceBlockHash(hash))
                &&& before matches Some(hash) ==> !removed.contains(ExternalSequenceBlockHash(hash))
                    ==> after == before
                &&& before is None ==> after is None
            } else {
                after == before
            }
        }),
{
    let worker = (event.worker_id, event.event.dp_rank);
    let hashes = event.event.data->Removed_0.block_hashes;
    let removal = LowerTierRemoval::Blocks { worker, hashes };
    if v == worker {
        removed_blocks_are_not_matched(all, removal, v, parent, local);
        lemma_kept_follower(all, removal, v, parent, local);
    } else {
        removal_leaves_other_ranks(all, removal, v, parent, local);
    }
}

/// Where a match is led to a block that stays, it still is; where it was led nowhere, it
/// still is not.
proof fn lemma_kept_follower(
    all: Seq<LowerTierLink>,
    removal: LowerTierRemoval,
    worker: (u64, u32),
    parent: Option<u64>,
    local: u64,
)
    ensures
        follower(all, worker, parent, local) matches Some(hash) ==> !leaves(
            LowerTierLink { worker, parent, local, hash },
            removal,
        ) ==> follower(without(all, removal), worker, parent, local) == Some(hash),
        follower(all, worker, parent, local) is None ==> follower(
            without(all, removal),
            worker,
            parent,
            local,
        ) is None,
    decreases all.len(),
{
    reveal(Seq::filter);
    if all.len() > 0 {
        let fewer = all.drop_last();
        lemma_kept_follower(fewer, removal, worker, parent, local);
        if !leaves(all.last(), removal) {
            let kept = without(all, removal);
            assert(kept =~= without(fewer, removal).push(all.last()));
            assert(kept.drop_last() =~= without(fewer, removal));
        }
    }
}

/// A clear event empties a tier of all ranks of the worker that sent it, and of no other
/// worker's.
pub proof fn clear_events_empty_their_worker(
    all: Seq<LowerTierLink>,
    event: RouterEvent,
    v: (u64, u32),
    parent: Option<u64>,
    local: u64,
)
    requires
        event.event.data is Cleared,
    ensures
        follower(tier_after(all, event), v, parent, local) == if v.0 == event.worker_id {
            None
        } else {
            follower(all, v, parent, local)
        },
{
    let removal = LowerTierRemoval::Worker(event.worker_id);
    if v.0 == event.worker_id {
        removed_ranks_match_nothing(all, removal, v, parent, local);
    } else {
        removal_leaves_other_ranks(all, removal, v, parent, local);
    }
}

/// A store event adds blocks for its own rank only.
pub proof fn store_events_leave_other_ranks(
    all: Seq<LowerTierLink>,
    event: RouterEvent,
    v: (u64, u32),
    parent: Option<u64>,
    local: u64,
)
    requires
        event.event.data is Stored,
        v != (event.worker_id, event.event.dp_rank),
    ensures
        follower(tier_after(all, event), v, parent, local) == follower(all, v, parent, local),
{
    let worker = (event.worker_id, event.event.dp_rank);
    let op = event.event.data->Stored_0;
    let above = match op.parent_hash {
        Some(hash) => Some(hash.0),
        None => None,
    };
    let chain = chain_links(worker, above, stored_blocks_view(op.blocks@));
    assert(all + chain =~= tier_after(all, event));
    lemma_others_follow_past(all, chain, v, parent, local);
}

proof fn lemma_others_follow_past(
    all: Seq<LowerTierLink>,
    more: Seq<LowerTierLink>,
    v: (u64, u32),
    parent: Option<u64>,
    local: u64,
)
    requires
        forall|i: int| 0 <= i < more.len() ==> !links(#[trigger] more[i], v, parent, local),
    ensures
        follower(all + more, v, parent, local) == follower(all, v, parent, local),
    decreases more.len(),
{
    if more.len() == 0 {
        assert(all + more =~= all);
    } else {
        let fewer = more.drop_last();
        assert forall|i: int| 0 <= i < fewer.len() implies !links(
            #[trigger] fewer[i],
            v,
            parent,
            local,
        ) by {
            assert(fewer[i] == more[i]);
        }
        lemma_others_follow_past(all, fewer, v, parent, local);
        assert((all + more).drop_last() =~= all + fewer);
        assert((all + more).last() == more[more.len() - 1]);
    }
}

/// After a store event its rank is led from each stored block to the next, and from the
/// parent, or the start of a sequence, to the first, each for its local hash; and it is
/// led as before from every other block. No block may be stored twice, nor after itself.
pub proof fn stored_blocks_follow_each_other(
    all: Seq<LowerTierLink>,
    event: RouterEvent,
    op: crate::protocols::KvCacheStoreData,
)
    requires
        event.event.data == KvCacheEventData::Stored(op),
        forall|i: int, j: int|
            0 <= i < j < op.blocks@.len() ==> (#[trigger] op.blocks@[i]).block_hash != (
            #[trigger] op.blocks@[j]).block_hash,
        op.parent_hash matches Some(hash) ==> forall|i: int|
            0 <= i < op.blocks@.len() ==> (#[trigger] op.blocks@[i]).block_hash != hash,
    ensures
        ({
            let w = (event.worker_id, event.event.dp_rank);
            let after = tier_after(all, event);
            &&& op.blocks@.len() > 0 ==> follower(
                after,
                w,
                match op.parent_hash {
                    Some(hash) => Some(hash.0),
                    None => None,
                },
                op.blocks@[0].tokens_hash.0,
            ) == Some(op.blocks@[0].block_hash.0)
            &&& forall|i: int|
                0 < i < op.blocks@.len() ==> follower(
                    after,
                    w,
                    Some(op.blocks@[i - 1].block_hash.0),
                    (#[trigger] op.blocks@[i]).tokens_hash.0,
                ) == Some(op.blocks@[i].block_hash.0)
            &&& forall|parent: Option<u64>, local: u64|
                (forall|i: int|
                    0 <= i < op.blocks@.len() ==> parent != Some(
                        (#[trigger] op.blocks@[i]).block_hash.0,
                    )) && parent != (match op.parent_hash {
                    Some(hash) => Some(hash.0),
                    None => None,
                }) ==> #[trigger] follower(after, w, parent, local) == follower(
                    all,
                    w,
                    parent,
                    local,
                )
        }),
{
    let w = (event.worker_id, event.event.dp_rank);
    let above = match op.parent_hash {
        Some(hash) => Some(hash.0),
        None => None,
    };
    let blocks = stored_blocks_view(op.blocks@);
    let chain = chain_links(w, above, blocks);
    let after = tier_after(all, event);
    assert(after =~= all + chain);
    assert(chain.take(blocks.len() as int) =~= chain);
    assert forall|i: int| 0 <= i < blocks.len() implies (#[trigger] blocks[i]).block_hash
        == op.blocks@[i].block_hash.0 && blocks[i].tokens_hash == op.blocks@[i].tokens_hash.0 by {}
    assert(parents_differ(above, blocks)) by {
        assert forall|i: int, j: int| 0 <= i < j < blocks.len() implies #[trigger] link_parent(
            above,
            blocks,
            i,
        ) != #[trigger] link_parent(above, blocks, j) by {
            assert(op.blocks@[j - 1].block_hash.0 == blocks[j - 1].block_hash);
            if i > 0 {
                assert(op.blocks@[i - 1].block_hash != op.blocks@[j - 1].block_hash);
            }
        }
    }
    if blocks.len() > 0 {
        lemma_chain_follows(all, w, above, blocks, blocks.len() as int, 0);
    }
    assert forall|i: int| 0 < i < op.blocks@.len() implies follower(
        after,
        w,
        Some(op.blocks@[i - 1].block_hash.0),
        (#[trigger] op.blocks@[i]).tokens_hash.0,
    ) == Some(op.blocks@[i].block_hash.0) by {
        lemma_chain_follows(all, w, above, blocks, blocks.len() as int, i);
    }
    assert forall|parent: Option<u64>, local: u64|
        (forall|i: int|
            0 <= i < op.blocks@.len() ==> parent != Some((#[trigger] op.blocks@[i]).block_hash.0))
            && parent != above implies #[trigger] follower(after, w, parent, local) == follower(
        all,
        w,
        parent,
        local,
    ) by {
        assert forall|i: int| 0 <= i < chain.len() implies !links(
            #[trigger] chain[i],
            w,
            parent,
            local,
        ) by {
            if i > 0 {
                assert(parent != Some(op.blocks@[i - 1].block_hash.0));
            }
        }
        lemma_others_follow_past(all, chain, w, parent, local);
    }
}

/// A match goes on exactly as far as a rank's blocks follow each other along the
/// sequence. `hashes` are blocks that do so, each after the one before, from the
/// continuation on: the match gets at least past them, and where nothing follows the last
/// of them for the next local hash, or the sequence is over, it ends right there.
pub proof fn match_goes_as_far_as_blocks_follow(
    all: Seq<LowerTierLink>,
    worker: (u64, u32),
    sequence: Seq<LocalBlockHash>,
    c: LowerTierContinuation,
    hashes: Seq<u64>,
)
    requires
        c.start_pos + hashes.len() <= sequence.len() <= usize::MAX,
        hashes.len() > 0 ==> follower(
            all,
            worker,
            match c.last_matched_hash {
                Some(hash) => Some(hash.0),
                None => None,
            },
            sequence[c.start_pos as int].0,
        ) == Some(hashes[0]),
        forall|k: int|
            0 < k < hashes.len() ==> follower(
                all,
                worker,
                Some(hashes[k - 1]),
                sequence[c.start_pos + k].0,
            ) == Some(#[trigger] hashes[k]),
    ensures
        advanced(all, worker, sequence, c).start_pos >= c.start_pos + hashes.len(),
        c.start_pos + hashes.len() == sequence.len() || follower(
            all,
            worker,
            if hashes.len() > 0 {
                Some(hashes.last())
            } else {
                match c.last_matched_hash {
                    Some(hash) => Some(hash.0),
                    None => None,
                }
            },
            sequence[c.start_pos + hashes.len()].0,
        ) is None ==> advanced(all, worker, sequence, c) == (LowerTierContinuation {
            start_pos: (c.start_pos + hashes.len()) as usize,
            last_matched_hash: if hashes.len() > 0 {
                Some(ExternalSequenceBlockHash(hashes.last()))
            } else {
                c.last_matched_hash
            },
        }),
    decreases hashes.len(),
{
    if hashes.len() == 0 {
        advancing_only_extends(all, worker, sequence, c);
    } else {
        let next = LowerTierContinuation {
            start_pos: (c.start_pos + 1) as usize,
            last_matched_hash: Some(ExternalSequenceBlockHash(hashes[0])),
        };
        let rest = hashes.skip(1);
        assert forall|k: int| 0 < k < rest.len() implies follower(
            all,
            worker,
            Some(rest[k - 1]),
            sequence[next.start_pos + k].0,
        ) == Some(#[trigger] rest[k]) by {
            assert(rest[k] == hashes[k + 1]);
            assert(rest[k - 1] == hashes[k]);
            assert(sequence[c.start_pos + (k + 1)] == sequence[next.start_pos + k]);
        }
        if rest.len() > 0 {
            assert(rest[0] == hashes[1]);
            assert(rest.last() == hashes.last());
        }
        match_goes_as_far_as_blocks_follow(all, worker, sequence, next, rest);
        assert(advanced(all, worker, sequence, c) == advanced(all, worker, sequence, next));
    }
}

/// Ranks that are led alike in two tiers match alike in them.
pub proof fn matches_depend_on_a_ranks_own_blocks(
    before: Seq<LowerTierLink>,
    after: Seq<LowerTierLink>,
    worker: (u64, u32),
    sequence: Seq<LocalBlockHash>,
    c: LowerTierContinuation,
)
    requires
        forall|parent: Option<u64>, local: u64| #[trigger]
            follower(after, worker, parent, local) == follower(before, worker, parent, local),
    ensures
        advanced(after, worker, sequence, c) == advanced(before, worker, sequence, c),
    decreases sequence.len() - c.start_pos,
{
    if c.start_pos < sequence.len() && c.start_pos != usize::MAX {
        let local = sequence[c.start_pos as int].0;
        assert(follower(after, worker, anchor(c), local) == follower(
            before,
            worker,
            anchor(c),
            local,
        ));
        if let Some(hash) = follower(before, worker, anchor(c), local) {
            matches_depend_on_a_ranks_own_blocks(
                before,
                after,
                worker,
                sequence,
                LowerTierContinuation {
                    start_pos: (c.start_pos + 1) as usize,
                    last_matched_hash: Some(ExternalSequenceBlockHash(hash)),
                },
            );
        }
    }
}

/// No event of one worker changes how far a rank of another worker matches any sequence.
pub proof fn events_leave_other_matches(
    all: Seq<LowerTierLink>,
    event: RouterEvent,
    v: (u64, u32),
    sequence: Seq<LocalBlockHash>,
    c: LowerTierContinuation,
)
    requires
        v.0 != event.worker_id || (v.1 != event.event.dp_rank && !(event.event.data is Cleared)),
    ensures
        advanced(tier_after(all, event), v, sequence, c) == advanced(all, v, sequence, c),
{
    let after = tier_after(all, event);
    assert forall|parent: Option<u64>, local: u64| #[trigger]
        follower(after, v, parent, local) == follower(all, v, parent, local) by {
        match event.event.data {
            KvCacheEventData::Stored(_) => store_events_leave_other_ranks(
                all,
                event,
                v,
                parent,
                local,
            ),
            KvCacheEventData::Removed(_) => removal_events_take_named_blocks_of_their_rank(
                all,
                event,
                v,
                parent,
                local,
            ),
            KvCacheEventData::Cleared => clear_events_empty_their_worker(
                all,
                event,
                v,
                parent,
                local,
            ),
        }
    }
    matches_depend_on_a_ranks_own_blocks(all, after, v, sequence, c);
}

/// What a tier adds to the matches of a sequence.
pub struct LowerTierMatchDetails {
    /// How many more blocks each worker matches in this tier.
    pub hits: FxMap<(u64, u32), usize>,
    /// Where the matches end.
    pub next_continuations: FxMap<(u64, u32), LowerTierContinuation>,
}

/// Whether match details are those of a tier for some continuations.
pub open spec fn tier_matches(
    all: Seq<LowerTierLink>,
    sequence: Seq<LocalBlockHash>,
    continuations: Map<(u64, u32), LowerTierContinuation>,
    hits: Map<(u64, u32), usize>,
    next: Map<(u64, u32), LowerTierContinuation>,
) -> bool {
    &&& hits.dom() == continuations.dom()
    &&& next.dom() == continuations.dom()
    &&& forall|w: (u64, u32)| #[trigger]
        continuations.dom().contains(w) ==> next[w] == advanced(
            all,
            w,
            sequence,
            continuations[w],
        ) && hits[w] == next[w].start_pos - continuations[w].start_pos
}

/// The index of one tier.
pub struct LowerTierIndexer {
    links: Vec<LowerTierLink>,
}

impl View for LowerTierIndexer {
    type V = Seq<LowerTierLink>;

    closed spec fn view(&self) -> Seq<LowerTierLink> {
        self.links@
    }
}

impl LowerTierIndexer {
    /// The index of a tier without blocks.
    pub fn new() -> (indexer: Self)
        ensures
            indexer@ == Seq::<LowerTierLink>::empty(),
    {
        LowerTierIndexer { links: Vec::new() }
    }

    /// Records a block of a worker. It goes before older ones in the same place.
    pub fn store(&mut self, link: LowerTierLink)
        ensures
            final(self)@ == old(self)@.push(link),
    {
        self.links.push(link);
    }

    /// Drops what leaves the tier.
    pub fn remove(&mut self, removal: &LowerTierRemoval)
        ensures
            final(self)@ == without(old(self)@, *removal),
    {
        let ghost all = self.links@;
        let ghost stays = |link: LowerTierLink| !leaves(link, *removal);
        let mut kept: Vec<LowerTierLink> = Vec::new();
        assert(all.take(0).filter(stays) =~= Seq::empty()) by {
            reveal(Seq::filter);
        }
        for i in 0..self.links.len()
            invariant
                self.links@ == all,
                stays == (|link: LowerTierLink| !leaves(link, *removal)),
                kept@ == all.take(i as int).filter(stays),
        {
            let link = self.links[i];
            let gone = match removal {
                LowerTierRemoval::Blocks { worker, hashes } => link.worker.0 == worker.0
                    && link.worker.1 == worker.1 && names_block(hashes, link.hash),
                LowerTierRemoval::Rank(worker) => link.worker.0 == worker.0 && link.worker.1
                    == worker.1,
                LowerTierRemoval::Worker(worker_id) => link.worker.0 == *worker_id,
            };
            assert(gone == leaves(link, *removal));
            proof {
                reveal(Seq::filter);
                assert(all.take(i + 1).drop_last() =~= all.take(i as int));
                assert(all.take(i + 1).last() == link);
            }
            if !gone {
                kept.push(link);
            }
        }
        assert(all.take(all.len() as int) =~= all);
        self.links = kept;
    }

    fn follower_of(&self, worker: (u64, u32), parent: Option<u64>, local: u64) -> (hash: Option<
        u64,
    >)
        ensures
            hash == follower(self@, worker, parent, local),
    {
        let mut left = self.links.len();
        assert(self@.take(left as int) =~= self@);
        while left > 0
            invariant
                left <= self.links@.len(),
                follower(self@, worker, parent, local) == follower(
                    self@.take(left as int),
                    worker,
                    parent,
                    local,
                ),
            decreases left,
        {
            let link = self.links[left - 1];
            let same_parent = match (link.parent, parent) {
                (Some(a), Some(b)) => a == b,
                (None, None) => true,
                _ => false,
            };
            assert(self@.take(left as int).last() == link);
            assert(self@.take(left as int).drop_last() =~= self@.take(left - 1));
            if link.worker.0 == worker.0 && link.worker.1 == worker.1 && same_parent && link.local
                == local {
                assert(links(link, worker, parent, local));
                return Some(link.hash);
            }
            assert(!links(link, worker, parent, local));
            left -= 1;
        }
        None
    }

    /// The workers that have a sequence's first block in this tier.
    pub fn root_workers(&self, first: LocalBlockHash) -> (workers: Vec<(u64, u32)>)
        ensures
            forall|w: (u64, u32)| #[trigger]
                workers@.contains(w) <==> follower(self@, w, None, first.0) is Some,
    {
        let mut workers: Vec<(u64, u32)> = Vec::new();
        for i in 0..self.links.len()
            invariant
                forall|w: (u64, u32)| #[trigger]
                    workers@.contains(w) <==> follower(self@.take(i as int), w, None, first.0) is Some,
        {
            let link = self.links[i];
            let ghost before = workers@;
            proof {
                assert(self@.take(i + 1).drop_last() =~= self@.take(i as int));
                assert(self@.take(i + 1).last() == link);
                lemma_push_contains(before, link.worker);
            }
            let rooted = match link.parent {
                None => true,
                Some(_) => false,
            };
            if rooted && link.local == first.0 {
                workers.push(link.worker);
            }
        }
        assert(self@.take(self@.len() as int) =~= self@);
        workers
    }

    /// How far each match of a sequence goes on in this tier.
    pub fn query_match_details(
        &self,
        sequence: &[LocalBlockHash],
        continuations: &FxMap<(u64, u32), LowerTierContinuation>,
    ) -> (details: LowerTierMatchDetails)
        ensures
            tier_matches(
                self@,
                sequence@,
                continuations@,
                details.hits@,
                details.next_continuations@,
            ),
    {
        let workers = fx_worker_keys(continuations);
        let mut hits: FxMap<(u64, u32), usize> = FxMap::default();
        let mut next_continuations: FxMap<(u64, u32), LowerTierContinuation> = FxMap::default();
        for i in 0..workers.len()
            invariant
                workers@.to_set() == continuations@.dom(),
                hits@.dom() == workers@.take(i as int).to_set(),
                next_continuations@.dom() == workers@.take(i as int).to_set(),
                forall|w: (u64, u32)| #[trigger]
                    hits@.dom().contains(w) ==> next_continuations@[w] == advanced(
                        self@,
                        w,
                        sequence@,
                        continuations@[w],
                    ) && hits@[w] == next_continuations@[w].start_pos - continuations@[w].start_pos,
        {
            let worker = workers[i];
            assert(workers@.to_set().contains(worker));
            proof {
                let done = workers@.take(i as int);
                assert(workers@.take(i + 1) =~= done.push(worker));
                assert(done.push(worker).to_set() =~= done.to_set().insert(worker)) by {
                    lemma_push_contains(done, worker);
                }
            }
            if let Some(start) = fx_get(continuations, &worker) {
                let start = *start;
                let mut at = start;
                let len = sequence.len();
                while at.start_pos < len
                    invariant
                        len == sequence@.len(),
                        at.start_pos >= start.start_pos,
                        advanced(self@, worker, sequence@, at) == advanced(
                            self@,
                            worker,
                            sequence@,
                            start,
                        ),
                        at.start_pos <= len || at == start,
                    ensures
                        at == advanced(self@, worker, sequence@, start),
                        at.start_pos >= start.start_pos,
                    decreases len - at.start_pos,
                {
                    let parent = match at.last_matched_hash {
                        Some(hash) => Some(hash.0),
                        None => None,
                    };
                    match self.follower_of(worker, parent, sequence[at.start_pos].0) {
                        Some(hash) => {
                            at = LowerTierContinuation::new(
                                at.start_pos + 1,
                                ExternalSequenceBlockHash(hash),
                            );
                        },
                        None => {
                            break ;
                        },
                    }
                }
                fx_insert(&mut hits, worker, at.start_pos - start.start_pos);
                fx_insert(&mut next_continuations, worker, at);
            }
            assert(hits@.dom() =~= workers@.take(i + 1).to_set());
            assert(next_continuations@.dom() =~= workers@.take(i + 1).to_set());
        }
        assert(workers@.take(workers@.len() as int) =~= workers@);
        LowerTierMatchDetails { hits, next_continuations }
    }
}

fn names_block(hashes: &Vec<ExternalSequenceBlockHash>, hash: u64) -> (r: bool)
    ensures
        r == hashes@.contains(ExternalSequenceBlockHash(hash)),
{
    for i in 0..hashes.len()
        invariant
            forall|j: int| 0 <= j < i ==> (#[trigger] hashes@[j]).0 != hash,
    {
        if hashes[i].0 == hash {
            assert(hashes@[i as int] == ExternalSequenceBlockHash(hash));
            return true;
        }
    }
    false
}

/// The matches on the device and in each lower tier that has an index.
pub struct TieredMatchDetails {
    pub device: MatchDetails,
    pub lower_tier: Vec<(StorageTier, LowerTierMatchDetails)>,
}

/// Model of what a tier adds to the matches of a sequence.
pub struct TierMatchView {
    pub hits: Map<(u64, u32), usize>,
    pub next: Map<(u64, u32), LowerTierContinuation>,
}

/// Model of a list of tiers with their matches.
pub open spec fn tiers_view(entries: Seq<(StorageTier, LowerTierMatchDetails)>) -> Seq<
    (StorageTier, TierMatchView),
> {
    entries.map_values(
        |e: (StorageTier, LowerTierMatchDetails)|
            (e.0, TierMatchView { hits: e.1.hits@, next: e.1.next_continuations@ }),
    )
}

/// Whether no tier is listed twice.
pub open spec fn tiers_differ(entries: Seq<(StorageTier, TierMatchView)>) -> bool {
    forall|i: int, j: int|
        0 <= i < j < entries.len() ==> (#[trigger] entries[i]).0 != (#[trigger] entries[j]).0
}

/// What a list has last for a tier.
pub open spec fn last_for(entries: Seq<(StorageTier, TierMatchView)>, tier: StorageTier) -> Option<
    TierMatchView,
>
    decreases entries.len(),
{
    if entries.len() == 0 {
        None
    } else if entries.last().0 == tier {
        Some(entries.last().1)
    } else {
        last_for(entries.drop_last(), tier)
    }
}

/// What is last for a tier is listed, and where it is listed once it is the last.
proof fn lemma_last_for(entries: Seq<(StorageTier, TierMatchView)>, tier: StorageTier)
    ensures
        last_for(entries, tier) matches Some(m) ==> entries.contains((tier, m)),
        last_for(entries, tier) is None ==> forall|i: int|
            0 <= i < entries.len() ==> (#[trigger] entries[i]).0 != tier,
        tiers_differ(entries) ==> forall|m: TierMatchView| #[trigger]
            entries.contains((tier, m)) ==> last_for(entries, tier) == Some(m),
    decreases entries.len(),
{
    if entries.len() > 0 {
        let fewer = entries.drop_last();
        lemma_last_for(fewer, tier);
        if entries.last().0 == tier {
            assert(entries[entries.len() - 1] == (tier, entries.last().1));
        } else if let Some(m) = last_for(fewer, tier) {
            let i = choose|i: int| 0 <= i < fewer.len() && fewer[i] == (tier, m);
            assert(entries[i] == (tier, m));
        } else {
            assert forall|i: int| 0 <= i < entries.len() implies (#[trigger] entries[i]).0
                != tier by {
                if i < fewer.len() {
                    assert(fewer[i] == entries[i]);
                }
            }
        }
        if tiers_differ(entries) {
            assert(tiers_differ(fewer)) by {
                assert forall|i: int, j: int| 0 <= i < j < fewer.len() implies (
                #[trigger] fewer[i]).0 != (#[trigger] fewer[j]).0 by {
                    assert(entries[i].0 != entries[j].0);
                }
            }
            assert forall|m: TierMatchView| #[trigger] entries.contains((tier, m)) implies last_for(
                entries,
                tier,
            ) == Some(m) by {
                let i = choose|i: int| 0 <= i < entries.len() && entries[i] == (tier, m);
                if i < fewer.len() {
                    assert(fewer[i] == (tier, m));
                    assert(fewer.contains((tier, m)));
                    assert(entries[i].0 != entries[entries.len() - 1].0);
                }
            }
        }
    }
}

/// Tiered matches as they are sent: the scores of the device without the blocks that the
/// matches end with, and a list of tiers.
pub struct WireTieredMatchDetails {
    pub device: OverlapScores,
    pub lower_tier: Vec<(StorageTier, LowerTierMatchDetails)>,
}

/// What is sent comes back: matches that were sent and read have the same tiers, each
/// with the same matches, as often and in whatever order.
pub proof fn sent_matches_come_back(
    sent: Seq<(StorageTier, TierMatchView)>,
    read: Seq<(StorageTier, TierMatchView)>,
)
    requires
        tiers_differ(sent),
        tiers_differ(read),
        forall|t: StorageTier| #[trigger] last_for(read, t) == last_for(sent, t),
    ensures
        read.to_multiset() == sent.to_multiset(),
{
    assert(sent.no_duplicates() && read.no_duplicates());
    sent.lemma_multiset_has_no_duplicates();
    read.lemma_multiset_has_no_duplicates();
    assert forall|e: (StorageTier, TierMatchView)| #[trigger] read.to_multiset().count(e)
        == sent.to_multiset().count(e) by {
        lemma_last_for(sent, e.0);
        lemma_last_for(read, e.0);
        assert(last_for(read, e.0) == last_for(sent, e.0));
        assert(e == (e.0, e.1));
        vstd::seq_lib::to_multiset_contains(sent, e);
        vstd::seq_lib::to_multiset_contains(read, e);
        if sent.contains(e) {
            assert(read.contains(e));
        }
        if read.contains(e) {
            assert(sent.contains(e));
        }
    }
    assert(read.to_multiset() =~= sent.to_multiset());
}

impl TieredMatchDetails {
    /// The matches as they are sent.
    pub fn to_wire(&self) -> (wire: WireTieredMatchDetails)
        ensures
            wire.device.scores@ == self.device.overlap_scores.scores@,
            wire.device.frequencies@ == self.device.overlap_scores.frequencies@,
            tiers_view(wire.lower_tier@) == tiers_view(self.lower_tier@),
    {
        let mut frequencies: Vec<usize> = Vec::new();
        for i in 0..self.device.overlap_scores.frequencies.len()
            invariant
                frequencies@ == self.device.overlap_scores.frequencies@.take(i as int),
        {
            frequencies.push(self.device.overlap_scores.frequencies[i]);
        }
        let mut lower_tier: Vec<(StorageTier, LowerTierMatchDetails)> = Vec::new();
        for i in 0..self.lower_tier.len()
            invariant
                tiers_view(lower_tier@) == tiers_view(self.lower_tier@).take(i as int),
        {
            let ghost earlier = lower_tier@;
            let (tier, details) = &self.lower_tier[i];
            let copied = LowerTierMatchDetails {
                hits: copy_of(&details.hits),
                next_continuations: copy_of(&details.next_continuations),
            };
            lower_tier.push((*tier, copied));
            proof {
                let all = tiers_view(self.lower_tier@);
                assert(tiers_view(lower_tier@) =~= tiers_view(earlier).push(all[i as int]));
                assert(all.take(i as int).push(all[i as int]) =~= all.take(i + 1));
            }
        }
        proof {
            let counts = self.device.overlap_scores.frequencies@;
            assert(counts.take(counts.len() as int) =~= counts);
            let all = tiers_view(self.lower_tier@);
            assert(all.take(all.len() as int) =~= all);
        }
        WireTieredMatchDetails {
            device: OverlapScores { scores: copy_of(&self.device.overlap_scores.scores), frequencies },
            lower_tier,
        }
    }

    /// The matches that were sent. Where a tier comes more than once, what came last for
    /// it counts.
    pub fn from_wire(wire: WireTieredMatchDetails) -> (details: TieredMatchDetails)
        ensures
            details.device.overlap_scores == wire.device,
            details.device.last_matched_hashes@ == Map::<
                (u64, u32),
                ExternalSequenceBlockHash,
            >::empty(),
            tiers_differ(tiers_view(details.lower_tier@)),
            forall|t: StorageTier| #[trigger]
                last_for(tiers_view(details.lower_tier@), t) == last_for(
                    tiers_view(wire.lower_tier@),
                    t,
                ),
    {
        let ghost sent = tiers_view(wire.lower_tier@);
        let mut rest = wire.lower_tier;
        let mut lower_tier: Vec<(StorageTier, LowerTierMatchDetails)> = Vec::new();
        while rest.len() > 0
            invariant
                tiers_differ(tiers_view(lower_tier@)),
                forall|t: StorageTier| #[trigger]
                    last_for(sent, t) == match last_for(tiers_view(lower_tier@), t) {
                        Some(m) => Some(m),
                        None => last_for(tiers_view(rest@), t),
                    },
            decreases rest@.len(),
        {
            let ghost left = tiers_view(rest@);
            let ghost kept = tiers_view(lower_tier@);
            let last = rest.pop();
            if let Some(entry) = last {
                assert(tiers_view(rest@) =~= left.drop_last());
                let ghost view = (
                    entry.0,
                    TierMatchView { hits: entry.1.hits@, next: entry.1.next_continuations@ },
                );
                assert(left.last() == view);
                proof {
                    lemma_last_for(kept, entry.0);
                }
                if lists_tier(&lower_tier, entry.0) {
                    proof {
                        let i = choose|i: int| 0 <= i < kept.len() && (#[trigger] kept[i]).0 == entry.0;
                        assert(kept[i].0 == entry.0);
                        assert(last_for(kept, entry.0) is Some);
                    }
                } else {
                    lower_tier.push(entry);
                    proof {
                        let now = tiers_view(lower_tier@);
                        assert(now =~= kept.push(view));
                        assert(now.drop_last() =~= kept);
                        if last_for(kept, entry.0) is Some {
                            let m = last_for(kept, entry.0)->0;
                            let i = choose|i: int| 0 <= i < kept.len() && kept[i] == (entry.0, m);
                            assert(kept[i].0 == entry.0);
                        }
                        assert forall|i: int, j: int| 0 <= i < j < now.len() implies (
                        #[trigger] now[i]).0 != (#[trigger] now[j]).0 by {
                            assert(now[i] == kept[i]);
                            if j < kept.len() {
                                assert(kept[i].0 != kept[j].0);
                            }
                        }
                    }
                }
            }
        }
        TieredMatchDetails {
            device: MatchDetails { overlap_scores: wire.device, last_matched_hashes: FxMap::default() },
            lower_tier,
        }
    }
}

fn lists_tier(entries: &Vec<(StorageTier, LowerTierMatchDetails)>, tier: StorageTier) -> (r: bool)
    ensures
        r <==> exists|i: int|
            0 <= i < tiers_view(entries@).len() && (#[trigger] tiers_view(entries@)[i]).0 == tier,
{
    for i in 0..entries.len()
        invariant
            forall|j: int| 0 <= j < i ==> (#[trigger] tiers_view(entries@)[j]).0 != tier,
    {
        assert(tiers_view(entries@)[i as int].0 == entries@[i as int].0);
        if entries[i].0 == tier {
            return true;
        }
    }
    false
}

/// The indexes of the lower tiers. A tier has one from its first event on.
pub struct LowerTierIndexers {
    num_threads: usize,
    block_size: u32,
    host_pinned: Option<LowerTierIndexer>,
    disk: Option<LowerTierIndexer>,
    external: Option<LowerTierIndexer>,
}

/// What the index of a tier holds.
pub open spec fn links_of(indexer: Option<LowerTierIndexer>) -> Option<Seq<LowerTierLink>> {
    match indexer {
        Some(indexer) => Some(indexer@),
        None => None,
    }
}

/// The order in which the lower tiers are walked.
pub open spec fn tier_order() -> Seq<StorageTier> {
    seq![StorageTier::HostPinned, StorageTier::Disk, StorageTier::External]
}

/// The order in which the lower tiers are walked: what is faster to load from
/// comes first.
pub fn lower_tier_query_order() -> (order: [StorageTier; 3])
    ensures
        order@ == tier_order(),
{
    let order = [StorageTier::HostPinned, StorageTier::Disk, StorageTier::External];
    assert(order@ =~= tier_order());
    order
}

impl LowerTierIndexers {
    /// The index of a tier, if it has one.
    pub closed spec fn tier(&self, tier: StorageTier) -> Option<Seq<LowerTierLink>> {
        match tier {
            StorageTier::Device => None,
            StorageTier::HostPinned => links_of(self.host_pinned),
            StorageTier::Disk => links_of(self.disk),
            StorageTier::External => links_of(self.external),
        }
    }

    /// Number of threads and block size of new indexes.
    pub closed spec fn settings(&self) -> (usize, u32) {
        (self.num_threads, self.block_size)
    }

    /// No indexes yet.
    pub fn new(num_threads: usize, block_size: u32) -> (indexers: Self)
        requires
            num_threads > 0,
        ensures
            indexers.settings() == (num_threads, block_size),
            forall|t: StorageTier| #[trigger] indexers.tier(t) is None,
    {
        LowerTierIndexers { num_threads, block_size, host_pinned: None, disk: None, external: None }
    }

    /// Records a block of a worker in a tier, which gets an index if it has none.
    pub fn store(&mut self, tier: StorageTier, link: LowerTierLink)
        requires
            tier != StorageTier::Device,
        ensures
            final(self).settings() == old(self).settings(),
            final(self).tier(tier) == Some(
                match old(self).tier(tier) {
                    Some(links) => links.push(link),
                    None => Seq::<LowerTierLink>::empty().push(link),
                },
            ),
            forall|t: StorageTier| t != tier ==> #[trigger] final(self).tier(t) == old(self).tier(t),
    {
        self.get_or_create(tier);
        let ghost made = *self;
        match tier {
            StorageTier::HostPinned => {
                if let Some(mut indexer) = self.host_pinned.take() {
                    indexer.store(link);
                    self.host_pinned = Some(indexer);
                }
            },
            StorageTier::Disk => {
                if let Some(mut indexer) = self.disk.take() {
                    indexer.store(link);
                    self.disk = Some(indexer);
                }
            },
            StorageTier::External => {
                if let Some(mut indexer) = self.external.take() {
                    indexer.store(link);
                    self.external = Some(indexer);
                }
            },
            StorageTier::Device => {},
        }
        assert forall|t: StorageTier| t != tier implies #[trigger] self.tier(t) == old(self).tier(
            t,
        ) by {
            assert(made.tier(t) == old(self).tier(t));
        }
    }

    /// Records the blocks that a worker stored below a parent block, in a tier, which
    /// gets an index if it has none.
    #[verifier::rlimit(40)]
    pub fn store_chain(
        &mut self,
        tier: StorageTier,
        worker: (u64, u32),
        parent: Option<u64>,
        blocks: &Vec<KvCacheStoredBlockData>,
    )
        requires
            tier != StorageTier::Device,
        ensures
            final(self).settings() == old(self).settings(),
            final(self).tier(tier) == Some(
                match old(self).tier(tier) {
                    Some(links) => links,
                    None => Seq::<LowerTierLink>::empty(),
                } + chain_links(worker, parent, stored_blocks_view(blocks@)),
            ),
            forall|t: StorageTier| t != tier ==> #[trigger] final(self).tier(t) == old(self).tier(t),
    {
        self.get_or_create(tier);
        let ghost kept = self.tier(tier)->0;
        let ghost all = chain_links(worker, parent, stored_blocks_view(blocks@));
        assert(kept =~= kept + all.take(0));
        let mut above = parent;
        for i in 0..blocks.len()
            invariant
                tier != StorageTier::Device,
                self.settings() == old(self).settings(),
                all == chain_links(worker, parent, stored_blocks_view(blocks@)),
                all.len() == blocks@.len(),
                above == if i == 0 {
                    parent
                } else {
                    Some(blocks@[i - 1].block_hash.0)
                },
                self.tier(tier) == Some(kept + all.take(i as int)),
                forall|t: StorageTier|
                    t != tier ==> #[trigger] self.tier(t) == old(self).tier(t),
        {
            let ghost before = *self;
            let block = &blocks[i];
            let link = LowerTierLink {
                worker,
                parent: above,
                local: block.tokens_hash.0,
                hash: block.block_hash.0,
            };
            self.store(tier, link);
            above = Some(block.block_hash.0);
            proof {
                assert(all[i as int] == link);
                assert((kept + all.take(i as int)).push(link) =~= kept + all.take(i + 1));
                assert forall|t: StorageTier| t != tier implies #[trigger] self.tier(t) == old(
                    self,
                ).tier(t) by {
                    assert(before.tier(t) == old(self).tier(t));
                }
            }
        }
        assert(all.take(blocks@.len() as int) =~= all);
    }

    /// Takes an event of a lower tier in. The tier gets an index if it has none.
    pub fn apply_event(&mut self, event: RouterEvent)
        requires
            event.storage_tier != StorageTier::Device,
        ensures
            final(self).settings() == old(self).settings(),
            final(self).tier(event.storage_tier) == Some(
                tier_after(
                    match old(self).tier(event.storage_tier) {
                        Some(links) => links,
                        None => Seq::<LowerTierLink>::empty(),
                    },
                    event,
                ),
            ),
            forall|t: StorageTier|
                t != event.storage_tier ==> #[trigger] final(self).tier(t) == old(self).tier(t),
    {
        let tier = event.storage_tier;
        let worker = (event.worker_id, event.event.dp_rank);
        match event.event.data {
            KvCacheEventData::Stored(op) => {
                let parent = match op.parent_hash {
                    Some(hash) => Some(hash.0),
                    None => None,
                };
                self.store_chain(tier, worker, parent, &op.blocks);
            },
            KvCacheEventData::Removed(op) => {
                self.get_or_create(tier);
                let ghost made = *self;
                self.remove(tier, &LowerTierRemoval::Blocks { worker, hashes: op.block_hashes });
                assert forall|t: StorageTier| t != tier implies #[trigger] self.tier(t) == old(
                    self,
                ).tier(t) by {
                    assert(made.tier(t) == old(self).tier(t));
                }
            },
            KvCacheEventData::Cleared => {
                self.get_or_create(tier);
                let ghost made = *self;
                self.remove(tier, &LowerTierRemoval::Worker(event.worker_id));
                assert forall|t: StorageTier| t != tier implies #[trigger] self.tier(t) == old(
                    self,
                ).tier(t) by {
                    assert(made.tier(t) == old(self).tier(t));
                }
            },
        }
    }

    /// Drops what leaves a tier, if the tier has an index.
    pub fn remove(&mut self, tier: StorageTier, removal: &LowerTierRemoval)
        ensures
            final(self).settings() == old(self).settings(),
            final(self).tier(tier) == match old(self).tier(tier) {
                Some(links) => Some(without(links, *removal)),
                None => None,
            },
            forall|t: StorageTier| t != tier ==> #[trigger] final(self).tier(t) == old(self).tier(t),
    {
        match tier {
            StorageTier::HostPinned => {
                if let Some(mut indexer) = self.host_pinned.take() {
                    indexer.remove(removal);
                    self.host_pinned = Some(indexer);
                }
            },
            StorageTier::Disk => {
                if let Some(mut indexer) = self.disk.take() {
                    indexer.remove(removal);
                    self.disk = Some(indexer);
                }
            },
            StorageTier::External => {
                if let Some(mut indexer) = self.external.take() {
                    indexer.remove(removal);
                    self.external = Some(indexer);
                }
            },
            StorageTier::Device => {},
        }
    }

    /// Drops what leaves all tiers.
    pub fn remove_everywhere(&mut self, removal: &LowerTierRemoval)
        ensures
            final(self).settings() == old(self).settings(),
            forall|t: StorageTier| #[trigger]
                final(self).tier(t) == match old(self).tier(t) {
                    Some(links) => Some(without(links, *removal)),
                    None => None,
                },
    {
        let ghost before = *self;
        self.remove(StorageTier::HostPinned, removal);
        let ghost host_done = *self;
        self.remove(StorageTier::Disk, removal);
        let ghost disk_done = *self;
        self.remove(StorageTier::External, removal);
        assert forall|t: StorageTier| #[trigger]
            self.tier(t) == match before.tier(t) {
                Some(links) => Some(without(links, *removal)),
                None => None,
            } by {
            let _ = host_done.tier(t);
            let _ = disk_done.tier(t);
        }
    }

    /// The tiers that have an index, in the order in which they are walked, each with its
    /// index.
    pub fn entries(&self) -> (entries: Vec<(StorageTier, &LowerTierIndexer)>)
        ensures
            forall|i: int|
                0 <= i < entries@.len() ==> self.tier((#[trigger] entries@[i]).0) == Some(
                    entries@[i].1@,
                ),
            entries@.map_values(|e: (StorageTier, &LowerTierIndexer)| e.0) == tier_order().filter(
                |t: StorageTier| self.tier(t) is Some,
            ),
    {
        let order = lower_tier_query_order();
        let ghost has = |t: StorageTier| self.tier(t) is Some;
        let mut entries: Vec<(StorageTier, &LowerTierIndexer)> = Vec::new();
        assert(tier_order().take(0).filter(has) =~= Seq::empty()) by {
            reveal(Seq::filter);
        }
        for k in 0..3
            invariant
                order@ == tier_order(),
                has == (|t: StorageTier| self.tier(t) is Some),
                forall|i: int|
                    0 <= i < entries@.len() ==> self.tier((#[trigger] entries@[i]).0) == Some(
                        entries@[i].1@,
                    ),
                entries@.map_values(|e: (StorageTier, &LowerTierIndexer)| e.0) == tier_order().take(
                    k as int,
                ).filter(has),
        {
            let tier = order[k];
            let ghost earlier = entries@;
            let ghost done = tier_order().take(k as int);
            proof {
                reveal(Seq::filter);
                assert(tier_order().take(k + 1).drop_last() =~= done);
                assert(tier_order().take(k + 1).last() == tier);
            }
            if let Some(indexer) = self.get(tier) {
                entries.push((tier, indexer));
                assert(entries@.map_values(|e: (StorageTier, &LowerTierIndexer)| e.0)
                    =~= earlier.map_values(|e: (StorageTier, &LowerTierIndexer)| e.0).push(tier));
            }
        }
        assert(tier_order().take(3) =~= tier_order());
        entries
    }

    /// The indexes of the tiers that have one, in the order in which they are walked.
    pub fn all(&self) -> (indexers: Vec<&LowerTierIndexer>)
        ensures
            indexers@.len() == tier_order().filter(|t: StorageTier| self.tier(t) is Some).len(),
            forall|i: int|
                0 <= i < indexers@.len() ==> Some((#[trigger] indexers@[i])@) == self.tier(
                    tier_order().filter(|t: StorageTier| self.tier(t) is Some)[i],
                ),
    {
        let entries = self.entries();
        let ghost tiers = entries@.map_values(|e: (StorageTier, &LowerTierIndexer)| e.0);
        let mut indexers: Vec<&LowerTierIndexer> = Vec::new();
        for i in 0..entries.len()
            invariant
                indexers@.len() == i,
                forall|j: int| 0 <= j < i ==> (#[trigger] indexers@[j])@ == entries@[j].1@,
        {
            indexers.push(entries[i].1);
        }
        assert forall|i: int| 0 <= i < indexers@.len() implies Some((#[trigger] indexers@[i])@)
            == self.tier(tiers[i]) by {
            assert(tiers[i] == entries@[i].0);
            assert(self.tier(entries@[i].0) == Some(entries@[i].1@));
        }
        indexers
    }

    /// Lets a tier have an index.
    pub fn get_or_create(&mut self, tier: StorageTier)
        requires
            tier != StorageTier::Device,
        ensures
            final(self).settings() == old(self).settings(),
            final(self).tier(tier) == Some(
                match old(self).tier(tier) {
                    Some(links) => links,
                    None => Seq::<LowerTierLink>::empty(),
                },
            ),
            forall|t: StorageTier| t != tier ==> #[trigger] final(self).tier(t) == old(self).tier(t),
    {
        match tier {
            StorageTier::HostPinned => {
                if self.host_pinned.is_none() {
                    self.host_pinned = Some(LowerTierIndexer::new());
                }
            },
            StorageTier::Disk => {
                if self.disk.is_none() {
                    self.disk = Some(LowerTierIndexer::new());
                }
            },
            StorageTier::External => {
                if self.external.is_none() {
                    self.external = Some(LowerTierIndexer::new());
                }
            },
            StorageTier::Device => {},
        }
    }

    /// The index of a tier, if it has one.
    pub fn get(&self, tier: StorageTier) -> (indexer: Option<&LowerTierIndexer>)
        ensures
            indexer is Some <==> self.tier(tier) is Some,
            indexer matches Some(i) ==> self.tier(tier) == Some(i@),
    {
        match tier {
            StorageTier::Device => None,
            StorageTier::HostPinned => self.host_pinned.as_ref(),
            StorageTier::Disk => self.disk.as_ref(),
            StorageTier::External => self.external.as_ref(),
        }
    }

    /// Whether no tier has an index.
    pub fn is_empty(&self) -> (empty: bool)
        ensures
            empty <==> forall|t: StorageTier| #[trigger] self.tier(t) is None,
    {
        let empty = self.host_pinned.is_none() && self.disk.is_none() && self.external.is_none();
        proof {
            if empty {
                assert forall|t: StorageTier| #[trigger] self.tier(t) is None by {}
            } else if self.host_pinned is Some {
                assert(self.tier(StorageTier::HostPinned) is Some);
            } else if self.disk is Some {
                assert(self.tier(StorageTier::Disk) is Some);
            } else {
                assert(self.tier(StorageTier::External) is Some);
            }
        }
        empty
    }
}

/// Where the matches on the device end.
pub open spec fn device_ends(
    scores: Map<(u64, u32), u32>,
    last: Map<(u64, u32), ExternalSequenceBlockHash>,
) -> Map<(u64, u32), LowerTierContinuation> {
    Map::new(
        |w: (u64, u32)| scores.dom().contains(w) && last.dom().contains(w),
        |w: (u64, u32)|
            LowerTierContinuation { start_pos: scores[w] as usize, last_matched_hash: Some(last[w]) },
    )
}

/// The continuations with which a tier is asked: those from the tier before, and
/// for workers that match nothing yet but have the first block here, the start.
pub open spec fn with_roots(
    all: Seq<LowerTierLink>,
    sequence: Seq<LocalBlockHash>,
    continuations: Map<(u64, u32), LowerTierContinuation>,
) -> Map<(u64, u32), LowerTierContinuation> {
    Map::new(
        |w: (u64, u32)|
            continuations.dom().contains(w) || (sequence.len() > 0 && follower(
                all,
                w,
                None,
                sequence[0].0,
            ) is Some),
        |w: (u64, u32)|
            if continuations.dom().contains(w) {
                continuations[w]
            } else {
                LowerTierContinuation { start_pos: 0, last_matched_hash: None }
            },
    )
}

/// Whether a walk through tiers gives these matches: each tier that has an index
/// is asked once, in order, and goes on where the one before ended.
pub open spec fn walked(
    indexers: LowerTierIndexers,
    tiers: Seq<StorageTier>,
    sequence: Seq<LocalBlockHash>,
    continuations: Map<(u64, u32), LowerTierContinuation>,
    matches: Seq<(StorageTier, LowerTierMatchDetails)>,
) -> bool
    decreases tiers.len(),
{
    if tiers.len() == 0 {
        matches.len() == 0
    } else {
        match indexers.tier(tiers[0]) {
            None => walked(indexers, tiers.skip(1), sequence, continuations, matches),
            Some(all) => {
                &&& matches.len() > 0
                &&& matches[0].0 == tiers[0]
                &&& tier_matches(
                    all,
                    sequence,
                    with_roots(all, sequence, continuations),
                    matches[0].1.hits@,
                    matches[0].1.next_continuations@,
                )
                &&& walked(
                    indexers,
                    tiers.skip(1),
                    sequence,
                    matches[0].1.next_continuations@,
                    matches.skip(1),
                )
            },
        }
    }
}

/// Goes on with the device matches of a sequence through all lower tiers that
/// have an index. A worker that matched some blocks on the device goes on after
/// them; one that matched none can start in any tier.
pub fn query_lower_tiers(
    indexers: &LowerTierIndexers,
    sequence: &[LocalBlockHash],
    device_matches: &MatchDetails,
) -> (matches: Vec<(StorageTier, LowerTierMatchDetails)>)
    ensures
        walked(
            *indexers,
            tier_order(),
            sequence@,
            device_ends(
                device_matches.overlap_scores.scores@,
                device_matches.last_matched_hashes@,
            ),
            matches@,
        ),
{
    let ghost scores = device_matches.overlap_scores.scores@;
    let ghost last = device_matches.last_matched_hashes@;
    let mut matches: Vec<(StorageTier, LowerTierMatchDetails)> = Vec::new();
    if indexers.is_empty() {
        proof {
            reveal_with_fuel(walked, 4);
        }
        return matches;
    }
    let mut continuations: FxMap<(u64, u32), LowerTierContinuation> = FxMap::default();
    let workers = fx_worker_keys(&device_matches.overlap_scores.scores);
    for i in 0..workers.len()
        invariant
            scores == device_matches.overlap_scores.scores@,
            last == device_matches.last_matched_hashes@,
            workers@.to_set() == scores.dom(),
            forall|w: (u64, u32)| #[trigger]
                continuations@.dom().contains(w) <==> workers@.take(i as int).contains(w)
                    && last.dom().contains(w),
            forall|w: (u64, u32)| #[trigger]
                continuations@.dom().contains(w) ==> continuations@[w] == device_ends(
                    scores,
                    last,
                )[w],
    {
        let worker = workers[i];
        proof {
            let done = workers@.take(i as int);
            assert(workers@.take(i + 1) =~= done.push(worker));
            lemma_push_contains(done, worker);
            assert(workers@.to_set().contains(worker));
        }
        if let Some(last_hash) = fx_get(&device_matches.last_matched_hashes, &worker) {
            if let Some(matched) = fx_get(&device_matches.overlap_scores.scores, &worker) {
                fx_insert(
                    &mut continuations,
                    worker,
                    LowerTierContinuation::new(*matched as usize, *last_hash),
                );
            }
        }
    }
    proof {
        assert(workers@.take(workers@.len() as int) =~= workers@);
        assert forall|w: (u64, u32)| workers@.contains(w) == scores.dom().contains(w) by {
            assert(workers@.to_set().contains(w) == workers@.contains(w));
        }
        assert(continuations@ =~= device_ends(scores, last));
    }
    let ghost start = continuations@;
    let order = lower_tier_query_order();
    proof {
        assert(order@.skip(0) =~= order@);
        lemma_walk_start(*indexers, tier_order(), sequence@, start);
    }
    for k in 0..3
        invariant
            order@ == tier_order(),
            extendable(
                *indexers,
                tier_order(),
                sequence@,
                start,
                k as int,
                continuations@,
                matches@,
            ),
    {
        let tier = order[k];
        let ghost asked = continuations@;
        let ghost earlier = matches@;
        if let Some(indexer) = indexers.get(tier) {
            if sequence.len() > 0 {
                let roots = indexer.root_workers(sequence[0]);
                for r in 0..roots.len()
                    invariant
                        forall|w: (u64, u32)| #[trigger]
                            continuations@.dom().contains(w) <==> asked.dom().contains(w)
                                || roots@.take(r as int).contains(w),
                        forall|w: (u64, u32)| #[trigger]
                            continuations@.dom().contains(w) ==> continuations@[w]
                                == if asked.dom().contains(w) {
                                asked[w]
                            } else {
                                LowerTierContinuation { start_pos: 0, last_matched_hash: None }
                            },
                {
                    let worker = roots[r];
                    proof {
                        let done = roots@.take(r as int);
                        assert(roots@.take(r + 1) =~= done.push(worker));
                        lemma_push_contains(done, worker);
                    }
                    if !fx_contains(&continuations, &worker) {
                        fx_insert(&mut continuations, worker, LowerTierContinuation::from_root(0));
                    }
                }
                assert(roots@.take(roots@.len() as int) =~= roots@);
            }
            assert(continuations@ =~= with_roots(indexer@, sequence@, asked));
            let details = indexer.query_match_details(sequence, &continuations);
            continuations = copy_of(&details.next_continuations);
            matches.push((tier, details));
            proof {
                lemma_walk_on(
                    *indexers,
                    tier_order(),
                    sequence@,
                    start,
                    k as int,
                    asked,
                    earlier,
                    matches@.last(),
                );
                assert(matches@ =~= earlier.push(matches@.last()));
            }
        } else {
            proof {
                lemma_walk_past(
                    *indexers,
                    tier_order(),
                    sequence@,
                    start,
                    k as int,
                    asked,
                    earlier,
                );
            }
        }
    }
    proof {
        lemma_walk_end(*indexers, tier_order(), sequence@, start, continuations@, matches@);
    }
    matches
}

fn copy_of<V: Copy>(map: &FxMap<(u64, u32), V>) -> (copy: FxMap<(u64, u32), V>)
    ensures
        copy@ == map@,
{
    let workers = fx_worker_keys(map);
    let mut copy: FxMap<(u64, u32), V> = FxMap::default();
    for i in 0..workers.len()
        invariant
            workers@.to_set() == map@.dom(),
            forall|w: (u64, u32)| #[trigger]
                copy@.dom().contains(w) <==> workers@.take(i as int).contains(w),
            forall|w: (u64, u32)| #[trigger]
                copy@.dom().contains(w) ==> copy@[w] == map@[w],
    {
        let worker = workers[i];
        proof {
            let done = workers@.take(i as int);
            assert(workers@.take(i + 1) =~= done.push(worker));
            lemma_push_contains(done, worker);
            assert(workers@.to_set().contains(worker));
        }
        if let Some(value) = fx_get(map, &worker) {
            fx_insert(&mut copy, worker, *value);
        }
    }
    proof {
        assert(workers@.take(workers@.len() as int) =~= workers@);
        assert forall|w: (u64, u32)| workers@.contains(w) == map@.dom().contains(w) by {
            assert(workers@.to_set().contains(w) == workers@.contains(w));
        }
        assert(copy@ =~= map@);
    }
    copy
}

/// Whether a walk that has come to tier `k` with these continuations and matches
/// is completed by any walk through the tiers that are left.
spec fn extendable(
    indexers: LowerTierIndexers,
    tiers: Seq<StorageTier>,
    sequence: Seq<LocalBlockHash>,
    start: Map<(u64, u32), LowerTierContinuation>,
    k: int,
    continuations: Map<(u64, u32), LowerTierContinuation>,
    matches: Seq<(StorageTier, LowerTierMatchDetails)>,
) -> bool {
    forall|rest: Seq<(StorageTier, LowerTierMatchDetails)>| #[trigger]
        walked(indexers, tiers.skip(k), sequence, continuations, rest) ==> walked(
            indexers,
            tiers,
            sequence,
            start,
            matches + rest,
        )
}

proof fn lemma_walk_start(
    indexers: LowerTierIndexers,
    tiers: Seq<StorageTier>,
    sequence: Seq<LocalBlockHash>,
    start: Map<(u64, u32), LowerTierContinuation>,
)
    ensures
        extendable(indexers, tiers, sequence, start, 0, start, Seq::empty()),
{
    assert(tiers.skip(0) =~= tiers);
    assert forall|rest: Seq<(StorageTier, LowerTierMatchDetails)>| #[trigger]
        walked(indexers, tiers.skip(0), sequence, start, rest) implies walked(
        indexers,
        tiers,
        sequence,
        start,
        Seq::<(StorageTier, LowerTierMatchDetails)>::empty() + rest,
    ) by {
        assert(Seq::<(StorageTier, LowerTierMatchDetails)>::empty() + rest =~= rest);
    }
}

proof fn lemma_walk_past(
    indexers: LowerTierIndexers,
    tiers: Seq<StorageTier>,
    sequence: Seq<LocalBlockHash>,
    start: Map<(u64, u32), LowerTierContinuation>,
    k: int,
    continuations: Map<(u64, u32), LowerTierContinuation>,
    matches: Seq<(StorageTier, LowerTierMatchDetails)>,
)
    requires
        0 <= k < tiers.len(),
        extendable(indexers, tiers, sequence, start, k, continuations, matches),
        indexers.tier(tiers[k]) is None,
    ensures
        extendable(indexers, tiers, sequence, start, k + 1, continuations, matches),
{
    assert forall|rest: Seq<(StorageTier, LowerTierMatchDetails)>| #[trigger]
        walked(indexers, tiers.skip(k + 1), sequence, continuations, rest) implies walked(
        indexers,
        tiers,
        sequence,
        start,
        matches + rest,
    ) by {
        assert(tiers.skip(k).skip(1) =~= tiers.skip(k + 1));
        assert(tiers.skip(k)[0] == tiers[k]);
        assert(walked(indexers, tiers.skip(k), sequence, continuations, rest));
    }
}

proof fn lemma_walk_on(
    indexers: LowerTierIndexers,
    tiers: Seq<StorageTier>,
    sequence: Seq<LocalBlockHash>,
    start: Map<(u64, u32), LowerTierContinuation>,
    k: int,
    continuations: Map<(u64, u32), LowerTierContinuation>,
    matches: Seq<(StorageTier, LowerTierMatchDetails)>,
    new: (StorageTier, LowerTierMatchDetails),
)
    requires
        0 <= k < tiers.len(),
        extendable(indexers, tiers, sequence, start, k, continuations, matches),
        indexers.tier(tiers[k]) is Some,
        new.0 == tiers[k],
        tier_matches(
            indexers.tier(tiers[k])->0,
            sequence,
            with_roots(indexers.tier(tiers[k])->0, sequence, continuations),
            new.1.hits@,
            new.1.next_continuations@,
        ),
    ensures
        extendable(
            indexers,
            tiers,
            sequence,
            start,
            k + 1,
            new.1.next_continuations@,
            matches.push(new),
        ),
{
    assert forall|rest: Seq<(StorageTier, LowerTierMatchDetails)>| #[trigger]
        walked(
            indexers,
            tiers.skip(k + 1),
            sequence,
            new.1.next_continuations@,
            rest,
        ) implies walked(indexers, tiers, sequence, start, matches.push(new) + rest) by {
        let more = seq![new] + rest;
        assert(tiers.skip(k).skip(1) =~= tiers.skip(k + 1));
        assert(tiers.skip(k)[0] == tiers[k]);
        assert(more.skip(1) =~= rest);
        assert(walked(indexers, tiers.skip(k), sequence, continuations, more));
        assert(matches + more =~= matches.push(new) + rest);
    }
}

proof fn lemma_walk_end(
    indexers: LowerTierIndexers,
    tiers: Seq<StorageTier>,
    sequence: Seq<LocalBlockHash>,
    start: Map<(u64, u32), LowerTierContinuation>,
    continuations: Map<(u64, u32), LowerTierContinuation>,
    matches: Seq<(StorageTier, LowerTierMatchDetails)>,
)
    requires
        extendable(
            indexers,
            tiers,
            sequence,
            start,
            tiers.len() as int,
            continuations,
            matches,
        ),
    ensures
        walked(indexers, tiers, sequence, start, matches),
{
    let none = Seq::<(StorageTier, LowerTierMatchDetails)>::empty();
    assert(walked(indexers, tiers.skip(tiers.len() as int), sequence, continuations, none));
    assert(matches + none =~= matches);
}

/// The i-th tier of a walk goes on where the tier before ended, or where the walk began.
proof fn lemma_walk_at(
    indexers: LowerTierIndexers,
    tiers: Seq<StorageTier>,
    sequence: Seq<LocalBlockHash>,
    continuations: Map<(u64, u32), LowerTierContinuation>,
    matches: Seq<(StorageTier, LowerTierMatchDetails)>,
    i: int,
)
    requires
        walked(indexers, tiers, sequence, continuations, matches),
        0 <= i < matches.len(),
    ensures
        indexers.tier(matches[i].0) is Some,
        ({
            let all = indexers.tier(matches[i].0)->0;
            let prior = if i == 0 {
                continuations
            } else {
                matches[i - 1].1.next_continuations@
            };
            tier_matches(
                all,
                sequence,
                with_roots(all, sequence, prior),
                matches[i].1.hits@,
                matches[i].1.next_continuations@,
            )
        }),
    decreases tiers.len(),
{
    if indexers.tier(tiers[0]) is None {
        lemma_walk_at(indexers, tiers.skip(1), sequence, continuations, matches, i);
    } else if i > 0 {
        let rest = matches.skip(1);
        lemma_walk_at(
            indexers,
            tiers.skip(1),
            sequence,
            matches[0].1.next_continuations@,
            rest,
            i - 1,
        );
        assert(rest[i - 1] == matches[i]);
        if i > 1 {
            assert(rest[i - 2] == matches[i - 1]);
        }
    }
}

/// A walk asks the host's memory, then disks, then external stores, each once and only
/// where it has an index.
pub proof fn faster_tiers_are_asked_first(
    indexers: LowerTierIndexers,
    sequence: Seq<LocalBlockHash>,
    continuations: Map<(u64, u32), LowerTierContinuation>,
    matches: Seq<(StorageTier, LowerTierMatchDetails)>,
)
    requires
        walked(indexers, tier_order(), sequence, continuations, matches),
    ensures
        matches.map_values(|m: (StorageTier, LowerTierMatchDetails)| m.0) == (if indexers.tier(
            StorageTier::HostPinned,
        ) is Some {
            seq![StorageTier::HostPinned]
        } else {
            Seq::<StorageTier>::empty()
        }) + (if indexers.tier(StorageTier::Disk) is Some {
            seq![StorageTier::Disk]
        } else {
            Seq::<StorageTier>::empty()
        }) + (if indexers.tier(StorageTier::External) is Some {
            seq![StorageTier::External]
        } else {
            Seq::<StorageTier>::empty()
        }),
{
    let tier_of = |m: (StorageTier, LowerTierMatchDetails)| m.0;
    let order = tier_order();
    let host = indexers.tier(StorageTier::HostPinned) is Some;
    let disk = indexers.tier(StorageTier::Disk) is Some;
    let external = indexers.tier(StorageTier::External) is Some;
    assert(order.skip(1)[0] == StorageTier::Disk);
    assert(order.skip(1).skip(1)[0] == StorageTier::External);
    let after_host = if host {
        matches.skip(1)
    } else {
        matches
    };
    let after_disk = if disk {
        after_host.skip(1)
    } else {
        after_host
    };
    reveal_with_fuel(walked, 4);
    assert(after_disk.map_values(tier_of) =~= if external {
        seq![StorageTier::External]
    } else {
        Seq::<StorageTier>::empty()
    });
    assert(after_host.map_values(tier_of) =~= (if disk {
        seq![StorageTier::Disk]
    } else {
        Seq::<StorageTier>::empty()
    }) + after_disk.map_values(tier_of));
    assert(matches.map_values(tier_of) =~= (if host {
        seq![StorageTier::HostPinned]
    } else {
        Seq::<StorageTier>::empty()
    }) + after_host.map_values(tier_of));
}

/// Through the lower tiers a rank's match goes on: in the first tier after what it
/// matched on the device, and in every other after what it matched in the tier before. A
/// rank that has matched nothing yet joins at the first tier that has its first block of
/// the sequence. What a tier adds is how far it takes the match.
pub proof fn matches_go_on_from_tier_to_tier(
    indexers: LowerTierIndexers,
    sequence: Seq<LocalBlockHash>,
    scores: Map<(u64, u32), u32>,
    last: Map<(u64, u32), ExternalSequenceBlockHash>,
    matches: Seq<(StorageTier, LowerTierMatchDetails)>,
    i: int,
    w: (u64, u32),
)
    requires
        walked(indexers, tier_order(), sequence, device_ends(scores, last), matches),
        0 <= i < matches.len(),
    ensures
        indexers.tier(matches[i].0) is Some,
        ({
            let all = indexers.tier(matches[i].0)->0;
            let hits = matches[i].1.hits@;
            let next = matches[i].1.next_continuations@;
            let known = if i == 0 {
                scores.dom().contains(w) && last.dom().contains(w)
            } else {
                matches[i - 1].1.next_continuations@.dom().contains(w)
            };
            let from = if !known {
                LowerTierContinuation { start_pos: 0, last_matched_hash: None }
            } else if i == 0 {
                LowerTierContinuation {
                    start_pos: scores[w] as usize,
                    last_matched_hash: Some(last[w]),
                }
            } else {
                matches[i - 1].1.next_continuations@[w]
            };
            &&& hits.dom().contains(w) <==> known || (sequence.len() > 0 && follower(
                all,
                w,
                None,
                sequence[0].0,
            ) is Some)
            &&& next.dom().contains(w) <==> hits.dom().contains(w)
            &&& hits.dom().contains(w) ==> next[w] == advanced(all, w, sequence, from)
                && from.start_pos + hits[w] == next[w].start_pos
        }),
{
    let start = device_ends(scores, last);
    lemma_walk_at(indexers, tier_order(), sequence, start, matches, i);
    let all = indexers.tier(matches[i].0)->0;
    let prior = if i == 0 {
        start
    } else {
        matches[i - 1].1.next_continuations@
    };
    let asked = with_roots(all, sequence, prior);
    assert(matches[i].1.hits@.dom().contains(w) == asked.dom().contains(w));
    assert(matches[i].1.next_continuations@.dom().contains(w) == asked.dom().contains(w));
}

} // verus!
