//! Conversion of engine events into placement-aware worker events.

use std::collections::HashSet;

use vstd::prelude::*;

use crate::hashing::{
    block_count, block_hashes, blocks_hash_one_by_one, compute_block_hash_for_seq, mm_infos_view, pad_value,
    pad_value_for_mm_hash, BlockHashOptions,
};
use crate::protocols::{
    clone_extra_info, extra_info_view, mm_hashes_of, opt_as_str, opt_str_view, opt_string_view,
    stored_blocks_view, tier_of_medium, BlockExtraInfo, EventDataView, ExternalSequenceBlockHash,
    KvCacheEvent, KvCacheEventData, KvCacheRemoveData, KvCacheStoreData, KvCacheStoredBlockData,
    LocalBlockHash, MmObjectView, Placement, PlacementEvent, StorageTier, WorkerWithDpRank,
};
use crate::zmq_wire::types::{block_hash_values, BlockHashValue, RawKvEvent};

verus! {

broadcast use vstd::std_specs::hash::group_hash_axioms;

/// Number of runs of `image` tokens that end at or before position `i`.
pub open spec fn runs_before(tokens: Seq<u32>, image: u32, i: int) -> nat
    decreases i,
{
    if i <= 0 {
        0
    } else {
        runs_before(tokens, image, i - 1) + if tokens[i - 1] == image && tokens[i] != image {
            1nat
        } else {
            0
        }
    }
}

/// The object whose value fills the run at position `i`: one object per run, in
/// order, the last one for all runs beyond the objects.
pub open spec fn object_of_run(tokens: Seq<u32>, image: u32, mm_objects: Seq<u64>, i: int) -> u64 {
    let run = runs_before(tokens, image, i);
    if run < mm_objects.len() {
        mm_objects[run as int]
    } else {
        mm_objects.last()
    }
}

/// `tokens` with every `image` token replaced by the value of its object.
pub open spec fn substituted(tokens: Seq<u32>, image: u32, mm_objects: Seq<u64>) -> Seq<u32> {
    Seq::new(
        tokens.len(),
        |i: int|
            if tokens[i] == image {
                pad_value(object_of_run(tokens, image, mm_objects, i))
            } else {
                tokens[i]
            },
    )
}

/// Rewrites each run of `image_token_id` to the pad value of its multimodal
/// object, one object per run in order, so that the tokens hash as a frontend's
/// expansion does. Runs beyond the objects take the last object.
pub fn substitute_pad_values(token_ids: &[u32], image_token_id: u32, mm_objects: &[u64]) -> (out:
    Vec<u32>)
    requires
        mm_objects@.len() > 0 || forall|i: int|
            0 <= i < token_ids@.len() ==> token_ids@[i] != image_token_id,
    ensures
        out@ == substituted(token_ids@, image_token_id, mm_objects@),
{
    let ghost all = substituted(token_ids@, image_token_id, mm_objects@);
    let mut out: Vec<u32> = Vec::with_capacity(token_ids.len());
    let mut obj_idx: usize = 0;
    let mut in_run = false;
    let mut run_pad: u32 = 0;
    let mut i: usize = 0;
    while i < token_ids.len()
        invariant
            mm_objects@.len() > 0 || forall|j: int|
                0 <= j < token_ids@.len() ==> token_ids@[j] != image_token_id,
            i <= token_ids@.len(),
            all == substituted(token_ids@, image_token_id, mm_objects@),
            out@ =~= all.take(i as int),
            in_run == (i > 0 && token_ids@[i - 1] == image_token_id),
            i == 0 ==> obj_idx == 0,
            i > 0 ==> obj_idx == runs_before(token_ids@, image_token_id, i - 1),
            obj_idx <= i,
            in_run ==> run_pad == pad_value(
                object_of_run(token_ids@, image_token_id, mm_objects@, i - 1),
            ),
        decreases token_ids.len() - i,
    {
        let t = token_ids[i];
        if t == image_token_id {
            if !in_run {
                in_run = true;
                let mm_hash = if obj_idx < mm_objects.len() {
                    mm_objects[obj_idx]
                } else {
                    mm_objects[mm_objects.len() - 1]
                };
                run_pad = pad_value_for_mm_hash(mm_hash);
            }
            out.push(run_pad);
        } else {
            if in_run {
                in_run = false;
                obj_idx += 1;
            }
            out.push(t);
        }
        i += 1;
    }
    assert(out@ =~= all);
    out
}

/// The hash of a stored block's tokens. With a routing image token and
/// multimodal objects the image runs are replaced and the objects themselves
/// left out; otherwise the objects are hashed with the tokens.
pub open spec fn stored_tokens_hash(
    kv_block_size: nat,
    tokens: Seq<u32>,
    lora_name: Option<Seq<char>>,
    mm_extra_info: Option<Seq<MmObjectView>>,
    is_eagle: Option<bool>,
    image_token_id: Option<u32>,
) -> LocalBlockHash {
    if image_token_id is Some && mm_extra_info is Some && mm_extra_info->0.len() > 0 {
        block_hashes(
            substituted(tokens, image_token_id->0, mm_hashes_of(mm_extra_info->0)),
            kv_block_size,
            Seq::empty(),
            lora_name,
            is_eagle,
        )[0]
    } else {
        block_hashes(
            tokens,
            kv_block_size,
            if mm_extra_info is Some {
                seq![mm_extra_info]
            } else {
                Seq::empty()
            },
            lora_name,
            is_eagle,
        )[0]
    }
}

/// Builds a stored block from its parts. The tokens must fill a block.
pub fn create_stored_block_from_parts(
    kv_block_size: u32,
    block_hash: u64,
    token_ids: &[u32],
    lora_name: Option<&str>,
    mm_extra_info: Option<BlockExtraInfo>,
    is_eagle: Option<bool>,
    image_token_id: Option<u32>,
) -> (block: KvCacheStoredBlockData)
    requires
        block_count(token_ids@.len(), kv_block_size as nat, is_eagle) > 0,
    ensures
        block.block_hash.0 == block_hash,
        block.tokens_hash == stored_tokens_hash(
            kv_block_size as nat,
            token_ids@,
            opt_str_view(lora_name),
            extra_info_view(mm_extra_info),
            is_eagle,
            image_token_id,
        ),
        extra_info_view(block.mm_extra_info) == extra_info_view(mm_extra_info),
{
    let mut normalize: Option<(u32, Vec<u64>)> = None;
    if let Some(img_tok) = image_token_id {
        if let Some(info) = &mm_extra_info {
            if info.mm_objects.len() > 0 {
                normalize = Some((img_tok, info.mm_hashes()));
            }
        }
    }
    let tokens_hash = match normalize {
        Some((img_tok, mm_hashes)) => {
            let replaced = substitute_pad_values(token_ids, img_tok, mm_hashes.as_slice());
            let hashes = compute_block_hash_for_seq(
                replaced.as_slice(),
                kv_block_size,
                BlockHashOptions { block_mm_infos: None, lora_name, is_eagle },
            );
            hashes[0]
        },
        None => {
            match &mm_extra_info {
                Some(info) => {
                    let mut infos: Vec<Option<BlockExtraInfo>> = Vec::new();
                    infos.push(Some(info.clone()));
                    let slice = infos.as_slice();
                    assert(mm_infos_view(Some(slice)) =~= seq![Some(info@)]);
                    let hashes = compute_block_hash_for_seq(
                        token_ids,
                        kv_block_size,
                        BlockHashOptions {
                            block_mm_infos: Some(slice),
                            lora_name,
                            is_eagle,
                        },
                    );
                    hashes[0]
                },
                None => {
                    let hashes = compute_block_hash_for_seq(
                        token_ids,
                        kv_block_size,
                        BlockHashOptions { block_mm_infos: None, lora_name, is_eagle },
                    );
                    hashes[0]
                },
            }
        },
    };
    KvCacheStoredBlockData {
        block_hash: ExternalSequenceBlockHash(block_hash),
        tokens_hash,
        mm_extra_info,
    }
}

/// Whether block `i` can be published: it has the router's block size, and its
/// tokens are all there.
pub open spec fn publishable(
    kv_block_size: nat,
    tokens_len: nat,
    num_block_tokens: Seq<u64>,
    is_eagle: Option<bool>,
    i: int,
) -> bool {
    &&& num_block_tokens[i] == kv_block_size
    &&& i * kv_block_size + kv_block_size + (if is_eagle == Some(true) {
        1int
    } else {
        0
    }) <= tokens_len
}

/// Model of the published block `i`.
pub open spec fn published_block(
    kv_block_size: nat,
    tokens: Seq<u32>,
    block_hash: u64,
    lora_name: Option<Seq<char>>,
    mm_extra_info: Option<Seq<MmObjectView>>,
    is_eagle: Option<bool>,
    image_token_id: Option<u32>,
    i: int,
) -> crate::protocols::StoredBlockView {
    crate::protocols::StoredBlockView {
        block_hash,
        tokens_hash: stored_tokens_hash(
            kv_block_size,
            tokens.subrange(
                i * kv_block_size as int,
                i * kv_block_size as int + kv_block_size as int + (if is_eagle == Some(true) {
                    1int
                } else {
                    0
                }),
            ),
            lora_name,
            mm_extra_info,
            is_eagle,
            image_token_id,
        ).0,
        mm_extra_info,
    }
}

/// The multimodal objects of block `i`, where the list reaches that far.
pub open spec fn info_at(infos: Seq<Option<Seq<MmObjectView>>>, i: int) -> Option<
    Seq<MmObjectView>,
> {
    if 0 <= i < infos.len() {
        infos[i]
    } else {
        None
    }
}

/// What [`create_stored_blocks`] makes of a store event: the blocks up to the
/// first that cannot be published.
pub open spec fn stored_blocks_of(
    kv_block_size: nat,
    tokens: Seq<u32>,
    num_block_tokens: Seq<u64>,
    hashes: Seq<u64>,
    lora_name: Option<Seq<char>>,
    infos: Seq<Option<Seq<MmObjectView>>>,
    is_eagle: Option<bool>,
    image_token_id: Option<u32>,
    blocks: Seq<crate::protocols::StoredBlockView>,
) -> bool {
    let offered = if num_block_tokens.len() <= hashes.len() {
        num_block_tokens.len()
    } else {
        hashes.len()
    };
    &&& blocks.len() <= offered
    &&& forall|i: int|
        0 <= i < blocks.len() ==> publishable(
            kv_block_size,
            tokens.len(),
            num_block_tokens,
            is_eagle,
            i,
        )
    &&& blocks.len() < offered ==> !publishable(
        kv_block_size,
        tokens.len(),
        num_block_tokens,
        is_eagle,
        blocks.len() as int,
    )
    &&& forall|i: int|
        #![trigger blocks[i]]
        0 <= i < blocks.len() ==> blocks[i] == published_block(
            kv_block_size,
            tokens,
            hashes[i],
            lora_name,
            info_at(infos, i),
            is_eagle,
            image_token_id,
            i,
        )
}

fn info_for(infos: Option<&[Option<BlockExtraInfo>]>, i: usize) -> (info: Option<BlockExtraInfo>)
    ensures
        extra_info_view(info) == info_at(mm_infos_view(infos), i as int),
{
    match infos {
        Some(infos) => {
            if i < infos.len() {
                clone_extra_info(&infos[i])
            } else {
                None
            }
        },
        None => None,
    }
}

/// The counter after one more warning; it wraps around.
pub open spec fn next_count(count: u32) -> u32 {
    if count == u32::MAX {
        0
    } else {
        (count + 1) as u32
    }
}

fn count_one(count: u32) -> (r: u32)
    ensures
        r == next_count(count),
{
    if count == u32::MAX {
        0
    } else {
        count + 1
    }
}

/// Builds the stored blocks of an event. It stops at the first block that has
/// another size than the router's or lacks tokens, and then counts one warning.
pub fn create_stored_blocks(
    kv_block_size: u32,
    token_ids: &[u32],
    num_block_tokens: &[u64],
    block_hashes: &[u64],
    lora_name: Option<&str>,
    warning_count: &mut u32,
    block_mm_infos: Option<&[Option<BlockExtraInfo>]>,
    is_eagle: Option<bool>,
    image_token_id: Option<u32>,
) -> (blocks: Vec<KvCacheStoredBlockData>)
    requires
        kv_block_size > 0 || num_block_tokens@.len() == 0 || block_hashes@.len() == 0
            || num_block_tokens@[0] != 0,
    ensures
        stored_blocks_of(
            kv_block_size as nat,
            token_ids@,
            num_block_tokens@,
            block_hashes@,
            opt_str_view(lora_name),
            mm_infos_view(block_mm_infos),
            is_eagle,
            image_token_id,
            stored_blocks_view(blocks@),
        ),
        *final(warning_count) == if blocks@.len() < num_block_tokens@.len() && blocks@.len()
            < block_hashes@.len() {
            next_count(*old(warning_count))
        } else {
            *old(warning_count)
        },
{
    let ghost size = kv_block_size as nat;
    let ghost lora = opt_str_view(lora_name);
    let ghost infos = mm_infos_view(block_mm_infos);
    let mut blocks: Vec<KvCacheStoredBlockData> = Vec::new();
    let append: u64 = match is_eagle {
        Some(true) => 1,
        _ => 0,
    };
    let mut token_offset: usize = 0;
    let mut i: usize = 0;
    while i < num_block_tokens.len() && i < block_hashes.len()
        invariant
            size == kv_block_size,
            lora == opt_str_view(lora_name),
            infos == mm_infos_view(block_mm_infos),
            append == if is_eagle == Some(true) {
                1int
            } else {
                0
            },
            kv_block_size > 0 || num_block_tokens@.len() == 0 || block_hashes@.len() == 0
                || num_block_tokens@[0] != 0,
            i <= num_block_tokens@.len(),
            i <= block_hashes@.len(),
            i > 0 ==> kv_block_size > 0,
            token_offset == i * size,
            token_offset <= token_ids@.len(),
            blocks@.len() == i,
            forall|j: int|
                0 <= j < i ==> publishable(size, token_ids@.len(), num_block_tokens@, is_eagle, j),
            forall|j: int|
                0 <= j < i ==> #[trigger] blocks@[j]@ == published_block(
                    size,
                    token_ids@,
                    block_hashes@[j],
                    lora,
                    info_at(infos, j),
                    is_eagle,
                    image_token_id,
                    j,
                ),
            *warning_count == *old(warning_count),
        decreases num_block_tokens.len() - i,
    {
        let num_tokens = num_block_tokens[i];
        let left: u64 = (token_ids.len() - token_offset) as u64;
        if num_tokens != kv_block_size as u64 || append + num_tokens > left {
            *warning_count = count_one(*warning_count);
            return blocks;
        }
        let end: usize = token_offset + (append + num_tokens) as usize;
        let tokens = vstd::slice::slice_subrange(token_ids, token_offset, end);
        proof {
            lemma_one_block(tokens@.len(), size, is_eagle);
        }
        let mm_extra_info = info_for(block_mm_infos, i);
        blocks.push(
            create_stored_block_from_parts(
                kv_block_size,
                block_hashes[i],
                tokens,
                lora_name,
                mm_extra_info,
                is_eagle,
                image_token_id,
            ),
        );
        token_offset += num_tokens as usize;
        i += 1;
        assert(i * size == (i - 1) * size + size) by (nonlinear_arith);
    }
    blocks
}

proof fn lemma_one_block(tokens_len: nat, size: nat, is_eagle: Option<bool>)
    requires
        size > 0,
        tokens_len == crate::hashing::block_window(size, is_eagle),
    ensures
        block_count(tokens_len, size, is_eagle) == 1,
{
    assert(0int / (size as int) == 0) by (nonlinear_arith)
        requires
            size > 0,
    ;
}

/// The hashes that a store event names: its parent's, then its blocks'.
pub open spec fn named_hashes(parent: Option<BlockHashValue>, hashes: Seq<BlockHashValue>) -> Seq<
    u64,
> {
    match parent {
        Some(parent) => seq![parent.spec_into_u64()] + block_hash_values(hashes),
        None => block_hash_values(hashes),
    }
}

fn names_are_unique(parent: Option<BlockHashValue>, hashes: &Vec<BlockHashValue>) -> (unique: bool)
    ensures
        unique == named_hashes(parent, hashes@).no_duplicates(),
{
    let ghost names = named_hashes(parent, hashes@);
    let mut seen: HashSet<u64> = HashSet::new();
    let ghost skip: int = match parent {
        Some(_) => 1,
        None => 0,
    };
    if let Some(parent) = parent {
        seen.insert(parent.into_u64());
    }
    assert(names.take(skip).no_duplicates());
    proof {
        assert forall|x: u64| seen@.contains(x) implies names.take(skip).to_set().contains(x) by {
            assert(names.take(skip)[0] == x);
        }
        assert(seen@ =~= names.take(skip).to_set());
    }
    let mut i: usize = 0;
    while i < hashes.len()
        invariant
            i <= hashes@.len(),
            0 <= skip <= 1,
            skip == (match parent {
                Some(_) => 1int,
                None => 0,
            }),
            names == named_hashes(parent, hashes@),
            names.len() == hashes@.len() + skip,
            seen@ =~= names.take(i + skip).to_set(),
            names.take(i + skip).no_duplicates(),
        decreases hashes.len() - i,
    {
        let hash = hashes[i].into_u64();
        assert(names[i + skip] == hash);
        let ghost before = names.take(i + skip);
        assert(names.take(i + 1 + skip) =~= before.push(hash));
        let fresh = seen.insert(hash);
        if !fresh {
            proof {
                assert(before.to_set().contains(hash));
                let j = choose|j: int| 0 <= j < before.len() && before[j] == hash;
                assert(names[j] == names[i + skip]);
            }
            return false;
        }
        proof {
            assert(!before.contains(hash)) by {
                if before.contains(hash) {
                    assert(before.to_set().contains(hash));
                }
            }
            assert(before.push(hash).to_set() =~= before.to_set().insert(hash)) by {
                assert forall|x: u64| before.push(hash).to_set().contains(x) implies before.to_set().insert(hash).contains(x) by {
                    let j = choose|j: int|
                        0 <= j < before.push(hash).len() && before.push(hash)[j] == x;
                    if j < before.len() {
                        assert(before[j] == x);
                    }
                }
                assert forall|x: u64| before.to_set().insert(hash).contains(x) implies before.push(hash).to_set().contains(x) by {
                    if x == hash {
                        assert(before.push(hash)[before.len() as int] == x);
                    } else {
                        let j = choose|j: int| 0 <= j < before.len() && before[j] == x;
                        assert(before.push(hash)[j] == x);
                    }
                }
            }
        }
        i += 1;
    }
    assert(names.take(i + skip) =~= names);
    true
}

fn hash_numbers(hashes: &Vec<BlockHashValue>) -> (numbers: Vec<u64>)
    ensures
        numbers@ == block_hash_values(hashes@),
{
    let mut numbers: Vec<u64> = Vec::new();
    for i in 0..hashes.len()
        invariant
            numbers@ =~= block_hash_values(hashes@).take(i as int),
    {
        numbers.push(hashes[i].into_u64());
    }
    assert(numbers@ =~= block_hash_values(hashes@));
    numbers
}

/// Hashes as the router names blocks.
pub open spec fn external_hashes(hashes: Seq<BlockHashValue>) -> Seq<ExternalSequenceBlockHash> {
    hashes.map_values(|h: BlockHashValue| ExternalSequenceBlockHash(h.spec_into_u64()))
}

fn external_hash_list(hashes: &Vec<BlockHashValue>) -> (list: Vec<ExternalSequenceBlockHash>)
    ensures
        list@ == external_hashes(hashes@),
{
    let mut list: Vec<ExternalSequenceBlockHash> = Vec::new();
    for i in 0..hashes.len()
        invariant
            list@ =~= external_hashes(hashes@).take(i as int),
    {
        list.push(ExternalSequenceBlockHash(hashes[i].into_u64()));
    }
    assert(list@ =~= external_hashes(hashes@));
    list
}

/// The tier that an engine event speaks of.
pub open spec fn tier_of_raw(raw: RawKvEvent) -> StorageTier {
    match raw {
        RawKvEvent::BlockStored { medium, .. } => tier_of_medium(opt_string_view(medium)),
        RawKvEvent::BlockRemoved { medium, .. } => tier_of_medium(opt_string_view(medium)),
        _ => StorageTier::Device,
    }
}

/// Model of the multimodal objects that a store event carries.
pub open spec fn raw_infos_view(infos: Option<Vec<Option<BlockExtraInfo>>>) -> Seq<
    Option<Seq<MmObjectView>>,
> {
    match infos {
        Some(infos) => infos@.map_values(|i: Option<BlockExtraInfo>| extra_info_view(i)),
        None => Seq::empty(),
    }
}

/// Whether `data` is what an engine event says happened. A store event that
/// names a hash twice becomes a removal of nothing.
pub open spec fn converts_to(
    raw: RawKvEvent,
    kv_block_size: nat,
    image_token_id: Option<u32>,
    data: EventDataView,
) -> bool {
    match raw {
        RawKvEvent::BlockStored {
            block_hashes: hashes,
            parent_block_hash,
            token_ids,
            block_size,
            lora_name,
            block_mm_infos,
            is_eagle,
            ..
        } => if named_hashes(parent_block_hash, hashes@).no_duplicates() {
            &&& data matches EventDataView::Stored { parent_hash, start_position, blocks }
            &&& parent_hash == (match parent_block_hash {
                Some(parent) => Some(ExternalSequenceBlockHash(parent.spec_into_u64())),
                None => None,
            })
            &&& start_position is None
            &&& stored_blocks_of(
                kv_block_size,
                token_ids@,
                Seq::new(hashes@.len(), |i: int| block_size as u64),
                block_hash_values(hashes@),
                opt_string_view(lora_name),
                raw_infos_view(block_mm_infos),
                is_eagle,
                image_token_id,
                blocks,
            )
        } else {
            data == (EventDataView::Removed { block_hashes: Seq::empty() })
        },
        RawKvEvent::BlockRemoved { block_hashes: hashes, .. } => data == (EventDataView::Removed {
            block_hashes: external_hashes(hashes@),
        }),
        RawKvEvent::AllBlocksCleared => data == EventDataView::Cleared,
        RawKvEvent::Ignored => false,
    }
}

/// Whether an engine event can be converted: one that stores blocks needs a
/// block size.
pub open spec fn convertible(raw: RawKvEvent, kv_block_size: u32) -> bool {
    match raw {
        RawKvEvent::BlockStored { block_hashes: hashes, parent_block_hash, block_size, .. } => {
            kv_block_size > 0 || hashes@.len() == 0 || block_size as u64 != 0 || !named_hashes(
                parent_block_hash,
                hashes@,
            ).no_duplicates()
        },
        _ => true,
    }
}

/// Converts an engine event into a placement-aware worker event. Ignored events
/// give none.
pub fn convert_event(
    raw: RawKvEvent,
    event_id: u64,
    kv_block_size: u32,
    worker: WorkerWithDpRank,
    warning_count: &mut u32,
    image_token_id: Option<u32>,
) -> (event: Option<PlacementEvent>)
    requires
        convertible(raw, kv_block_size),
    ensures
        event is None <==> raw is Ignored,
        event is Some ==> {
            &&& event->0.placement.worker == worker
            &&& event->0.placement.tier == tier_of_raw(raw)
            &&& event->0.event.event_id == event_id
            &&& event->0.event.dp_rank == worker.dp_rank
            &&& converts_to(raw, kv_block_size as nat, image_token_id, event->0.event.data@)
        },
        *final(warning_count) == (match raw {
            RawKvEvent::BlockStored { block_hashes: hashes, .. } => if event->0.event.data@ is Stored
                && event->0.event.data@->blocks.len() < hashes@.len() {
                next_count(*old(warning_count))
            } else {
                *old(warning_count)
            },
            _ => *old(warning_count),
        }),
{
    let dp_rank = worker.dp_rank;
    match raw {
        RawKvEvent::Ignored => None,
        RawKvEvent::AllBlocksCleared => Some(
            PlacementEvent::new(
                Placement::local_worker(worker.worker_id, worker.dp_rank, StorageTier::Device),
                KvCacheEvent { event_id, data: KvCacheEventData::Cleared, dp_rank },
            ),
        ),
        RawKvEvent::BlockRemoved { block_hashes, medium, .. } => {
            let tier = StorageTier::from_kv_medium_or_default(opt_as_str(&medium));
            Some(
                PlacementEvent::new(
                    Placement::local_worker(worker.worker_id, worker.dp_rank, tier),
                    KvCacheEvent {
                        event_id,
                        data: KvCacheEventData::Removed(
                            KvCacheRemoveData { block_hashes: external_hash_list(&block_hashes) },
                        ),
                        dp_rank,
                    },
                ),
            )
        },
        RawKvEvent::BlockStored {
            block_hashes,
            parent_block_hash,
            token_ids,
            block_size,
            medium,
            lora_name,
            block_mm_infos,
            is_eagle,
            ..
        } => {
            let tier = StorageTier::from_kv_medium_or_default(opt_as_str(&medium));
            let placement = Placement::local_worker(worker.worker_id, worker.dp_rank, tier);
            // A store event whose blocks name themselves is dropped. An empty
            // removal leaves the worker's index as it is, where a clear would
            // empty it.
            if !names_are_unique(parent_block_hash, &block_hashes) {
                let none: Vec<ExternalSequenceBlockHash> = Vec::new();
                let data = KvCacheEventData::Removed(KvCacheRemoveData { block_hashes: none });
                assert(data@ == (EventDataView::Removed { block_hashes: Seq::empty() }));
                return Some(
                    PlacementEvent::new(placement, KvCacheEvent { event_id, data, dp_rank }),
                );
            }
            let mut num_block_tokens: Vec<u64> = Vec::new();
            let numbers = hash_numbers(&block_hashes);
            for i in 0..block_hashes.len()
                invariant
                    num_block_tokens@ =~= Seq::new(i as nat, |j: int| block_size as u64),
            {
                num_block_tokens.push(block_size as u64);
            }
            let infos = match &block_mm_infos {
                Some(infos) => Some(infos.as_slice()),
                None => None,
            };
            assert(mm_infos_view(infos) =~= raw_infos_view(block_mm_infos));
            let blocks = create_stored_blocks(
                kv_block_size,
                token_ids.as_slice(),
                num_block_tokens.as_slice(),
                numbers.as_slice(),
                opt_as_str(&lora_name),
                warning_count,
                infos,
                is_eagle,
                image_token_id,
            );
            let parent_hash = match parent_block_hash {
                Some(parent) => Some(ExternalSequenceBlockHash(parent.into_u64())),
                None => None,
            };
            Some(
                PlacementEvent::new(
                    placement,
                    KvCacheEvent {
                        event_id,
                        data: KvCacheEventData::Stored(
                            KvCacheStoreData { parent_hash, start_position: None, blocks },
                        ),
                        dp_rank,
                    },
                ),
            )
        },
    }
}

/// Nothing a store event says of its own blocks twice reaches the index: the
/// event then removes nothing.
pub proof fn self_reference_is_a_no_op(
    raw: RawKvEvent,
    kv_block_size: nat,
    image_token_id: Option<u32>,
    data: EventDataView,
)
    requires
        raw is BlockStored,
        !named_hashes(raw->parent_block_hash, raw->BlockStored_block_hashes@).no_duplicates(),
        converts_to(raw, kv_block_size, image_token_id, data),
    ensures
        data == (EventDataView::Removed { block_hashes: Seq::empty() }),
{
}

/// An event without multimodal objects hashes the same whatever the routing
/// image token is.
pub proof fn image_token_needs_objects(
    kv_block_size: nat,
    tokens: Seq<u32>,
    lora_name: Option<Seq<char>>,
    is_eagle: Option<bool>,
    image_token_id: Option<u32>,
)
    ensures
        stored_tokens_hash(kv_block_size, tokens, lora_name, None, is_eagle, image_token_id)
            == stored_tokens_hash(kv_block_size, tokens, lora_name, None, is_eagle, None),
{
}

/// A block whose image run stands for one object hashes as the tokens with the
/// object's pad value in its place do, without the object.
pub proof fn normalized_hash_is_the_frontend_hash(
    kv_block_size: nat,
    tokens: Seq<u32>,
    lora_name: Option<Seq<char>>,
    objects: Seq<MmObjectView>,
    is_eagle: Option<bool>,
    image_token_id: u32,
)
    requires
        objects.len() > 0,
    ensures
        stored_tokens_hash(
            kv_block_size,
            tokens,
            lora_name,
            Some(objects),
            is_eagle,
            Some(image_token_id),
        ) == stored_tokens_hash(
            kv_block_size,
            substituted(tokens, image_token_id, mm_hashes_of(objects)),
            lora_name,
            None,
            is_eagle,
            None,
        ),
{
}

/// Events and queries agree: the blocks of a store event hash as the same blocks of its
/// whole token list do, each at its own place, with the objects that the event gives for
/// it where no image token stands for them. They keep the names that the engine gave
/// them, in order.
pub proof fn stored_blocks_hash_as_queries_do(
    kv_block_size: nat,
    tokens: Seq<u32>,
    num_block_tokens: Seq<u64>,
    hashes: Seq<u64>,
    lora_name: Option<Seq<char>>,
    infos: Seq<Option<Seq<MmObjectView>>>,
    is_eagle: Option<bool>,
    image_token_id: Option<u32>,
    blocks: Seq<crate::protocols::StoredBlockView>,
    i: int,
)
    requires
        kv_block_size > 0,
        stored_blocks_of(
            kv_block_size,
            tokens,
            num_block_tokens,
            hashes,
            lora_name,
            infos,
            is_eagle,
            image_token_id,
            blocks,
        ),
        image_token_id is None || forall|j: int|
            0 <= j < infos.len() ==> (#[trigger] infos[j]) is None,
        0 <= i < blocks.len(),
    ensures
        i < hashes.len(),
        blocks[i].block_hash == hashes[i],
        i < block_hashes(tokens, kv_block_size, infos, lora_name, is_eagle).len(),
        blocks[i].tokens_hash == block_hashes(
            tokens,
            kv_block_size,
            infos,
            lora_name,
            is_eagle,
        )[i].0,
        blocks[i].mm_extra_info == if i < infos.len() {
            infos[i]
        } else {
            None
        },
{
    let ahead: int = if is_eagle == Some(true) {
        1
    } else {
        0
    };
    let start = i * kv_block_size as int;
    let own = tokens.subrange(start, start + kv_block_size as int + ahead);
    assert(publishable(kv_block_size, tokens.len(), num_block_tokens, is_eagle, i));
    blocks_hash_one_by_one(tokens, kv_block_size, infos, lora_name, is_eagle, i);
    let info = info_at(infos, i);
    assert(blocks[i] == published_block(
        kv_block_size,
        tokens,
        hashes[i],
        lora_name,
        info,
        is_eagle,
        image_token_id,
        i,
    ));
    if i < infos.len() && infos[i] is None {
        lemma_no_objects(own, kv_block_size, lora_name, is_eagle);
    }
}

/// A block without objects hashes as one that is given none.
proof fn lemma_no_objects(
    tokens: Seq<u32>,
    kv_block_size: nat,
    lora_name: Option<Seq<char>>,
    is_eagle: Option<bool>,
)
    ensures
        block_hashes(tokens, kv_block_size, seq![None], lora_name, is_eagle) == block_hashes(
            tokens,
            kv_block_size,
            Seq::empty(),
            lora_name,
            is_eagle,
        ),
{
    assert(block_hashes(tokens, kv_block_size, seq![None], lora_name, is_eagle) =~= block_hashes(
        tokens,
        kv_block_size,
        Seq::empty(),
        lora_name,
        is_eagle,
    ));
}

/// Nothing that can be published is left out: where all blocks of a store event have the
/// router's size and all their tokens are there, every one of them is stored. Where some
/// are not like that, those before the first such block are.
pub proof fn whole_blocks_are_all_stored(
    kv_block_size: nat,
    tokens: Seq<u32>,
    num_block_tokens: Seq<u64>,
    hashes: Seq<u64>,
    lora_name: Option<Seq<char>>,
    infos: Seq<Option<Seq<MmObjectView>>>,
    is_eagle: Option<bool>,
    image_token_id: Option<u32>,
    blocks: Seq<crate::protocols::StoredBlockView>,
    n: int,
)
    requires
        stored_blocks_of(
            kv_block_size,
            tokens,
            num_block_tokens,
            hashes,
            lora_name,
            infos,
            is_eagle,
            image_token_id,
            blocks,
        ),
        num_block_tokens.len() == hashes.len(),
        0 <= n <= hashes.len(),
        forall|j: int| 0 <= j < n ==> (#[trigger] num_block_tokens[j]) == kv_block_size,
        n * kv_block_size + (if is_eagle == Some(true) {
            1int
        } else {
            0
        }) <= tokens.len(),
    ensures
        blocks.len() >= n,
        n < hashes.len() && num_block_tokens[n] != kv_block_size ==> blocks.len() == n,
        n == hashes.len() ==> blocks.len() == n,
{
    if blocks.len() < n {
        let i = blocks.len() as int;
        assert(i * kv_block_size + kv_block_size <= n * kv_block_size) by (nonlinear_arith)
            requires
                i + 1 <= n,
                kv_block_size >= 0,
        ;
        assert(num_block_tokens[i] == kv_block_size);
        assert(publishable(kv_block_size, tokens.len(), num_block_tokens, is_eagle, i));
    }
    if n < hashes.len() && num_block_tokens[n] != kv_block_size && blocks.len() > n {
        assert(publishable(kv_block_size, tokens.len(), num_block_tokens, is_eagle, n));
    }
}

/// An engine's store event and a query for the same tokens meet: where the engine's block
/// size is the router's, its hashes differ and it names no objects, every block for which
/// the tokens are there is stored under the engine's hash for it and hashes as that block
/// does in a query for the event's tokens.
pub proof fn store_events_meet_queries(
    raw: RawKvEvent,
    kv_block_size: u32,
    image_token_id: Option<u32>,
    data: EventDataView,
    i: int,
)
    requires
        raw is BlockStored,
        converts_to(raw, kv_block_size as nat, image_token_id, data),
        kv_block_size > 0,
        raw->block_size as u64 == kv_block_size as u64,
        raw->block_mm_infos is None,
        forall|j: int, k: int|
            0 <= j < k < raw->BlockStored_block_hashes@.len() ==> (
            #[trigger] raw->BlockStored_block_hashes@[j]).spec_into_u64() != (
            #[trigger] raw->BlockStored_block_hashes@[k]).spec_into_u64(),
        raw->parent_block_hash matches Some(parent) ==> forall|j: int|
            0 <= j < raw->BlockStored_block_hashes@.len() ==> (
            #[trigger] raw->BlockStored_block_hashes@[j]).spec_into_u64()
                != parent.spec_into_u64(),
        0 <= i < raw->BlockStored_block_hashes@.len(),
        raw->BlockStored_block_hashes@.len() * kv_block_size + (if raw->is_eagle == Some(true) {
            1int
        } else {
            0
        }) <= raw->token_ids@.len(),
    ensures
        data is Stored,
        data->blocks.len() == raw->BlockStored_block_hashes@.len(),
        data->blocks[i].block_hash == raw->BlockStored_block_hashes@[i].spec_into_u64(),
        i < block_hashes(
            raw->token_ids@,
            kv_block_size as nat,
            Seq::empty(),
            opt_string_view(raw->BlockStored_lora_name),
            raw->is_eagle,
        ).len(),
        data->blocks[i].tokens_hash == block_hashes(
            raw->token_ids@,
            kv_block_size as nat,
            Seq::empty(),
            opt_string_view(raw->BlockStored_lora_name),
            raw->is_eagle,
        )[i].0,
        data->parent_hash == match raw->parent_block_hash {
            Some(parent) => Some(ExternalSequenceBlockHash(parent.spec_into_u64())),
            None => None,
        },
{
    let hashes = raw->BlockStored_block_hashes@;
    let names = named_hashes(raw->parent_block_hash, hashes);
    let skip: int = match raw->parent_block_hash {
        Some(_) => 1,
        None => 0,
    };
    assert(names.no_duplicates()) by {
        assert forall|j: int, k: int| 0 <= j < names.len() && 0 <= k < names.len() && j
            != k implies names[j] != names[k] by {
            let (a, b) = if j < k {
                (j, k)
            } else {
                (k, j)
            };
            assert(names[b] == hashes[b - skip].spec_into_u64());
            if a >= skip {
                assert(names[a] == hashes[a - skip].spec_into_u64());
            }
        }
    }
    let sizes = Seq::new(hashes.len(), |j: int| raw->block_size as u64);
    whole_blocks_are_all_stored(
        kv_block_size as nat,
        raw->token_ids@,
        sizes,
        block_hash_values(hashes),
        opt_string_view(raw->BlockStored_lora_name),
        Seq::empty(),
        raw->is_eagle,
        image_token_id,
        data->blocks,
        hashes.len() as int,
    );
    stored_blocks_hash_as_queries_do(
        kv_block_size as nat,
        raw->token_ids@,
        sizes,
        block_hash_values(hashes),
        opt_string_view(raw->BlockStored_lora_name),
        Seq::empty(),
        raw->is_eagle,
        image_token_id,
        data->blocks,
        i,
    );
}

/// Putting objects in place of image tokens leaves all other tokens and the length, and
/// gives every token of a run the same value: the first run that of the first object, and
/// each later run that of the next, the last object standing for all runs beyond.
pub proof fn runs_take_their_objects_in_order(
    tokens: Seq<u32>,
    image: u32,
    mm_objects: Seq<u64>,
    i: int,
    run: nat,
)
    requires
        0 <= i < tokens.len(),
        mm_objects.len() > 0,
    ensures
        substituted(tokens, image, mm_objects).len() == tokens.len(),
        tokens[i] != image ==> substituted(tokens, image, mm_objects)[i] == tokens[i],
        i > 0 && tokens[i] == image && tokens[i - 1] == image ==> substituted(
            tokens,
            image,
            mm_objects,
        )[i] == substituted(tokens, image, mm_objects)[i - 1],
        tokens[i] == image && (forall|j: int| 0 <= j < i ==> (#[trigger] tokens[j]) != image)
            ==> substituted(tokens, image, mm_objects)[i] == pad_value(mm_objects[0]),
        tokens[i] == image && run_starts(tokens, image, i + 1) == run + 1 ==> substituted(
            tokens,
            image,
            mm_objects,
        )[i] == pad_value(
            mm_objects[if run < mm_objects.len() {
                run as int
            } else {
                mm_objects.len() - 1
            }],
        ),
{
    lemma_runs_count(tokens, image, i);
    if forall|j: int| 0 <= j < i ==> (#[trigger] tokens[j]) != image {
        lemma_no_runs(tokens, image, i);
    }
}

/// Number of runs of `image` tokens that begin before a position.
pub open spec fn run_starts(tokens: Seq<u32>, image: u32, end: int) -> nat
    decreases end,
{
    if end <= 0 {
        0
    } else {
        run_starts(tokens, image, end - 1) + if tokens[end - 1] == image && (end == 1 || tokens[end
            - 2] != image) {
            1nat
        } else {
            0
        }
    }
}

proof fn lemma_no_runs(tokens: Seq<u32>, image: u32, i: int)
    requires
        0 <= i < tokens.len(),
        forall|j: int| 0 <= j < i ==> (#[trigger] tokens[j]) != image,
    ensures
        runs_before(tokens, image, i) == 0,
    decreases i,
{
    if i > 0 {
        lemma_no_runs(tokens, image, i - 1);
        assert(tokens[i - 1] != image);
    }
}

/// Runs that began are those that ended, and the one that goes on.
proof fn lemma_runs_count(tokens: Seq<u32>, image: u32, i: int)
    requires
        0 <= i < tokens.len(),
    ensures
        run_starts(tokens, image, i + 1) == runs_before(tokens, image, i) + if tokens[i] == image {
            1nat
        } else {
            0
        },
    decreases i,
{
    reveal_with_fuel(run_starts, 2);
    if i > 0 {
        lemma_runs_count(tokens, image, i - 1);
    }
}

/// A removal names the blocks that the engine removed, all of them, in their order.
pub proof fn removals_name_the_same_blocks(
    raw: RawKvEvent,
    kv_block_size: nat,
    image_token_id: Option<u32>,
    data: EventDataView,
)
    requires
        raw is BlockRemoved,
        converts_to(raw, kv_block_size, image_token_id, data),
    ensures
        data is Removed,
        data->block_hashes.len() == raw->BlockRemoved_block_hashes@.len(),
        forall|i: int|
            0 <= i < data->block_hashes.len() ==> (#[trigger] data->block_hashes[i]).0
                == raw->BlockRemoved_block_hashes@[i].spec_into_u64(),
{
}

/// Blocks are removed from the tier of the medium that they were stored on; where an event
/// names no medium, and where all blocks go, it is the device.
pub proof fn media_tell_tiers(raw: RawKvEvent)
    ensures
        raw matches RawKvEvent::BlockStored { medium, .. } ==> tier_of_raw(raw) == match medium {
            Some(m) => tier_of_medium(Some(m@)),
            None => StorageTier::Device,
        },
        raw matches RawKvEvent::BlockRemoved { medium, .. } ==> tier_of_raw(raw) == match medium {
            Some(m) => tier_of_medium(Some(m@)),
            None => StorageTier::Device,
        },
        raw is AllBlocksCleared ==> tier_of_raw(raw) == StorageTier::Device,
{
}

} // verus!
