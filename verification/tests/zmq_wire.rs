//! What workers send of their caches, and what becomes of it.

use kv_router::hashing::{compute_block_hash_for_seq, pad_value_for_mm_hash, BlockHashOptions};
use kv_router::protocols::{
    BlockExtraInfo, BlockMmObjectInfo, ExternalSequenceBlockHash, KvCacheEventData,
    KvCacheRemoveData, StorageTier, WorkerWithDpRank,
};
use kv_router::zmq_wire::convert::{
    convert_event, create_stored_block_from_parts, create_stored_blocks, substitute_pad_values,
};
use kv_router::zmq_wire::filter::{ZmqEventFilterReason, ZmqEventNormalizer};
use kv_router::zmq_wire::types::{BlockHashValue, KvCacheSpecKind, RawKvEvent};

fn stored(group_idx: Option<u32>, kind: Option<KvCacheSpecKind>) -> RawKvEvent {
    RawKvEvent::BlockStored {
        block_hashes: vec![BlockHashValue::Unsigned(11)],
        parent_block_hash: None,
        token_ids: vec![10, 11],
        block_size: 2,
        medium: None,
        lora_name: None,
        block_mm_infos: None,
        is_eagle: None,
        group_idx,
        kv_cache_spec_kind: kind,
        kv_cache_spec_sliding_window: None,
    }
}

fn removed(group_idx: Option<u32>, kind: Option<KvCacheSpecKind>) -> RawKvEvent {
    RawKvEvent::BlockRemoved {
        block_hashes: vec![BlockHashValue::Unsigned(11)],
        medium: None,
        group_idx,
        kv_cache_spec_kind: kind,
        kv_cache_spec_sliding_window: None,
    }
}

fn image(mm_hash: u64) -> BlockExtraInfo {
    BlockExtraInfo { mm_objects: vec![BlockMmObjectInfo { mm_hash, offsets: vec![] }] }
}

#[test]
fn vllm_event_normalizes_to_frontend_pad_value_hash() {
    let block_size = 4u32;
    let image_token_id = 151655u32;
    let mm_hash = 9_533_257_059_414_191_570u64;
    let vllm_tokens = vec![10u32, 20, image_token_id, image_token_id];
    let mm_info =
        BlockExtraInfo { mm_objects: vec![BlockMmObjectInfo { mm_hash, offsets: vec![] }] };

    let stored = create_stored_block_from_parts(
        block_size,
        0xabcd,
        &vllm_tokens,
        None,
        Some(mm_info),
        None,
        Some(image_token_id),
    );

    let pad = pad_value_for_mm_hash(mm_hash);
    let frontend_tokens = vec![10u32, 20, pad, pad];
    let expected =
        compute_block_hash_for_seq(&frontend_tokens, block_size, BlockHashOptions::default())[0];

    assert_eq!(stored.tokens_hash, expected);
}

#[test]
fn sglang_event_unaffected_by_image_token_id() {
    let block_size = 4u32;
    let pad = pad_value_for_mm_hash(42);
    let tokens = vec![1u32, 2, pad, pad];

    let with_img =
        create_stored_block_from_parts(block_size, 0x1, &tokens, None, None, None, Some(151655));
    let without = create_stored_block_from_parts(block_size, 0x1, &tokens, None, None, None, None);
    assert_eq!(with_img.tokens_hash, without.tokens_hash);
}

#[test]
fn test_normalizer_ignores_non_main_group_idx_without_metadata() {
    let raw_event = removed(Some(1), None);
    let mut normalizer = ZmqEventNormalizer::new(2);

    assert_eq!(
        normalizer
            .preprocess_with_reason(raw_event, WorkerWithDpRank::new(3, 0))
            .unwrap_err(),
        ZmqEventFilterReason::UnlearnedGroupIdx
    );
}

#[test]
fn test_normalizer_ignores_map_serialized_non_main_attention_kind() {
    let decoded = stored(Some(1), Some(KvCacheSpecKind::Mamba));
    let mut normalizer = ZmqEventNormalizer::new(2);

    let metadata = decoded.metadata();
    assert_eq!(metadata.group_idx, Some(1));
    assert_eq!(metadata.kv_cache_spec_kind, Some(KvCacheSpecKind::Mamba));
    assert_eq!(metadata.kv_cache_spec_sliding_window, None);
    assert_eq!(
        normalizer
            .preprocess_with_reason(decoded, WorkerWithDpRank::new(3, 0))
            .unwrap_err(),
        ZmqEventFilterReason::NonMainAttentionKind
    );
}

#[test]
fn test_normalizer_learns_main_attention_metadata_for_remove() {
    let store = stored(Some(3), Some(KvCacheSpecKind::FullAttention));
    let remove = removed(Some(3), None);
    let mut normalizer = ZmqEventNormalizer::new(2);
    let worker = WorkerWithDpRank::new(7, 0);

    assert!(normalizer.preprocess(store, worker).is_some());
    assert!(normalizer.preprocess(remove, worker).is_some());
}

#[test]
fn test_normalizer_metadata_is_dp_rank_scoped() {
    let store = stored(Some(3), Some(KvCacheSpecKind::FullAttention));
    let same_rank_remove = removed(Some(3), None);
    let different_rank_remove = removed(Some(3), None);
    let mut normalizer = ZmqEventNormalizer::new(2);

    assert!(normalizer.preprocess(store, WorkerWithDpRank::new(7, 0)).is_some());
    assert!(normalizer.preprocess(same_rank_remove, WorkerWithDpRank::new(7, 0)).is_some());
    assert!(normalizer.preprocess(different_rank_remove, WorkerWithDpRank::new(7, 1)).is_none());
}

#[test]
fn test_normalizer_does_not_learn_metadata_from_remove_events() {
    let metadata_remove = removed(Some(3), Some(KvCacheSpecKind::FullAttention));
    let bare_remove = removed(Some(3), None);
    let mut normalizer = ZmqEventNormalizer::new(2);
    let worker = WorkerWithDpRank::new(7, 0);

    assert!(normalizer.preprocess(metadata_remove, worker).is_some());
    assert!(normalizer.preprocess(bare_remove, worker).is_none());
}

#[test]
fn test_normalizer_ignores_non_main_attention_kind_with_group_idx_zero() {
    let raw_event = stored(Some(0), Some(KvCacheSpecKind::Mamba));
    let remove = removed(Some(0), None);
    let mut normalizer = ZmqEventNormalizer::new(2);
    let worker = WorkerWithDpRank::new(3, 0);

    assert!(normalizer.preprocess(raw_event, worker).is_none());
    assert!(normalizer.preprocess(remove, worker).is_none());
}

#[test]
fn test_convert_event_bigram_emits_eagle_windows() {
    let raw_event = RawKvEvent::BlockStored {
        block_hashes: vec![BlockHashValue::Unsigned(21), BlockHashValue::Unsigned(22)],
        parent_block_hash: None,
        token_ids: vec![10, 11, 12, 13, 14],
        block_size: 2,
        medium: None,
        lora_name: None,
        block_mm_infos: None,
        is_eagle: Some(true),
        group_idx: None,
        kv_cache_spec_kind: None,
        kv_cache_spec_sliding_window: None,
    };
    let mut warning_count = 0;
    let placement_event =
        convert_event(raw_event, 7, 2, WorkerWithDpRank::new(3, 0), &mut warning_count, None);

    match placement_event.unwrap().event.data {
        KvCacheEventData::Stored(store_data) => {
            assert_eq!(store_data.blocks.len(), 2);
            assert_eq!(store_data.blocks[0].block_hash, ExternalSequenceBlockHash(21));
            assert_eq!(store_data.blocks[1].block_hash, ExternalSequenceBlockHash(22));

            let expected_first = compute_block_hash_for_seq(
                &[10, 11, 12],
                2,
                BlockHashOptions { is_eagle: Some(true), ..Default::default() },
            );
            let expected_second = compute_block_hash_for_seq(
                &[12, 13, 14],
                2,
                BlockHashOptions { is_eagle: Some(true), ..Default::default() },
            );

            assert_eq!(store_data.blocks[0].tokens_hash, expected_first[0]);
            assert_eq!(store_data.blocks[1].tokens_hash, expected_second[0]);
        }
        other => panic!("expected Stored event, got {other:?}"),
    }
}

#[test]
fn images_are_padded_one_by_one() {
    let pads: Vec<u32> = [5, 6].iter().map(|hash| pad_value_for_mm_hash(*hash)).collect();
    assert_eq!(
        substitute_pad_values(&[1, 9, 9, 2, 9], 9, &[5, 6]),
        vec![1, pads[0], pads[0], 2, pads[1]]
    );
    assert_eq!(pad_value_for_mm_hash(42), 1_000_042);
}

#[test]
fn tokens_without_images_need_no_objects() {
    assert_eq!(substitute_pad_values(&[1, 2, 3], 9, &[]), vec![1, 2, 3]);
    assert!(substitute_pad_values(&[], 9, &[]).is_empty());
}

#[test]
fn image_tokens_stay_where_a_block_has_no_image() {
    let with = create_stored_block_from_parts(2, 1, &[3, 9], None, Some(image(5)), None, Some(9));
    let without = create_stored_block_from_parts(2, 1, &[3, 9], None, None, None, Some(9));
    let plain = create_stored_block_from_parts(2, 1, &[3, 9], None, None, None, None);
    assert_ne!(with.tokens_hash, without.tokens_hash);
    assert_eq!(without.tokens_hash, plain.tokens_hash);
}

#[test]
fn blocks_of_another_size_end_the_list_with_a_warning() {
    let mut warnings = 0;
    let blocks = create_stored_blocks(
        2,
        &[1, 2, 3],
        &[2, 1],
        &[7, 8],
        None,
        &mut warnings,
        None,
        None,
        None,
    );
    assert_eq!(blocks.len(), 1);
    assert_eq!(warnings, 1);
}

#[test]
fn a_block_stored_below_itself_becomes_a_removal_of_nothing() {
    let raw = RawKvEvent::BlockStored {
        block_hashes: vec![BlockHashValue::Unsigned(21)],
        parent_block_hash: Some(BlockHashValue::Unsigned(21)),
        token_ids: vec![1, 2],
        block_size: 2,
        medium: None,
        lora_name: None,
        block_mm_infos: None,
        is_eagle: None,
        group_idx: None,
        kv_cache_spec_kind: None,
        kv_cache_spec_sliding_window: None,
    };
    let mut warnings = 0;
    let event = convert_event(raw, 1, 2, WorkerWithDpRank::new(1, 0), &mut warnings, None);
    assert_eq!(
        event.unwrap().event.data,
        KvCacheEventData::Removed(KvCacheRemoveData { block_hashes: vec![] })
    );
}

#[test]
fn events_keep_their_worker_their_tier_and_their_hashes() {
    let worker = WorkerWithDpRank::new(3, 2);
    let raw = RawKvEvent::BlockRemoved {
        block_hashes: vec![BlockHashValue::Signed(-1), BlockHashValue::Unsigned(5)],
        medium: Some("CPU_PINNED".to_string()),
        group_idx: None,
        kv_cache_spec_kind: None,
        kv_cache_spec_sliding_window: None,
    };
    let mut warnings = 0;
    let event = convert_event(raw, 9, 2, worker, &mut warnings, None).unwrap();
    assert_eq!(event.placement.worker, worker);
    assert_eq!(event.placement.tier, StorageTier::from_kv_medium_or_default(Some("CPU_PINNED")));
    let router_event = event.into_router_event();
    assert_eq!((router_event.worker_id, router_event.event.event_id), (3, 9));
    match router_event.event.data {
        KvCacheEventData::Removed(op) => assert_eq!(
            op.block_hashes,
            vec![ExternalSequenceBlockHash(u64::MAX), ExternalSequenceBlockHash(5)]
        ),
        _ => unreachable!("a removal"),
    }
    let cleared =
        convert_event(RawKvEvent::AllBlocksCleared, 1, 2, worker, &mut warnings, None).unwrap();
    assert_eq!(cleared.event.data, KvCacheEventData::Cleared);
    assert!(convert_event(RawKvEvent::Ignored, 1, 2, worker, &mut warnings, None).is_none());
}

#[test]
fn normalizing_filters_and_converts() {
    let worker = WorkerWithDpRank::new(3, 0);
    let mut normalizer = ZmqEventNormalizer::new(2).with_image_token_id(Some(9));
    assert!(normalizer.normalize(stored(None, None), 4, worker).is_some());
    assert!(normalizer
        .normalize(stored(Some(1), Some(KvCacheSpecKind::SlidingWindow)), 4, worker)
        .is_none());
}
