//! Settings: defaults, limits, what the environment says, and old names.

use kv_router::hashing::{compute_seq_hash_for_block, BlockHashOptions};
use kv_router::protocols::{BlockExtraInfo, BlockMmObjectInfo, LocalBlockHash};
use kv_router::scheduling::config::{
    apply_deprecated_overlap_score_weight_override,
    apply_deprecated_overlap_score_weight_override_option, kv_router_config_from_lookup,
    min_initial_workers, overlap_score_credit_error_message, parse_bool,
    validate_kv_router_config, ConfigConflict, ConfigField, ConfigViolation, CreditError,
    EnvLookup, EnvSetting, F64Bits, KvRouterConfig, RouterConfigOverride, RouterPrefillLoadModel,
    RouterQueueDepthByMissingIslTier, RouterQueueDepthTiers, RouterQueuePolicy, SharedCacheType,
    TierError, OVERLAP_SCORE_CREDIT_MIGRATION_ERROR, OVERLAP_SCORE_CREDIT_RANGE_ERROR,
};

fn bits(number: f64) -> F64Bits {
    F64Bits(number.to_bits())
}

fn number(bits: F64Bits) -> f64 {
    f64::from_bits(bits.0)
}

fn config_from_values(values: &[(&str, &str)]) -> KvRouterConfig {
    let settings = values
        .iter()
        .map(|(key, text)| EnvSetting {
            key: key.to_string(),
            text: text.to_string(),
            number: text.parse::<f64>().ok().map(bits),
        })
        .collect();
    kv_router_config_from_lookup(&EnvLookup { settings })
}

fn messages(violations: &[ConfigViolation]) -> String {
    violations.iter().map(|violation| violation.message()).collect::<Vec<_>>().join("; ")
}

fn said_of(result: Result<KvRouterConfig, Vec<ConfigViolation>>) -> String {
    match result {
        Ok(_) => String::new(),
        Err(violations) => messages(&violations),
    }
}

#[test]
fn dynamo_env_config_uses_defaults_when_unset() {
    let config = config_from_values(&[]);
    let default = KvRouterConfig::default();

    assert_eq!(config.overlap_score_credit, default.overlap_score_credit);
    assert_eq!(config.prefill_load_scale, default.prefill_load_scale);
    assert_eq!(config.use_kv_events, default.use_kv_events);
    assert_eq!(config.router_predicted_ttl_secs, default.router_predicted_ttl_secs);
}

#[test]
fn dynamo_env_config_parses_canonical_settings() {
    let config = config_from_values(&[
        ("DYN_ROUTER_KV_OVERLAP_SCORE_CREDIT", "0.25"),
        ("DYN_ROUTER_PREFILL_LOAD_SCALE", "2.5"),
        ("DYN_ROUTER_TEMPERATURE", "0.7"),
        ("DYN_USE_KV_EVENTS", "false"),
        ("DYN_ROUTER_REPLICA_SYNC", "yes"),
        ("DYN_ROUTER_TRACK_ACTIVE_BLOCKS", "0"),
        ("DYN_ROUTER_TRACK_OUTPUT_BLOCKS", "on"),
        ("DYN_ROUTER_TRACK_PREFILL_TOKENS", "false"),
        ("DYN_ROUTER_QUEUE_THRESHOLD", "4.5"),
    ]);

    assert_eq!(number(config.overlap_score_credit), 0.25);
    assert_eq!(number(config.prefill_load_scale), 2.5);
    assert_eq!(number(config.router_temperature), 0.7);
    assert!(!config.use_kv_events);
    assert!(config.router_replica_sync);
    assert!(!config.router_track_active_blocks);
    assert!(config.router_track_output_blocks);
    assert!(!config.router_track_prefill_tokens);
    assert_eq!(config.router_queue_threshold.map(number), Some(4.5));

    let predicted = config_from_values(&[("DYN_ROUTER_PREDICTED_TTL_SECS", "60")]);
    assert_eq!(predicted.router_predicted_ttl_secs.map(number), Some(60.0));
    assert!(predicted.validate_config().is_ok());
}

#[test]
fn dynamo_env_config_preserves_deprecated_alias_precedence() {
    let config = config_from_values(&[
        ("DYN_ROUTER_KV_OVERLAP_SCORE_CREDIT", "0.25"),
        ("DYN_ROUTER_PREFILL_LOAD_SCALE", "2"),
        ("DYN_ROUTER_KV_OVERLAP_SCORE_WEIGHT", "3"),
        ("DYN_OVERLAP_SCORE_WEIGHT", "4"),
    ]);

    assert_eq!(number(config.overlap_score_credit), 0.25);
    assert_eq!(number(config.prefill_load_scale), 3.0);

    let disabled = config_from_values(&[
        ("DYN_ROUTER_KV_OVERLAP_SCORE_CREDIT", "0.75"),
        ("DYN_ROUTER_KV_OVERLAP_SCORE_WEIGHT", "0"),
    ]);
    assert_eq!(number(disabled.overlap_score_credit), 0.0);
    assert_eq!(number(disabled.prefill_load_scale), 0.0);
}

#[test]
fn dynamo_env_config_ignores_unparseable_values_and_validates_ranges() {
    let unparseable = config_from_values(&[
        ("DYN_ROUTER_TEMPERATURE", "warm"),
        ("DYN_ROUTER_TRACK_ACTIVE_BLOCKS", "sometimes"),
    ]);
    let default = KvRouterConfig::default();
    assert_eq!(unparseable.router_temperature, default.router_temperature);
    assert_eq!(unparseable.router_track_active_blocks, default.router_track_active_blocks);

    let out_of_range = config_from_values(&[("DYN_ROUTER_KV_OVERLAP_SCORE_CREDIT", "1.5")]);
    assert!(out_of_range.validate_config().is_err());
}

#[test]
fn compute_seq_hashes_for_tracking_uses_mm_hashes() {
    let cfg = KvRouterConfig::default();
    let tokens = vec![1, 2, 3, 4];
    let mm_infos = vec![
        Some(BlockExtraInfo {
            mm_objects: vec![BlockMmObjectInfo { mm_hash: 42, offsets: vec![] }],
        }),
        None,
    ];

    let without_mm = cfg
        .compute_seq_hashes_for_tracking(&tokens, 2, None, BlockHashOptions::default(), None)
        .unwrap();
    let with_mm = cfg
        .compute_seq_hashes_for_tracking(
            &tokens,
            2,
            None,
            BlockHashOptions { block_mm_infos: Some(&mm_infos), ..Default::default() },
            None,
        )
        .unwrap();

    assert_ne!(without_mm, with_mm);
}

#[test]
fn compute_seq_hashes_for_tracking_uses_precomputed_block_hashes() {
    let config = KvRouterConfig::default();
    let tokens: Vec<u32> = (0..8).collect();
    let precomputed = vec![LocalBlockHash(11), LocalBlockHash(29)];

    let seq_hashes = config.compute_seq_hashes_for_tracking(
        &tokens,
        4,
        None,
        BlockHashOptions::default(),
        Some(&precomputed),
    );

    assert_eq!(seq_hashes, Some(compute_seq_hash_for_block(&precomputed)));
}

#[test]
fn tracking_hashes_are_random_where_blocks_are_not_reused() {
    let config = KvRouterConfig { router_assume_kv_reuse: false, ..Default::default() };
    let tokens: Vec<u32> = (0..9).collect();
    let hashes = |config: &KvRouterConfig| {
        config
            .compute_seq_hashes_for_tracking(&tokens, 4, None, BlockHashOptions::default(), None)
    };
    let first = hashes(&config).unwrap();
    let second = hashes(&config).unwrap();
    assert_eq!(first.len(), 2);
    assert_eq!(second.len(), 2);
    assert_ne!(first, second);
    let untracked = KvRouterConfig { router_track_active_blocks: false, ..Default::default() };
    assert_eq!(hashes(&untracked), None);
}

#[test]
fn test_kv_router_config_rejects_out_of_range_shared_cache_multiplier() {
    let too_small =
        KvRouterConfig { shared_cache_multiplier: bits(-0.1), ..Default::default() };
    let too_large = KvRouterConfig { shared_cache_multiplier: bits(1.1), ..Default::default() };

    assert!(too_small.validate_config().is_err());
    assert!(too_large.validate_config().is_err());
}

#[test]
fn test_kv_router_config_rejects_local_approx_with_predicted_ttl() {
    let config = KvRouterConfig {
        use_kv_events: false,
        router_predicted_ttl_secs: Some(bits(5.0)),
        ..Default::default()
    };

    assert!(config.validate_config().is_err());
}

#[test]
fn test_kv_router_config_rejects_remote_approx_with_predicted_ttl() {
    let config = KvRouterConfig {
        use_kv_events: false,
        use_remote_indexer: true,
        router_predicted_ttl_secs: Some(bits(5.0)),
        ..Default::default()
    };

    assert!(config.validate_config().is_err());
}

#[test]
fn test_kv_router_config_allows_remote_events_with_predicted_ttl() {
    let config = KvRouterConfig {
        use_kv_events: true,
        use_remote_indexer: true,
        router_predicted_ttl_secs: Some(bits(5.0)),
        ..Default::default()
    };

    assert!(config.validate_config().is_ok());
}

#[test]
fn test_kv_router_config_allows_served_events_with_predicted_ttl() {
    let config = KvRouterConfig {
        use_kv_events: true,
        serve_indexer: true,
        router_predicted_ttl_secs: Some(bits(5.0)),
        ..Default::default()
    };

    assert!(config.validate_config().is_ok());
}

#[test]
fn test_kv_router_config_deserializes_predicted_ttl() {
    let written = KvRouterConfig {
        router_predicted_ttl_secs: Some(bits(5.0)),
        ..Default::default()
    };
    let config = KvRouterConfig::from_written(written, None).ok().unwrap();

    assert_eq!(config.router_predicted_ttl_secs.map(number), Some(5.0));
}

#[test]
fn test_kv_router_config_defaults_to_unbounded_queue_cap() {
    let config = KvRouterConfig::default();

    assert!(config.router_queue_by_incoming_missing_isl.is_unbounded());
}

#[test]
fn test_kv_router_config_deserializes_missing_queue_tiers_as_unbounded() {
    let config = KvRouterConfig::from_written(KvRouterConfig::default(), None).ok().unwrap();

    assert!(config.router_queue_by_incoming_missing_isl.is_unbounded());
}

#[test]
fn test_kv_router_config_deserializes_empty_queue_tiers_as_unbounded() {
    let written = KvRouterConfig {
        router_queue_by_incoming_missing_isl: RouterQueueDepthTiers::from_tiers(vec![])
            .ok()
            .unwrap(),
        ..Default::default()
    };
    let config = KvRouterConfig::from_written(written, None).ok().unwrap();

    assert!(config.router_queue_by_incoming_missing_isl.is_unbounded());
}

#[test]
fn test_kv_router_config_rejects_out_of_range_overlap_score_credit() {
    let too_small = KvRouterConfig { overlap_score_credit: bits(-0.1), ..Default::default() };
    let too_large = KvRouterConfig { overlap_score_credit: bits(1.1), ..Default::default() };

    assert!(too_small.validate_config().is_err());
    let error = messages(&too_large.validate_config().unwrap_err());
    assert!(error.contains("prefill_load_scale"));
}

#[test]
fn test_kv_router_config_maps_deprecated_overlap_weight_alias_to_prefill_scale() {
    let config =
        KvRouterConfig::from_written(KvRouterConfig::default(), Some(bits(2.5))).ok().unwrap();

    assert_eq!(number(config.overlap_score_credit), 1.0);
    assert_eq!(number(config.prefill_load_scale), 2.5);
}

#[test]
fn test_kv_router_config_maps_deprecated_overlap_weight_zero_to_credit_zero() {
    let config =
        KvRouterConfig::from_written(KvRouterConfig::default(), Some(bits(0.0))).ok().unwrap();

    assert_eq!(number(config.overlap_score_credit), 0.0);
    assert_eq!(number(config.prefill_load_scale), 0.0);
    assert!(!config.should_subscribe_to_kv_events());
}

#[test]
fn test_kv_router_config_deprecated_overlap_weight_overrides_canonical_fields() {
    let written = KvRouterConfig {
        overlap_score_credit: bits(0.5),
        prefill_load_scale: bits(3.0),
        ..Default::default()
    };
    let config = KvRouterConfig::from_written(written, Some(bits(2.5))).ok().unwrap();

    assert_eq!(number(config.overlap_score_credit), 0.5);
    assert_eq!(number(config.prefill_load_scale), 2.5);
}

#[test]
fn test_kv_router_config_deprecated_overlap_weight_zero_overrides_credit() {
    let written = KvRouterConfig {
        overlap_score_credit: bits(0.5),
        prefill_load_scale: bits(3.0),
        ..Default::default()
    };
    let config = KvRouterConfig::from_written(written, Some(bits(0.0))).ok().unwrap();

    assert_eq!(number(config.overlap_score_credit), 0.0);
    assert_eq!(number(config.prefill_load_scale), 0.0);
}

#[test]
fn test_kv_router_config_deserialize_rejects_invalid_values() {
    let credit_error = said_of(KvRouterConfig::from_written(
        KvRouterConfig { overlap_score_credit: bits(1.1), ..Default::default() },
        None,
    ));
    let scale_error = said_of(KvRouterConfig::from_written(
        KvRouterConfig { prefill_load_scale: bits(-0.1), ..Default::default() },
        None,
    ));

    assert!(credit_error.contains("prefill_load_scale"));
    assert!(scale_error.contains("prefill_load_scale"));
}

#[test]
fn test_router_config_override_maps_deprecated_overlap_weight_alias_to_prefill_scale() {
    let config =
        RouterConfigOverride::from_written(RouterConfigOverride::default(), Some(bits(2.5)))
            .unwrap();

    assert_eq!(config.overlap_score_credit, None);
    assert_eq!(config.prefill_load_scale.map(number), Some(2.5));
}

#[test]
fn test_router_config_override_maps_deprecated_overlap_weight_zero_to_credit_zero() {
    let config =
        RouterConfigOverride::from_written(RouterConfigOverride::default(), Some(bits(0.0)))
            .unwrap();

    assert_eq!(config.overlap_score_credit.map(number), Some(0.0));
    assert_eq!(config.prefill_load_scale.map(number), Some(0.0));
}

#[test]
fn test_router_config_override_deprecated_overlap_weight_overrides_canonical_fields() {
    let written = RouterConfigOverride {
        overlap_score_credit: Some(bits(0.5)),
        prefill_load_scale: Some(bits(3.0)),
        ..Default::default()
    };
    let config = RouterConfigOverride::from_written(written, Some(bits(2.0))).unwrap();

    assert_eq!(config.overlap_score_credit.map(number), Some(0.5));
    assert_eq!(config.prefill_load_scale.map(number), Some(2.0));
}

#[test]
fn test_router_config_override_deprecated_overlap_weight_zero_overrides_credit() {
    let written = RouterConfigOverride {
        overlap_score_credit: Some(bits(0.5)),
        prefill_load_scale: Some(bits(3.0)),
        ..Default::default()
    };
    let config = RouterConfigOverride::from_written(written, Some(bits(0.0))).unwrap();

    assert_eq!(config.overlap_score_credit.map(number), Some(0.0));
    assert_eq!(config.prefill_load_scale.map(number), Some(0.0));
}

#[test]
fn test_router_config_override_deserialize_rejects_invalid_values() {
    let credit_error = messages(
        &RouterConfigOverride::from_written(
            RouterConfigOverride {
                overlap_score_credit: Some(bits(1.1)),
                ..Default::default()
            },
            None,
        )
        .unwrap_err(),
    );
    let scale_error = messages(
        &RouterConfigOverride::from_written(
            RouterConfigOverride { prefill_load_scale: Some(bits(-0.1)), ..Default::default() },
            None,
        )
        .unwrap_err(),
    );

    assert!(credit_error.contains("prefill_load_scale"));
    assert!(scale_error.contains("prefill_load_scale"));
}

#[test]
fn test_overlap_credit_zero_skips_kv_event_subscription() {
    let config = KvRouterConfig {
        overlap_score_credit: bits(0.0),
        use_kv_events: true,
        ..Default::default()
    };

    assert!(!config.should_subscribe_to_kv_events());
}

#[test]
fn test_router_config_override_rejects_out_of_range_shared_cache_multiplier() {
    let too_small = RouterConfigOverride {
        shared_cache_multiplier: Some(bits(-0.1)),
        ..Default::default()
    };
    let too_large = RouterConfigOverride {
        shared_cache_multiplier: Some(bits(1.1)),
        ..Default::default()
    };

    assert!(too_small.validate().is_err());
    assert!(too_large.validate().is_err());
}

#[test]
fn test_router_config_override_rejects_out_of_range_overlap_score_credit() {
    let too_small = RouterConfigOverride {
        overlap_score_credit: Some(bits(-0.1)),
        ..Default::default()
    };
    let too_large = RouterConfigOverride {
        overlap_score_credit: Some(bits(1.1)),
        ..Default::default()
    };

    assert!(too_small.validate().is_err());
    let error = messages(&too_large.validate().unwrap_err());
    assert!(error.contains("prefill_load_scale"));
}

#[test]
fn test_kv_router_config_default_shared_cache_multiplier_is_disabled() {
    assert_eq!(number(KvRouterConfig::default().shared_cache_multiplier), 0.0);
}

#[test]
fn the_default_settings_are_valid() {
    let config = KvRouterConfig::default();
    assert!(config.validate_config().is_ok());
    assert_eq!(number(config.host_cache_hit_weight), 0.75);
    assert_eq!(number(config.disk_cache_hit_weight), 0.25);
    assert_eq!(number(config.prefill_load_scale), 1.0);
}

#[test]
fn numbers_are_told_apart_by_their_bits() {
    assert!(bits(-0.0).is_zero() && !bits(-0.0).is_negative());
    assert!(bits(-1.0).is_negative() && !bits(-1.0).is_positive());
    assert!(bits(0.5).is_positive() && !bits(0.5).exceeds_one());
    assert!(!bits(1.0).exceeds_one() && bits(1.0000000000000002).exceeds_one());
    assert!(bits(f64::INFINITY).exceeds_one());
    assert!(!bits(f64::NAN).is_number());
    assert!(!bits(f64::NAN).is_zero() && !bits(f64::NAN).is_positive());
}

#[test]
fn a_credit_is_between_zero_and_one() {
    assert_eq!(overlap_score_credit_error_message(bits(0.0)), None);
    assert_eq!(overlap_score_credit_error_message(bits(1.0)), None);
    assert_eq!(
        overlap_score_credit_error_message(bits(1.5)),
        Some(OVERLAP_SCORE_CREDIT_MIGRATION_ERROR)
    );
    assert_eq!(
        overlap_score_credit_error_message(bits(-0.5)),
        Some(OVERLAP_SCORE_CREDIT_RANGE_ERROR)
    );
    assert_eq!(
        overlap_score_credit_error_message(bits(f64::NAN)),
        Some(OVERLAP_SCORE_CREDIT_RANGE_ERROR)
    );
}

#[test]
fn an_old_weight_becomes_the_load_scale() {
    let mut credit = bits(0.5);
    let mut scale = bits(1.0);
    apply_deprecated_overlap_score_weight_override(bits(2.0), &mut credit, &mut scale);
    assert_eq!((number(credit), number(scale)), (0.5, 2.0));
    let mut credit = Some(bits(0.5));
    let mut scale = None;
    apply_deprecated_overlap_score_weight_override_option(bits(0.0), &mut credit, &mut scale);
    assert_eq!((credit.map(number), scale.map(number)), (Some(0.0), Some(0.0)));
}

#[test]
fn names_are_read_and_written() {
    assert_eq!(SharedCacheType::parse("hicache"), Ok(SharedCacheType::Hicache));
    assert_eq!(SharedCacheType::Disabled.as_str(), "none");
    assert_eq!(
        SharedCacheType::parse("l\"4").unwrap_err(),
        "unknown shared_cache_type: \"l\\\"4\", expected 'none' or 'hicache'"
    );
    assert_eq!(RouterQueuePolicy::parse("wspt"), Ok(RouterQueuePolicy::Wspt));
    assert_eq!(RouterQueuePolicy::Lcfs.as_str(), "lcfs");
    assert!(RouterQueuePolicy::parse("lifo").unwrap_err().contains("\"lifo\""));
    assert_eq!(RouterPrefillLoadModel::parse("aic"), Ok(RouterPrefillLoadModel::Aic));
    assert!(RouterPrefillLoadModel::Aic.is_enabled());
    assert!(!RouterPrefillLoadModel::Disabled.is_enabled());
    assert!(RouterPrefillLoadModel::parse("linear").unwrap_err().contains("\"linear\""));
}

#[test]
fn words_for_yes_and_no_are_read_in_any_case() {
    for word in ["true", "1", "YES", "On"] {
        assert_eq!(parse_bool(word), Some(true));
    }
    for word in ["false", "0", "No", "OFF"] {
        assert_eq!(parse_bool(word), Some(false));
    }
    assert_eq!(parse_bool("maybe"), None);
}

#[test]
fn queue_depth_tiers_say_what_is_wrong_with_them() {
    let tier = |floor, depth| RouterQueueDepthByMissingIslTier {
        missing_cache_tokens_floor: floor,
        max_queue_depth: depth,
    };
    let error = |tiers| RouterQueueDepthTiers::from_tiers(tiers).err();
    assert_eq!(error(vec![tier(1, 5)]), Some(TierError::FirstFloor));
    assert_eq!(error(vec![tier(0, 5), tier(0, 4)]), Some(TierError::Order));
    assert_eq!(error(vec![tier(0, 0)]), Some(TierError::ZeroDepth));
    assert_eq!(
        RouterQueueDepthTiers::from_tuples(vec![(3, 1)]).err().unwrap(),
        TierError::FirstFloor.message()
    );
}

#[test]
fn the_cap_of_a_tier_scales_with_the_workers() {
    let tiers = RouterQueueDepthTiers::from_tuples(vec![(0, 8), (100, 4), (1000, 1)]).ok().unwrap();
    assert_eq!(tiers.cap_for(0, 2), Some(16));
    assert_eq!(tiers.cap_for(99, 2), Some(16));
    assert_eq!(tiers.cap_for(100, 2), Some(8));
    assert_eq!(tiers.cap_for(5000, 3), Some(3));
    assert_eq!(RouterQueueDepthTiers::unbounded_cap().cap_for(5000, 3), None);
    assert!(!tiers.is_unbounded());
    assert_eq!(tiers.into_tiers().len(), 3);
}

#[test]
fn settings_that_exclude_each_other_are_named() {
    let conflict = |config: KvRouterConfig| validate_kv_router_config(&config).unwrap_err();
    assert_eq!(
        conflict(KvRouterConfig {
            durable_kv_events: true,
            use_kv_events: false,
            ..Default::default()
        }),
        ConfigConflict::DurableWithoutEvents
    );
    assert_eq!(
        conflict(KvRouterConfig {
            router_track_output_blocks: true,
            router_track_active_blocks: false,
            ..Default::default()
        }),
        ConfigConflict::OutputWithoutActiveBlocks
    );
    assert_eq!(
        conflict(KvRouterConfig {
            router_prefill_load_model: RouterPrefillLoadModel::Aic,
            router_track_prefill_tokens: false,
            ..Default::default()
        }),
        ConfigConflict::LoadModelWithoutPrefillTokens
    );
    assert_eq!(
        conflict(KvRouterConfig {
            router_prefill_load_model: RouterPrefillLoadModel::Aic,
            router_queue_policy: RouterQueuePolicy::Wspt,
            ..Default::default()
        }),
        ConfigConflict::LoadModelNeedsFcfs
    );
    assert_eq!(
        conflict(KvRouterConfig {
            use_remote_indexer: true,
            serve_indexer: true,
            ..Default::default()
        }),
        ConfigConflict::RemoteAndServedIndexer
    );
    assert_eq!(
        conflict(KvRouterConfig {
            serve_indexer: true,
            overlap_score_credit: bits(0.0),
            ..Default::default()
        }),
        ConfigConflict::ServedIndexerWithoutCredit
    );
    assert_eq!(
        conflict(KvRouterConfig {
            use_kv_events: false,
            router_predicted_ttl_secs: Some(bits(5.0)),
            ..Default::default()
        }),
        ConfigConflict::PredictedTtlWithoutEvents
    );
    assert_eq!(
        ConfigConflict::OutputWithoutActiveBlocks.message(),
        "router_track_output_blocks requires router_track_active_blocks=true"
    );
}

#[test]
fn fields_out_of_range_are_named() {
    let out_of_range = |config: KvRouterConfig| config.validate_config().unwrap_err();
    assert!(out_of_range(KvRouterConfig {
        router_ttl_secs: bits(-1.0),
        ..Default::default()
    })
    .contains(&ConfigViolation::OutOfRange(ConfigField::RouterTtlSecs)));
    assert!(out_of_range(KvRouterConfig { router_event_threads: 0, ..Default::default() })
        .contains(&ConfigViolation::OutOfRange(ConfigField::RouterEventThreads)));
    assert!(out_of_range(KvRouterConfig {
        overlap_score_credit: bits(2.0),
        ..Default::default()
    })
    .contains(&ConfigViolation::Credit(CreditError::AboveOne)));
    assert_eq!(ConfigField::RouterTemperature.name(), "router_temperature");
}

#[test]
fn overrides_win_over_the_settings() {
    let config = KvRouterConfig::default();
    let neither = RouterConfigOverride {
        assume_kv_reuse: Some(false),
        track_prefill_tokens: Some(false),
        ..Default::default()
    };
    assert!(config.assume_kv_reuse(None) && config.track_prefill_tokens(None));
    assert!(!config.assume_kv_reuse(Some(neither)));
    assert!(!config.track_prefill_tokens(Some(neither)));
    assert!(config.assume_kv_reuse(Some(RouterConfigOverride::default())));
}

#[test]
fn routing_is_predicted_only_with_a_time_to_live() {
    assert!(!KvRouterConfig::default().predict_on_route_enabled());
    let predicting =
        KvRouterConfig { router_predicted_ttl_secs: Some(bits(5.0)), ..Default::default() };
    assert!(predicting.predict_on_route_enabled());
}

#[test]
fn the_least_number_of_workers_is_a_count() {
    assert_eq!(min_initial_workers(None), Ok(0));
    assert_eq!(min_initial_workers(Some("3")), Ok(3));
    assert_eq!(min_initial_workers(Some("+12")), Ok(12));
    for text in ["", "+", "-1", "3.0", "x", "99999999999999999999999999"] {
        assert!(min_initial_workers(Some(text)).is_err());
    }
}
