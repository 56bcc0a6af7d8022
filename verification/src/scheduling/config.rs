//! The router's configuration: defaults, settings from the environment and what is
//! checked of them. Fractions are kept as the bits of double-precision numbers.

use rand::Rng;
use vstd::prelude::*;
use vstd::string::StringExecFns;

use crate::hashing::{
    block_hashes, compute_block_hash_for_seq, compute_seq_hash_for_block, mm_infos_view,
    seq_hashes, BlockHashOptions,
};
use crate::protocols::{opt_str_view, LocalBlockHash};
use crate::text::{
    concat3, count_of, is_word, lower_code, parse_count, quoted, quoted_text, same_word, str_eq,
};

verus! {

/// The name under which the least number of workers to wait for is set.
pub const DYN_ROUTER_MIN_INITIAL_WORKERS: &'static str = "DYN_ROUTER_MIN_INITIAL_WORKERS";

/// What is set as the least number of workers is no count.
#[derive(Clone, Copy, Debug, PartialEq, Eq, Structural)]
pub struct InvalidMinInitialWorkers;

/// The least number of workers to wait for: the count that is set, and none where
/// nothing is.
pub fn min_initial_workers(value: Option<&str>) -> (r: Result<usize, InvalidMinInitialWorkers>)
    ensures
        value is None ==> r == Ok::<usize, InvalidMinInitialWorkers>(0),
        value matches Some(text) ==> match count_of(text@) {
            Some(n) => r is Ok && r->Ok_0 == n,
            None => r is Err,
        },
{
    match value {
        None => Ok(0),
        Some(text) => match parse_count(text) {
            Some(count) => Ok(count),
            None => Err(InvalidMinInitialWorkers),
        },
    }
}

/// The bits of a double-precision number, as IEEE 754 lays them out: the sign,
/// eleven bits of exponent, and the fraction.
#[derive(Clone, Copy, Debug, PartialEq, Eq, Structural)]
pub struct F64Bits(pub u64);

/// The bits of minus zero: the sign alone.
pub const SIGN: u64 = 0x8000_0000_0000_0000;

/// The bits of infinity. What is larger, leaving out the sign, is not a number.
pub const INFINITY: u64 = 0x7ff0_0000_0000_0000;

/// The bits of one.
pub const ONE: u64 = 0x3ff0_0000_0000_0000;

impl F64Bits {
    /// Whether it is a number at all.
    pub open spec fn spec_is_number(self) -> bool {
        self.0 <= INFINITY || SIGN <= self.0 <= SIGN + INFINITY
    }

    /// Whether it is zero, with either sign.
    pub open spec fn spec_is_zero(self) -> bool {
        self.0 == 0 || self.0 == SIGN
    }

    /// Whether it is a number below zero.
    pub open spec fn spec_is_negative(self) -> bool {
        SIGN < self.0 <= SIGN + INFINITY
    }

    /// Whether it is a number above zero.
    pub open spec fn spec_is_positive(self) -> bool {
        0 < self.0 <= INFINITY
    }

    /// Whether it is a number above one. Positive numbers are in the order of
    /// their bits.
    pub open spec fn spec_exceeds_one(self) -> bool {
        ONE < self.0 <= INFINITY
    }

    pub fn is_number(self) -> (r: bool)
        ensures
            r == self.spec_is_number(),
    {
        self.0 <= INFINITY || (SIGN <= self.0 && self.0 <= SIGN + INFINITY)
    }

    pub fn is_zero(self) -> (r: bool)
        ensures
            r == self.spec_is_zero(),
    {
        self.0 == 0 || self.0 == SIGN
    }

    pub fn is_negative(self) -> (r: bool)
        ensures
            r == self.spec_is_negative(),
    {
        SIGN < self.0 && self.0 <= SIGN + INFINITY
    }

    pub fn is_positive(self) -> (r: bool)
        ensures
            r == self.spec_is_positive(),
    {
        0 < self.0 && self.0 <= INFINITY
    }

    pub fn exceeds_one(self) -> (r: bool)
        ensures
            r == self.spec_exceeds_one(),
    {
        ONE < self.0 && self.0 <= INFINITY
    }
}

/// A number is negative, zero or positive, and only one of these.
pub proof fn signs_exclude_each_other(value: F64Bits)
    ensures
        value.spec_is_number() <==> value.spec_is_negative() || value.spec_is_zero()
            || value.spec_is_positive(),
        !(value.spec_is_negative() && value.spec_is_zero()),
        !(value.spec_is_negative() && value.spec_is_positive()),
        !(value.spec_is_zero() && value.spec_is_positive()),
        value.spec_exceeds_one() ==> value.spec_is_positive(),
{
}

pub const OVERLAP_SCORE_CREDIT_RANGE_ERROR: &'static str = "overlap_score_credit must be between 0.0 and 1.0";

pub const OVERLAP_SCORE_CREDIT_MIGRATION_ERROR: &'static str = "overlap_score_credit must be between 0.0 and 1.0; values above 1.0 are probably not what you intended. If you want to weigh TTFT/prompt-side prefill load more heavily, keep overlap_score_credit <= 1.0 and use that larger value for prefill_load_scale instead; prefill_load_scale is applied after overlap credits.";

/// What is wrong with a credit.
#[derive(Clone, Copy, Debug, PartialEq, Eq, Structural)]
pub enum CreditError {
    /// It is below zero or not a number.
    OutOfRange,
    /// It is above one, which another setting is for.
    AboveOne,
}

/// What is wrong with a credit, which must be between zero and one.
pub open spec fn credit_error(value: F64Bits) -> Option<CreditError> {
    if value.spec_exceeds_one() {
        Some(CreditError::AboveOne)
    } else if value.spec_is_negative() || !value.spec_is_number() {
        Some(CreditError::OutOfRange)
    } else {
        None
    }
}

fn check_credit(value: F64Bits) -> (error: Option<CreditError>)
    ensures
        error == credit_error(value),
{
    if value.exceeds_one() {
        Some(CreditError::AboveOne)
    } else if value.is_negative() || !value.is_number() {
        Some(CreditError::OutOfRange)
    } else {
        None
    }
}

/// What is wrong with a credit, in words.
pub fn overlap_score_credit_error_message(value: F64Bits) -> (message: Option<&'static str>)
    ensures
        message is None <==> credit_error(value) is None,
        credit_error(value) == Some(CreditError::AboveOne) ==> (message->0)@
            == OVERLAP_SCORE_CREDIT_MIGRATION_ERROR@,
        credit_error(value) == Some(CreditError::OutOfRange) ==> (message->0)@
            == OVERLAP_SCORE_CREDIT_RANGE_ERROR@,
{
    match check_credit(value) {
        None => None,
        Some(CreditError::AboveOne) => Some(OVERLAP_SCORE_CREDIT_MIGRATION_ERROR),
        Some(CreditError::OutOfRange) => Some(OVERLAP_SCORE_CREDIT_RANGE_ERROR),
    }
}

/// Applies the weight that the credit and the scale replaced: it is the scale, and
/// zero also turns the credit off.
pub fn apply_deprecated_overlap_score_weight_override(
    value: F64Bits,
    overlap_score_credit: &mut F64Bits,
    prefill_load_scale: &mut F64Bits,
)
    ensures
        *final(prefill_load_scale) == value,
        *final(overlap_score_credit) == if value.spec_is_zero() {
            F64Bits(0)
        } else {
            *old(overlap_score_credit)
        },
{
    *prefill_load_scale = value;
    if value.is_zero() {
        *overlap_score_credit = F64Bits(0);
    }
}

/// Applies the weight that the credit and the scale replaced to an override.
pub fn apply_deprecated_overlap_score_weight_override_option(
    value: F64Bits,
    overlap_score_credit: &mut Option<F64Bits>,
    prefill_load_scale: &mut Option<F64Bits>,
)
    ensures
        *final(prefill_load_scale) == Some(value),
        *final(overlap_score_credit) == if value.spec_is_zero() {
            Some(F64Bits(0))
        } else {
            *old(overlap_score_credit)
        },
{
    *prefill_load_scale = Some(value);
    if value.is_zero() {
        *overlap_score_credit = Some(F64Bits(0));
    }
}

/// The kind of shared cache that is asked while routing.
#[derive(Clone, Copy, Debug, PartialEq, Eq, Structural)]
pub enum SharedCacheType {
    Disabled,
    /// Workers are asked for their third-level cache.
    Hicache,
}

impl SharedCacheType {
    pub open spec fn spec_name(self) -> Seq<char> {
        match self {
            SharedCacheType::Disabled => "none"@,
            SharedCacheType::Hicache => "hicache"@,
        }
    }

    pub fn as_str(self) -> (name: &'static str)
        ensures
            name@ == self.spec_name(),
    {
        match self {
            SharedCacheType::Disabled => "none",
            SharedCacheType::Hicache => "hicache",
        }
    }

    /// The kind of a name, or what is wrong with the name.
    pub fn parse(name: &str) -> (r: Result<Self, String>)
        ensures
            r matches Ok(kind) ==> name@ == kind.spec_name(),
            r matches Err(e) ==> name@ != SharedCacheType::Disabled.spec_name() && name@
                != SharedCacheType::Hicache.spec_name() && e@ == "unknown shared_cache_type: "@
                + quoted_text(name@) + ", expected 'none' or 'hicache'"@,
    {
        if str_eq(name, "none") {
            Ok(SharedCacheType::Disabled)
        } else if str_eq(name, "hicache") {
            Ok(SharedCacheType::Hicache)
        } else {
            Err(
                concat3(
                    "unknown shared_cache_type: ",
                    quoted(name).as_str(),
                    ", expected 'none' or 'hicache'",
                ),
            )
        }
    }
}

/// How the requests of one class are ordered.
#[derive(Clone, Copy, Debug, PartialEq, Eq, Structural)]
pub enum RouterQueuePolicy {
    /// First come, first served.
    Fcfs,
    /// Last come, first served.
    Lcfs,
    /// Weighted shortest processing time.
    Wspt,
}

impl RouterQueuePolicy {
    pub open spec fn spec_name(self) -> Seq<char> {
        match self {
            RouterQueuePolicy::Fcfs => "fcfs"@,
            RouterQueuePolicy::Lcfs => "lcfs"@,
            RouterQueuePolicy::Wspt => "wspt"@,
        }
    }

    pub fn as_str(self) -> (name: &'static str)
        ensures
            name@ == self.spec_name(),
    {
        match self {
            RouterQueuePolicy::Fcfs => "fcfs",
            RouterQueuePolicy::Lcfs => "lcfs",
            RouterQueuePolicy::Wspt => "wspt",
        }
    }

    /// The policy of a name, or what is wrong with the name.
    pub fn parse(name: &str) -> (r: Result<Self, String>)
        ensures
            r matches Ok(policy) ==> name@ == policy.spec_name(),
            r matches Err(e) ==> name@ != RouterQueuePolicy::Fcfs.spec_name() && name@
                != RouterQueuePolicy::Lcfs.spec_name() && name@
                != RouterQueuePolicy::Wspt.spec_name() && e@ == "unknown queue policy: "@
                + quoted_text(name@) + ", expected 'fcfs', 'lcfs', or 'wspt'"@,
    {
        if str_eq(name, "fcfs") {
            Ok(RouterQueuePolicy::Fcfs)
        } else if str_eq(name, "lcfs") {
            Ok(RouterQueuePolicy::Lcfs)
        } else if str_eq(name, "wspt") {
            Ok(RouterQueuePolicy::Wspt)
        } else {
            Err(
                concat3(
                    "unknown queue policy: ",
                    quoted(name).as_str(),
                    ", expected 'fcfs', 'lcfs', or 'wspt'",
                ),
            )
        }
    }
}

/// How prefill durations are predicted.
#[derive(Clone, Copy, Debug, PartialEq, Eq, Structural)]
pub enum RouterPrefillLoadModel {
    Disabled,
    Aic,
}

impl RouterPrefillLoadModel {
    pub open spec fn spec_name(self) -> Seq<char> {
        match self {
            RouterPrefillLoadModel::Disabled => "none"@,
            RouterPrefillLoadModel::Aic => "aic"@,
        }
    }

    pub fn as_str(self) -> (name: &'static str)
        ensures
            name@ == self.spec_name(),
    {
        match self {
            RouterPrefillLoadModel::Disabled => "none",
            RouterPrefillLoadModel::Aic => "aic",
        }
    }

    /// The model of a name, or what is wrong with the name.
    pub fn parse(name: &str) -> (r: Result<Self, String>)
        ensures
            r matches Ok(model) ==> name@ == model.spec_name(),
            r matches Err(e) ==> name@ != RouterPrefillLoadModel::Disabled.spec_name() && name@
                != RouterPrefillLoadModel::Aic.spec_name() && e@ == "unknown prefill load model: "@
                + quoted_text(name@) + ", expected 'none' or 'aic'"@,
    {
        if str_eq(name, "none") {
            Ok(RouterPrefillLoadModel::Disabled)
        } else if str_eq(name, "aic") {
            Ok(RouterPrefillLoadModel::Aic)
        } else {
            Err(
                concat3(
                    "unknown prefill load model: ",
                    quoted(name).as_str(),
                    ", expected 'none' or 'aic'",
                ),
            )
        }
    }

    /// Whether durations are predicted at all.
    pub fn is_enabled(self) -> (r: bool)
        ensures
            r == (self != RouterPrefillLoadModel::Disabled),
    {
        match self {
            RouterPrefillLoadModel::Disabled => false,
            RouterPrefillLoadModel::Aic => true,
        }
    }
}

/// A cap on queued tokens for requests that miss many tokens in the cache.
#[derive(Clone, Copy, Debug, PartialEq, Eq, Structural)]
pub struct RouterQueueDepthByMissingIslTier {
    /// The fewest missing tokens for which the cap applies.
    pub missing_cache_tokens_floor: usize,
    /// Queued tokens per worker.
    pub max_queue_depth: usize,
}

/// What is wrong with a list of tiers.
#[derive(Clone, Copy, Debug, PartialEq, Eq, Structural)]
pub enum TierError {
    /// The first tier does not apply to every request.
    FirstFloor,
    /// The floors do not go up.
    Order,
    /// A cap is zero.
    ZeroDepth,
}

impl TierError {
    /// The error in words.
    pub open spec fn spec_message(self) -> Seq<char> {
        match self {
            TierError::FirstFloor => "router_queue_by_incoming_missing_isl: first tier must have missing_cache_tokens_floor == 0"@,
            TierError::Order => "router_queue_by_incoming_missing_isl: floors must be strictly ascending"@,
            TierError::ZeroDepth => "router_queue_by_incoming_missing_isl: max_queue_depth must be > 0"@,
        }
    }

    /// The error in words.
    pub fn message(self) -> (text: &'static str)
        ensures
            text@ == self.spec_message(),
    {
        match self {
            TierError::FirstFloor =>
                "router_queue_by_incoming_missing_isl: first tier must have missing_cache_tokens_floor == 0",
            TierError::Order =>
                "router_queue_by_incoming_missing_isl: floors must be strictly ascending",
            TierError::ZeroDepth =>
                "router_queue_by_incoming_missing_isl: max_queue_depth must be > 0",
        }
    }
}

/// Whether floors go up from tier to tier.
pub open spec fn floors_ascend(tiers: Seq<RouterQueueDepthByMissingIslTier>) -> bool {
    forall|i: int, j: int|
        0 <= i < j < tiers.len() ==> (#[trigger] tiers[i]).missing_cache_tokens_floor < (
        #[trigger] tiers[j]).missing_cache_tokens_floor
}

/// What is wrong with a list of tiers; of several errors the first in this order.
pub open spec fn tier_error(tiers: Seq<RouterQueueDepthByMissingIslTier>) -> Option<TierError> {
    if tiers.len() > 0 && tiers[0].missing_cache_tokens_floor != 0 {
        Some(TierError::FirstFloor)
    } else if !floors_ascend(tiers) {
        Some(TierError::Order)
    } else if exists|i: int| 0 <= i < tiers.len() && (#[trigger] tiers[i]).max_queue_depth == 0 {
        Some(TierError::ZeroDepth)
    } else {
        None
    }
}

/// The tier that a request with some missing tokens falls into: the last whose
/// floor it reaches.
pub open spec fn matched_tier(
    tiers: Seq<RouterQueueDepthByMissingIslTier>,
    missing: usize,
) -> Option<RouterQueueDepthByMissingIslTier>
    decreases tiers.len(),
{
    if tiers.len() == 0 {
        None
    } else if missing >= tiers.last().missing_cache_tokens_floor {
        Some(tiers.last())
    } else {
        matched_tier(tiers.drop_last(), missing)
    }
}

/// The cap for a request with some missing tokens, over all workers.
pub open spec fn tier_cap(
    tiers: Seq<RouterQueueDepthByMissingIslTier>,
    missing: usize,
    worker_count: usize,
) -> Option<usize> {
    match matched_tier(tiers, missing) {
        None => None,
        Some(tier) => Some(
            if tier.max_queue_depth * worker_count <= usize::MAX {
                (tier.max_queue_depth * worker_count) as usize
            } else {
                usize::MAX
            },
        ),
    }
}

/// Tiers that were checked. Without any, queues have no cap.
pub struct RouterQueueDepthTiers {
    tiers: Vec<RouterQueueDepthByMissingIslTier>,
}

impl View for RouterQueueDepthTiers {
    type V = Seq<RouterQueueDepthByMissingIslTier>;

    closed spec fn view(&self) -> Seq<RouterQueueDepthByMissingIslTier> {
        self.tiers@
    }
}

impl RouterQueueDepthTiers {
    /// Whether the tiers are in order.
    pub open spec fn wf(&self) -> bool {
        tier_error(self@) is None
    }

    /// No cap.
    pub fn unbounded_cap() -> (tiers: Self)
        ensures
            tiers.wf(),
            tiers@ == Seq::<RouterQueueDepthByMissingIslTier>::empty(),
    {
        RouterQueueDepthTiers { tiers: Vec::new() }
    }

    /// Whether there is no cap.
    pub fn is_unbounded(&self) -> (r: bool)
        ensures
            r == (self@.len() == 0),
    {
        self.tiers.len() == 0
    }

    /// The cap for a request with some missing tokens, over all workers.
    pub fn cap_for(&self, cache_miss_tokens: usize, worker_count: usize) -> (cap: Option<usize>)
        ensures
            cap == tier_cap(self@, cache_miss_tokens, worker_count),
    {
        let mut left = self.tiers.len();
        assert(self@.take(left as int) =~= self@);
        while left > 0
            invariant
                left <= self.tiers@.len(),
                matched_tier(self@, cache_miss_tokens) == matched_tier(
                    self@.take(left as int),
                    cache_miss_tokens,
                ),
            decreases left,
        {
            let tier = self.tiers[left - 1];
            assert(self@.take(left as int).last() == tier);
            assert(self@.take(left as int).drop_last() =~= self@.take(left - 1));
            if cache_miss_tokens >= tier.missing_cache_tokens_floor {
                return Some(saturating_product(tier.max_queue_depth, worker_count));
            }
            left -= 1;
        }
        None
    }

    /// Checks a list of tiers.
    pub fn from_tiers(tiers: Vec<RouterQueueDepthByMissingIslTier>) -> (r: Result<Self, TierError>)
        ensures
            r is Ok <==> tier_error(tiers@) is None,
            r matches Ok(checked) ==> checked@ == tiers@ && checked.wf(),
            r matches Err(e) ==> tier_error(tiers@) == Some(e),
    {
        if tiers.len() == 0 {
            return Ok(RouterQueueDepthTiers::unbounded_cap());
        }
        if tiers[0].missing_cache_tokens_floor != 0 {
            return Err(TierError::FirstFloor);
        }
        for i in 1..tiers.len()
            invariant
                tiers@.len() > 0,
                tiers@[0].missing_cache_tokens_floor == 0,
                floors_ascend(tiers@.take(i as int)),
        {
            if tiers[i].missing_cache_tokens_floor <= tiers[i - 1].missing_cache_tokens_floor {
                assert(!floors_ascend(tiers@)) by {
                    assert(tiers@[i as int].missing_cache_tokens_floor
                        <= tiers@[i - 1].missing_cache_tokens_floor);
                }
                return Err(TierError::Order);
            }
            proof {
                let more = tiers@.take(i + 1);
                assert forall|a: int, b: int| 0 <= a < b < more.len() implies (
                #[trigger] more[a]).missing_cache_tokens_floor < (
                #[trigger] more[b]).missing_cache_tokens_floor by {
                    let done = tiers@.take(i as int);
                    if b < i {
                        assert(done[a].missing_cache_tokens_floor
                            < done[b].missing_cache_tokens_floor);
                    } else if a < i - 1 {
                        assert(done[a].missing_cache_tokens_floor < done[i
                            - 1].missing_cache_tokens_floor);
                    }
                }
            }
        }
        assert(tiers@.take(tiers@.len() as int) =~= tiers@);
        for i in 0..tiers.len()
            invariant
                tiers@.len() > 0,
                tiers@[0].missing_cache_tokens_floor == 0,
                floors_ascend(tiers@),
                forall|j: int| 0 <= j < i ==> (#[trigger] tiers@[j]).max_queue_depth > 0,
        {
            if tiers[i].max_queue_depth == 0 {
                assert(tiers@[i as int].max_queue_depth == 0);
                return Err(TierError::ZeroDepth);
            }
        }
        Ok(RouterQueueDepthTiers { tiers })
    }

    /// Checks a list of tiers, each given as its floor and its cap.
    pub fn from_tuples(tuples: Vec<(usize, usize)>) -> (r: Result<Self, String>)
        ensures
            r is Ok <==> tier_error(tiers_of(tuples@)) is None,
            r matches Ok(checked) ==> checked@ == tiers_of(tuples@) && checked.wf(),
            r matches Err(e) ==> e@ == tier_error(tiers_of(tuples@))->0.spec_message(),
    {
        let mut tiers: Vec<RouterQueueDepthByMissingIslTier> = Vec::new();
        for i in 0..tuples.len()
            invariant
                tiers@ == tiers_of(tuples@).take(i as int),
        {
            let (missing_cache_tokens_floor, max_queue_depth) = tuples[i];
            tiers.push(
                RouterQueueDepthByMissingIslTier { missing_cache_tokens_floor, max_queue_depth },
            );
            assert(tiers@ =~= tiers_of(tuples@).take(i + 1));
        }
        assert(tiers@ =~= tiers_of(tuples@));
        match RouterQueueDepthTiers::from_tiers(tiers) {
            Ok(checked) => Ok(checked),
            Err(e) => Err(e.message().to_owned()),
        }
    }

    /// The tiers as a list.
    pub fn into_tiers(self) -> (tiers: Vec<RouterQueueDepthByMissingIslTier>)
        ensures
            tiers@ == self@,
    {
        self.tiers
    }
}

/// Tiers given as floors and caps.
pub open spec fn tiers_of(tuples: Seq<(usize, usize)>) -> Seq<RouterQueueDepthByMissingIslTier> {
    tuples.map_values(
        |t: (usize, usize)|
            RouterQueueDepthByMissingIslTier {
                missing_cache_tokens_floor: t.0,
                max_queue_depth: t.1,
            },
    )
}

fn saturating_product(a: usize, b: usize) -> (product: usize)
    ensures
        product == if a * b <= usize::MAX {
            a * b
        } else {
            usize::MAX as int
        },
{
    match a.checked_mul(b) {
        Some(product) => product,
        None => usize::MAX,
    }
}

/// In checked tiers a request that misses more falls into a tier that is not
/// lower.
pub proof fn more_missing_matches_higher(
    tiers: Seq<RouterQueueDepthByMissingIslTier>,
    fewer: usize,
    more: usize,
)
    requires
        tier_error(tiers) is None,
        fewer <= more,
    ensures
        matched_tier(tiers, fewer) is Some ==> matched_tier(tiers, more) is Some && matched_tier(
            tiers,
            fewer,
        )->0.missing_cache_tokens_floor <= matched_tier(tiers, more)->0.missing_cache_tokens_floor,
        tiers.len() > 0 ==> matched_tier(tiers, fewer) is Some,
    decreases tiers.len(),
{
    if tiers.len() > 0 {
        let init = tiers.drop_last();
        assert(floors_ascend(init)) by {
            assert forall|i: int, j: int| 0 <= i < j < init.len() implies (
            #[trigger] init[i]).missing_cache_tokens_floor < (
            #[trigger] init[j]).missing_cache_tokens_floor by {
                assert(tiers[i].missing_cache_tokens_floor < tiers[j].missing_cache_tokens_floor);
            }
        }
        if exists|i: int| 0 <= i < init.len() && (#[trigger] init[i]).max_queue_depth == 0 {
            let i = choose|i: int| 0 <= i < init.len() && (#[trigger] init[i]).max_queue_depth == 0;
            assert(tiers[i].max_queue_depth == 0);
        }
        if init.len() > 0 {
            assert(init[0] == tiers[0]);
        }
        more_missing_matches_higher(init, fewer, more);
        lemma_matched_floor(init, fewer);
    }
}

proof fn lemma_matched_floor(tiers: Seq<RouterQueueDepthByMissingIslTier>, missing: usize)
    ensures
        matched_tier(tiers, missing) is Some ==> matched_tier(
            tiers,
            missing,
        )->0.missing_cache_tokens_floor <= missing,
    decreases tiers.len(),
{
    if tiers.len() > 0 {
        lemma_matched_floor(tiers.drop_last(), missing);
    }
}

/// Settings of one request that go before the router's own.
#[derive(Clone, Copy, Debug, PartialEq, Eq, Structural)]
pub struct RouterConfigOverride {
    pub overlap_score_credit: Option<F64Bits>,
    pub prefill_load_scale: Option<F64Bits>,
    pub router_temperature: Option<F64Bits>,
    pub assume_kv_reuse: Option<bool>,
    pub track_prefill_tokens: Option<bool>,
    pub shared_cache_multiplier: Option<F64Bits>,
}

impl Default for RouterConfigOverride {
    fn default() -> (r: Self)
        ensures
            r.overlap_score_credit is None,
            r.prefill_load_scale is None,
            r.router_temperature is None,
            r.assume_kv_reuse is None,
            r.track_prefill_tokens is None,
            r.shared_cache_multiplier is None,
    {
        RouterConfigOverride {
            overlap_score_credit: None,
            prefill_load_scale: None,
            router_temperature: None,
            assume_kv_reuse: None,
            track_prefill_tokens: None,
            shared_cache_multiplier: None,
        }
    }
}

/// A setting with a range of its own.
#[derive(Clone, Copy, Debug, PartialEq, Eq, Structural)]
pub enum ConfigField {
    PrefillLoadScale,
    HostCacheHitWeight,
    DiskCacheHitWeight,
    RouterTemperature,
    RouterSnapshotThreshold,
    RouterTtlSecs,
    RouterQueueThreshold,
    RouterEventThreads,
    SharedCacheMultiplier,
    RouterPredictedTtlSecs,
}

impl ConfigField {
    /// The name of the setting.
    pub open spec fn spec_name(self) -> Seq<char> {
        match self {
            ConfigField::PrefillLoadScale => "prefill_load_scale"@,
            ConfigField::HostCacheHitWeight => "host_cache_hit_weight"@,
            ConfigField::DiskCacheHitWeight => "disk_cache_hit_weight"@,
            ConfigField::RouterTemperature => "router_temperature"@,
            ConfigField::RouterSnapshotThreshold => "router_snapshot_threshold"@,
            ConfigField::RouterTtlSecs => "router_ttl_secs"@,
            ConfigField::RouterQueueThreshold => "router_queue_threshold"@,
            ConfigField::RouterEventThreads => "router_event_threads"@,
            ConfigField::SharedCacheMultiplier => "shared_cache_multiplier"@,
            ConfigField::RouterPredictedTtlSecs => "router_predicted_ttl_secs"@,
        }
    }

    /// The name of the setting.
    pub fn name(self) -> (name: &'static str)
        ensures
            name@ == self.spec_name(),
    {
        match self {
            ConfigField::PrefillLoadScale => "prefill_load_scale",
            ConfigField::HostCacheHitWeight => "host_cache_hit_weight",
            ConfigField::DiskCacheHitWeight => "disk_cache_hit_weight",
            ConfigField::RouterTemperature => "router_temperature",
            ConfigField::RouterSnapshotThreshold => "router_snapshot_threshold",
            ConfigField::RouterTtlSecs => "router_ttl_secs",
            ConfigField::RouterQueueThreshold => "router_queue_threshold",
            ConfigField::RouterEventThreads => "router_event_threads",
            ConfigField::SharedCacheMultiplier => "shared_cache_multiplier",
            ConfigField::RouterPredictedTtlSecs => "router_predicted_ttl_secs",
        }
    }
}

/// Settings that do not go together.
#[derive(Clone, Copy, Debug, PartialEq, Eq, Structural)]
pub enum ConfigConflict {
    DurableWithoutEvents,
    OutputWithoutActiveBlocks,
    LoadModelWithoutPrefillTokens,
    LoadModelNeedsFcfs,
    RemoteAndServedIndexer,
    ServedIndexerWithoutCredit,
    PredictedTtlWithoutEvents,
}

impl ConfigConflict {
    /// The conflict in words.
    pub open spec fn spec_message(self) -> Seq<char> {
        match self {
            ConfigConflict::DurableWithoutEvents => "durable_kv_events requires use_kv_events=true"@,
            ConfigConflict::OutputWithoutActiveBlocks => "router_track_output_blocks requires router_track_active_blocks=true"@,
            ConfigConflict::LoadModelWithoutPrefillTokens => "router_prefill_load_model requires router_track_prefill_tokens=true"@,
            ConfigConflict::LoadModelNeedsFcfs => "router_prefill_load_model currently requires router_queue_policy='fcfs'"@,
            ConfigConflict::RemoteAndServedIndexer => "use_remote_indexer and serve_indexer are mutually exclusive"@,
            ConfigConflict::ServedIndexerWithoutCredit => "serve_indexer requires overlap_score_credit > 0"@,
            ConfigConflict::PredictedTtlWithoutEvents => "router_predicted_ttl_secs requires use_kv_events=true"@,
        }
    }

    /// The conflict in words.
    pub fn message(self) -> (text: &'static str)
        ensures
            text@ == self.spec_message(),
    {
        match self {
            ConfigConflict::DurableWithoutEvents =>
                "durable_kv_events requires use_kv_events=true",
            ConfigConflict::OutputWithoutActiveBlocks =>
                "router_track_output_blocks requires router_track_active_blocks=true",
            ConfigConflict::LoadModelWithoutPrefillTokens =>
                "router_prefill_load_model requires router_track_prefill_tokens=true",
            ConfigConflict::LoadModelNeedsFcfs =>
                "router_prefill_load_model currently requires router_queue_policy='fcfs'",
            ConfigConflict::RemoteAndServedIndexer =>
                "use_remote_indexer and serve_indexer are mutually exclusive",
            ConfigConflict::ServedIndexerWithoutCredit =>
                "serve_indexer requires overlap_score_credit > 0",
            ConfigConflict::PredictedTtlWithoutEvents =>
                "router_predicted_ttl_secs requires use_kv_events=true",
        }
    }
}

/// Something wrong with a configuration.
#[derive(Clone, Copy, Debug, PartialEq, Eq, Structural)]
pub enum ConfigViolation {
    Credit(CreditError),
    OutOfRange(ConfigField),
    Conflict(ConfigConflict),
}

impl ConfigViolation {
    /// The violation in words.
    pub fn message(self) -> (text: String)
        ensures
            text@ == match self {
                ConfigViolation::Credit(CreditError::AboveOne) =>
                    OVERLAP_SCORE_CREDIT_MIGRATION_ERROR@,
                ConfigViolation::Credit(CreditError::OutOfRange) =>
                    OVERLAP_SCORE_CREDIT_RANGE_ERROR@,
                ConfigViolation::OutOfRange(field) => field.spec_name() + " is out of range"@,
                ConfigViolation::Conflict(conflict) => conflict.spec_message(),
            },
    {
        match self {
            ConfigViolation::Credit(CreditError::AboveOne) =>
                OVERLAP_SCORE_CREDIT_MIGRATION_ERROR.to_owned(),
            ConfigViolation::Credit(CreditError::OutOfRange) =>
                OVERLAP_SCORE_CREDIT_RANGE_ERROR.to_owned(),
            ConfigViolation::OutOfRange(field) => {
                let mut text = field.name().to_owned();
                text.append(" is out of range");
                text
            },
            ConfigViolation::Conflict(conflict) => conflict.message().to_owned(),
        }
    }
}

/// Whether a number is not below zero.
pub open spec fn not_negative(value: F64Bits) -> bool {
    !value.spec_is_negative()
}

/// Whether a number is neither below zero nor above one.
pub open spec fn within_one(value: F64Bits) -> bool {
    !value.spec_is_negative() && !value.spec_exceeds_one()
}

/// Whether a number, if there is one, is not below zero.
pub open spec fn none_negative(value: Option<F64Bits>) -> bool {
    value matches Some(v) ==> not_negative(v)
}

fn opt_negative(value: Option<F64Bits>) -> (r: bool)
    ensures
        r == !none_negative(value),
{
    match value {
        Some(value) => value.is_negative(),
        None => false,
    }
}

/// A violation, unless a condition holds.
pub open spec fn unless(ok: bool, violation: ConfigViolation) -> Seq<ConfigViolation> {
    if ok {
        Seq::empty()
    } else {
        seq![violation]
    }
}

fn note(violations: &mut Vec<ConfigViolation>, bad: bool, violation: ConfigViolation)
    ensures
        final(violations)@ == old(violations)@ + unless(!bad, violation),
{
    if bad {
        violations.push(violation);
    }
    assert(violations@ =~= old(violations)@ + unless(!bad, violation));
}

/// The violation of a credit.
pub open spec fn credit_violation(value: F64Bits) -> Seq<ConfigViolation> {
    match credit_error(value) {
        Some(e) => seq![ConfigViolation::Credit(e)],
        None => Seq::empty(),
    }
}

fn note_credit(violations: &mut Vec<ConfigViolation>, value: F64Bits)
    ensures
        final(violations)@ == old(violations)@ + credit_violation(value),
{
    if let Some(e) = check_credit(value) {
        violations.push(ConfigViolation::Credit(e));
    }
    assert(violations@ =~= old(violations)@ + credit_violation(value));
}

/// What is wrong with an override.
pub open spec fn override_violations(config: RouterConfigOverride) -> Seq<ConfigViolation> {
    let fields = unless(
        none_negative(config.prefill_load_scale),
        ConfigViolation::OutOfRange(ConfigField::PrefillLoadScale),
    ) + unless(
        none_negative(config.router_temperature),
        ConfigViolation::OutOfRange(ConfigField::RouterTemperature),
    ) + unless(
        config.shared_cache_multiplier matches Some(v) ==> within_one(v),
        ConfigViolation::OutOfRange(ConfigField::SharedCacheMultiplier),
    );
    if fields.len() > 0 {
        fields
    } else {
        match config.overlap_score_credit {
            Some(credit) => credit_violation(credit),
            None => Seq::empty(),
        }
    }
}

impl RouterConfigOverride {
    /// Checks an override. Whether the credit is right is looked at only where the
    /// other settings are in range.
    pub fn validate(&self) -> (r: Result<(), Vec<ConfigViolation>>)
        ensures
            r is Ok <==> override_violations(*self).len() == 0,
            r matches Err(v) ==> v@ == override_violations(*self),
    {
        let mut violations: Vec<ConfigViolation> = Vec::new();
        note(
            &mut violations,
            opt_negative(self.prefill_load_scale),
            ConfigViolation::OutOfRange(ConfigField::PrefillLoadScale),
        );
        note(
            &mut violations,
            opt_negative(self.router_temperature),
            ConfigViolation::OutOfRange(ConfigField::RouterTemperature),
        );
        let multiplier_out = match self.shared_cache_multiplier {
            Some(v) => v.is_negative() || v.exceeds_one(),
            None => false,
        };
        note(
            &mut violations,
            multiplier_out,
            ConfigViolation::OutOfRange(ConfigField::SharedCacheMultiplier),
        );
        proof {
            assert(violations@ =~= unless(
                none_negative(self.prefill_load_scale),
                ConfigViolation::OutOfRange(ConfigField::PrefillLoadScale),
            ) + unless(
                none_negative(self.router_temperature),
                ConfigViolation::OutOfRange(ConfigField::RouterTemperature),
            ) + unless(
                self.shared_cache_multiplier matches Some(v) ==> within_one(v),
                ConfigViolation::OutOfRange(ConfigField::SharedCacheMultiplier),
            ));
        }
        if violations.len() > 0 {
            return Err(violations);
        }
        if let Some(credit) = self.overlap_score_credit {
            note_credit(&mut violations, credit);
        }
        assert(violations@ =~= override_violations(*self));
        if violations.len() > 0 {
            Err(violations)
        } else {
            Ok(())
        }
    }

    /// An override from its written form, in which the weight that the credit and
    /// the scale replaced may still occur.
    pub fn from_written(
        written: RouterConfigOverride,
        overlap_score_weight: Option<F64Bits>,
    ) -> (r: Result<Self, Vec<ConfigViolation>>)
        ensures
            ({
                let config = with_weight_option(written, overlap_score_weight);
                &&& r is Ok <==> override_violations(config).len() == 0
                &&& r matches Ok(c) ==> c == config
                &&& r matches Err(v) ==> v@ == override_violations(config)
            }),
    {
        let mut config = written;
        if let Some(weight) = overlap_score_weight {
            let mut credit = config.overlap_score_credit;
            let mut scale = config.prefill_load_scale;
            apply_deprecated_overlap_score_weight_override_option(weight, &mut credit, &mut scale);
            config.overlap_score_credit = credit;
            config.prefill_load_scale = scale;
        }
        match config.validate() {
            Ok(()) => Ok(config),
            Err(v) => Err(v),
        }
    }
}

/// An override with the old weight applied.
pub open spec fn with_weight_option(
    config: RouterConfigOverride,
    weight: Option<F64Bits>,
) -> RouterConfigOverride {
    match weight {
        None => config,
        Some(weight) => RouterConfigOverride {
            overlap_score_credit: if weight.spec_is_zero() {
                Some(F64Bits(0))
            } else {
                config.overlap_score_credit
            },
            prefill_load_scale: Some(weight),
            ..config
        },
    }
}

/// The router's configuration.
pub struct KvRouterConfig {
    /// Credit for a block that is on the worker's device, between zero and one.
    pub overlap_score_credit: F64Bits,
    /// Scale of the prefill load once the credits are taken off.
    pub prefill_load_scale: F64Bits,
    pub host_cache_hit_weight: F64Bits,
    pub disk_cache_hit_weight: F64Bits,
    pub router_temperature: F64Bits,
    pub use_kv_events: bool,
    pub durable_kv_events: bool,
    pub router_replica_sync: bool,
    pub router_track_active_blocks: bool,
    pub router_track_output_blocks: bool,
    /// Whether requests with the same tokens share blocks. If not, every block
    /// counts as a new one.
    pub router_assume_kv_reuse: bool,
    pub router_track_prefill_tokens: bool,
    pub router_prefill_load_model: RouterPrefillLoadModel,
    pub router_snapshot_threshold: Option<u32>,
    pub router_reset_states: bool,
    pub router_ttl_secs: F64Bits,
    /// From which load on requests wait, as a fraction of a worker's batch.
    pub router_queue_threshold: Option<F64Bits>,
    pub router_queue_by_incoming_missing_isl: RouterQueueDepthTiers,
    pub router_event_threads: u32,
    pub skip_initial_worker_wait: bool,
    pub router_queue_policy: RouterQueuePolicy,
    pub use_remote_indexer: bool,
    pub serve_indexer: bool,
    pub shared_cache_multiplier: F64Bits,
    pub shared_cache_type: SharedCacheType,
    /// For how long routing decisions count as stored blocks.
    pub router_predicted_ttl_secs: Option<F64Bits>,
}

/// Whether a configuration is the default one but for the settings that the
/// environment can change.
pub open spec fn rest_is_default(c: &KvRouterConfig) -> bool {
    &&& c.host_cache_hit_weight == F64Bits(0x3fe8_0000_0000_0000)
    &&& c.disk_cache_hit_weight == F64Bits(0x3fd0_0000_0000_0000)
    &&& !c.durable_kv_events
    &&& c.router_assume_kv_reuse
    &&& c.router_prefill_load_model == RouterPrefillLoadModel::Disabled
    &&& c.router_snapshot_threshold == Some(1000000u32)
    &&& !c.router_reset_states
    &&& c.router_ttl_secs == F64Bits(0x405e_0000_0000_0000)
    &&& c.router_queue_by_incoming_missing_isl@.len() == 0
    &&& c.router_queue_by_incoming_missing_isl.wf()
    &&& c.router_event_threads == 4
    &&& !c.skip_initial_worker_wait
    &&& c.router_queue_policy == RouterQueuePolicy::Fcfs
    &&& !c.use_remote_indexer
    &&& !c.serve_indexer
    &&& c.shared_cache_multiplier == F64Bits(0)
    &&& c.shared_cache_type == SharedCacheType::Disabled
}

impl Default for KvRouterConfig {
    fn default() -> (c: Self)
        ensures
            rest_is_default(&c),
            c.overlap_score_credit == F64Bits(ONE),
            c.prefill_load_scale == F64Bits(ONE),
            c.router_temperature == F64Bits(0),
            c.use_kv_events,
            !c.router_replica_sync,
            c.router_track_active_blocks,
            !c.router_track_output_blocks,
            c.router_track_prefill_tokens,
            c.router_queue_threshold == Some(F64Bits(0x4030_0000_0000_0000)),
            c.router_predicted_ttl_secs is None,
            c.host_cache_hit_weight == F64Bits(0x3fe8_0000_0000_0000),
            c.disk_cache_hit_weight == F64Bits(0x3fd0_0000_0000_0000),
            !c.durable_kv_events,
            c.router_assume_kv_reuse,
            c.router_prefill_load_model == RouterPrefillLoadModel::Disabled,
            c.router_snapshot_threshold == Some(1000000u32),
            !c.router_reset_states,
            c.router_ttl_secs == F64Bits(0x405e_0000_0000_0000),
            c.router_queue_by_incoming_missing_isl@.len() == 0,
            c.router_event_threads == 4,
            !c.skip_initial_worker_wait,
            c.router_queue_policy == RouterQueuePolicy::Fcfs,
            !c.use_remote_indexer,
            !c.serve_indexer,
            c.shared_cache_multiplier == F64Bits(0),
            c.shared_cache_type == SharedCacheType::Disabled,
    {
        KvRouterConfig {
            overlap_score_credit: F64Bits(ONE),
            prefill_load_scale: F64Bits(ONE),
            host_cache_hit_weight: F64Bits(0x3fe8_0000_0000_0000),
            disk_cache_hit_weight: F64Bits(0x3fd0_0000_0000_0000),
            router_temperature: F64Bits(0),
            use_kv_events: true,
            durable_kv_events: false,
            router_replica_sync: false,
            router_track_active_blocks: true,
            router_track_output_blocks: false,
            router_assume_kv_reuse: true,
            router_track_prefill_tokens: true,
            router_prefill_load_model: RouterPrefillLoadModel::Disabled,
            router_snapshot_threshold: Some(1000000),
            router_reset_states: false,
            router_ttl_secs: F64Bits(0x405e_0000_0000_0000),
            router_queue_threshold: Some(F64Bits(0x4030_0000_0000_0000)),
            router_queue_by_incoming_missing_isl: RouterQueueDepthTiers::unbounded_cap(),
            router_event_threads: 4,
            skip_initial_worker_wait: false,
            router_queue_policy: RouterQueuePolicy::Fcfs,
            use_remote_indexer: false,
            serve_indexer: false,
            shared_cache_multiplier: F64Bits(0),
            shared_cache_type: SharedCacheType::Disabled,
            router_predicted_ttl_secs: None,
        }
    }
}

/// Settings of a configuration that do not go together; of several conflicts the
/// first in this order.
pub open spec fn config_conflict(c: &KvRouterConfig) -> Option<ConfigConflict> {
    let models = c.router_prefill_load_model != RouterPrefillLoadModel::Disabled;
    if c.durable_kv_events && !c.use_kv_events {
        Some(ConfigConflict::DurableWithoutEvents)
    } else if c.router_track_output_blocks && !c.router_track_active_blocks {
        Some(ConfigConflict::OutputWithoutActiveBlocks)
    } else if models && !c.router_track_prefill_tokens {
        Some(ConfigConflict::LoadModelWithoutPrefillTokens)
    } else if models && c.router_queue_policy != RouterQueuePolicy::Fcfs {
        Some(ConfigConflict::LoadModelNeedsFcfs)
    } else if c.use_remote_indexer && c.serve_indexer {
        Some(ConfigConflict::RemoteAndServedIndexer)
    } else if c.serve_indexer && c.overlap_score_credit.spec_is_zero() {
        Some(ConfigConflict::ServedIndexerWithoutCredit)
    } else if c.router_predicted_ttl_secs is Some && !c.use_kv_events {
        Some(ConfigConflict::PredictedTtlWithoutEvents)
    } else {
        None
    }
}

/// Whether settings of a configuration go together.
pub fn validate_kv_router_config(c: &KvRouterConfig) -> (r: Result<(), ConfigConflict>)
    ensures
        r is Ok <==> config_conflict(c) is None,
        r matches Err(e) ==> config_conflict(c) == Some(e),
{
    let models = c.router_prefill_load_model.is_enabled();
    let fcfs = match c.router_queue_policy {
        RouterQueuePolicy::Fcfs => true,
        _ => false,
    };
    if c.durable_kv_events && !c.use_kv_events {
        Err(ConfigConflict::DurableWithoutEvents)
    } else if c.router_track_output_blocks && !c.router_track_active_blocks {
        Err(ConfigConflict::OutputWithoutActiveBlocks)
    } else if models && !c.router_track_prefill_tokens {
        Err(ConfigConflict::LoadModelWithoutPrefillTokens)
    } else if models && !fcfs {
        Err(ConfigConflict::LoadModelNeedsFcfs)
    } else if c.use_remote_indexer && c.serve_indexer {
        Err(ConfigConflict::RemoteAndServedIndexer)
    } else if c.serve_indexer && c.overlap_score_credit.is_zero() {
        Err(ConfigConflict::ServedIndexerWithoutCredit)
    } else if c.router_predicted_ttl_secs.is_some() && !c.use_kv_events {
        Err(ConfigConflict::PredictedTtlWithoutEvents)
    } else {
        Ok(())
    }
}

/// Settings of a configuration that are out of their ranges.
pub open spec fn field_violations(c: &KvRouterConfig) -> Seq<ConfigViolation> {
    credit_violation(c.overlap_score_credit) + unless(
        not_negative(c.prefill_load_scale),
        ConfigViolation::OutOfRange(ConfigField::PrefillLoadScale),
    ) + unless(
        within_one(c.host_cache_hit_weight),
        ConfigViolation::OutOfRange(ConfigField::HostCacheHitWeight),
    ) + unless(
        within_one(c.disk_cache_hit_weight),
        ConfigViolation::OutOfRange(ConfigField::DiskCacheHitWeight),
    ) + unless(
        not_negative(c.router_temperature),
        ConfigViolation::OutOfRange(ConfigField::RouterTemperature),
    ) + unless(
        c.router_snapshot_threshold != Some(0u32),
        ConfigViolation::OutOfRange(ConfigField::RouterSnapshotThreshold),
    ) + unless(
        not_negative(c.router_ttl_secs),
        ConfigViolation::OutOfRange(ConfigField::RouterTtlSecs),
    ) + unless(
        none_negative(c.router_queue_threshold),
        ConfigViolation::OutOfRange(ConfigField::RouterQueueThreshold),
    ) + unless(
        c.router_event_threads >= 1,
        ConfigViolation::OutOfRange(ConfigField::RouterEventThreads),
    ) + unless(
        within_one(c.shared_cache_multiplier),
        ConfigViolation::OutOfRange(ConfigField::SharedCacheMultiplier),
    ) + unless(
        none_negative(c.router_predicted_ttl_secs),
        ConfigViolation::OutOfRange(ConfigField::RouterPredictedTtlSecs),
    )
}

/// What is wrong with a configuration. Whether settings go together is looked at
/// only where each is in its range.
pub open spec fn config_violations(c: &KvRouterConfig) -> Seq<ConfigViolation> {
    let fields = field_violations(c);
    if fields.len() > 0 {
        fields
    } else {
        match config_conflict(c) {
            Some(e) => seq![ConfigViolation::Conflict(e)],
            None => Seq::empty(),
        }
    }
}

/// The default configuration is valid.
pub proof fn default_config_is_valid(c: &KvRouterConfig)
    requires
        rest_is_default(c),
        c.overlap_score_credit == F64Bits(ONE),
        c.prefill_load_scale == F64Bits(ONE),
        c.router_temperature == F64Bits(0),
        c.use_kv_events,
        c.router_track_active_blocks,
        c.router_queue_threshold == Some(F64Bits(0x4030_0000_0000_0000)),
        c.router_predicted_ttl_secs is None,
    ensures
        config_violations(c).len() == 0,
{
}

impl KvRouterConfig {
    /// Checks a configuration.
    pub fn validate_config(&self) -> (r: Result<(), Vec<ConfigViolation>>)
        ensures
            r is Ok <==> config_violations(self).len() == 0,
            r matches Err(v) ==> v@ == config_violations(self),
    {
        let mut violations: Vec<ConfigViolation> = Vec::new();
        note_credit(&mut violations, self.overlap_score_credit);
        note(
            &mut violations,
            self.prefill_load_scale.is_negative(),
            ConfigViolation::OutOfRange(ConfigField::PrefillLoadScale),
        );
        note(
            &mut violations,
            self.host_cache_hit_weight.is_negative() || self.host_cache_hit_weight.exceeds_one(),
            ConfigViolation::OutOfRange(ConfigField::HostCacheHitWeight),
        );
        note(
            &mut violations,
            self.disk_cache_hit_weight.is_negative() || self.disk_cache_hit_weight.exceeds_one(),
            ConfigViolation::OutOfRange(ConfigField::DiskCacheHitWeight),
        );
        note(
            &mut violations,
            self.router_temperature.is_negative(),
            ConfigViolation::OutOfRange(ConfigField::RouterTemperature),
        );
        let no_snapshots = match self.router_snapshot_threshold {
            Some(n) => n == 0,
            None => false,
        };
        note(
            &mut violations,
            no_snapshots,
            ConfigViolation::OutOfRange(ConfigField::RouterSnapshotThreshold),
        );
        note(
            &mut violations,
            self.router_ttl_secs.is_negative(),
            ConfigViolation::OutOfRange(ConfigField::RouterTtlSecs),
        );
        note(
            &mut violations,
            opt_negative(self.router_queue_threshold),
            ConfigViolation::OutOfRange(ConfigField::RouterQueueThreshold),
        );
        note(
            &mut violations,
            self.router_event_threads < 1,
            ConfigViolation::OutOfRange(ConfigField::RouterEventThreads),
        );
        note(
            &mut violations,
            self.shared_cache_multiplier.is_negative()
                || self.shared_cache_multiplier.exceeds_one(),
            ConfigViolation::OutOfRange(ConfigField::SharedCacheMultiplier),
        );
        note(
            &mut violations,
            opt_negative(self.router_predicted_ttl_secs),
            ConfigViolation::OutOfRange(ConfigField::RouterPredictedTtlSecs),
        );
        assert(violations@ =~= field_violations(self));
        if violations.len() > 0 {
            return Err(violations);
        }
        match validate_kv_router_config(self) {
            Ok(()) => Ok(()),
            Err(e) => {
                violations.push(ConfigViolation::Conflict(e));
                assert(violations@ =~= config_violations(self));
                Err(violations)
            },
        }
    }

    /// A configuration from its written form, in which the weight that the credit
    /// and the scale replaced may still occur.
    pub fn from_written(written: KvRouterConfig, overlap_score_weight: Option<F64Bits>) -> (r:
        Result<Self, Vec<ConfigViolation>>)
        ensures
            ({
                let config = with_weight(written, overlap_score_weight);
                &&& r is Ok <==> config_violations(&config).len() == 0
                &&& r matches Ok(c) ==> c == config
                &&& r matches Err(v) ==> v@ == config_violations(&config)
            }),
    {
        let mut config = written;
        if let Some(weight) = overlap_score_weight {
            let mut credit = config.overlap_score_credit;
            let mut scale = config.prefill_load_scale;
            apply_deprecated_overlap_score_weight_override(weight, &mut credit, &mut scale);
            config.overlap_score_credit = credit;
            config.prefill_load_scale = scale;
        }
        match config.validate_config() {
            Ok(()) => Ok(config),
            Err(v) => Err(v),
        }
    }

    /// After how many milliseconds a waiting queue is looked at again.
    pub fn router_queue_recheck_interval(&self) -> (millis: u64)
        ensures
            millis == if self.router_prefill_load_model != RouterPrefillLoadModel::Disabled
                && self.router_queue_threshold is Some {
                100u64
            } else {
                60000
            },
    {
        if self.router_prefill_load_model.is_enabled() && self.router_queue_threshold.is_some() {
            100
        } else {
            60000
        }
    }

    /// Whether routing decisions count as stored blocks for a while.
    pub fn predict_on_route_enabled(&self) -> (r: bool)
        ensures
            r == (self.router_predicted_ttl_secs is Some),
    {
        self.router_predicted_ttl_secs.is_some()
    }

    /// Whether requests with the same tokens share blocks.
    pub open spec fn spec_assume_kv_reuse(
        &self,
        config_override: Option<RouterConfigOverride>,
    ) -> bool {
        match config_override {
            Some(c) => match c.assume_kv_reuse {
                Some(r) => r,
                None => self.router_assume_kv_reuse,
            },
            None => self.router_assume_kv_reuse,
        }
    }

    /// Whether requests with the same tokens share blocks.
    pub fn assume_kv_reuse(&self, config_override: Option<RouterConfigOverride>) -> (r: bool)
        ensures
            r == self.spec_assume_kv_reuse(config_override),
    {
        match config_override {
            Some(c) => match c.assume_kv_reuse {
                Some(r) => r,
                None => self.router_assume_kv_reuse,
            },
            None => self.router_assume_kv_reuse,
        }
    }

    /// Whether prefill tokens count as load.
    pub fn track_prefill_tokens(&self, config_override: Option<RouterConfigOverride>) -> (r: bool)
        ensures
            r == match config_override {
                Some(c) => match c.track_prefill_tokens {
                    Some(r) => r,
                    None => self.router_track_prefill_tokens,
                },
                None => self.router_track_prefill_tokens,
            },
    {
        match config_override {
            Some(c) => match c.track_prefill_tokens {
                Some(r) => r,
                None => self.router_track_prefill_tokens,
            },
            None => self.router_track_prefill_tokens,
        }
    }

    /// The hashes by which a request's blocks are tracked: none where blocks are
    /// not tracked, the hashes of its sequences where blocks are shared, and else
    /// random ones, so that no two blocks are the same but by chance.
    pub fn compute_seq_hashes_for_tracking(
        &self,
        tokens: &[u32],
        block_size: u32,
        config_override: Option<RouterConfigOverride>,
        hash_options: BlockHashOptions,
        precomputed_block_hashes: Option<&[LocalBlockHash]>,
    ) -> (hashes: Option<Vec<u64>>)
        requires
            block_size > 0,
        ensures
            hashes is Some <==> self.router_track_active_blocks,
            hashes is Some ==> ({
                let blocks = tokens@.len() / block_size as nat;
                &&& blocks == 0 ==> (hashes->0)@.len() == 0
                &&& blocks > 0 && self.spec_assume_kv_reuse(config_override) ==> (hashes->0)@
                    == seq_hashes(
                    match precomputed_block_hashes {
                        Some(given) => given@,
                        None => block_hashes(
                            tokens@,
                            block_size as nat,
                            mm_infos_view(hash_options.block_mm_infos),
                            opt_str_view(hash_options.lora_name),
                            hash_options.is_eagle,
                        ),
                    },
                )
                &&& blocks > 0 && !self.spec_assume_kv_reuse(config_override) ==> (
                hashes->0)@.len() == blocks
            }),
    {
        if !self.router_track_active_blocks {
            return None;
        }
        let num_blocks = tokens.len() / block_size as usize;
        if num_blocks == 0 {
            return Some(Vec::new());
        }
        if self.assume_kv_reuse(config_override) {
            match precomputed_block_hashes {
                Some(given) => Some(compute_seq_hash_for_block(given)),
                None => {
                    let computed = compute_block_hash_for_seq(tokens, block_size, hash_options);
                    Some(compute_seq_hash_for_block(computed.as_slice()))
                },
            }
        } else {
            let mut hashes: Vec<u64> = Vec::new();
            for i in 0..num_blocks
                invariant
                    hashes@.len() == i,
            {
                hashes.push(random_hash());
            }
            Some(hashes)
        }
    }

    /// Whether the events of the workers are needed: they are used, and blocks on a
    /// device count.
    pub fn should_subscribe_to_kv_events(&self) -> (r: bool)
        ensures
            r == (self.use_kv_events && self.overlap_score_credit.spec_is_positive()),
    {
        self.use_kv_events && self.overlap_score_credit.is_positive()
    }
}

/// A configuration with the old weight applied.
pub open spec fn with_weight(config: KvRouterConfig, weight: Option<F64Bits>) -> KvRouterConfig {
    match weight {
        None => config,
        Some(weight) => KvRouterConfig {
            overlap_score_credit: if weight.spec_is_zero() {
                F64Bits(0)
            } else {
                config.overlap_score_credit
            },
            prefill_load_scale: weight,
            ..config
        },
    }
}

/// `Rng::random` of the thread's generator in `rand`: any number can come.
#[verifier::external_body]
fn random_hash() -> u64 {
    rand::rng().random::<u64>()
}

/// A setting of the environment: its text, and the number that the text stands
/// for if it stands for one.
pub struct EnvSetting {
    pub key: String,
    pub text: String,
    pub number: Option<F64Bits>,
}

/// The setting of a key.
pub open spec fn setting_of(settings: Seq<EnvSetting>, key: Seq<char>) -> Option<EnvSetting>
    decreases settings.len(),
{
    if settings.len() == 0 {
        None
    } else if settings.last().key@ == key {
        Some(settings.last())
    } else {
        setting_of(settings.drop_last(), key)
    }
}

/// The number of a key.
pub open spec fn number_of(settings: Seq<EnvSetting>, key: Seq<char>) -> Option<F64Bits> {
    match setting_of(settings, key) {
        Some(setting) => setting.number,
        None => None,
    }
}

/// What a text says of yes and no.
pub open spec fn bool_of(text: Seq<char>) -> Option<bool> {
    if same_word(text, "true"@) || same_word(text, "1"@) || same_word(text, "yes"@) || same_word(
        text,
        "on"@,
    ) {
        Some(true)
    } else if same_word(text, "false"@) || same_word(text, "0"@) || same_word(text, "no"@)
        || same_word(text, "off"@) {
        Some(false)
    } else {
        None
    }
}

/// What the setting of a key says of yes and no, or else the default.
pub open spec fn flag_of(settings: Seq<EnvSetting>, key: Seq<char>, default: bool) -> bool {
    match setting_of(settings, key) {
        Some(setting) => match bool_of(setting.text@) {
            Some(b) => b,
            None => default,
        },
        None => default,
    }
}

/// A value, or the default.
pub open spec fn or_default(value: Option<F64Bits>, default: F64Bits) -> F64Bits {
    match value {
        Some(v) => v,
        None => default,
    }
}

/// The old weight in the environment, by the newer of its two names where both are
/// there.
pub open spec fn env_weight(settings: Seq<EnvSetting>) -> Option<F64Bits> {
    match number_of(settings, "DYN_ROUTER_KV_OVERLAP_SCORE_WEIGHT"@) {
        Some(v) => Some(v),
        None => number_of(settings, "DYN_OVERLAP_SCORE_WEIGHT"@),
    }
}

/// The environment that a configuration is read from.
pub struct EnvLookup {
    pub settings: Vec<EnvSetting>,
}

/// What a text says of yes and no.
pub fn parse_bool(text: &str) -> (r: Option<bool>)
    ensures
        r == bool_of(text@),
{
    if is_word(text, "true") || is_word(text, "1") || is_word(text, "yes") || is_word(text, "on") {
        Some(true)
    } else if is_word(text, "false") || is_word(text, "0") || is_word(text, "no") || is_word(
        text,
        "off",
    ) {
        Some(false)
    } else {
        None
    }
}

impl EnvLookup {
    fn find(&self, key: &str) -> (index: Option<usize>)
        ensures
            index is Some <==> setting_of(self.settings@, key@) is Some,
            index matches Some(i) ==> i < self.settings@.len() && setting_of(
                self.settings@,
                key@,
            ) == Some(self.settings@[i as int]),
    {
        let mut left = self.settings.len();
        assert(self.settings@.take(left as int) =~= self.settings@);
        while left > 0
            invariant
                left <= self.settings@.len(),
                setting_of(self.settings@, key@) == setting_of(
                    self.settings@.take(left as int),
                    key@,
                ),
            decreases left,
        {
            assert(self.settings@.take(left as int).last() == self.settings@[left - 1]);
            assert(self.settings@.take(left as int).drop_last() =~= self.settings@.take(left - 1));
            if str_eq(self.settings[left - 1].key.as_str(), key) {
                return Some(left - 1);
            }
            left -= 1;
        }
        None
    }

    fn number(&self, key: &str) -> (number: Option<F64Bits>)
        ensures
            number == number_of(self.settings@, key@),
    {
        match self.find(key) {
            Some(i) => self.settings[i].number,
            None => None,
        }
    }

    fn flag(&self, key: &str, default: bool) -> (flag: bool)
        ensures
            flag == flag_of(self.settings@, key@, default),
    {
        match self.find(key) {
            Some(i) => match parse_bool(self.settings[i].text.as_str()) {
                Some(b) => b,
                None => default,
            },
            None => default,
        }
    }
}

/// The default configuration with what the environment sets. Settings that cannot
/// be read are passed over.
pub fn kv_router_config_from_lookup(env: &EnvLookup) -> (c: KvRouterConfig)
    ensures
        rest_is_default(&c),
        ({
            let s = env.settings@;
            let weight = env_weight(s);
            &&& c.prefill_load_scale == or_default(
                weight,
                or_default(number_of(s, "DYN_ROUTER_PREFILL_LOAD_SCALE"@), F64Bits(ONE)),
            )
            &&& c.overlap_score_credit == if weight matches Some(w) && w.spec_is_zero() {
                F64Bits(0)
            } else {
                or_default(number_of(s, "DYN_ROUTER_KV_OVERLAP_SCORE_CREDIT"@), F64Bits(ONE))
            }
            &&& c.router_temperature == or_default(
                number_of(s, "DYN_ROUTER_TEMPERATURE"@),
                F64Bits(0),
            )
            &&& c.use_kv_events == flag_of(s, "DYN_USE_KV_EVENTS"@, true)
            &&& c.router_replica_sync == flag_of(s, "DYN_ROUTER_REPLICA_SYNC"@, false)
            &&& c.router_track_active_blocks == flag_of(
                s,
                "DYN_ROUTER_TRACK_ACTIVE_BLOCKS"@,
                true,
            )
            &&& c.router_track_output_blocks == flag_of(
                s,
                "DYN_ROUTER_TRACK_OUTPUT_BLOCKS"@,
                false,
            )
            &&& c.router_track_prefill_tokens == flag_of(
                s,
                "DYN_ROUTER_TRACK_PREFILL_TOKENS"@,
                true,
            )
            &&& c.router_queue_threshold == Some(
                or_default(
                    number_of(s, "DYN_ROUTER_QUEUE_THRESHOLD"@),
                    F64Bits(0x4030_0000_0000_0000),
                ),
            )
            &&& c.router_predicted_ttl_secs == number_of(s, "DYN_ROUTER_PREDICTED_TTL_SECS"@)
        }),
{
    let mut config = KvRouterConfig::default();
    let mut credit = config.overlap_score_credit;
    let mut scale = config.prefill_load_scale;
    if let Some(value) = env.number("DYN_ROUTER_KV_OVERLAP_SCORE_CREDIT") {
        credit = value;
    }
    if let Some(value) = env.number("DYN_ROUTER_PREFILL_LOAD_SCALE") {
        scale = value;
    }
    let weight = match env.number("DYN_ROUTER_KV_OVERLAP_SCORE_WEIGHT") {
        Some(value) => Some(value),
        None => env.number("DYN_OVERLAP_SCORE_WEIGHT"),
    };
    if let Some(value) = weight {
        apply_deprecated_overlap_score_weight_override(value, &mut credit, &mut scale);
    }
    config.overlap_score_credit = credit;
    config.prefill_load_scale = scale;
    if let Some(value) = env.number("DYN_ROUTER_TEMPERATURE") {
        config.router_temperature = value;
    }
    config.use_kv_events = env.flag("DYN_USE_KV_EVENTS", true);
    config.router_replica_sync = env.flag("DYN_ROUTER_REPLICA_SYNC", false);
    config.router_track_active_blocks = env.flag("DYN_ROUTER_TRACK_ACTIVE_BLOCKS", true);
    config.router_track_output_blocks = env.flag("DYN_ROUTER_TRACK_OUTPUT_BLOCKS", false);
    config.router_track_prefill_tokens = env.flag("DYN_ROUTER_TRACK_PREFILL_TOKENS", true);
    if let Some(value) = env.number("DYN_ROUTER_QUEUE_THRESHOLD") {
        config.router_queue_threshold = Some(value);
    }
    if let Some(value) = env.number("DYN_ROUTER_PREDICTED_TTL_SECS") {
        config.router_predicted_ttl_secs = Some(value);
    }
    config
}

/// The cap of a request is that of the tier with the highest floor that its missing tokens
/// reach, for each worker; without such a tier there is none.
pub proof fn cap_is_of_the_highest_floor_reached(
    tiers: Seq<RouterQueueDepthByMissingIslTier>,
    missing: usize,
    worker_count: usize,
    i: int,
)
    requires
        forall|j: int, k: int|
            0 <= j < k < tiers.len() ==> (#[trigger] tiers[j]).missing_cache_tokens_floor < (
            #[trigger] tiers[k]).missing_cache_tokens_floor,
        0 <= i < tiers.len(),
        tiers[i].missing_cache_tokens_floor <= missing,
        forall|j: int|
            0 <= j < tiers.len() && (#[trigger] tiers[j]).missing_cache_tokens_floor <= missing
                ==> tiers[j].missing_cache_tokens_floor <= tiers[i].missing_cache_tokens_floor,
    ensures
        tier_cap(tiers, missing, worker_count) == Some(
            if tiers[i].max_queue_depth * worker_count <= usize::MAX {
                (tiers[i].max_queue_depth * worker_count) as usize
            } else {
                usize::MAX
            },
        ),
{
    lemma_matched_tier(tiers, missing, i);
}

proof fn lemma_matched_tier(
    tiers: Seq<RouterQueueDepthByMissingIslTier>,
    missing: usize,
    i: int,
)
    requires
        forall|j: int, k: int|
            0 <= j < k < tiers.len() ==> (#[trigger] tiers[j]).missing_cache_tokens_floor < (
            #[trigger] tiers[k]).missing_cache_tokens_floor,
        0 <= i < tiers.len(),
        tiers[i].missing_cache_tokens_floor <= missing,
        forall|j: int|
            0 <= j < tiers.len() && (#[trigger] tiers[j]).missing_cache_tokens_floor <= missing
                ==> tiers[j].missing_cache_tokens_floor <= tiers[i].missing_cache_tokens_floor,
    ensures
        matched_tier(tiers, missing) == Some(tiers[i]),
    decreases tiers.len(),
{
    let last = tiers.len() - 1;
    if i < last {
        assert(tiers[i].missing_cache_tokens_floor < tiers[last].missing_cache_tokens_floor);
        let fewer = tiers.drop_last();
        assert forall|j: int, k: int| 0 <= j < k < fewer.len() implies (
        #[trigger] fewer[j]).missing_cache_tokens_floor < (
        #[trigger] fewer[k]).missing_cache_tokens_floor by {
            assert(tiers[j].missing_cache_tokens_floor < tiers[k].missing_cache_tokens_floor);
        }
        assert forall|j: int|
            0 <= j < fewer.len() && (#[trigger] fewer[j]).missing_cache_tokens_floor
                <= missing implies fewer[j].missing_cache_tokens_floor
            <= fewer[i].missing_cache_tokens_floor by {
            assert(tiers[j].missing_cache_tokens_floor <= tiers[i].missing_cache_tokens_floor);
        }
        lemma_matched_tier(fewer, missing, i);
    }
}

/// Without tiers, and below the lowest floor, queues have no cap.
pub proof fn no_floor_reached_no_cap(
    tiers: Seq<RouterQueueDepthByMissingIslTier>,
    missing: usize,
    worker_count: usize,
)
    requires
        forall|j: int|
            0 <= j < tiers.len() ==> (#[trigger] tiers[j]).missing_cache_tokens_floor > missing,
    ensures
        tier_cap(tiers, missing, worker_count) is None,
    decreases tiers.len(),
{
    if tiers.len() > 0 {
        let fewer = tiers.drop_last();
        assert(tiers[tiers.len() - 1].missing_cache_tokens_floor > missing);
        assert forall|j: int| 0 <= j < fewer.len() implies (
        #[trigger] fewer[j]).missing_cache_tokens_floor > missing by {
            assert(tiers[j].missing_cache_tokens_floor > missing);
        }
        no_floor_reached_no_cap(fewer, missing, worker_count);
    }
}

/// A configuration is accepted exactly where every setting is in its range and no two
/// settings contradict each other. Numbers are told by their bits: those up to and with
/// the bits of one lie between zero and one, and those with the sign bit alone are zero.
pub proof fn accepted_settings_make_sense(c: &KvRouterConfig)
    ensures
        config_violations(c).len() == 0 <==> {
            &&& unit_interval(c.overlap_score_credit) && !not_a_number(c.overlap_score_credit)
            &&& unit_interval(c.host_cache_hit_weight)
            &&& unit_interval(c.disk_cache_hit_weight)
            &&& unit_interval(c.shared_cache_multiplier)
            &&& !below_zero(c.prefill_load_scale)
            &&& !below_zero(c.router_temperature)
            &&& !below_zero(c.router_ttl_secs)
            &&& (c.router_queue_threshold matches Some(v) ==> !below_zero(v))
            &&& (c.router_predicted_ttl_secs matches Some(v) ==> !below_zero(v))
            &&& c.router_snapshot_threshold != Some(0u32)
            &&& c.router_event_threads >= 1
            &&& c.durable_kv_events ==> c.use_kv_events
            &&& c.router_track_output_blocks ==> c.router_track_active_blocks
            &&& c.router_prefill_load_model != RouterPrefillLoadModel::Disabled
                ==> c.router_track_prefill_tokens && c.router_queue_policy
                == RouterQueuePolicy::Fcfs
            &&& !(c.use_remote_indexer && c.serve_indexer)
            &&& c.serve_indexer ==> c.overlap_score_credit.0 != 0 && c.overlap_score_credit.0
                != 0x8000_0000_0000_0000
            &&& c.router_predicted_ttl_secs is Some ==> c.use_kv_events
        },
{
}

/// Whether bits are those of no number.
pub open spec fn not_a_number(value: F64Bits) -> bool {
    ||| 0x7ff0_0000_0000_0000 < value.0 < 0x8000_0000_0000_0000
    ||| 0xfff0_0000_0000_0000 < value.0
}

/// Whether bits are those of a number below zero.
pub open spec fn below_zero(value: F64Bits) -> bool {
    0x8000_0000_0000_0000 < value.0 <= 0xfff0_0000_0000_0000
}

/// Whether bits are those of no number outside the range from zero to one.
pub open spec fn unit_interval(value: F64Bits) -> bool {
    !below_zero(value) && !(0x3ff0_0000_0000_0000 < value.0 <= 0x7ff0_0000_0000_0000)
}

/// An override is accepted exactly where each setting that it gives is in its range.
pub proof fn accepted_overrides_make_sense(c: RouterConfigOverride)
    ensures
        override_violations(c).len() == 0 <==> {
            &&& (c.prefill_load_scale matches Some(v) ==> !below_zero(v))
            &&& (c.router_temperature matches Some(v) ==> !below_zero(v))
            &&& (c.shared_cache_multiplier matches Some(v) ==> unit_interval(v))
            &&& (c.overlap_score_credit matches Some(v) ==> unit_interval(v) && !not_a_number(v))
        },
{
}

/// Of the settings with a name the last counts.
pub proof fn last_setting_of_a_name_counts(settings: Seq<EnvSetting>, key: Seq<char>, last: int)
    requires
        -1 <= last < settings.len(),
        last >= 0 ==> settings[last].key@ == key,
        forall|i: int| last < i < settings.len() ==> (#[trigger] settings[i]).key@ != key,
    ensures
        setting_of(settings, key) == if last >= 0 {
            Some(settings[last])
        } else {
            None
        },
    decreases settings.len(),
{
    if settings.len() > 0 && last < settings.len() - 1 {
        assert(settings[settings.len() - 1] == settings.last());
        let init = settings.drop_last();
        assert forall|i: int| last < i < init.len() implies (#[trigger] init[i]).key@ != key by {
            assert(init[i] == settings[i]);
        }
        if last >= 0 {
            assert(init[last] == settings[last]);
        }
        last_setting_of_a_name_counts(init, key, last);
    }
}

/// The words that switch on and those that switch off; capitals make no difference, and
/// any other word switches nothing.
pub proof fn switches_know_their_words(text: Seq<char>)
    requires
        forall|i: int| 0 <= i < text.len() ==> !('A' <= #[trigger] text[i] && text[i] <= 'Z'),
    ensures
        text == "true"@ || text == "1"@ || text == "yes"@ || text == "on"@ ==> bool_of(text)
            == Some(true),
        text == "false"@ || text == "0"@ || text == "no"@ || text == "off"@ ==> bool_of(text)
            == Some(false),
        bool_of(text) is Some ==> text == "true"@ || text == "1"@ || text == "yes"@ || text
            == "on"@ || text == "false"@ || text == "0"@ || text == "no"@ || text == "off"@,
{
    reveal_strlit("true");
    reveal_strlit("1");
    reveal_strlit("yes");
    reveal_strlit("on");
    reveal_strlit("false");
    reveal_strlit("0");
    reveal_strlit("no");
    reveal_strlit("off");
    assert("true"@.len() == 4 && "1"@.len() == 1 && "yes"@.len() == 3 && "on"@.len() == 2);
    assert("false"@.len() == 5 && "0"@.len() == 1 && "no"@.len() == 2 && "off"@.len() == 3);
    assert("1"@[0] == '1' && "0"@[0] == '0' && "on"@[0] == 'o' && "no"@[0] == 'n');
    assert("yes"@[0] == 'y' && "off"@[0] == 'o');
    lemma_same_lower_word(text, "true"@);
    lemma_same_lower_word(text, "1"@);
    lemma_same_lower_word(text, "yes"@);
    lemma_same_lower_word(text, "on"@);
    lemma_same_lower_word(text, "false"@);
    lemma_same_lower_word(text, "0"@);
    lemma_same_lower_word(text, "no"@);
    lemma_same_lower_word(text, "off"@);
}

proof fn lemma_same_lower_word(text: Seq<char>, word: Seq<char>)
    requires
        forall|i: int| 0 <= i < text.len() ==> !('A' <= #[trigger] text[i] && text[i] <= 'Z'),
    ensures
        same_word(text, word) <==> text == word,
{
    if same_word(text, word) {
        assert forall|i: int| 0 <= i < text.len() implies text[i] == word[i] by {
            assert(lower_code(text[i]) == word[i] as int);
        }
        assert(text =~= word);
    }
}

/// A weight of the overlap scales the prefill load; one of zero takes the credit for the
/// overlap away, and any other leaves it.
pub proof fn weights_scale_the_prefill_load(config: KvRouterConfig, weight: F64Bits)
    ensures
        with_weight(config, None) == config,
        with_weight(config, Some(weight)).prefill_load_scale == weight,
        weight.spec_is_zero() ==> with_weight(config, Some(weight)).overlap_score_credit
            == F64Bits(0),
        !weight.spec_is_zero() ==> with_weight(config, Some(weight)).overlap_score_credit
            == config.overlap_score_credit,
{
}

/// A weight that a request asks for scales its prefill load; one of zero takes the credit
/// for the overlap away, and any other leaves what the request says of it.
pub proof fn asked_weights_scale_the_prefill_load(config: RouterConfigOverride, weight: F64Bits)
    ensures
        with_weight_option(config, None) == config,
        with_weight_option(config, Some(weight)).prefill_load_scale == Some(weight),
        weight.spec_is_zero() ==> with_weight_option(config, Some(weight)).overlap_score_credit
            == Some(F64Bits(0)),
        !weight.spec_is_zero() ==> with_weight_option(config, Some(weight)).overlap_score_credit
            == config.overlap_score_credit,
{
}

/// What a request says of reuse decides; else the settings do.
pub proof fn requests_decide_on_reuse(
    config: KvRouterConfig,
    config_override: Option<RouterConfigOverride>,
)
    ensures
        config_override is None ==> config.spec_assume_kv_reuse(config_override)
            == config.router_assume_kv_reuse,
        config_override is Some && config_override->0.assume_kv_reuse is None
            ==> config.spec_assume_kv_reuse(config_override) == config.router_assume_kv_reuse,
        config_override is Some && config_override->0.assume_kv_reuse is Some
            ==> config.spec_assume_kv_reuse(config_override)
            == config_override->0.assume_kv_reuse->0,
{
}

/// A flag is what its setting says, and its default where there is no setting or one that
/// says neither; a number is that of its setting, and the weight of the overlap goes by
/// its newer name before its older one.
pub proof fn settings_fall_back_to_defaults(
    settings: Seq<EnvSetting>,
    key: Seq<char>,
    default: bool,
)
    ensures
        setting_of(settings, key) is None ==> flag_of(settings, key, default) == default
            && number_of(settings, key) is None,
        setting_of(settings, key) matches Some(setting) ==> {
            &&& number_of(settings, key) == setting.number
            &&& bool_of(setting.text@) is None ==> flag_of(settings, key, default) == default
            &&& bool_of(setting.text@) is Some ==> flag_of(settings, key, default) == bool_of(
                setting.text@,
            )->0
        },
        number_of(settings, "DYN_ROUTER_KV_OVERLAP_SCORE_WEIGHT"@) is Some ==> env_weight(settings)
            == number_of(settings, "DYN_ROUTER_KV_OVERLAP_SCORE_WEIGHT"@),
        number_of(settings, "DYN_ROUTER_KV_OVERLAP_SCORE_WEIGHT"@) is None ==> env_weight(settings)
            == number_of(settings, "DYN_OVERLAP_SCORE_WEIGHT"@),
{
}

} // verus!
