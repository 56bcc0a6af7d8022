//! Queue policies and the classes of a policy profile.

use vstd::prelude::*;

use crate::scheduling::config::{F64Bits, RouterQueuePolicy};
use crate::text::str_eq;

verus! {

/// One class of a policy profile.
#[derive(Debug, PartialEq, Eq)]
pub struct PolicyClassConfig {
    pub name: String,
    /// What a request names to be of the class.
    pub policy_family: String,
    /// The bucket of uncached tokens that the class is for.
    pub cache_bucket: String,
    pub queue_policy: RouterQueuePolicy,
    /// Credit in tokens that the class is granted per round.
    pub quantum: usize,
    /// With which part of their batch of tokens active workers are busy to the class.
    pub prefill_busy_threshold: Option<F64Bits>,
    pub request_queue_limit_per_worker: Option<usize>,
    pub raw_isl_token_queue_limit_per_worker: Option<usize>,
    pub cached_token_queue_limit_per_worker: Option<usize>,
}

/// Requests with at least so many uncached tokens are of a bucket.
#[derive(Debug, PartialEq, Eq)]
pub struct UncachedIslBucket {
    pub min_tokens: usize,
    pub bucket: String,
}

/// How requests are sorted into classes.
#[derive(Debug, PartialEq, Eq)]
pub struct ClassRules {
    /// The family of requests that name none.
    pub default_policy_family: String,
    /// In ascending order of their tokens.
    pub uncached_isl_buckets: Vec<UncachedIslBucket>,
}

/// The classes that requests are sorted into.
#[derive(Debug, PartialEq, Eq)]
pub struct PolicyProfile {
    pub classes: Vec<PolicyClassConfig>,
    pub rules: ClassRules,
}

/// The bucket of a request: the last whose tokens it reaches.
pub open spec fn bucket_for(buckets: Seq<UncachedIslBucket>, uncached_tokens: usize) -> Option<
    Seq<char>,
>
    decreases buckets.len(),
{
    if buckets.len() == 0 {
        None
    } else if buckets.last().min_tokens <= uncached_tokens {
        Some(buckets.last().bucket@)
    } else {
        bucket_for(buckets.drop_last(), uncached_tokens)
    }
}

/// Whether a class is for a family and a bucket.
pub open spec fn is_for(
    class: PolicyClassConfig,
    family: Seq<char>,
    bucket: Option<Seq<char>>,
) -> bool {
    class.policy_family@ == family && bucket == Some(class.cache_bucket@)
}

/// Whether some class is for a family and a bucket.
pub open spec fn some_is_for(
    classes: Seq<PolicyClassConfig>,
    family: Seq<char>,
    bucket: Option<Seq<char>>,
) -> bool {
    exists|c: int| 0 <= c < classes.len() && is_for(#[trigger] classes[c], family, bucket)
}

/// Whether a class is the first for a family and a bucket.
pub open spec fn first_for(
    classes: Seq<PolicyClassConfig>,
    family: Seq<char>,
    bucket: Option<Seq<char>>,
    c: int,
) -> bool {
    &&& 0 <= c < classes.len()
    &&& is_for(classes[c], family, bucket)
    &&& forall|d: int| 0 <= d < c ==> !is_for(#[trigger] classes[d], family, bucket)
}

/// Whether a class is that of a request: the first of the family that it names and of
/// its bucket; where there is none, the first of the default family and its bucket; and
/// where there is none either, the first of all.
pub open spec fn class_of(
    classes: Seq<PolicyClassConfig>,
    rules: ClassRules,
    policy_class: Option<Seq<char>>,
    uncached_tokens: usize,
    c: int,
) -> bool {
    let bucket = bucket_for(rules.uncached_isl_buckets@, uncached_tokens);
    if policy_class is Some && some_is_for(classes, policy_class->0, bucket) {
        first_for(classes, policy_class->0, bucket, c)
    } else if some_is_for(classes, rules.default_policy_family@, bucket) {
        first_for(classes, rules.default_policy_family@, bucket, c)
    } else {
        c == 0
    }
}

/// A request is of one class.
pub proof fn class_is_unique(
    classes: Seq<PolicyClassConfig>,
    rules: ClassRules,
    policy_class: Option<Seq<char>>,
    uncached_tokens: usize,
    a: int,
    b: int,
)
    requires
        class_of(classes, rules, policy_class, uncached_tokens, a),
        class_of(classes, rules, policy_class, uncached_tokens, b),
    ensures
        a == b,
{
    let bucket = bucket_for(rules.uncached_isl_buckets@, uncached_tokens);
    if policy_class is Some && some_is_for(classes, policy_class->0, bucket) {
        if a < b {
            assert(!is_for(classes[a], policy_class->0, bucket));
        } else if b < a {
            assert(!is_for(classes[b], policy_class->0, bucket));
        }
    } else if some_is_for(classes, rules.default_policy_family@, bucket) {
        if a < b {
            assert(!is_for(classes[a], rules.default_policy_family@, bucket));
        } else if b < a {
            assert(!is_for(classes[b], rules.default_policy_family@, bucket));
        }
    }
}

impl ClassRules {
    /// The bucket of a request: the last whose tokens it reaches.
    pub fn bucket(&self, uncached_tokens: usize) -> (bucket: Option<&str>)
        ensures
            bucket is Some <==> bucket_for(self.uncached_isl_buckets@, uncached_tokens) is Some,
            bucket matches Some(b) ==> Some(b@) == bucket_for(
                self.uncached_isl_buckets@,
                uncached_tokens,
            ),
    {
        let mut left = self.uncached_isl_buckets.len();
        assert(self.uncached_isl_buckets@.take(left as int) =~= self.uncached_isl_buckets@);
        while left > 0
            invariant
                left <= self.uncached_isl_buckets@.len(),
                bucket_for(self.uncached_isl_buckets@, uncached_tokens) == bucket_for(
                    self.uncached_isl_buckets@.take(left as int),
                    uncached_tokens,
                ),
            decreases left,
        {
            proof {
                let so_far = self.uncached_isl_buckets@.take(left as int);
                assert(so_far.last() == self.uncached_isl_buckets@[left - 1]);
                assert(so_far.drop_last() =~= self.uncached_isl_buckets@.take(left - 1));
            }
            if self.uncached_isl_buckets[left - 1].min_tokens <= uncached_tokens {
                return Some(self.uncached_isl_buckets[left - 1].bucket.as_str());
            }
            left -= 1;
        }
        None
    }
}

impl PolicyClassConfig {
    /// Whether the class is for a family and a bucket.
    pub fn takes(&self, family: &str, bucket: Option<&str>) -> (r: bool)
        ensures
            r == is_for(
                *self,
                family@,
                match bucket {
                    Some(b) => Some(b@),
                    None => None,
                },
            ),
    {
        match bucket {
            Some(bucket) => str_eq(self.policy_family.as_str(), family) && str_eq(
                self.cache_bucket.as_str(),
                bucket,
            ),
            None => false,
        }
    }
}

impl PolicyProfile {
    /// Whether every class makes progress: no quantum is zero.
    pub open spec fn valid(&self) -> bool {
        forall|i: int| 0 <= i < self.classes@.len() ==> (#[trigger] self.classes@[i]).quantum > 0
    }

    /// Whether every class makes progress: no quantum is zero.
    pub fn is_valid(&self) -> (r: bool)
        ensures
            r == self.valid(),
    {
        for i in 0..self.classes.len()
            invariant
                forall|j: int| 0 <= j < i ==> (#[trigger] self.classes@[j]).quantum > 0,
        {
            if self.classes[i].quantum == 0 {
                return false;
            }
        }
        true
    }

    /// The profile of a router without policy classes: one class for all requests, in
    /// the order of the router's own policy and without limits.
    pub fn unclassified(
        queue_policy: RouterQueuePolicy,
        prefill_busy_threshold: Option<F64Bits>,
    ) -> (profile: Self)
        ensures
            profile.valid(),
            profile.classes@.len() == 1,
            profile.classes@[0].queue_policy == queue_policy,
            profile.classes@[0].prefill_busy_threshold == prefill_busy_threshold,
            profile.classes@[0].request_queue_limit_per_worker is None,
            profile.classes@[0].raw_isl_token_queue_limit_per_worker is None,
            profile.classes@[0].cached_token_queue_limit_per_worker is None,
    {
        let mut classes: Vec<PolicyClassConfig> = Vec::new();
        classes.push(
            PolicyClassConfig {
                name: "default".to_owned(),
                policy_family: "default".to_owned(),
                cache_bucket: "all".to_owned(),
                queue_policy,
                quantum: 1,
                prefill_busy_threshold,
                request_queue_limit_per_worker: None,
                raw_isl_token_queue_limit_per_worker: None,
                cached_token_queue_limit_per_worker: None,
            },
        );
        PolicyProfile {
            classes,
            rules: ClassRules {
                default_policy_family: "default".to_owned(),
                uncached_isl_buckets: Vec::new(),
            },
        }
    }
}

/// A request is in the last bucket whose tokens it reaches, and in none if it reaches
/// none.
pub proof fn last_bucket_reached_counts(
    buckets: Seq<UncachedIslBucket>,
    uncached_tokens: usize,
    last: int,
)
    requires
        -1 <= last < buckets.len(),
        last >= 0 ==> buckets[last].min_tokens <= uncached_tokens,
        forall|i: int|
            last < i < buckets.len() ==> uncached_tokens < (#[trigger] buckets[i]).min_tokens,
    ensures
        bucket_for(buckets, uncached_tokens) == if last >= 0 {
            Some(buckets[last].bucket@)
        } else {
            None
        },
    decreases buckets.len(),
{
    if buckets.len() > 0 && last < buckets.len() - 1 {
        assert(buckets[buckets.len() - 1] == buckets.last());
        let init = buckets.drop_last();
        assert forall|i: int| last < i < init.len() implies uncached_tokens < (
        #[trigger] init[i]).min_tokens by {
            assert(init[i] == buckets[i]);
        }
        if last >= 0 {
            assert(init[last] == buckets[last]);
        }
        last_bucket_reached_counts(init, uncached_tokens, last);
    }
}

/// A request goes to a class of the family that it names, where one is for its bucket;
/// else to one of the default family, where one is for its bucket; else to the first. No
/// earlier class would have done.
pub proof fn requests_go_to_their_class(
    classes: Seq<PolicyClassConfig>,
    rules: ClassRules,
    policy_class: Option<Seq<char>>,
    uncached_tokens: usize,
    c: int,
    other: int,
)
    requires
        class_of(classes, rules, policy_class, uncached_tokens, c),
        0 <= other < classes.len(),
    ensures
        ({
            let bucket = bucket_for(rules.uncached_isl_buckets@, uncached_tokens);
            let fits = Some(classes[other].cache_bucket@) == bucket;
            &&& fits && Some(classes[other].policy_family@) == policy_class ==> {
                &&& c <= other
                &&& Some(classes[c].policy_family@) == policy_class
                &&& Some(classes[c].cache_bucket@) == bucket
            }
            &&& fits && classes[other].policy_family@ == rules.default_policy_family@ ==> {
                &&& Some(classes[c].cache_bucket@) == bucket
                &&& Some(classes[c].policy_family@) == policy_class
                    || classes[c].policy_family@ == rules.default_policy_family@ && c <= other
            }
            &&& c == 0 || Some(classes[c].cache_bucket@) == bucket
        }),
{
    let bucket = bucket_for(rules.uncached_isl_buckets@, uncached_tokens);
    if policy_class is Some {
        assert(is_for(classes[other], policy_class->0, bucket) ==> some_is_for(
            classes,
            policy_class->0,
            bucket,
        ));
    }
    assert(is_for(classes[other], rules.default_policy_family@, bucket) ==> some_is_for(
        classes,
        rules.default_policy_family@,
        bucket,
    ));
}

} // verus!
