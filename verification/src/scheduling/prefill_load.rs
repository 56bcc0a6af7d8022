//! The prefill work that a request brings.

use vstd::prelude::*;
use vstd::string::StringExecFns;

use crate::protocols::PrefillLoadHint;
use crate::text::{append_decimal, decimal};

verus! {

/// Predicts how long a prefill takes.
pub trait PrefillLoadEstimator {
    /// The predicted duration in microseconds, or why there is no prediction.
    fn predict_prefill_duration(
        &self,
        batch_size: usize,
        effective_isl: usize,
        prefix: usize,
    ) -> Result<u64, String>;
}

/// Prefill tokens left to compute once the credited cache is taken off.
pub fn effective_prefill_tokens(isl_tokens: usize, weighted_cached_tokens: usize) -> (left: usize)
    ensures
        left == if weighted_cached_tokens <= isl_tokens {
            isl_tokens - weighted_cached_tokens
        } else {
            0
        },
{
    isl_tokens.saturating_sub(weighted_cached_tokens)
}

/// More prefill tokens were claimed than the request has.
#[derive(Clone, Copy, Debug, PartialEq, Eq, Structural)]
pub struct InvalidEffectivePrefillTokens {
    pub effective_prefill_tokens: usize,
    pub isl_tokens: usize,
}

impl InvalidEffectivePrefillTokens {
    /// The error in words.
    pub fn message(&self) -> (text: String)
        ensures
            text@ == "effective_prefill_tokens ("@ + decimal(self.effective_prefill_tokens as nat)
                + ") must not exceed isl_tokens ("@ + decimal(self.isl_tokens as nat) + ")"@,
    {
        let mut text = "effective_prefill_tokens (".to_owned();
        append_decimal(&mut text, self.effective_prefill_tokens as u64);
        text.append(") must not exceed isl_tokens (");
        append_decimal(&mut text, self.isl_tokens as u64);
        text.append(")");
        text
    }
}

/// A hint with a given number of prefill tokens, which must not be more than the
/// request has.
pub fn prefill_load_hint_from_effective_tokens(
    isl_tokens: usize,
    effective_prefill_tokens: usize,
) -> (hint: Result<PrefillLoadHint, InvalidEffectivePrefillTokens>)
    ensures
        hint is Ok <==> effective_prefill_tokens <= isl_tokens,
        hint matches Ok(h) ==> h.initial_effective_prefill_tokens == effective_prefill_tokens
            && h.expected_prefill_duration is None,
        hint matches Err(e) ==> e == (InvalidEffectivePrefillTokens {
            effective_prefill_tokens,
            isl_tokens,
        }),
{
    if effective_prefill_tokens > isl_tokens {
        return Err(InvalidEffectivePrefillTokens { effective_prefill_tokens, isl_tokens });
    }
    Ok(
        PrefillLoadHint {
            initial_effective_prefill_tokens: effective_prefill_tokens,
            expected_prefill_duration: None,
        },
    )
}

} // verus!
