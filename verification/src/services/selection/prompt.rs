//! What a request says of its prompt, and the hashes that follow from it.

use vstd::prelude::*;

use crate::hashing::{
    block_hashes, compute_block_hash_for_seq, compute_seq_hash_for_block, mm_infos_view,
    seq_hashes, BlockHashOptions,
};
use crate::protocols::{
    opt_as_str, opt_string_view, BlockExtraInfo, LocalBlockHash, MmObjectView, SequenceHash,
};
use crate::services::selection::error::SelectionError;

verus! {

/// The tokens that requests with images are routed by.
pub struct MmRoutingInfoRequest {
    pub routing_token_ids: Vec<u32>,
    pub block_mm_infos: Vec<Option<BlockExtraInfo>>,
}

/// What a request says of its prompt: its tokens, or the hashes of its blocks.
pub struct PromptRequest {
    pub token_ids: Option<Vec<u32>>,
    pub mm_routing_info: Option<MmRoutingInfoRequest>,
    pub block_mm_infos: Option<Vec<Option<BlockExtraInfo>>>,
    pub block_hashes: Option<Vec<LocalBlockHash>>,
    pub sequence_hashes: Option<Vec<SequenceHash>>,
    pub isl_tokens: Option<usize>,
    pub lora_name: Option<String>,
    pub is_eagle: Option<bool>,
}

/// The hashes of a prompt.
#[derive(Debug, PartialEq, Eq)]
pub struct NormalizedPrompt {
    pub block_hashes: Vec<LocalBlockHash>,
    pub sequence_hashes: Vec<SequenceHash>,
    pub isl_tokens: usize,
}

/// Why a prompt without tokens and without hashes is turned away.
pub const NO_PROMPT: &'static str =
    "either token_ids or block_hashes with sequence_hashes is required";

/// Why a reservation without tokens and without hashes is turned away.
pub const NO_SEQUENCE: &'static str = "either token_ids or sequence_hashes is required";

/// Why hashes that do not fit together are turned away.
pub const HASH_COUNTS_DIFFER: &'static str =
    "block_hashes and sequence_hashes must have the same length";

/// Why hashes without a number of tokens are turned away.
pub const NO_ISL_TOKENS: &'static str = "isl_tokens is required with hashes";

/// The tokens that a prompt is hashed by, and the images in it.
pub open spec fn routing_tokens(prompt: PromptRequest) -> Option<
    (Seq<u32>, Seq<Option<Seq<MmObjectView>>>),
> {
    match prompt.mm_routing_info {
        Some(info) => Some(
            (
                info.routing_token_ids@,
                info.block_mm_infos@.map_values(
                    |i: Option<BlockExtraInfo>| crate::protocols::extra_info_view(i),
                ),
            ),
        ),
        None => match prompt.token_ids {
            Some(tokens) => Some(
                (
                    tokens@,
                    match prompt.block_mm_infos {
                        Some(infos) => infos@.map_values(
                            |i: Option<BlockExtraInfo>| crate::protocols::extra_info_view(i),
                        ),
                        None => Seq::empty(),
                    },
                ),
            ),
            None => None,
        },
    }
}

/// Whether a prompt is hashed as Eagle models do: as it says, or as its workers do.
pub open spec fn hashed_as_eagle(prompt: PromptRequest, workers_are_eagle: bool) -> bool {
    match prompt.is_eagle {
        Some(eagle) => eagle,
        None => workers_are_eagle,
    }
}

/// Whether hashes are those of a prompt's tokens.
pub open spec fn from_tokens(
    prompt: PromptRequest,
    block_size: u32,
    workers_are_eagle: bool,
    normalized: NormalizedPrompt,
) -> bool {
    let tokens = routing_tokens(prompt);
    let blocks = block_hashes(
        (tokens->0).0,
        block_size as nat,
        (tokens->0).1,
        opt_string_view(prompt.lora_name),
        Some(hashed_as_eagle(prompt, workers_are_eagle)),
    );
    &&& tokens is Some
    &&& normalized.block_hashes@ == blocks
    &&& normalized.sequence_hashes@ == seq_hashes(blocks)
    &&& normalized.isl_tokens == (tokens->0).0.len()
}

/// Why the hashes of a prompt without tokens cannot be used for a selection, if
/// they cannot.
pub open spec fn hash_complaint(prompt: PromptRequest) -> Option<Seq<char>> {
    if prompt.block_hashes is None || prompt.sequence_hashes is None {
        Some(NO_PROMPT@)
    } else if prompt.block_hashes->0@.len() != prompt.sequence_hashes->0@.len() {
        Some(HASH_COUNTS_DIFFER@)
    } else if prompt.isl_tokens is None {
        Some(NO_ISL_TOKENS@)
    } else {
        None
    }
}

/// Why the hashes of a prompt without tokens cannot be used for a reservation, if
/// they cannot. The hashes of its blocks are not looked at.
pub open spec fn sequence_complaint(prompt: PromptRequest) -> Option<Seq<char>> {
    if prompt.sequence_hashes is None {
        Some(NO_SEQUENCE@)
    } else if prompt.isl_tokens is None {
        Some(NO_ISL_TOKENS@)
    } else {
        None
    }
}

fn copy_blocks(hashes: &Vec<LocalBlockHash>) -> (copy: Vec<LocalBlockHash>)
    ensures
        copy@ == hashes@,
{
    let mut copy: Vec<LocalBlockHash> = Vec::new();
    for i in 0..hashes.len()
        invariant
            copy@ == hashes@.take(i as int),
    {
        copy.push(hashes[i]);
        assert(copy@ =~= hashes@.take(i + 1));
    }
    assert(hashes@.take(hashes@.len() as int) =~= hashes@);
    copy
}

fn copy_sequence(hashes: &Vec<SequenceHash>) -> (copy: Vec<SequenceHash>)
    ensures
        copy@ == hashes@,
{
    let mut copy: Vec<SequenceHash> = Vec::new();
    for i in 0..hashes.len()
        invariant
            copy@ == hashes@.take(i as int),
    {
        copy.push(hashes[i]);
        assert(copy@ =~= hashes@.take(i + 1));
    }
    assert(hashes@.take(hashes@.len() as int) =~= hashes@);
    copy
}

impl PromptRequest {
    /// The hashes of the prompt's tokens, where it has any.
    fn hash_tokens(&self, block_size: u32, workers_are_eagle: bool) -> (r: Option<NormalizedPrompt>)
        ensures
            r is Some <==> routing_tokens(*self) is Some,
            r matches Some(n) ==> from_tokens(*self, block_size, workers_are_eagle, n),
    {
        let is_eagle = match self.is_eagle {
            Some(eagle) => eagle,
            None => workers_are_eagle,
        };
        let lora_name = opt_as_str(&self.lora_name);
        let (tokens, infos) = match &self.mm_routing_info {
            Some(info) => (&info.routing_token_ids, Some(info.block_mm_infos.as_slice())),
            None => match &self.token_ids {
                Some(tokens) => (tokens, match &self.block_mm_infos {
                    Some(infos) => Some(infos.as_slice()),
                    None => None,
                }),
                None => {
                    return None;
                },
            },
        };
        let options = BlockHashOptions { block_mm_infos: infos, lora_name, is_eagle: Some(is_eagle) };
        let block_hashes = compute_block_hash_for_seq(tokens.as_slice(), block_size, options);
        assert(mm_infos_view(infos) =~= (routing_tokens(*self)->0).1);
        let sequence_hashes = compute_seq_hash_for_block(block_hashes.as_slice());
        Some(NormalizedPrompt { block_hashes, sequence_hashes, isl_tokens: tokens.len() })
    }

    /// The hashes by which a worker is selected: those of the tokens, or those that
    /// the request names.
    pub fn normalize_for_selection(&self, block_size: u32, workers_are_eagle: bool) -> (r: Result<
        NormalizedPrompt,
        SelectionError,
    >)
        ensures
            routing_tokens(*self) is Some ==> (r matches Ok(n) && from_tokens(
                *self,
                block_size,
                workers_are_eagle,
                n,
            )),
            routing_tokens(*self) is None ==> match hash_complaint(*self) {
                None => r matches Ok(n) && n.block_hashes@ == self.block_hashes->0@
                    && n.sequence_hashes@ == self.sequence_hashes->0@ && n.isl_tokens
                    == self.isl_tokens->0,
                Some(why) => r matches Err(SelectionError::BadRequest(text)) && text@ == why,
            },
    {
        if let Some(normalized) = self.hash_tokens(block_size, workers_are_eagle) {
            return Ok(normalized);
        }
        match (&self.block_hashes, &self.sequence_hashes) {
            (Some(blocks), Some(sequence)) => {
                if blocks.len() != sequence.len() {
                    return Err(SelectionError::BadRequest(HASH_COUNTS_DIFFER.to_owned()));
                }
                match self.isl_tokens {
                    Some(isl_tokens) => Ok(
                        NormalizedPrompt {
                            block_hashes: copy_blocks(blocks),
                            sequence_hashes: copy_sequence(sequence),
                            isl_tokens,
                        },
                    ),
                    None => Err(SelectionError::BadRequest(NO_ISL_TOKENS.to_owned())),
                }
            },
            _ => Err(SelectionError::BadRequest(NO_PROMPT.to_owned())),
        }
    }

    /// The hashes that a reservation books: those of the tokens, or those that the
    /// request names.
    pub fn normalize_for_reservation(&self, block_size: u32, workers_are_eagle: bool) -> (r: Result<
        NormalizedPrompt,
        SelectionError,
    >)
        ensures
            routing_tokens(*self) is Some ==> (r matches Ok(n) && from_tokens(
                *self,
                block_size,
                workers_are_eagle,
                n,
            )),
            routing_tokens(*self) is None ==> match sequence_complaint(*self) {
                None => r matches Ok(n) && n.block_hashes@ == Seq::<LocalBlockHash>::empty()
                    && n.sequence_hashes@ == self.sequence_hashes->0@ && n.isl_tokens
                    == self.isl_tokens->0,
                Some(why) => r matches Err(SelectionError::BadRequest(text)) && text@ == why,
            },
    {
        if let Some(normalized) = self.hash_tokens(block_size, workers_are_eagle) {
            return Ok(normalized);
        }
        match &self.sequence_hashes {
            Some(sequence) => match self.isl_tokens {
                Some(isl_tokens) => Ok(
                    NormalizedPrompt {
                        block_hashes: Vec::new(),
                        sequence_hashes: copy_sequence(sequence),
                        isl_tokens,
                    },
                ),
                None => Err(SelectionError::BadRequest(NO_ISL_TOKENS.to_owned())),
            },
            None => Err(SelectionError::BadRequest(NO_SEQUENCE.to_owned())),
        }
    }
}

/// Tokens for routing stand for a prompt before its own tokens, and either before hashes:
/// the prompt is as long as the tokens that stand for it, and has their hashes.
pub proof fn tokens_stand_for_prompts(
    prompt: PromptRequest,
    block_size: u32,
    workers_are_eagle: bool,
    normalized: NormalizedPrompt,
)
    requires
        prompt.mm_routing_info is Some || prompt.token_ids is Some,
    ensures
        routing_tokens(prompt) is Some,
        from_tokens(prompt, block_size, workers_are_eagle, normalized) ==> ({
            let tokens = if prompt.mm_routing_info is Some {
                prompt.mm_routing_info->0.routing_token_ids@
            } else {
                prompt.token_ids->0@
            };
            let infos = if prompt.mm_routing_info is Some {
                prompt.mm_routing_info->0.block_mm_infos@.map_values(
                    |i: Option<BlockExtraInfo>| crate::protocols::extra_info_view(i),
                )
            } else if prompt.block_mm_infos is Some {
                prompt.block_mm_infos->0@.map_values(
                    |i: Option<BlockExtraInfo>| crate::protocols::extra_info_view(i),
                )
            } else {
                Seq::empty()
            };
            let eagle = if prompt.is_eagle is Some {
                prompt.is_eagle->0
            } else {
                workers_are_eagle
            };
            &&& normalized.isl_tokens == tokens.len()
            &&& normalized.block_hashes@ == block_hashes(
                tokens,
                block_size as nat,
                infos,
                opt_string_view(prompt.lora_name),
                Some(eagle),
            )
            &&& normalized.sequence_hashes@ == seq_hashes(normalized.block_hashes@)
        }),
{
}

/// A prompt without tokens needs its hashes and its length: for a selection both kinds of
/// hashes, one of each for every block; for a reservation those of its sequence.
pub proof fn hashes_stand_for_prompts_without_tokens(prompt: PromptRequest)
    requires
        prompt.mm_routing_info is None,
        prompt.token_ids is None,
    ensures
        routing_tokens(prompt) is None,
        hash_complaint(prompt) is None <==> prompt.block_hashes is Some
            && prompt.sequence_hashes is Some && prompt.isl_tokens is Some
            && prompt.block_hashes->0@.len() == prompt.sequence_hashes->0@.len(),
        sequence_complaint(prompt) is None <==> prompt.sequence_hashes is Some
            && prompt.isl_tokens is Some,
{
}

} // verus!
