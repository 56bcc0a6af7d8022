//! Hashes of token blocks and of block sequences.

use vstd::bytes::{u32_to_le_bytes, u64_to_le_bytes};
use vstd::prelude::*;

use crate::protocols::{
    extra_info_view, mm_hashes_of, opt_str_view, BlockExtraInfo, LocalBlockHash, MmObjectView,
    SequenceHash,
};

verus! {

/// Seed of every hash of the router.
pub const HASH_SEED: u64 = 1337;

/// First value above every real token id that stands for a multimodal object.
pub const MM_PAD_BASE: u32 = 1_000_000;

/// Number of values that stand for multimodal objects.
pub const MM_PAD_SPAN: u64 = 1_073_741_824;

/// The 64-bit XXH3 hash of some bytes under a seed.
pub uninterp spec fn xxh3_64(bytes: Seq<u8>, seed: u64) -> u64;

/// `xxhash_rust::xxh3::xxh3_64_with_seed`: the hash depends on the bytes and
/// the seed alone.
#[verifier::external_body]
fn hash_bytes(bytes: &[u8], seed: u64) -> (hash: u64)
    ensures
        hash == xxh3_64(bytes@, seed),
{
    xxhash_rust::xxh3::xxh3_64_with_seed(bytes, seed)
}

/// What goes into block hashes besides the tokens.
pub struct BlockHashOptions<'a> {
    pub block_mm_infos: Option<&'a [Option<BlockExtraInfo>]>,
    pub lora_name: Option<&'a str>,
    pub is_eagle: Option<bool>,
}

impl<'a> Default for BlockHashOptions<'a> {
    fn default() -> (r: Self)
        ensures
            r.block_mm_infos is None,
            r.lora_name is None,
            r.is_eagle is None,
    {
        BlockHashOptions { block_mm_infos: None, lora_name: None, is_eagle: None }
    }
}

/// The seed of block hashes: an adapter's name moves it.
pub open spec fn block_seed(lora_name: Option<Seq<char>>) -> u64 {
    match lora_name {
        Some(name) => if name.len() == 0 {
            HASH_SEED
        } else {
            xxh3_64(vstd::utf8::encode_utf8(name), HASH_SEED)
        },
        None => HASH_SEED,
    }
}

/// The bytes of tokens, least significant byte first.
pub open spec fn token_bytes(tokens: Seq<u32>) -> Seq<u8>
    decreases tokens.len(),
{
    if tokens.len() == 0 {
        Seq::empty()
    } else {
        token_bytes(tokens.drop_last()) + vstd::bytes::spec_u32_to_le_bytes(tokens.last())
    }
}

/// The bytes of hashes, least significant byte first.
pub open spec fn hash_list_bytes(hashes: Seq<u64>) -> Seq<u8>
    decreases hashes.len(),
{
    if hashes.len() == 0 {
        Seq::empty()
    } else {
        hash_list_bytes(hashes.drop_last()) + vstd::bytes::spec_u64_to_le_bytes(hashes.last())
    }
}

/// The hash of one block: its tokens, then its multimodal objects.
pub open spec fn block_hash(tokens: Seq<u32>, mm_hashes: Seq<u64>, seed: u64) -> u64 {
    xxh3_64(token_bytes(tokens) + hash_list_bytes(mm_hashes), seed)
}

/// Number of tokens that one block hash covers: an Eagle block looks one token
/// ahead.
pub open spec fn block_window(block_size: nat, is_eagle: Option<bool>) -> nat {
    if is_eagle == Some(true) {
        block_size + 1
    } else {
        block_size
    }
}

/// Number of blocks whose tokens are all there.
pub open spec fn block_count(tokens_len: nat, block_size: nat, is_eagle: Option<bool>) -> nat {
    if block_size == 0 || tokens_len < block_window(block_size, is_eagle) {
        0
    } else {
        ((tokens_len - block_window(block_size, is_eagle)) / block_size as int + 1) as nat
    }
}

/// There are no more blocks than tokens.
pub proof fn lemma_block_count(tokens_len: nat, block_size: nat, is_eagle: Option<bool>)
    ensures
        block_count(tokens_len, block_size, is_eagle) <= tokens_len,
{
    if block_size > 0 && tokens_len >= block_window(block_size, is_eagle) {
        vstd::arithmetic::div_mod::lemma_div_nonincreasing(
            tokens_len - block_window(block_size, is_eagle),
            block_size as int,
        );
    }
}

/// Model of the multimodal objects of each block.
pub open spec fn mm_infos_view(infos: Option<&[Option<BlockExtraInfo>]>) -> Seq<
    Option<Seq<MmObjectView>>,
> {
    match infos {
        Some(infos) => infos@.map_values(|i: Option<BlockExtraInfo>| extra_info_view(i)),
        None => Seq::empty(),
    }
}

/// The multimodal hashes of block `i`.
pub open spec fn mm_hashes_at(infos: Seq<Option<Seq<MmObjectView>>>, i: int) -> Seq<u64> {
    if 0 <= i < infos.len() {
        match infos[i] {
            Some(objects) => mm_hashes_of(objects),
            None => Seq::empty(),
        }
    } else {
        Seq::empty()
    }
}

/// The hash of every full block of a token sequence.
pub open spec fn block_hashes(
    tokens: Seq<u32>,
    block_size: nat,
    infos: Seq<Option<Seq<MmObjectView>>>,
    lora_name: Option<Seq<char>>,
    is_eagle: Option<bool>,
) -> Seq<LocalBlockHash> {
    Seq::new(
        block_count(tokens.len(), block_size, is_eagle),
        |i: int|
            LocalBlockHash(
                block_hash(
                    tokens.subrange(
                        i * block_size as int,
                        i * block_size as int + block_window(block_size, is_eagle) as int,
                    ),
                    mm_hashes_at(infos, i),
                    block_seed(lora_name),
                ),
            ),
    )
}

fn seed_for(lora_name: Option<&str>) -> (seed: u64)
    ensures
        seed == block_seed(opt_str_view(lora_name)),
{
    match lora_name {
        None => HASH_SEED,
        Some(name) => {
            if name.is_empty() {
                HASH_SEED
            } else {
                hash_bytes(name.as_bytes(), HASH_SEED)
            }
        },
    }
}

fn append_bytes(bytes: &mut Vec<u8>, more: &Vec<u8>)
    ensures
        final(bytes)@ == old(bytes)@ + more@,
{
    let ghost start = bytes@;
    for i in 0..more.len()
        invariant
            bytes@ =~= start + more@.take(i as int),
    {
        bytes.push(more[i]);
    }
    assert(bytes@ =~= start + more@);
}

fn append_hash_bytes(bytes: &mut Vec<u8>, hashes: &Vec<u64>)
    ensures
        final(bytes)@ == old(bytes)@ + hash_list_bytes(hashes@),
{
    let ghost start = bytes@;
    for i in 0..hashes.len()
        invariant
            bytes@ =~= start + hash_list_bytes(hashes@.take(i as int)),
    {
        append_bytes(bytes, &u64_to_le_bytes(hashes[i]));
        assert(hashes@.take(i + 1).drop_last() =~= hashes@.take(i as int));
    }
    assert(hashes@.take(hashes@.len() as int) =~= hashes@);
}

/// The hash of the block of tokens in `start..end`.
fn hash_window(tokens: &[u32], start: usize, end: usize, mm_hashes: &Vec<u64>, seed: u64) -> (r:
    LocalBlockHash)
    requires
        start <= end <= tokens@.len(),
    ensures
        r.0 == block_hash(tokens@.subrange(start as int, end as int), mm_hashes@, seed),
{
    let mut bytes: Vec<u8> = Vec::new();
    let ghost window = tokens@.subrange(start as int, end as int);
    let mut i: usize = start;
    while i < end
        invariant
            start <= i <= end <= tokens@.len(),
            window == tokens@.subrange(start as int, end as int),
            bytes@ =~= token_bytes(window.take(i - start)),
        decreases end - i,
    {
        append_bytes(&mut bytes, &u32_to_le_bytes(tokens[i]));
        assert(window.take(i + 1 - start).drop_last() =~= window.take(i - start));
        i += 1;
    }
    assert(window.take(end - start) =~= window);
    append_hash_bytes(&mut bytes, mm_hashes);
    LocalBlockHash(hash_bytes(bytes.as_slice(), seed))
}

/// The multimodal hashes of block `i`.
fn mm_hashes_for(infos: Option<&[Option<BlockExtraInfo>]>, i: usize) -> (hashes: Vec<u64>)
    ensures
        hashes@ == mm_hashes_at(mm_infos_view(infos), i as int),
{
    match infos {
        Some(infos) => {
            if i < infos.len() {
                match &infos[i] {
                    Some(info) => info.mm_hashes(),
                    None => Vec::new(),
                }
            } else {
                Vec::new()
            }
        },
        None => Vec::new(),
    }
}

/// Hashes every full block of a token sequence. A trailing partial block has no
/// hash, and without a block size there are no blocks.
pub fn compute_block_hash_for_seq(
    tokens: &[u32],
    kv_block_size: u32,
    options: BlockHashOptions,
) -> (hashes: Vec<LocalBlockHash>)
    ensures
        hashes@ == block_hashes(
            tokens@,
            kv_block_size as nat,
            mm_infos_view(options.block_mm_infos),
            opt_str_view(options.lora_name),
            options.is_eagle,
        ),
{
    let ghost infos = mm_infos_view(options.block_mm_infos);
    let ghost lora = opt_str_view(options.lora_name);
    let ghost size = kv_block_size as nat;
    let ghost count = block_count(tokens@.len(), size, options.is_eagle);
    let ghost all = block_hashes(tokens@, size, infos, lora, options.is_eagle);
    let mut hashes: Vec<LocalBlockHash> = Vec::new();
    let seed = seed_for(options.lora_name);
    let extra: usize = match options.is_eagle {
        Some(true) => 1,
        _ => 0,
    };
    if kv_block_size == 0 || tokens.len() < extra {
        assert(hashes@ =~= all);
        return hashes;
    }
    // Blocks end at this index at the latest: what an Eagle block looks ahead to
    // is kept back.
    let limit: usize = tokens.len() - extra;
    let mut start: usize = 0;
    let mut i: usize = 0;
    while limit - start >= kv_block_size as usize
        invariant
            kv_block_size > 0,
            size == kv_block_size,
            kv_block_size as usize == kv_block_size,
            start <= limit,
            limit + extra == tokens@.len() <= usize::MAX,
            extra == block_window(size, options.is_eagle) - size,
            infos == mm_infos_view(options.block_mm_infos),
            lora == opt_str_view(options.lora_name),
            seed == block_seed(lora),
            count == block_count(tokens@.len(), size, options.is_eagle),
            all == block_hashes(tokens@, size, infos, lora, options.is_eagle),
            start == i * size,
            hashes@.len() == i,
            i <= count,
            hashes@ =~= all.take(i as int),
        decreases limit - start,
    {
        proof {
            lemma_next_block(limit as int, size as int, i as int);
        }
        let end: usize = start + kv_block_size as usize + extra;
        let mm_hashes = mm_hashes_for(options.block_mm_infos, i);
        hashes.push(hash_window(tokens, start, end, &mm_hashes, seed));
        start += kv_block_size as usize;
        i += 1;
        assert(start == i * size) by (nonlinear_arith)
            requires
                start == (i - 1) * size + size,
        ;
    }
    proof {
        lemma_no_next_block(limit as int, size as int, i as int);
    }
    assert(hashes@ =~= all);
    hashes
}

proof fn lemma_next_block(limit: int, size: int, i: int)
    requires
        size > 0,
        i >= 0,
        limit - i * size >= size,
    ensures
        i < (limit - size) / size + 1,
        i < 0x1_0000_0000_0000_0000 || limit >= 0x1_0000_0000_0000_0000,
{
    assert(i <= (limit - size) / size) by (nonlinear_arith)
        requires
            size > 0,
            i >= 0,
            limit - i * size >= size,
    ;
    assert(i <= i * size) by (nonlinear_arith)
        requires
            size > 0,
            i >= 0,
    ;
}

proof fn lemma_no_next_block(limit: int, size: int, i: int)
    requires
        size > 0,
        i >= 0,
        0 <= limit - i * size < size,
    ensures
        limit >= size ==> i == (limit - size) / size + 1,
        limit < size ==> i == 0,
{
    assert(limit >= size ==> i == (limit - size) / size + 1) by (nonlinear_arith)
        requires
            size > 0,
            i >= 0,
            0 <= limit - i * size < size,
    ;
    assert(limit < size ==> i == 0) by (nonlinear_arith)
        requires
            size > 0,
            i >= 0,
            0 <= limit - i * size < size,
    ;
}

/// The rolling hash of each prefix of a block sequence.
pub open spec fn seq_hashes(hashes: Seq<LocalBlockHash>) -> Seq<u64>
    decreases hashes.len(),
{
    if hashes.len() == 0 {
        Seq::empty()
    } else if hashes.len() == 1 {
        seq![hashes[0].0]
    } else {
        let before = seq_hashes(hashes.drop_last());
        before.push(xxh3_64(hash_list_bytes(seq![before.last(), hashes.last().0]), HASH_SEED))
    }
}

/// There is one rolling hash per block, and a longer sequence keeps those of
/// its prefixes.
pub proof fn seq_hashes_extend(hashes: Seq<LocalBlockHash>, n: int)
    requires
        0 <= n <= hashes.len(),
    ensures
        seq_hashes(hashes).len() == hashes.len(),
        seq_hashes(hashes.take(n)) == seq_hashes(hashes).take(n),
    decreases hashes.len(),
{
    if hashes.len() > 1 {
        seq_hashes_extend(hashes.drop_last(), if n < hashes.len() {
            n
        } else {
            n - 1
        });
    }
    if n < hashes.len() {
        if hashes.len() > 1 {
            assert(hashes.drop_last().take(n) =~= hashes.take(n));
        }
        assert(seq_hashes(hashes.take(n)) =~= seq_hashes(hashes).take(n));
    } else {
        assert(hashes.take(n) =~= hashes);
        assert(seq_hashes(hashes).take(n) =~= seq_hashes(hashes));
    }
}

/// Chains block hashes into sequence hashes.
pub fn compute_seq_hash_for_block(block_hashes: &[LocalBlockHash]) -> (hashes: Vec<SequenceHash>)
    ensures
        hashes@ == seq_hashes(block_hashes@),
        hashes@.len() == block_hashes@.len(),
{
    let mut hashes: Vec<u64> = Vec::new();
    for i in 0..block_hashes.len()
        invariant
            hashes@ == seq_hashes(block_hashes@.take(i as int)),
            hashes@.len() == i,
    {
        assert(block_hashes@.take(i + 1).drop_last() =~= block_hashes@.take(i as int));
        if i == 0 {
            hashes.push(block_hashes[i].0);
            assert(hashes@ =~= seq_hashes(block_hashes@.take(i + 1)));
        } else {
            let mut pair: Vec<u64> = Vec::new();
            pair.push(hashes[i - 1]);
            pair.push(block_hashes[i].0);
            assert(pair@ =~= seq![hashes@.last(), block_hashes@.take(i + 1).last().0]);
            let mut bytes: Vec<u8> = Vec::new();
            append_hash_bytes(&mut bytes, &pair);
            assert(bytes@ =~= hash_list_bytes(pair@));
            hashes.push(hash_bytes(bytes.as_slice(), HASH_SEED));
        }
    }
    assert(block_hashes@.take(block_hashes@.len() as int) =~= block_hashes@);
    hashes
}

/// The token value that stands for a multimodal object.
pub open spec fn pad_value(mm_hash: u64) -> u32 {
    (MM_PAD_BASE + mm_hash % MM_PAD_SPAN) as u32
}

/// The token value that a frontend puts in place of a multimodal object.
pub fn pad_value_for_mm_hash(mm_hash: u64) -> (value: u32)
    ensures
        value == pad_value(mm_hash),
{
    MM_PAD_BASE + (mm_hash % MM_PAD_SPAN) as u32
}

proof fn lemma_fits(tokens_len: int, window: int, size: int, i: int)
    requires
        size > 0,
        i >= 0,
        tokens_len >= window,
    ensures
        i < (tokens_len - window) / size + 1 <==> i * size + window <= tokens_len,
{
    let room = tokens_len - window;
    let q = room / size;
    vstd::arithmetic::div_mod::lemma_fundamental_div_mod(room, size);
    if i <= q {
        assert(i * size <= size * q) by (nonlinear_arith)
            requires
                i <= q,
                size > 0,
        ;
    } else {
        assert(i * size >= size * q + size) by (nonlinear_arith)
            requires
                i >= q + 1,
                size > 0,
        ;
    }
}

/// A sequence has as many block hashes as blocks fit in it, and each block hashes as it
/// does alone, with its own tokens and its own objects: block `i` is the tokens from
/// `i` times the block size on, with one more for Eagle.
pub proof fn blocks_hash_one_by_one(
    tokens: Seq<u32>,
    block_size: nat,
    infos: Seq<Option<Seq<MmObjectView>>>,
    lora_name: Option<Seq<char>>,
    is_eagle: Option<bool>,
    i: int,
)
    requires
        block_size > 0,
        i >= 0,
    ensures
        ({
            let ahead: int = if is_eagle == Some(true) {
                1
            } else {
                0
            };
            let start = i * block_size;
            let all = block_hashes(tokens, block_size, infos, lora_name, is_eagle);
            &&& i < all.len() <==> start + block_size + ahead <= tokens.len()
            &&& i < all.len() ==> {
                let alone = block_hashes(
                    tokens.subrange(start, start + block_size + ahead),
                    block_size,
                    if i < infos.len() {
                        seq![infos[i]]
                    } else {
                        Seq::empty()
                    },
                    lora_name,
                    is_eagle,
                );
                alone.len() == 1 && all[i] == alone[0]
            }
        }),
{
    let window = block_window(block_size, is_eagle) as int;
    let start = i * block_size;
    let all = block_hashes(tokens, block_size, infos, lora_name, is_eagle);
    assert(start >= 0) by (nonlinear_arith)
        requires
            start == i * block_size,
            i >= 0,
            block_size >= 0,
    ;
    if tokens.len() >= window {
        lemma_fits(tokens.len() as int, window, block_size as int, i);
    }
    if i < all.len() {
        let own = tokens.subrange(start, start + window);
        assert(0int / (block_size as int) == 0) by (nonlinear_arith)
            requires
                block_size > 0,
        ;
        assert(block_count(own.len(), block_size, is_eagle) == 1);
        assert(own.subrange(0, window) =~= own);
        assert(0 * (block_size as int) == 0);
    }
}

/// Prompts that begin alike have the same hashes for the blocks that they share.
pub proof fn shared_prefix_shares_hashes(
    a: Seq<u32>,
    b: Seq<u32>,
    block_size: nat,
    infos: Seq<Option<Seq<MmObjectView>>>,
    lora_name: Option<Seq<char>>,
    is_eagle: Option<bool>,
    n: int,
    i: int,
)
    requires
        0 <= n <= a.len(),
        n <= b.len(),
        a.take(n) == b.take(n),
        0 <= i < block_hashes(a.take(n), block_size, infos, lora_name, is_eagle).len(),
    ensures
        i < block_hashes(a, block_size, infos, lora_name, is_eagle).len(),
        i < block_hashes(b, block_size, infos, lora_name, is_eagle).len(),
        block_hashes(a, block_size, infos, lora_name, is_eagle)[i] == block_hashes(
            b,
            block_size,
            infos,
            lora_name,
            is_eagle,
        )[i],
{
    let window = block_window(block_size, is_eagle) as int;
    let start = i * block_size;
    assert(start >= 0) by (nonlinear_arith)
        requires
            start == i * block_size,
            i >= 0,
            block_size >= 0,
    ;
    lemma_fits(n, window, block_size as int, i);
    lemma_fits(a.len() as int, window, block_size as int, i);
    lemma_fits(b.len() as int, window, block_size as int, i);
    let own = a.take(n).subrange(start, start + window);
    assert(a.subrange(start, start + window) =~= own);
    assert(b.subrange(start, start + window) =~= b.take(n).subrange(start, start + window));
}

/// What a block's hash is of: four bytes for each of its tokens in their order, the least
/// significant first, then eight for each of its objects.
pub proof fn token_bytes_go_in_order(tokens: Seq<u32>, i: int)
    requires
        0 <= i < tokens.len(),
    ensures
        token_bytes(tokens).len() == 4 * tokens.len(),
        token_bytes(tokens).subrange(4 * i, 4 * i + 4) == vstd::bytes::spec_u32_to_le_bytes(
            tokens[i],
        ),
    decreases tokens.len(),
{
    lemma_token_bytes_len(tokens);
    lemma_token_bytes_len(tokens.drop_last());
    vstd::bytes::lemma_auto_spec_u32_to_from_le_bytes();
    let last = vstd::bytes::spec_u32_to_le_bytes(tokens.last());
    if i < tokens.len() - 1 {
        token_bytes_go_in_order(tokens.drop_last(), i);
        assert(token_bytes(tokens).subrange(4 * i, 4 * i + 4) =~= token_bytes(
            tokens.drop_last(),
        ).subrange(4 * i, 4 * i + 4));
    } else {
        assert(token_bytes(tokens).subrange(4 * i, 4 * i + 4) =~= last);
    }
}

proof fn lemma_token_bytes_len(tokens: Seq<u32>)
    ensures
        token_bytes(tokens).len() == 4 * tokens.len(),
    decreases tokens.len(),
{
    if tokens.len() > 0 {
        lemma_token_bytes_len(tokens.drop_last());
        vstd::bytes::lemma_auto_spec_u32_to_from_le_bytes();
        assert(vstd::bytes::spec_u32_to_le_bytes(tokens.last()).len() == 4);
    }
}

/// The bytes of hashes go in their order, eight for each, the least significant first.
pub proof fn hash_bytes_go_in_order(hashes: Seq<u64>, i: int)
    requires
        0 <= i < hashes.len(),
    ensures
        hash_list_bytes(hashes).len() == 8 * hashes.len(),
        hash_list_bytes(hashes).subrange(8 * i, 8 * i + 8) == vstd::bytes::spec_u64_to_le_bytes(
            hashes[i],
        ),
    decreases hashes.len(),
{
    lemma_hash_bytes_len(hashes);
    lemma_hash_bytes_len(hashes.drop_last());
    vstd::bytes::lemma_auto_spec_u64_to_from_le_bytes();
    let last = vstd::bytes::spec_u64_to_le_bytes(hashes.last());
    if i < hashes.len() - 1 {
        hash_bytes_go_in_order(hashes.drop_last(), i);
        assert(hash_list_bytes(hashes).subrange(8 * i, 8 * i + 8) =~= hash_list_bytes(
            hashes.drop_last(),
        ).subrange(8 * i, 8 * i + 8));
    } else {
        assert(hash_list_bytes(hashes).subrange(8 * i, 8 * i + 8) =~= last);
    }
}

proof fn lemma_hash_bytes_len(hashes: Seq<u64>)
    ensures
        hash_list_bytes(hashes).len() == 8 * hashes.len(),
    decreases hashes.len(),
{
    if hashes.len() > 0 {
        lemma_hash_bytes_len(hashes.drop_last());
        vstd::bytes::lemma_auto_spec_u64_to_from_le_bytes();
        assert(vstd::bytes::spec_u64_to_le_bytes(hashes.last()).len() == 8);
    }
}

/// The rolling hash of the first block is its local hash, and each later one is the hash
/// of the one before it and its block's own, so that two sequences share rolling hashes
/// as long as they share blocks.
pub proof fn rolling_hashes_chain(hashes: Seq<LocalBlockHash>, i: int)
    requires
        0 <= i < hashes.len(),
    ensures
        seq_hashes(hashes).len() == hashes.len(),
        i == 0 ==> seq_hashes(hashes)[0] == hashes[0].0,
        i > 0 ==> seq_hashes(hashes)[i] == xxh3_64(
            vstd::bytes::spec_u64_to_le_bytes(seq_hashes(hashes)[i - 1])
                + vstd::bytes::spec_u64_to_le_bytes(hashes[i].0),
            HASH_SEED,
        ),
    decreases hashes.len(),
{
    seq_hashes_extend(hashes, hashes.len() as int);
    if hashes.len() > 1 {
        let fewer = hashes.drop_last();
        seq_hashes_extend(fewer, fewer.len() as int);
        if i < fewer.len() {
            rolling_hashes_chain(fewer, i);
        } else {
            let before = seq_hashes(fewer);
            let pair = seq![before.last(), hashes.last().0];
            reveal_with_fuel(hash_list_bytes, 3);
            assert(pair.drop_last() =~= seq![before.last()]);
            assert(pair.drop_last().drop_last() =~= Seq::<u64>::empty());
            assert(hash_list_bytes(pair) =~= vstd::bytes::spec_u64_to_le_bytes(before.last())
                + vstd::bytes::spec_u64_to_le_bytes(hashes.last().0));
        }
    }
}

/// The hash of a block is that of the bytes of its tokens and then of the hashes of its
/// multimodal objects, from a seed that is moved by the adapter's name, if it has one.
pub proof fn block_hashes_are_of_tokens_objects_and_adapter(
    tokens: Seq<u32>,
    block_size: nat,
    infos: Seq<Option<Seq<MmObjectView>>>,
    lora_name: Option<Seq<char>>,
    is_eagle: Option<bool>,
    i: int,
)
    requires
        0 <= i < block_hashes(tokens, block_size, infos, lora_name, is_eagle).len(),
    ensures
        ({
            let start = i * block_size;
            let end = if is_eagle == Some(true) {
                start + block_size + 1
            } else {
                start + block_size
            };
            let objects = if i < infos.len() && infos[i] is Some {
                infos[i]->0.map_values(|o: MmObjectView| o.mm_hash)
            } else {
                Seq::empty()
            };
            let seed = if lora_name is Some && lora_name->0.len() > 0 {
                xxh3_64(vstd::utf8::encode_utf8(lora_name->0), HASH_SEED)
            } else {
                HASH_SEED
            };
            block_hashes(tokens, block_size, infos, lora_name, is_eagle)[i].0 == xxh3_64(
                token_bytes(tokens.subrange(start, end)) + hash_list_bytes(objects),
                seed,
            )
        }),
{
    if i < infos.len() && infos[i] is Some {
        assert(mm_hashes_at(infos, i) =~= infos[i]->0.map_values(|o: MmObjectView| o.mm_hash));
    }
}

} // verus!
