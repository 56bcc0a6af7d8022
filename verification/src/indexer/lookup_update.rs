//! Updates of the maps from block hashes to tree nodes.

use vstd::prelude::*;

use crate::collections::{fx_get, fx_insert, FxMap};
use crate::protocols::ExternalSequenceBlockHash;

verus! {

/// Number of leading keys whose entry changes when all of them are pointed at
/// `node` in order.
pub open spec fn changed_keys(
    lookup: Map<u64, usize>,
    keys: Seq<ExternalSequenceBlockHash>,
    node: usize,
) -> nat
    decreases keys.len(),
{
    if keys.len() == 0 {
        0
    } else {
        let before = pointed(lookup, keys.drop_last(), node);
        let key = keys.last().0;
        changed_keys(lookup, keys.drop_last(), node) + if before.dom().contains(key)
            && before[key] == node {
            0nat
        } else {
            1
        }
    }
}

/// A lookup with every key pointed at `node`.
pub open spec fn pointed(
    lookup: Map<u64, usize>,
    keys: Seq<ExternalSequenceBlockHash>,
    node: usize,
) -> Map<u64, usize>
    decreases keys.len(),
{
    if keys.len() == 0 {
        lookup
    } else {
        pointed(lookup, keys.drop_last(), node).insert(keys.last().0, node)
    }
}

/// Which keys a pointed lookup has, and where they lead.
pub proof fn pointed_entries(
    lookup: Map<u64, usize>,
    keys: Seq<ExternalSequenceBlockHash>,
    node: usize,
    key: u64,
)
    ensures
        pointed(lookup, keys, node).dom().contains(key) <==> (keys.contains(
            ExternalSequenceBlockHash(key),
        ) || lookup.dom().contains(key)),
        keys.contains(ExternalSequenceBlockHash(key)) ==> pointed(lookup, keys, node)[key] == node,
        !keys.contains(ExternalSequenceBlockHash(key)) && lookup.dom().contains(key) ==> pointed(
            lookup,
            keys,
            node,
        )[key] == lookup[key],
    decreases keys.len(),
{
    if keys.len() > 0 {
        let shorter = keys.drop_last();
        pointed_entries(lookup, shorter, node, key);
        let k = ExternalSequenceBlockHash(key);
        if keys.contains(k) && keys.last() != k {
            let i = choose|i: int| 0 <= i < keys.len() && keys[i] == k;
            assert(shorter[i] == k);
        }
        if shorter.contains(k) {
            let i = choose|i: int| 0 <= i < shorter.len() && shorter[i] == k;
            assert(keys[i] == k);
        }
        if keys.last() == k {
            assert(keys[keys.len() - 1] == k);
        }
    }
}

/// Points keys at `node`. Keys that already lead there are left alone; the
/// number of entries that were added or changed is returned.
pub fn update_lookup_for_keys(
    lookup: &mut FxMap<u64, usize>,
    keys: &[ExternalSequenceBlockHash],
    node: usize,
) -> (changed: usize)
    ensures
        final(lookup)@ == pointed(old(lookup)@, keys@, node),
        changed == changed_keys(old(lookup)@, keys@, node),
{
    let ghost start = lookup@;
    let mut changed: usize = 0;
    for i in 0..keys.len()
        invariant
            lookup@ == pointed(start, keys@.take(i as int), node),
            changed == changed_keys(start, keys@.take(i as int), node),
            changed <= i,
    {
        assert(keys@.take(i + 1).drop_last() =~= keys@.take(i as int));
        let key = keys[i].0;
        let same = match fx_get(lookup, &key) {
            Some(current) => *current == node,
            None => false,
        };
        if !same {
            fx_insert(lookup, key, node);
            changed += 1;
        } else {
            assert(lookup@ =~= lookup@.insert(key, node));
        }
    }
    assert(keys@.take(keys@.len() as int) =~= keys@);
    changed
}

} // verus!
