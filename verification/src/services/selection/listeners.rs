//! Where the events of a worker are listened to.

use vstd::prelude::*;
use vstd::string::StringExecFns;

use crate::protocols::{DpRank, WorkerId};
use crate::services::selection::error::SelectionError;
use crate::services::selection::types::{endpoint_of, WorkerCatalogRecord};
use crate::sorting::{lex_lt, of_rank, ranked, stable_sort, SortKey};
use crate::text::{append_decimal, decimal};

verus! {

impl SortKey for (u32, String) {
    open spec fn rank(&self) -> Seq<int> {
        seq![self.0 as int]
    }

    fn is_before(&self, other: &Self) -> (r: bool) {
        proof {
            assert(self.rank().skip(1) =~= Seq::<int>::empty());
            assert(other.rank().skip(1) =~= Seq::<int>::empty());
            reveal_with_fuel(lex_lt, 2);
        }
        self.0 < other.0
    }
}

/// The endpoint of a rank is the first of those that sort with it.
proof fn lemma_first_of_rank(endpoints: Seq<(u32, String)>, rank: u32)
    ensures
        endpoint_of(endpoints, rank) == {
            let named = of_rank(endpoints, seq![rank as int]);
            if named.len() == 0 {
                None::<Seq<char>>
            } else {
                Some(named[0].1@)
            }
        },
    decreases endpoints.len(),
{
    let wanted = ranked::<(u32, String)>(seq![rank as int]);
    reveal(Seq::filter);
    if endpoints.len() > 0 {
        let first = seq![endpoints[0]];
        let rest = endpoints.skip(1);
        lemma_first_of_rank(rest, rank);
        assert(endpoints =~= first + rest);
        Seq::filter_distributes_over_add(first, rest, wanted);
        assert(first.drop_last() =~= Seq::empty());
        assert(first.drop_last().filter(wanted) =~= Seq::empty());
        assert(wanted(endpoints[0]) == (endpoints[0].0 == rank)) by {
            assert(endpoints[0].rank()[0] == endpoints[0].0);
            assert(seq![rank as int][0] == rank);
        }
        if endpoints[0].0 == rank {
            assert(first.filter(wanted) =~= first);
        } else {
            assert(first.filter(wanted) =~= Seq::empty());
            assert(endpoints.filter(wanted) =~= rest.filter(wanted));
        }
    } else {
        assert(endpoints.filter(wanted) =~= Seq::empty());
    }
}

/// The places to listen to, in the order of the ranks.
pub fn listeners_by_rank(record: &WorkerCatalogRecord) -> (endpoints: Vec<(DpRank, String)>)
    ensures
        forall|i: int, j: int|
            0 <= i < j < endpoints@.len() ==> (#[trigger] endpoints@[i]).0 <= (
            #[trigger] endpoints@[j]).0,
        forall|rank: u32| #[trigger]
            endpoint_of(endpoints@, rank) == record.listener_endpoint_of(rank),
        record.kv_events_endpoints@.len() > 0 ==> endpoints@.len()
            == record.kv_events_endpoints@.len(),
        record.kv_events_endpoints@.len() == 0 ==> endpoints@.len() <= 1,
{
    let named = record.listener_endpoints();
    let ghost all = named@;
    let endpoints = stable_sort(named);
    proof {
        assert forall|i: int, j: int| 0 <= i < j < endpoints@.len() implies (
        #[trigger] endpoints@[i]).0 <= (#[trigger] endpoints@[j]).0 by {
            let a = endpoints@[j].rank();
            let b = endpoints@[i].rank();
            assert(!lex_lt(a, b));
            assert(a[0] == endpoints@[j].0 && b[0] == endpoints@[i].0);
            assert(a.skip(1) =~= Seq::<int>::empty());
            reveal_with_fuel(lex_lt, 2);
        }
        assert forall|rank: u32| #[trigger]
            endpoint_of(endpoints@, rank) == record.listener_endpoint_of(rank) by {
            lemma_first_of_rank(all, rank);
            lemma_first_of_rank(endpoints@, rank);
            assert(of_rank(endpoints@, seq![rank as int]) == of_rank(all, seq![rank as int]));
            assert(endpoint_of(all, rank) == record.listener_endpoint_of(rank));
        }
    }
    endpoints
}

/// What is said of a place that nothing can listen to.
pub open spec fn bad_endpoint_text(
    replay: bool,
    worker_id: u64,
    dp_rank: u32,
    why: Seq<char>,
) -> Seq<char> {
    (if replay {
        "invalid replay endpoint for worker "@
    } else {
        "invalid kv_events endpoint for worker "@
    }) + decimal(worker_id as nat) + " dp_rank "@ + decimal(dp_rank as nat) + ": "@ + why
}

/// The error for a place that nothing can listen to, or that nothing can be replayed
/// from.
pub fn bad_endpoint(replay: bool, worker_id: WorkerId, dp_rank: DpRank, why: &str) -> (e:
    SelectionError)
    ensures
        e matches SelectionError::BadRequest(text) && text@ == bad_endpoint_text(
            replay,
            worker_id,
            dp_rank,
            why@,
        ),
{
    let mut text = if replay {
        "invalid replay endpoint for worker ".to_owned()
    } else {
        "invalid kv_events endpoint for worker ".to_owned()
    };
    append_decimal(&mut text, worker_id);
    text.append(" dp_rank ");
    append_decimal(&mut text, dp_rank as u64);
    text.append(": ");
    text.append(why);
    SelectionError::BadRequest(text)
}

} // verus!
