//! Facts about sequences.

use vstd::prelude::*;

verus! {

/// What a sequence contains with one more element.
pub proof fn lemma_push_contains<T>(s: Seq<T>, x: T)
    ensures
        forall|e: T| #[trigger] s.push(x).contains(e) <==> s.contains(e) || e == x,
{
    let more = s.push(x);
    assert forall|e: T| #[trigger] more.contains(e) <==> s.contains(e) || e == x by {
        if s.contains(e) {
            let j = choose|j: int| 0 <= j < s.len() && s[j] == e;
            assert(more[j] == e);
        }
        assert(more[s.len() as int] == x);
        if more.contains(e) && e != x {
            let j = choose|j: int| 0 <= j < more.len() && more[j] == e;
            assert(s[j] == e);
        }
    }
}

/// What is left of a sequence when nothing is filtered out.
pub proof fn lemma_filter_all<T>(s: Seq<T>, keep: spec_fn(T) -> bool)
    requires
        forall|i: int| 0 <= i < s.len() ==> keep(#[trigger] s[i]),
    ensures
        s.filter(keep) == s,
    decreases s.len(),
{
    reveal(Seq::filter);
    if s.len() > 0 {
        let init = s.drop_last();
        assert forall|i: int| 0 <= i < init.len() implies keep(#[trigger] init[i]) by {
            assert(init[i] == s[i]);
        }
        lemma_filter_all(init, keep);
        assert(keep(s.last()));
        assert(init.push(s.last()) =~= s);
    }
}

/// What is left of a sequence when everything is filtered out.
pub proof fn lemma_filter_none<T>(s: Seq<T>, keep: spec_fn(T) -> bool)
    requires
        forall|i: int| 0 <= i < s.len() ==> !keep(#[trigger] s[i]),
    ensures
        s.filter(keep) == Seq::<T>::empty(),
    decreases s.len(),
{
    reveal(Seq::filter);
    if s.len() > 0 {
        let init = s.drop_last();
        assert forall|i: int| 0 <= i < init.len() implies !keep(#[trigger] init[i]) by {
            assert(init[i] == s[i]);
        }
        lemma_filter_none(init, keep);
        assert(!keep(s.last()));
    }
}

/// Taking out the one element that does not stay is filtering.
pub proof fn lemma_filter_one<T>(s: Seq<T>, at: int, keep: spec_fn(T) -> bool)
    requires
        0 <= at < s.len(),
        !keep(s[at]),
        forall|i: int| 0 <= i < s.len() && i != at ==> keep(#[trigger] s[i]),
    ensures
        s.filter(keep) == s.remove(at),
{
    let head = s.take(at);
    let tail = s.skip(at + 1);
    assert(s =~= head + seq![s[at]] + tail);
    Seq::filter_distributes_over_add(head + seq![s[at]], tail, keep);
    Seq::filter_distributes_over_add(head, seq![s[at]], keep);
    assert forall|i: int| 0 <= i < head.len() implies keep(#[trigger] head[i]) by {
        assert(head[i] == s[i]);
    }
    assert forall|i: int| 0 <= i < tail.len() implies keep(#[trigger] tail[i]) by {
        assert(tail[i] == s[at + 1 + i]);
    }
    lemma_filter_all(head, keep);
    lemma_filter_all(tail, keep);
    assert forall|i: int| 0 <= i < seq![s[at]].len() implies !keep(#[trigger] seq![s[at]][i]) by {}
    lemma_filter_none(seq![s[at]], keep);
    assert(s.remove(at) =~= head + tail);
    assert(head + Seq::<T>::empty() =~= head);
}

} // verus!
