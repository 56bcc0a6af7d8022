//! Stable sorting of things that compare as sequences of numbers.

use vstd::prelude::*;
use vstd::string::StrSliceExecFns;

verus! {

/// Lexicographic order: the first difference decides, and a proper prefix comes
/// first.
pub open spec fn lex_lt(a: Seq<int>, b: Seq<int>) -> bool
    decreases a.len(),
{
    if b.len() == 0 {
        false
    } else if a.len() == 0 {
        true
    } else if a[0] != b[0] {
        a[0] < b[0]
    } else {
        lex_lt(a.skip(1), b.skip(1))
    }
}

pub proof fn lex_lt_is_irreflexive(a: Seq<int>)
    ensures
        !lex_lt(a, a),
    decreases a.len(),
{
    if a.len() > 0 {
        lex_lt_is_irreflexive(a.skip(1));
    }
}

pub proof fn lex_lt_is_transitive(a: Seq<int>, b: Seq<int>, c: Seq<int>)
    requires
        lex_lt(a, b),
        lex_lt(b, c),
    ensures
        lex_lt(a, c),
    decreases a.len(),
{
    if a.len() > 0 && b.len() > 0 && c.len() > 0 && a[0] == b[0] && b[0] == c[0] {
        lex_lt_is_transitive(a.skip(1), b.skip(1), c.skip(1));
    }
}

pub proof fn lex_lt_is_total(a: Seq<int>, b: Seq<int>)
    ensures
        lex_lt(a, b) || lex_lt(b, a) || a == b,
    decreases a.len(),
{
    if a.len() > 0 && b.len() > 0 {
        if a[0] == b[0] {
            lex_lt_is_total(a.skip(1), b.skip(1));
            if a.skip(1) == b.skip(1) {
                assert(a =~= seq![a[0]] + a.skip(1));
                assert(b =~= seq![b[0]] + b.skip(1));
            }
        }
    } else {
        if a.len() == 0 && b.len() == 0 {
            assert(a =~= b);
        }
    }
}

/// The order of two sequences with a common start is that of what follows.
pub proof fn lex_lt_skips_common_prefix(p: Seq<int>, a: Seq<int>, b: Seq<int>)
    ensures
        lex_lt(p + a, p + b) == lex_lt(a, b),
    decreases p.len(),
{
    if p.len() == 0 {
        assert(p + a =~= a);
        assert(p + b =~= b);
    } else {
        lex_lt_skips_common_prefix(p.skip(1), a, b);
        assert((p + a).skip(1) =~= p.skip(1) + a);
        assert((p + b).skip(1) =~= p.skip(1) + b);
    }
}

/// Something that can be sorted.
pub trait SortKey: Sized {
    /// The numbers by which it compares.
    spec fn rank(&self) -> Seq<int>;

    /// Whether it sorts before the other.
    fn is_before(&self, other: &Self) -> (r: bool)
        ensures
            r == lex_lt(self.rank(), other.rank()),
    ;
}

/// Whether no item sorts before one that stands ahead of it.
pub open spec fn sorted_by_rank<T: SortKey>(items: Seq<T>) -> bool {
    forall|i: int, j: int|
        0 <= i < j < items.len() ==> !lex_lt(
            (#[trigger] items[j]).rank(),
            (#[trigger] items[i]).rank(),
        )
}

/// The items of one rank, in their order.
pub open spec fn of_rank<T: SortKey>(items: Seq<T>, rank: Seq<int>) -> Seq<T> {
    items.filter(ranked(rank))
}

/// Tells the items of a rank.
pub open spec fn ranked<T: SortKey>(rank: Seq<int>) -> spec_fn(T) -> bool {
    |p: T| p.rank() == rank
}

/// Whether `sorted` holds the items of `items` in ascending order, items of
/// equal rank in their old order.
pub open spec fn is_stable_sort<T: SortKey>(items: Seq<T>, sorted: Seq<T>) -> bool {
    &&& sorted_by_rank(sorted)
    &&& forall|rank: Seq<int>| #[trigger] of_rank(sorted, rank) == of_rank(items, rank)
    &&& sorted.to_multiset() == items.to_multiset()
}

/// Sorts items by rank, keeping the order of items of equal rank.
pub fn stable_sort<T: SortKey>(items: Vec<T>) -> (sorted: Vec<T>)
    ensures
        is_stable_sort(items@, sorted@),
        sorted@.len() == items@.len(),
{
    let ghost all = items@;
    let mut rest = items;
    let mut sorted: Vec<T> = Vec::new();
    proof {
        assert forall|rank: Seq<int>| #[trigger]
            of_rank(all, rank) == of_rank(rest@, rank) + of_rank(sorted@, rank) by {
            assert(of_rank(sorted@, rank) =~= Seq::empty());
            assert(of_rank(all, rank) =~= of_rank(rest@, rank) + of_rank(sorted@, rank));
        }
        sorted@.to_multiset_ensures();
        assert(sorted@.to_multiset().len() == 0);
        assert(all.to_multiset() =~= rest@.to_multiset().add(sorted@.to_multiset()));
    }
    while rest.len() > 0
        invariant
            sorted_by_rank(sorted@),
            forall|rank: Seq<int>| #[trigger]
                of_rank(all, rank) == of_rank(rest@, rank) + of_rank(sorted@, rank),
            all.to_multiset() == rest@.to_multiset().add(sorted@.to_multiset()),
            all.len() == rest@.len() + sorted@.len(),
        decreases rest.len(),
    {
        let ghost old_rest = rest@;
        let item = rest.pop().unwrap();
        let mut at: usize = 0;
        while at < sorted.len() && sorted[at].is_before(&item)
            invariant
                at <= sorted@.len(),
                forall|i: int|
                    0 <= i < at ==> lex_lt((#[trigger] sorted@[i]).rank(), item.rank()),
            decreases sorted.len() - at,
        {
            at += 1;
        }
        let ghost old_sorted = sorted@;
        sorted.insert(at, item);
        proof {
            lemma_insert_keeps_order(old_sorted, at as int, item);
            lemma_insert_is_stable(old_rest, old_sorted, at as int, item);
            assert(old_rest == rest@.push(item));
            assert forall|rank: Seq<int>| #[trigger]
                of_rank(all, rank) == of_rank(rest@, rank) + of_rank(sorted@, rank) by {
                assert(of_rank(old_rest, rank) + of_rank(old_sorted, rank) == of_rank(rest@, rank)
                    + of_rank(sorted@, rank));
            }
            vstd::seq_lib::to_multiset_build(rest@, item);
            vstd::seq_lib::to_multiset_insert(old_sorted, at as int, item);
            assert(all.to_multiset() =~= rest@.to_multiset().add(sorted@.to_multiset()));
        }
    }
    proof {
        assert(rest@ =~= Seq::empty());
        assert forall|rank: Seq<int>| #[trigger] of_rank(sorted@, rank) == of_rank(all, rank) by {
            assert(of_rank(rest@, rank) =~= Seq::empty());
            assert(of_rank(rest@, rank) + of_rank(sorted@, rank) =~= of_rank(sorted@, rank));
        }
        assert(all.to_multiset() =~= sorted@.to_multiset());
    }
    sorted
}

proof fn lemma_insert_keeps_order<T: SortKey>(sorted: Seq<T>, at: int, item: T)
    requires
        sorted_by_rank(sorted),
        0 <= at <= sorted.len(),
        forall|i: int| 0 <= i < at ==> lex_lt((#[trigger] sorted[i]).rank(), item.rank()),
        at < sorted.len() ==> !lex_lt(sorted[at].rank(), item.rank()),
    ensures
        sorted_by_rank(sorted.insert(at, item)),
{
    let new = sorted.insert(at, item);
    assert forall|i: int, j: int| 0 <= i < j < new.len() implies !lex_lt(
        (#[trigger] new[j]).rank(),
        (#[trigger] new[i]).rank(),
    ) by {
        let a = new[i].rank();
        let b = new[j].rank();
        if j < at {
            assert(new[i] == sorted[i] && new[j] == sorted[j]);
        } else if j == at {
            assert(new[i] == sorted[i]);
            if lex_lt(b, a) {
                lex_lt_is_transitive(a, b, a);
                lex_lt_is_irreflexive(a);
            }
        } else {
            assert(new[j] == sorted[j - 1]);
            if i < at {
                assert(new[i] == sorted[i]);
            } else if i == at {
                if lex_lt(b, a) {
                    if j - 1 > at {
                        assert(!lex_lt(sorted[j - 1].rank(), sorted[at].rank()));
                        let c = sorted[at].rank();
                        lex_lt_is_total(c, a);
                        lex_lt_is_total(b, c);
                        if lex_lt(a, c) {
                            lex_lt_is_transitive(b, a, c);
                        }
                    }
                }
            } else {
                assert(new[i] == sorted[i - 1]);
            }
        }
    }
}

proof fn lemma_insert_is_stable<T: SortKey>(
    rest: Seq<T>,
    sorted: Seq<T>,
    at: int,
    item: T,
)
    requires
        rest.len() > 0,
        rest.last() == item,
        0 <= at <= sorted.len(),
        forall|i: int| 0 <= i < at ==> lex_lt((#[trigger] sorted[i]).rank(), item.rank()),
    ensures
        forall|rank: Seq<int>| #[trigger]
            of_rank(rest, rank) + of_rank(sorted, rank) == of_rank(rest.drop_last(), rank)
                + of_rank(sorted.insert(at, item), rank),
{
    assert forall|rank: Seq<int>| #[trigger]
        of_rank(rest, rank) + of_rank(sorted, rank) == of_rank(rest.drop_last(), rank) + of_rank(
            sorted.insert(at, item),
            rank,
        ) by {
        let pred = ranked::<T>(rank);
        let low = sorted.take(at);
        let high = sorted.skip(at);
        let one = seq![item];
        assert(sorted =~= low + high);
        assert(sorted.insert(at, item) =~= low + (one + high));
        assert(rest =~= rest.drop_last() + one);
        Seq::filter_distributes_over_add(low, high, pred);
        Seq::filter_distributes_over_add(low, one + high, pred);
        Seq::filter_distributes_over_add(one, high, pred);
        Seq::filter_distributes_over_add(rest.drop_last(), one, pred);
        lemma_filter_one(item, pred);
        if item.rank() == rank {
            assert forall|i: int| 0 <= i < low.len() implies !pred(#[trigger] low[i]) by {
                assert(low[i] == sorted[i]);
                if sorted[i].rank() == rank {
                    lex_lt_is_irreflexive(rank);
                }
            }
            lemma_filter_none(low, pred);
        }
        assert(of_rank(rest, rank) + of_rank(sorted, rank) =~= of_rank(rest.drop_last(), rank)
            + of_rank(sorted.insert(at, item), rank));
    }
}

proof fn lemma_filter_one<A>(a: A, pred: spec_fn(A) -> bool)
    ensures
        seq![a].filter(pred) == if pred(a) {
            seq![a]
        } else {
            Seq::empty()
        },
{
    reveal(Seq::filter);
    assert(seq![a].drop_last() =~= Seq::<A>::empty());
    assert(Seq::<A>::empty().filter(pred) =~= Seq::<A>::empty());
    assert(seq![a].filter(pred) =~= if pred(a) {
        seq![a]
    } else {
        Seq::empty()
    });
}

proof fn lemma_filter_none<A>(s: Seq<A>, pred: spec_fn(A) -> bool)
    requires
        forall|i: int| 0 <= i < s.len() ==> !pred(#[trigger] s[i]),
    ensures
        s.filter(pred) == Seq::<A>::empty(),
    decreases s.len(),
{
    reveal(Seq::filter);
    if s.len() > 0 {
        assert forall|i: int| 0 <= i < s.drop_last().len() implies !pred(
            #[trigger] s.drop_last()[i],
        ) by {
            assert(s.drop_last()[i] == s[i]);
        }
        lemma_filter_none(s.drop_last(), pred);
        assert(!pred(s[s.len() - 1]));
    }
    assert(s.filter(pred) =~= Seq::<A>::empty());
}

/// How the items of distinct ranks are sorted: each before all that follow it.
pub proof fn distinct_ranks_sort_strictly<T: SortKey>(items: Seq<T>, sorted: Seq<T>)
    requires
        is_stable_sort(items, sorted),
        forall|i: int, j: int|
            0 <= i < j < items.len() ==> (#[trigger] items[i]).rank() != (
            #[trigger] items[j]).rank(),
    ensures
        forall|i: int, j: int|
            0 <= i < j < sorted.len() ==> lex_lt(
                (#[trigger] sorted[i]).rank(),
                (#[trigger] sorted[j]).rank(),
            ),
{
    assert forall|i: int, j: int| 0 <= i < j < sorted.len() implies lex_lt(
        (#[trigger] sorted[i]).rank(),
        (#[trigger] sorted[j]).rank(),
    ) by {
        let rank = sorted[i].rank();
        lex_lt_is_total(rank, sorted[j].rank());
        assert(!lex_lt(sorted[j].rank(), rank));
        if sorted[j].rank() == rank {
            assert(of_rank(sorted, rank) == of_rank(items, rank));
            lemma_rank_twice(sorted, i, j, rank);
            lemma_rank_once(items, rank);
        }
    }
}

/// Sorting neither loses nor makes items.
pub proof fn sorting_keeps_items<T: SortKey>(items: Seq<T>, sorted: Seq<T>)
    requires
        is_stable_sort(items, sorted),
    ensures
        forall|x: T| #[trigger] sorted.contains(x) <==> items.contains(x),
{
    assert forall|x: T| #[trigger] sorted.contains(x) <==> items.contains(x) by {
        vstd::seq_lib::to_multiset_contains(items, x);
        vstd::seq_lib::to_multiset_contains(sorted, x);
    }
}

/// The items of a rank are the first, if it has the rank, and those among the others.
proof fn lemma_rank_from_front<T: SortKey>(s: Seq<T>, rank: Seq<int>)
    requires
        s.len() > 0,
    ensures
        of_rank(s, rank) == if s[0].rank() == rank {
            seq![s[0]] + of_rank(s.skip(1), rank)
        } else {
            of_rank(s.skip(1), rank)
        },
{
    let pred = ranked::<T>(rank);
    let first = seq![s[0]];
    assert(s =~= first + s.skip(1));
    Seq::filter_distributes_over_add(first, s.skip(1), pred);
    let none = Seq::<T>::empty();
    none.lemma_filter_push(s[0], pred);
    assert(none.push(s[0]) =~= first);
    assert(none.filter(pred) =~= none) by {
        reveal(Seq::filter);
    }
    assert(none + of_rank(s.skip(1), rank) =~= of_rank(s.skip(1), rank));
    assert(none.push(s[0]) + of_rank(s.skip(1), rank) =~= seq![s[0]] + of_rank(
        s.skip(1),
        rank,
    ));
}

/// Sorted sequences that have the same items of every rank, in the same order, are the
/// same.
proof fn lemma_same_ranks_same_order<T: SortKey>(a: Seq<T>, b: Seq<T>)
    requires
        sorted_by_rank(a),
        sorted_by_rank(b),
        forall|rank: Seq<int>| #[trigger] of_rank(a, rank) == of_rank(b, rank),
    ensures
        a == b,
    decreases a.len(),
{
    if a.len() == 0 {
        if b.len() > 0 {
            let rank = b[0].rank();
            lemma_rank_from_front(b, rank);
            assert(of_rank(a, rank).len() == 0) by {
                reveal(Seq::filter);
            }
        }
        assert(a =~= b);
    } else {
        let rank = a[0].rank();
        lemma_rank_from_front(a, rank);
        if b.len() == 0 {
            assert(of_rank(b, rank).len() == 0) by {
                reveal(Seq::filter);
            }
        }
        lemma_rank_from_front(b, b[0].rank());
        lemma_head_is_least(a, b, rank);
        lemma_head_is_least(b, a, b[0].rank());
        lex_lt_is_total(rank, b[0].rank());
        assert(of_rank(a, rank)[0] == of_rank(b, rank)[0]);
        assert(a[0] == b[0]);
        let x = a.skip(1);
        let y = b.skip(1);
        assert forall|r: Seq<int>| #[trigger] of_rank(x, r) == of_rank(y, r) by {
            lemma_rank_from_front(a, r);
            lemma_rank_from_front(b, r);
            assert(of_rank(a, r) == of_rank(b, r));
            if r == rank {
                assert(of_rank(x, r) =~= of_rank(a, r).skip(1));
                assert(of_rank(y, r) =~= of_rank(b, r).skip(1));
            }
        }
        lemma_same_ranks_same_order(x, y);
        assert(a =~= seq![a[0]] + x);
        assert(b =~= seq![b[0]] + y);
    }
}

/// Nothing that has an equal in a sorted sequence sorts before its first item.
proof fn lemma_head_is_least<T: SortKey>(a: Seq<T>, b: Seq<T>, rank: Seq<int>)
    requires
        a.len() > 0,
        b.len() > 0,
        sorted_by_rank(b),
        of_rank(a, rank) == of_rank(b, rank),
        of_rank(a, rank).len() > 0,
    ensures
        !lex_lt(rank, b[0].rank()),
{
    broadcast use vstd::seq_lib::group_filter_ensures;

    let x = of_rank(b, rank)[0];
    b.lemma_filter_pred(ranked::<T>(rank), 0);
    b.lemma_filter_contains_rev(ranked::<T>(rank), x);
    let k = choose|k: int| 0 <= k < b.len() && b[k] == x;
    if k == 0 {
        lex_lt_is_irreflexive(rank);
    }
}

/// There is one stable sort.
pub proof fn stable_sort_is_unique<T: SortKey>(items: Seq<T>, a: Seq<T>, b: Seq<T>)
    requires
        is_stable_sort(items, a),
        is_stable_sort(items, b),
    ensures
        a == b,
{
    assert forall|rank: Seq<int>| #[trigger] of_rank(a, rank) == of_rank(b, rank) by {
        assert(of_rank(a, rank) == of_rank(items, rank));
    }
    lemma_same_ranks_same_order(a, b);
}

/// Sorted sequences of the same items are the same where no two items have one rank.
pub proof fn distinct_ranks_sort_one_way<T: SortKey>(a: Seq<T>, b: Seq<T>)
    requires
        sorted_by_rank(b),
        forall|i: int, j: int|
            0 <= i < j < a.len() ==> lex_lt(
                (#[trigger] a[i]).rank(),
                (#[trigger] a[j]).rank(),
            ),
        a.to_multiset() == b.to_multiset(),
    ensures
        a == b,
    decreases a.len(),
{
    a.to_multiset_ensures();
    b.to_multiset_ensures();
    if a.len() == 0 {
        assert(a =~= b);
    } else {
        vstd::seq_lib::to_multiset_contains(b, b[0]);
        vstd::seq_lib::to_multiset_contains(a, b[0]);
        vstd::seq_lib::to_multiset_contains(a, a[0]);
        vstd::seq_lib::to_multiset_contains(b, a[0]);
        assert(b.contains(b[0]));
        assert(a.contains(a[0]));
        let k = choose|k: int| 0 <= k < a.len() && a[k] == b[0];
        let m = choose|m: int| 0 <= m < b.len() && b[m] == a[0];
        if k > 0 {
            assert(lex_lt(a[0].rank(), a[k].rank()));
            if m == 0 {
                lex_lt_is_irreflexive(a[0].rank());
            }
            assert(false);
        }
        assert(a.remove(0) =~= a.skip(1));
        assert(b.remove(0) =~= b.skip(1));
        distinct_ranks_sort_one_way(a.skip(1), b.skip(1));
        assert(a =~= seq![a[0]] + a.skip(1));
        assert(b =~= seq![b[0]] + b.skip(1));
    }
}

proof fn lemma_rank_twice<T: SortKey>(s: Seq<T>, i: int, j: int, rank: Seq<int>)
    requires
        0 <= i < j < s.len(),
        s[i].rank() == rank,
        s[j].rank() == rank,
    ensures
        of_rank(s, rank).len() >= 2,
{
    lemma_filter_two(s, i, j, ranked(rank));
}

proof fn lemma_rank_once<T: SortKey>(s: Seq<T>, rank: Seq<int>)
    requires
        forall|i: int, j: int|
            0 <= i < j < s.len() ==> (#[trigger] s[i]).rank() != (#[trigger] s[j]).rank(),
    ensures
        of_rank(s, rank).len() <= 1,
{
    lemma_filter_at_most_one(s, ranked(rank));
}

proof fn lemma_filter_two<A>(s: Seq<A>, i: int, j: int, pred: spec_fn(A) -> bool)
    requires
        0 <= i < j < s.len(),
        pred(s[i]),
        pred(s[j]),
    ensures
        s.filter(pred).len() >= 2,
{
    let low = s.take(j);
    let high = s.skip(j);
    assert(s =~= low + high);
    Seq::filter_distributes_over_add(low, high, pred);
    assert(low[i] == s[i]);
    assert(high[0] == s[j]);
    low.lemma_filter_contains(pred, i);
    high.lemma_filter_contains(pred, 0);
}

proof fn lemma_filter_at_most_one<A>(s: Seq<A>, pred: spec_fn(A) -> bool)
    requires
        forall|i: int, j: int|
            0 <= i < j < s.len() ==> !(pred(#[trigger] s[i]) && pred(#[trigger] s[j])),
    ensures
        s.filter(pred).len() <= 1,
    decreases s.len(),
{
    reveal(Seq::filter);
    if s.len() > 0 {
        let init = s.drop_last();
        if pred(s.last()) {
            assert forall|i: int| 0 <= i < init.len() implies !pred(#[trigger] init[i]) by {
                assert(!(pred(s[i]) && pred(s[s.len() - 1])));
            }
            lemma_filter_none(init, pred);
        } else {
            assert forall|i: int, j: int| 0 <= i < j < init.len() implies !(pred(
                #[trigger] init[i],
            ) && pred(#[trigger] init[j])) by {
                assert(!(pred(s[i]) && pred(s[j])));
            }
            lemma_filter_at_most_one(init, pred);
        }
    }
}

/// The numbers by which a name compares, closed so that what follows does not
/// matter unless the names are equal.
pub open spec fn name_rank(name: Seq<char>) -> Seq<int> {
    name.map_values(|c: char| c as int).push(-1)
}

proof fn lemma_char_is_not_negative(c: char)
    ensures
        c as int >= 0,
{
}

/// Ranks that begin with the same name go on the same way.
pub proof fn name_rank_is_prefix_free(p: Seq<char>, a: Seq<int>, q: Seq<char>, b: Seq<int>)
    requires
        name_rank(p) + a == name_rank(q) + b,
    ensures
        p == q,
        a == b,
{
    let left = name_rank(p) + a;
    let right = name_rank(q) + b;
    if p.len() < q.len() {
        lemma_char_is_not_negative(q[p.len() as int]);
        assert(left[p.len() as int] == -1);
        assert(right[p.len() as int] == q[p.len() as int] as int);
    }
    if q.len() < p.len() {
        lemma_char_is_not_negative(p[q.len() as int]);
        assert(right[q.len() as int] == -1);
        assert(left[q.len() as int] == p[q.len() as int] as int);
    }
    assert forall|i: int| 0 <= i < p.len() implies p[i] == q[i] by {
        assert(left[i] == p[i] as int);
        assert(right[i] == q[i] as int);
    }
    assert(p =~= q);
    assert(left.len() == p.len() + 1 + a.len());
    assert(right.len() == q.len() + 1 + b.len());
    assert forall|i: int| 0 <= i < a.len() implies a[i] == b[i] by {
        assert(left[p.len() + 1 + i] == a[i]);
        assert(right[p.len() + 1 + i] == b[i]);
    }
    assert(a =~= b);
}

/// Which of two names sorts first.
#[derive(Clone, Copy, Debug, PartialEq, Eq, Structural)]
pub enum NameOrder {
    Before,
    Same,
    After,
}

/// Which of two names sorts first, by the numbers of their characters.
pub fn order_names(a: &str, b: &str) -> (order: NameOrder)
    ensures
        order is Same <==> a@ == b@,
        order is Before ==> forall|x: Seq<int>, y: Seq<int>| #[trigger]
            lex_lt(name_rank(a@) + x, name_rank(b@) + y),
        order is After ==> forall|x: Seq<int>, y: Seq<int>|
            !#[trigger] lex_lt(name_rank(a@) + x, name_rank(b@) + y),
{
    let m = a.unicode_len();
    let n = b.unicode_len();
    let mut i: usize = 0;
    while i < m && i < n && a.get_char(i) == b.get_char(i)
        invariant
            m == a@.len(),
            n == b@.len(),
            i <= m,
            i <= n,
            forall|j: int| 0 <= j < i ==> a@[j] == b@[j],
        decreases m - i,
    {
        i += 1;
    }
    if i == m && i == n {
        assert(a@ =~= b@);
        return NameOrder::Same;
    }
    let ghost shared = a@.take(i as int).map_values(|c: char| c as int);
    let before = i == m || (i < n && a.get_char(i) < b.get_char(i));
    proof {
        assert(i < m && i < n ==> a@[i as int] != b@[i as int]);
        if i == m {
            lemma_char_is_not_negative(b@[i as int]);
        }
        if i == n {
            lemma_char_is_not_negative(a@[i as int]);
        }
        assert forall|x: Seq<int>, y: Seq<int>| #[trigger]
            lex_lt(name_rank(a@) + x, name_rank(b@) + y) == before by {
            let left = name_rank(a@) + x;
            let right = name_rank(b@) + y;
            assert(left =~= shared + left.skip(i as int));
            assert(right =~= shared + right.skip(i as int));
            lex_lt_skips_common_prefix(shared, left.skip(i as int), right.skip(i as int));
        }
    }
    if before {
        NameOrder::Before
    } else {
        NameOrder::After
    }
}

} // verus!
