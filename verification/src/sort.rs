//! Stable sorting of ids by an order that is given from outside.

use vstd::prelude::*;

verus! {

/// Puts `x` behind every member of a sorted list that does not come after it.
pub open spec fn inserted(le: spec_fn(usize, usize) -> bool, sorted: Seq<usize>, x: usize) -> Seq<
    usize,
>
    decreases sorted.len(),
{
    if sorted.len() == 0 || le(sorted.last(), x) {
        sorted.push(x)
    } else {
        inserted(le, sorted.drop_last(), x).push(sorted.last())
    }
}

/// A list in order. Members that the order does not tell apart keep theirs.
pub open spec fn stably_sorted(le: spec_fn(usize, usize) -> bool, list: Seq<usize>) -> Seq<usize>
    decreases list.len(),
{
    if list.len() == 0 {
        list
    } else {
        inserted(le, stably_sorted(le, list.drop_last()), list.last())
    }
}

/// An order in which any two members can be compared.
pub open spec fn total_preorder(le: spec_fn(usize, usize) -> bool) -> bool {
    &&& forall|a: usize, b: usize| #![trigger le(a, b)] le(a, b) || le(b, a)
    &&& forall|a: usize, b: usize, c: usize|
        #![trigger le(a, b), le(b, c)]
        le(a, b) && le(b, c) ==> le(a, c)
}

/// Every member of a list comes before those behind it.
pub open spec fn in_order(le: spec_fn(usize, usize) -> bool, list: Seq<usize>) -> bool {
    forall|i: int, j: int| 0 <= i < j < list.len() ==> le(#[trigger] list[i], #[trigger] list[j])
}

proof fn lemma_inserted(le: spec_fn(usize, usize) -> bool, sorted: Seq<usize>, x: usize)
    ensures
        inserted(le, sorted, x).len() == sorted.len() + 1,
        inserted(le, sorted, x).to_multiset() == sorted.to_multiset().insert(x),
        total_preorder(le) && in_order(le, sorted) ==> in_order(le, inserted(le, sorted, x)),
    decreases sorted.len(),
{
    broadcast use vstd::seq_lib::group_to_multiset_ensures;

    if sorted.len() == 0 || le(sorted.last(), x) {
        if total_preorder(le) && in_order(le, sorted) {
            let next = sorted.push(x);
            assert forall|i: int, j: int| 0 <= i < j < next.len() implies le(
                #[trigger] next[i],
                #[trigger] next[j],
            ) by {
                if j == sorted.len() {
                    if i < sorted.len() - 1 {
                        assert(le(sorted[i], sorted[sorted.len() - 1]));
                    }
                    assert(le(sorted.last(), x));
                }
            }
        }
    } else {
        let rest = sorted.drop_last();
        lemma_inserted(le, rest, x);
        let inner = inserted(le, rest, x);
        let next = inner.push(sorted.last());
        assert(sorted =~= rest.push(sorted.last()));
        assert(next.to_multiset() =~= sorted.to_multiset().insert(x));
        if total_preorder(le) && in_order(le, sorted) {
            assert(in_order(le, rest)) by {
                assert forall|i: int, j: int| 0 <= i < j < rest.len() implies le(
                    #[trigger] rest[i],
                    #[trigger] rest[j],
                ) by {
                    assert(le(sorted[i], sorted[j]));
                }
            }
            assert forall|i: int, j: int| 0 <= i < j < next.len() implies le(
                #[trigger] next[i],
                #[trigger] next[j],
            ) by {
                if j == inner.len() {
                    assert(inner.to_multiset().count(inner[i]) > 0) by {
                        assert(inner.contains(inner[i]));
                    }
                    if inner[i] != x {
                        assert(rest.to_multiset().count(inner[i]) > 0);
                        assert(rest.contains(inner[i]));
                        let p = choose|p: int| 0 <= p < rest.len() && rest[p] == inner[i];
                        assert(le(sorted[p], sorted[sorted.len() - 1]));
                    } else {
                        assert(le(sorted.last(), x) || le(x, sorted.last()));
                    }
                } else {
                    assert(le(inner[i], inner[j]));
                }
            }
        }
    }
}

/// Sorting rearranges a list and leaves it in order.
pub proof fn lemma_stably_sorted(le: spec_fn(usize, usize) -> bool, list: Seq<usize>)
    ensures
        stably_sorted(le, list).len() == list.len(),
        stably_sorted(le, list).to_multiset() == list.to_multiset(),
        total_preorder(le) ==> in_order(le, stably_sorted(le, list)),
    decreases list.len(),
{
    broadcast use vstd::seq_lib::group_to_multiset_ensures;

    if list.len() > 0 {
        let rest = list.drop_last();
        lemma_stably_sorted(le, rest);
        lemma_inserted(le, stably_sorted(le, rest), list.last());
        assert(list =~= rest.push(list.last()));
    }
}

/// A sorted list has the members of the list.
pub proof fn lemma_sorted_members(le: spec_fn(usize, usize) -> bool, list: Seq<usize>)
    ensures
        stably_sorted(le, list).len() == list.len(),
        forall|x: usize| #[trigger] stably_sorted(le, list).contains(x) <==> list.contains(x),
        list.no_duplicates() ==> stably_sorted(le, list).no_duplicates(),
{
    broadcast use vstd::seq_lib::group_to_multiset_ensures;

    lemma_stably_sorted(le, list);
    let sorted = stably_sorted(le, list);
    assert forall|x: usize| #[trigger] sorted.contains(x) <==> list.contains(x) by {
        assert(sorted.to_multiset().count(x) == list.to_multiset().count(x));
    }
    if list.no_duplicates() {
        list.lemma_multiset_has_no_duplicates();
        sorted.lemma_multiset_has_no_duplicates_conv();
    }
}

/// Where a member goes into a sorted list.
pub open spec fn slot(le: spec_fn(usize, usize) -> bool, sorted: Seq<usize>, x: usize) -> nat
    decreases sorted.len(),
{
    if sorted.len() == 0 || le(sorted.last(), x) {
        sorted.len()
    } else {
        slot(le, sorted.drop_last(), x)
    }
}

pub(crate) proof fn lemma_slot(le: spec_fn(usize, usize) -> bool, sorted: Seq<usize>, x: usize)
    ensures
        ({
            let k = slot(le, sorted, x) as int;
            &&& k <= sorted.len()
            &&& k > 0 ==> le(sorted[k - 1], x)
            &&& inserted(le, sorted, x) == sorted.take(k).push(x) + sorted.skip(k)
            &&& forall|p: int| k <= p < sorted.len() ==> !le(#[trigger] sorted[p], x)
        }),
    decreases sorted.len(),
{
    let k = slot(le, sorted, x) as int;
    if sorted.len() == 0 || le(sorted.last(), x) {
        assert(sorted.take(k) =~= sorted);
        assert(inserted(le, sorted, x) =~= sorted.take(k).push(x) + sorted.skip(k));
    } else {
        let rest = sorted.drop_last();
        lemma_slot(le, rest, x);
        assert(rest.take(k) =~= sorted.take(k));
        assert(inserted(le, sorted, x) =~= sorted.take(k).push(x) + sorted.skip(k));
        assert forall|p: int| k <= p < sorted.len() implies !le(#[trigger] sorted[p], x) by {
            if p < rest.len() {
                assert(rest[p] == sorted[p]);
            }
        }
    }
}

/// Two orders that agree on every member and those behind it sort a list in
/// one way.
pub proof fn lemma_orders_agree(
    a: spec_fn(usize, usize) -> bool,
    b: spec_fn(usize, usize) -> bool,
    list: Seq<usize>,
)
    requires
        forall|i: int, j: int|
            0 <= i < j < list.len() ==> a(#[trigger] list[i], #[trigger] list[j]) == b(
                list[i],
                list[j],
            ),
    ensures
        stably_sorted(a, list) == stably_sorted(b, list),
    decreases list.len(),
{
    if list.len() > 0 {
        let rest = list.drop_last();
        assert forall|i: int, j: int| 0 <= i < j < rest.len() implies a(
            #[trigger] rest[i],
            #[trigger] rest[j],
        ) == b(rest[i], rest[j]) by {
            assert(rest[i] == list[i] && rest[j] == list[j]);
        }
        lemma_orders_agree(a, b, rest);
        lemma_sorted_members(a, rest);
        let sorted = stably_sorted(a, rest);
        assert forall|y: usize| #[trigger] sorted.contains(y) implies a(y, list.last()) == b(
            y,
            list.last(),
        ) by {
            assert(rest.contains(y));
            let i = choose|i: int| 0 <= i < rest.len() && rest[i] == y;
            assert(list[i] == y && list[list.len() - 1] == list.last());
        }
        lemma_inserted_agree(a, b, sorted, list.last());
    }
}

proof fn lemma_inserted_agree(
    a: spec_fn(usize, usize) -> bool,
    b: spec_fn(usize, usize) -> bool,
    sorted: Seq<usize>,
    x: usize,
)
    requires
        forall|y: usize| #[trigger] sorted.contains(y) ==> a(y, x) == b(y, x),
    ensures
        inserted(a, sorted, x) == inserted(b, sorted, x),
    decreases sorted.len(),
{
    if sorted.len() > 0 {
        let rest = sorted.drop_last();
        assert(sorted.contains(sorted.last()));
        assert forall|y: usize| #[trigger] rest.contains(y) implies a(y, x) == b(y, x) by {
            let i = choose|i: int| 0 <= i < rest.len() && rest[i] == y;
            assert(sorted[i] == y);
            assert(sorted.contains(y));
        }
        lemma_inserted_agree(a, b, rest, x);
    }
}

/// Sorting is stable: of two members the one that comes first in the list, and
/// may stand before the other, stands before it when the list is sorted.
pub proof fn lemma_ties_keep_their_order(
    le: spec_fn(usize, usize) -> bool,
    list: Seq<usize>,
    i: int,
    j: int,
    p: int,
    q: int,
)
    requires
        list.no_duplicates(),
        0 <= i < j < list.len(),
        le(list[i], list[j]),
        0 <= p < list.len(),
        0 <= q < list.len(),
        stably_sorted(le, list)[p] == list[i],
        stably_sorted(le, list)[q] == list[j],
    ensures
        p < q,
    decreases list.len(),
{
    let rest = list.drop_last();
    let x = list.last();
    let sorted = stably_sorted(le, rest);
    lemma_slot(le, sorted, x);
    lemma_sorted_members(le, rest);
    lemma_sorted_members(le, list);
    let k = slot(le, sorted, x) as int;
    let all = stably_sorted(le, list);
    assert(rest.no_duplicates());
    assert(all == sorted.take(k).push(x) + sorted.skip(k));
    assert(all[k] == x);
    if j == list.len() - 1 {
        assert(q == k);
        if p > k {
            assert(all[p] == sorted[p - 1]);
        }
        assert(p != k);
    } else {
        assert(rest[i] == list[i] && rest[j] == list[j]);
        assert(p != k && q != k);
        let was_p = if p < k {
            p
        } else {
            p - 1
        };
        let was_q = if q < k {
            q
        } else {
            q - 1
        };
        assert(sorted[was_p] == all[p] && sorted[was_q] == all[q]);
        lemma_ties_keep_their_order(le, rest, i, j, was_p, was_q);
    }
}

/// Sorts a list of ids. `before` says whether its first argument may stand
/// before its second.
pub(crate) fn stable_sort<F: Fn(usize, usize) -> bool>(
    list: &Vec<usize>,
    before: F,
    Ghost(le): Ghost<spec_fn(usize, usize) -> bool>,
    Ghost(ok): Ghost<spec_fn(usize) -> bool>,
) -> (sorted: Vec<usize>)
    requires
        forall|i: int| 0 <= i < list@.len() ==> ok(#[trigger] list@[i]),
        forall|a: usize, b: usize| ok(a) && ok(b) ==> #[trigger] call_requires(before, (a, b)),
        forall|a: usize, b: usize, r: bool|
            ok(a) && ok(b) && #[trigger] call_ensures(before, (a, b), r) ==> r == le(a, b),
    ensures
        sorted@ == stably_sorted(le, list@),
{
    let mut sorted: Vec<usize> = Vec::new();
    let mut at: usize = 0;
    assert(sorted@ =~= stably_sorted(le, list@.take(0)));
    while at < list.len()
        invariant
            at <= list@.len(),
            sorted@.len() == at,
            forall|i: int| 0 <= i < sorted@.len() ==> ok(#[trigger] sorted@[i]),
            forall|i: int| 0 <= i < list@.len() ==> ok(#[trigger] list@[i]),
            forall|a: usize, b: usize| ok(a) && ok(b) ==> #[trigger] call_requires(before, (a, b)),
            forall|a: usize, b: usize, r: bool|
                ok(a) && ok(b) && #[trigger] call_ensures(before, (a, b), r) ==> r == le(a, b),
            sorted@ == stably_sorted(le, list@.take(at as int)),
        decreases list@.len() - at,
    {
        let x: usize = list[at];
        let ghost whole = sorted@;
        let mut pos: usize = sorted.len();
        assert(whole.take(pos as int) =~= whole);
        assert(whole.skip(pos as int) =~= Seq::<usize>::empty());
        assert(inserted(le, whole, x) =~= inserted(le, whole.take(pos as int), x) + whole.skip(
            pos as int,
        ));
        while pos > 0 && !before(sorted[pos - 1], x)
            invariant
                sorted@ == whole,
                pos <= whole.len(),
                ok(x),
                forall|i: int| 0 <= i < sorted@.len() ==> ok(#[trigger] sorted@[i]),
                forall|a: usize, b: usize|
                    ok(a) && ok(b) ==> #[trigger] call_requires(before, (a, b)),
                forall|a: usize, b: usize, r: bool|
                    ok(a) && ok(b) && #[trigger] call_ensures(before, (a, b), r) ==> r == le(a, b),
                inserted(le, whole, x) == inserted(le, whole.take(pos as int), x) + whole.skip(
                    pos as int,
                ),
            ensures
                pos <= whole.len(),
                pos == 0 || le(whole[pos - 1], x),
                inserted(le, whole, x) == inserted(le, whole.take(pos as int), x) + whole.skip(
                    pos as int,
                ),
                sorted@ == whole,
            decreases pos,
        {
            proof {
                let head = whole.take(pos as int);
                assert(head.drop_last() =~= whole.take(pos - 1));
                assert(head.last() == whole[pos - 1]);
                assert(inserted(le, whole.take(pos - 1), x).push(whole[pos - 1]) + whole.skip(
                    pos as int,
                ) =~= inserted(le, whole.take(pos - 1), x) + whole.skip(pos - 1));
            }
            pos -= 1;
        }
        sorted.insert(pos, x);
        proof {
            assert(sorted@ =~= whole.take(pos as int).push(x) + whole.skip(pos as int));
            let now = list@.take(at + 1);
            assert(now.drop_last() =~= list@.take(at as int));
            assert(now.last() == x);
        }
        at += 1;
    }
    assert(list@.take(list@.len() as int) =~= list@);
    sorted
}

} // verus!
