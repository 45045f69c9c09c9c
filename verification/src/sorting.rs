//! Lists of transactions in order: sorting a list and dropping what
//! repeats.

use crate::transaction::{
    lemma_text_order, lemma_transaction_order, same_identity, sorts_before, Transaction,
    TransactionView,
};
use crate::vope::{lemma_views_of_push, views_of};
use vstd::prelude::*;

verus! {

/// Where a transaction goes into a sorted list: before the first that it
/// sorts before, or at the end.
pub open spec fn insert_point(s: Seq<TransactionView>, x: TransactionView) -> int
    decreases s.len(),
{
    if s.len() == 0 || sorts_before(x, s[0]) {
        0
    } else {
        1 + insert_point(s.drop_first(), x)
    }
}

/// The transactions of a list in the order of transactions.
pub open spec fn sorted_of(s: Seq<TransactionView>) -> Seq<TransactionView>
    decreases s.len(),
{
    if s.len() == 0 {
        s
    } else {
        let sorted = sorted_of(s.drop_last());
        sorted.insert(insert_point(sorted, s.last()), s.last())
    }
}

/// No transaction of the list sorts before one that stands earlier.
pub open spec fn is_sorted(s: Seq<TransactionView>) -> bool {
    forall|i: int, j: int| 0 <= i < j < s.len() ==> !sorts_before(#[trigger] s[j], #[trigger] s[i])
}

/// The list without each transaction that is the same line of a
/// statement as the one kept last before it.
pub open spec fn without_repeats(s: Seq<TransactionView>) -> Seq<TransactionView>
    decreases s.len(),
{
    if s.len() == 0 {
        s
    } else {
        let kept = without_repeats(s.drop_last());
        if kept.len() > 0 && same_identity(kept.last(), s.last()) {
            kept
        } else {
            kept.push(s.last())
        }
    }
}

/// `insert_point` lies in the list, nothing before it is sorted after
/// `x`, and `x` sorts before what stands at it.
pub proof fn lemma_insert_point(s: Seq<TransactionView>, x: TransactionView)
    ensures
        0 <= insert_point(s, x) <= s.len(),
        forall|k: int| 0 <= k < insert_point(s, x) ==> !sorts_before(x, #[trigger] s[k]),
        insert_point(s, x) < s.len() ==> sorts_before(x, s[insert_point(s, x)]),
    decreases s.len(),
{
    if s.len() == 0 || sorts_before(x, s[0]) {
    } else {
        let rest = s.drop_first();
        lemma_insert_point(rest, x);
        let p = insert_point(s, x);
        assert forall|k: int| 0 <= k < p implies !sorts_before(x, #[trigger] s[k]) by {
            if k > 0 {
                assert(s[k] == rest[k - 1]);
            }
        }
        if p < s.len() {
            assert(s[p] == rest[p - 1]);
        }
    }
}

/// The first position at which `x` sorts before what stands there is
/// `insert_point`.
pub proof fn lemma_insert_point_is(s: Seq<TransactionView>, x: TransactionView, i: int)
    requires
        0 <= i <= s.len(),
        forall|k: int| 0 <= k < i ==> !sorts_before(x, #[trigger] s[k]),
        i == s.len() || sorts_before(x, s[i]),
    ensures
        insert_point(s, x) == i,
{
    lemma_insert_point(s, x);
}

/// Putting a transaction into a sorted list at its `insert_point` leaves
/// the list sorted.
pub proof fn lemma_insert_keeps_sorted(s: Seq<TransactionView>, x: TransactionView)
    requires
        is_sorted(s),
    ensures
        is_sorted(s.insert(insert_point(s, x), x)),
{
    lemma_insert_point(s, x);
    let p = insert_point(s, x);
    let r = s.insert(p, x);
    assert forall|i: int, j: int| 0 <= i < j < r.len() implies !sorts_before(
        #[trigger] r[j],
        #[trigger] r[i],
    ) by {
        if j < p {
            assert(r[i] == s[i] && r[j] == s[j]);
        } else if j == p {
            assert(r[i] == s[i]);
            assert(!sorts_before(x, s[i]));
        } else if i < p {
            assert(r[i] == s[i] && r[j] == s[j - 1]);
            if i < j - 1 {
                assert(!sorts_before(s[j - 1], s[i]));
            }
        } else if i == p {
            assert(r[j] == s[j - 1]);
            assert(sorts_before(x, s[p]));
            if p < j - 1 {
                assert(!sorts_before(s[j - 1], s[p]));
            }
            lemma_transaction_order(s[j - 1], x, s[p]);
        } else {
            assert(r[i] == s[i - 1] && r[j] == s[j - 1]);
            assert(!sorts_before(s[j - 1], s[i - 1]));
        }
    }
}

/// A sorted list is sorted, and holds each transaction as often as the
/// list that it was sorted from.
pub proof fn lemma_sorted_of(s: Seq<TransactionView>)
    ensures
        is_sorted(sorted_of(s)),
        sorted_of(s).to_multiset() == s.to_multiset(),
        sorted_of(s).len() == s.len(),
    decreases s.len(),
{
    broadcast use vstd::seq_lib::group_to_multiset_ensures;

    if s.len() > 0 {
        let rest = s.drop_last();
        let x = s.last();
        lemma_sorted_of(rest);
        let sorted = sorted_of(rest);
        lemma_insert_point(sorted, x);
        lemma_insert_keeps_sorted(sorted, x);
        let p = insert_point(sorted, x);
        assert(s =~= rest.push(x));
        assert(sorted.insert(p, x).to_multiset() =~= sorted.to_multiset().insert(x));
        assert(rest.push(x).to_multiset() =~= rest.to_multiset().insert(x));
    }
}

/// No two transactions of the list are the same line of a statement.
pub open spec fn distinct_lines(s: Seq<TransactionView>) -> bool {
    forall|i: int, j: int| 0 <= i < j < s.len() ==> !same_identity(#[trigger] s[i], #[trigger] s[j])
}

/// What lies, in the order of transactions, between two transactions
/// that are the same line of a statement is that line too.
pub proof fn lemma_between_same_lines(a: TransactionView, m: TransactionView, b: TransactionView)
    requires
        !sorts_before(m, a),
        !sorts_before(b, m),
        same_identity(a, b),
    ensures
        same_identity(m, b),
{
    lemma_text_order(a.desc, m.desc, b.desc);
    lemma_text_order(m.desc, a.desc, b.desc);
    lemma_text_order(m.desc, b.desc, a.desc);
}

/// Of three transactions in order the last does not sort before the
/// first.
pub proof fn lemma_order_chains(a: TransactionView, m: TransactionView, b: TransactionView)
    requires
        !sorts_before(m, a),
        !sorts_before(b, m),
    ensures
        !sorts_before(b, a),
{
    lemma_transaction_order(b, a, m);
    lemma_transaction_order(a, m, b);
    lemma_transaction_order(m, b, a);
    lemma_transaction_order(m, a, b);
}

/// What is left of a sorted list without its repeats is sorted, ends
/// with the line that the list ends with, and holds no line twice.
pub proof fn lemma_without_repeats(s: Seq<TransactionView>)
    requires
        is_sorted(s),
    ensures
        is_sorted(without_repeats(s)),
        distinct_lines(without_repeats(s)),
        s.len() > 0 ==> without_repeats(s).len() > 0 && same_identity(
            without_repeats(s).last(),
            s.last(),
        ),
        forall|k: int|
            0 <= k < without_repeats(s).len() ==> !sorts_before(
                s.last(),
                #[trigger] without_repeats(s)[k],
            ),
    decreases s.len(),
{
    if s.len() > 0 {
        let rest = s.drop_last();
        let x = s.last();
        assert forall|i: int, j: int| 0 <= i < j < rest.len() implies !sorts_before(
            #[trigger] rest[j],
            #[trigger] rest[i],
        ) by {
            assert(rest[i] == s[i] && rest[j] == s[j]);
        }
        lemma_without_repeats(rest);
        let kept = without_repeats(rest);
        let r = without_repeats(s);
        lemma_transaction_order(x, x, x);
        // every transaction that was kept comes no later than `x`
        assert forall|k: int| 0 <= k < kept.len() implies !sorts_before(x, #[trigger] kept[k]) by {
            assert(rest.len() > 0);
            assert(rest.last() == s[s.len() - 2]);
            assert(x == s[s.len() - 1]);
            assert(!sorts_before(s[s.len() - 1], s[s.len() - 2]));
            lemma_order_chains(kept[k], rest.last(), x);
        }
        if kept.len() > 0 && same_identity(kept.last(), x) {
            assert(r == kept);
        } else {
            assert(r == kept.push(x));
            assert forall|i: int, j: int| 0 <= i < j < r.len() implies !sorts_before(
                #[trigger] r[j],
                #[trigger] r[i],
            ) by {
                if j < kept.len() {
                    assert(r[i] == kept[i] && r[j] == kept[j]);
                } else {
                    assert(r[i] == kept[i]);
                }
            }
            assert forall|i: int, j: int| 0 <= i < j < r.len() implies !same_identity(
                #[trigger] r[i],
                #[trigger] r[j],
            ) by {
                if j < kept.len() {
                    assert(r[i] == kept[i] && r[j] == kept[j]);
                } else {
                    assert(r[i] == kept[i]);
                    if same_identity(kept[i], x) {
                        if i < kept.len() - 1 {
                            assert(!sorts_before(kept[kept.len() - 1], kept[i]));
                        }
                        lemma_between_same_lines(kept[i], kept.last(), x);
                    }
                }
            }
            assert forall|k: int| 0 <= k < r.len() implies !sorts_before(x, #[trigger] r[k]) by {
                if k < kept.len() {
                    assert(r[k] == kept[k]);
                }
            }
        }
    }
}

/// Leaving transactions out of a list that holds no line twice leaves a
/// list that holds no line twice.
pub proof fn lemma_filter_keeps_distinct(
    s: Seq<TransactionView>,
    keep: spec_fn(TransactionView) -> bool,
)
    requires
        distinct_lines(s),
    ensures
        distinct_lines(s.filter(keep)),
        forall|k: int| 0 <= k < s.filter(keep).len() ==> s.contains(#[trigger] s.filter(keep)[k]),
    decreases s.len(),
{
    reveal(Seq::filter);
    if s.len() > 0 {
        let rest = s.drop_last();
        let x = s.last();
        assert forall|i: int, j: int| 0 <= i < j < rest.len() implies !same_identity(
            #[trigger] rest[i],
            #[trigger] rest[j],
        ) by {
            assert(rest[i] == s[i] && rest[j] == s[j]);
        }
        lemma_filter_keeps_distinct(rest, keep);
        let kept = rest.filter(keep);
        let r = s.filter(keep);
        assert forall|k: int| 0 <= k < r.len() implies s.contains(#[trigger] r[k]) by {
            if k < kept.len() {
                assert(r[k] == kept[k]);
                assert(rest.contains(kept[k]));
                let w = choose|w: int| 0 <= w < rest.len() && rest[w] == kept[k];
                assert(s[w] == kept[k]);
            } else {
                assert(r[k] == x);
                assert(s[s.len() - 1] == x);
            }
        }
        if keep(x) {
            assert(r == kept.push(x));
            assert forall|i: int, j: int| 0 <= i < j < r.len() implies !same_identity(
                #[trigger] r[i],
                #[trigger] r[j],
            ) by {
                if j < kept.len() {
                    assert(r[i] == kept[i] && r[j] == kept[j]);
                } else {
                    assert(r[i] == kept[i]);
                    assert(rest.contains(kept[i]));
                    let w = choose|w: int| 0 <= w < rest.len() && rest[w] == kept[i];
                    assert(s[w] == kept[i]);
                    assert(!same_identity(s[w], s[s.len() - 1]));
                }
            }
        }
    }
}

/// A list that was sorted and freed of its repeats holds no line of a
/// statement twice, however much of it is left out after that.
pub proof fn law_cleaned_list_has_distinct_lines(
    s: Seq<TransactionView>,
    keep: spec_fn(TransactionView) -> bool,
)
    ensures
        distinct_lines(without_repeats(sorted_of(s)).filter(keep)),
{
    lemma_sorted_of(s);
    lemma_without_repeats(sorted_of(s));
    lemma_filter_keeps_distinct(without_repeats(sorted_of(s)), keep);
}

/// Sorts a list of transactions by day, then description, then amount.
pub fn sort_transactions(list: &mut Vec<Transaction>)
    ensures
        views_of(final(list)@) == sorted_of(views_of(old(list)@)),
{
    let ghost given = views_of(list@);
    let mut sorted: Vec<Transaction> = Vec::new();
    let mut i: usize = 0;
    proof {
        assert(given.take(0) =~= Seq::<TransactionView>::empty());
        assert(views_of(sorted@) =~= Seq::<TransactionView>::empty());
    }
    while i < list.len()
        invariant
            i <= list.len(),
            given == views_of(list@),
            views_of(sorted@) == sorted_of(given.take(i as int)),
        decreases list.len() - i,
    {
        let x = list[i].clone();
        let mut k: usize = 0;
        while k < sorted.len() && !x.comes_before(&sorted[k])
            invariant
                k <= sorted.len(),
                forall|j: int|
                    0 <= j < k ==> !sorts_before(x@, #[trigger] views_of(sorted@)[j]),
            decreases sorted.len() - k,
        {
            k += 1;
        }
        proof {
            let prior = views_of(sorted@);
            if k < sorted.len() {
                assert(prior[k as int] == sorted@[k as int]@);
            }
            lemma_insert_point_is(prior, x@, k as int);
            assert(given.take(i + 1).drop_last() =~= given.take(i as int));
            assert(given.take(i + 1).last() == x@);
            assert(views_of(sorted@.insert(k as int, x)) =~= prior.insert(k as int, x@));
        }
        sorted.insert(k, x);
        i += 1;
    }
    proof {
        assert(given.take(list.len() as int) =~= given);
    }
    *list = sorted;
}

/// Drops from a list each transaction that is the same line of a
/// statement as the one kept last before it.
pub fn drop_repeats(list: &mut Vec<Transaction>)
    ensures
        views_of(final(list)@) == without_repeats(views_of(old(list)@)),
{
    let ghost given = views_of(list@);
    let mut kept: Vec<Transaction> = Vec::new();
    let mut i: usize = 0;
    proof {
        assert(given.take(0) =~= Seq::<TransactionView>::empty());
        assert(views_of(kept@) =~= Seq::<TransactionView>::empty());
    }
    while i < list.len()
        invariant
            i <= list.len(),
            given == views_of(list@),
            views_of(kept@) == without_repeats(given.take(i as int)),
        decreases list.len() - i,
    {
        proof {
            assert(given.take(i + 1).drop_last() =~= given.take(i as int));
            assert(given.take(i + 1).last() == list@[i as int]@);
            if kept.len() > 0 {
                assert(views_of(kept@).last() == kept@[kept.len() - 1]@);
            }
        }
        let repeats = kept.len() > 0 && kept[kept.len() - 1].same_as(&list[i]);
        if !repeats {
            let x = list[i].clone();
            proof {
                lemma_views_of_push(kept@, x);
            }
            kept.push(x);
        }
        i += 1;
    }
    proof {
        assert(given.take(list.len() as int) =~= given);
    }
    *list = kept;
}

} // verus!
