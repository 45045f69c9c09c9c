//! Every operation leaves a well-formed portfolio well-formed.

use crate::dollar::fits;
use crate::model::{
    balances_of, budgets_of, credit_each, is_reserved, lemma_credit_each,
    lemma_paycheck_credits_total, lemma_position_is, lemma_position_of, lemma_total_push,
    lemma_total_remove, lemma_total_update, paycheck_credits, position_of, record_each, slots_of,
    split_credits, split_marks, split_shares, sum_balances, with_balance, EnvelopeRefView,
    PortfolioView, SplitEntries,
};
use crate::text::same_ignoring_case;
use crate::transaction::TransactionView;
use crate::vope::VopeView;
use vstd::prelude::*;

verus! {

/// Adding an envelope keeps a portfolio well-formed.
pub proof fn lemma_add_keeps_wf(p: PortfolioView, name: Seq<char>, budget: int)
    requires
        p.wf(),
        fits(budget),
        p.add_outcome(name, budget) is Ok,
    ensures
        p.add_outcome(name, budget)->Ok_0.wf(),
{
    let q = p.add_outcome(name, budget)->Ok_0;
    let added = VopeView { name, budget, balance: 0, history: Seq::empty() };
    lemma_position_of(p.envelopes, name);
    assert(balances_of(q.envelopes) =~= balances_of(p.envelopes).push(0));
    assert(budgets_of(q.envelopes) =~= budgets_of(p.envelopes).push(budget));
    lemma_total_push(balances_of(p.envelopes), 0);
    lemma_total_push(budgets_of(p.envelopes), budget);
    assert forall|i: int, j: int| 0 <= i < j < q.envelopes.len() implies !same_ignoring_case(
        #[trigger] q.envelopes[i].name,
        #[trigger] q.envelopes[j].name,
    ) by {
        if j < p.envelopes.len() {
            assert(q.envelopes[i] == p.envelopes[i] && q.envelopes[j] == p.envelopes[j]);
        } else {
            assert(q.envelopes[i] == p.envelopes[i]);
        }
    }
    assert forall|i: int| 0 <= i < q.envelopes.len() implies !is_reserved(
        #[trigger] q.envelopes[i].name,
    ) by {
        if i < p.envelopes.len() {
            assert(q.envelopes[i] == p.envelopes[i]);
        }
    }
    assert forall|i: int| 0 <= i < q.envelopes.len() implies fits(
        #[trigger] q.envelopes[i].balance,
    ) && fits(q.envelopes[i].budget) by {
        if i < p.envelopes.len() {
            assert(q.envelopes[i] == p.envelopes[i]);
        }
    }
}

/// Removing an envelope keeps a portfolio well-formed, and keeps its
/// holdings.
pub proof fn lemma_remove_keeps_wf(p: PortfolioView, name: Seq<char>)
    requires
        p.wf(),
        p.remove_outcome(name) is Ok,
    ensures
        p.remove_outcome(name)->Ok_0.wf(),
{
    let q = p.remove_outcome(name)->Ok_0;
    let i = position_of(p.envelopes, name);
    lemma_position_of(p.envelopes, name);
    let moved = p.envelopes[0].balance + p.envelopes[i].balance;
    let e1 = p.envelopes.update(0, with_balance(p.envelopes[0], moved));
    assert(balances_of(e1) =~= balances_of(p.envelopes).update(0, moved));
    assert(balances_of(q.envelopes) =~= balances_of(e1).remove(i));
    assert(budgets_of(e1) =~= budgets_of(p.envelopes));
    assert(budgets_of(q.envelopes) =~= budgets_of(e1).remove(i));
    lemma_total_update(balances_of(p.envelopes), 0, moved);
    lemma_total_remove(balances_of(e1), i);
    lemma_total_remove(budgets_of(e1), i);
    assert forall|a: int| 0 <= a < q.envelopes.len() implies #[trigger] q.envelopes[a].name
        == p.envelopes[if a < i {
        a
    } else {
        a + 1
    }].name && fits(q.envelopes[a].balance) && fits(q.envelopes[a].budget) && !is_reserved(
        q.envelopes[a].name,
    ) by {
        let b = if a < i {
            a
        } else {
            a + 1
        };
        assert(q.envelopes[a] == e1[b]);
        assert(fits(p.envelopes[b].balance));
        assert(!is_reserved(p.envelopes[b].name));
    }
    assert forall|a: int, b: int| 0 <= a < b < q.envelopes.len() implies !same_ignoring_case(
        #[trigger] q.envelopes[a].name,
        #[trigger] q.envelopes[b].name,
    ) by {
        let a1 = if a < i {
            a
        } else {
            a + 1
        };
        let b1 = if b < i {
            b
        } else {
            b + 1
        };
        assert(q.envelopes[a].name == p.envelopes[a1].name);
        assert(q.envelopes[b].name == p.envelopes[b1].name);
        assert(!same_ignoring_case(p.envelopes[a1].name, p.envelopes[b1].name));
    }
}

/// Cashing a paycheck keeps a portfolio well-formed, and its holdings
/// grow by the paycheck.
pub proof fn lemma_paycheck_keeps_wf(p: PortfolioView, amount: int)
    requires
        p.wf(),
        p.paycheck_outcome(amount) is Ok,
    ensures
        p.paycheck_outcome(amount)->Ok_0.wf(),
        p.paycheck_outcome(amount)->Ok_0.total_balance() == p.total_balance() + amount,
{
    let q = p.paycheck_outcome(amount)->Ok_0;
    let credits = paycheck_credits(p.envelopes, p.budgeted, amount);
    lemma_credit_each(p.envelopes, credits);
    lemma_paycheck_credits_total(p.envelopes, p.budgeted, amount);
    assert(q.envelopes == credit_each(p.envelopes, credits));
    assert(q.totals_ok());
    assert forall|i: int| 0 <= i < q.envelopes.len() implies #[trigger] q.envelopes[i].name
        == p.envelopes[i].name && fits(q.envelopes[i].balance) && fits(q.envelopes[i].budget) by {
        assert(balances_of(q.envelopes)[i] == q.envelopes[i].balance);
        assert(fits(p.envelopes[i].budget));
    }
    assert forall|i: int, j: int| 0 <= i < j < q.envelopes.len() implies !same_ignoring_case(
        #[trigger] q.envelopes[i].name,
        #[trigger] q.envelopes[j].name,
    ) by {
        assert(q.envelopes[i].name == p.envelopes[i].name);
        assert(q.envelopes[j].name == p.envelopes[j].name);
    }
    assert forall|i: int| 0 <= i < q.envelopes.len() implies !is_reserved(
        #[trigger] q.envelopes[i].name,
    ) by {
        assert(q.envelopes[i].name == p.envelopes[i].name);
    }
    assert forall|i: int| 0 <= i < q.envelopes.len() implies fits(
        #[trigger] q.envelopes[i].balance,
    ) && fits(q.envelopes[i].budget) by {
        assert(balances_of(q.envelopes)[i] == q.envelopes[i].balance);
        assert(fits(p.envelopes[i].budget));
    }
}

/// Assigning a transaction keeps a portfolio well-formed.
pub proof fn lemma_assign_keeps_wf(p: PortfolioView, target: EnvelopeRefView, t: TransactionView)
    requires
        p.wf(),
        p.assign_to_outcome(target, t) is Ok,
    ensures
        p.assign_to_outcome(target, t)->Ok_0.wf(),
{
    let q = p.assign_to_outcome(target, t)->Ok_0;
    match target {
        EnvelopeRefView::UnassignedIncome => {
            lemma_paycheck_keeps_wf(p, t.cents);
        },
        EnvelopeRefView::Ignored => {},
        EnvelopeRefView::User(name) => {
            let i = position_of(p.envelopes, name);
            lemma_position_of(p.envelopes, name);
            let b = p.envelopes[i].balance + t.cents;
            assert(balances_of(q.envelopes) =~= balances_of(p.envelopes).update(i, b));
            assert(budgets_of(q.envelopes) =~= budgets_of(p.envelopes));
            lemma_total_update(balances_of(p.envelopes), i, b);
            assert forall|k: int| 0 <= k < q.envelopes.len() implies #[trigger] q.envelopes[k].name
                == p.envelopes[k].name by {}
            assert forall|k: int| 0 <= k < q.envelopes.len() implies fits(
                #[trigger] q.envelopes[k].balance,
            ) && fits(q.envelopes[k].budget) by {
                assert(fits(p.envelopes[k].balance) && fits(p.envelopes[k].budget));
            }
            assert forall|a: int, c: int|
                0 <= a < c < q.envelopes.len() implies !same_ignoring_case(
                #[trigger] q.envelopes[a].name,
                #[trigger] q.envelopes[c].name,
            ) by {
                assert(q.envelopes[a].name == p.envelopes[a].name);
                assert(q.envelopes[c].name == p.envelopes[c].name);
            }
            assert forall|k: int| 0 <= k < q.envelopes.len() implies !is_reserved(
                #[trigger] q.envelopes[k].name,
            ) by {
                assert(q.envelopes[k].name == p.envelopes[k].name);
            }
        },
    }
}

/// Splitting a transaction keeps a portfolio well-formed.
pub proof fn lemma_split_keeps_wf(
    p: PortfolioView,
    entries: SplitEntries,
    t: TransactionView,
    even: bool,
)
    requires
        p.wf(),
        p.split_outcome(entries, t, even) is Ok,
    ensures
        p.split_outcome(entries, t, even)->Ok_0.0.wf(),
{
    let q = p.split_outcome(entries, t, even)->Ok_0.0;
    let count = p.envelopes.len() as int;
    let slots = slots_of(p.envelopes, entries);
    let shares = split_shares(entries, t.cents, even);
    let credits = split_credits(slots, shares, count);
    let marks = split_marks(slots, count);
    let credited = credit_each(p.envelopes, credits.take(count));
    assert(q.envelopes == record_each(credited, marks.take(count), t));
    assert(budgets_of(q.envelopes) =~= budgets_of(p.envelopes));
    assert forall|i: int| 0 <= i < q.envelopes.len() implies #[trigger] q.envelopes[i].name
        == p.envelopes[i].name by {}
    assert forall|i: int| 0 <= i < q.envelopes.len() implies fits(
        #[trigger] q.envelopes[i].balance,
    ) && fits(q.envelopes[i].budget) by {
        assert(balances_of(q.envelopes)[i] == q.envelopes[i].balance);
        assert(fits(p.envelopes[i].budget));
    }
    assert forall|a: int, c: int| 0 <= a < c < q.envelopes.len() implies !same_ignoring_case(
        #[trigger] q.envelopes[a].name,
        #[trigger] q.envelopes[c].name,
    ) by {
        assert(q.envelopes[a].name == p.envelopes[a].name);
        assert(q.envelopes[c].name == p.envelopes[c].name);
    }
    assert forall|k: int| 0 <= k < q.envelopes.len() implies !is_reserved(
        #[trigger] q.envelopes[k].name,
    ) by {
        assert(q.envelopes[k].name == p.envelopes[k].name);
    }
}

/// Moving money between two envelopes keeps the sum of all balances.
pub proof fn lemma_transfer_keeps_total(p: PortfolioView, i: int, j: int, cents: int)
    requires
        0 <= i < p.envelopes.len(),
        0 <= j < p.envelopes.len(),
        i != j,
    ensures
        sum_balances(
            p.envelopes.update(i, with_balance(p.envelopes[i], p.envelopes[i].balance - cents)).update(
                j,
                with_balance(p.envelopes[j], p.envelopes[j].balance + cents),
            ),
        ) == sum_balances(p.envelopes),
{
    let e1 = p.envelopes.update(i, with_balance(p.envelopes[i], p.envelopes[i].balance - cents));
    let e2 = e1.update(j, with_balance(p.envelopes[j], p.envelopes[j].balance + cents));
    assert(balances_of(e1) =~= balances_of(p.envelopes).update(i, p.envelopes[i].balance - cents));
    assert(balances_of(e2) =~= balances_of(e1).update(j, p.envelopes[j].balance + cents));
    lemma_total_update(balances_of(p.envelopes), i, p.envelopes[i].balance - cents);
    lemma_total_update(balances_of(e1), j, p.envelopes[j].balance + cents);
}

/// A transfer that succeeds on a well-formed portfolio leaves a
/// well-formed portfolio with the same holdings.
pub proof fn law_transfer_keeps_invariants(
    p: PortfolioView,
    from: Seq<char>,
    to: Seq<char>,
    cents: int,
)
    requires
        p.wf(),
        p.transfer_outcome(from, to, cents) is Ok,
    ensures
        p.transfer_outcome(from, to, cents)->Ok_0.wf(),
        p.transfer_outcome(from, to, cents)->Ok_0.holdings == p.holdings,
{
    let q = p.transfer_outcome(from, to, cents)->Ok_0;
    let i = position_of(p.envelopes, from);
    let j = position_of(p.envelopes, to);
    lemma_position_of(p.envelopes, from);
    lemma_position_of(p.envelopes, to);
    if i != j {
        lemma_transfer_keeps_total(p, i, j, cents);
        assert(budgets_of(q.envelopes) =~= budgets_of(p.envelopes));
        lemma_same_names(p, q);
        assert forall|k: int| 0 <= k < q.envelopes.len() implies fits(
            #[trigger] q.envelopes[k].balance,
        ) && fits(q.envelopes[k].budget) by {
            assert(fits(p.envelopes[k].balance) && fits(p.envelopes[k].budget));
        }
    }
}

/// A portfolio with the names of a portfolio whose names are in order has
/// its names in order.
pub proof fn lemma_same_names(p: PortfolioView, q: PortfolioView)
    requires
        p.names_ok(),
        q.envelopes.len() == p.envelopes.len(),
        forall|k: int|
            0 <= k < p.envelopes.len() ==> (#[trigger] q.envelopes[k]).name == p.envelopes[k].name,
        q.unassigned == p.unassigned,
        q.ignored.name == p.ignored.name,
        q.ignored.budget == p.ignored.budget,
    ensures
        q.names_ok(),
        forall|name: Seq<char>| position_of(q.envelopes, name) == position_of(p.envelopes, name),
{
    assert forall|a: int, c: int| 0 <= a < c < q.envelopes.len() implies !same_ignoring_case(
        #[trigger] q.envelopes[a].name,
        #[trigger] q.envelopes[c].name,
    ) by {
        assert(q.envelopes[a].name == p.envelopes[a].name);
        assert(q.envelopes[c].name == p.envelopes[c].name);
    }
    assert forall|k: int| 0 <= k < q.envelopes.len() implies !is_reserved(
        #[trigger] q.envelopes[k].name,
    ) by {
        assert(q.envelopes[k].name == p.envelopes[k].name);
    }
    assert forall|name: Seq<char>| position_of(q.envelopes, name) == position_of(
        p.envelopes,
        name,
    ) by {
        lemma_position_of(p.envelopes, name);
        let i = position_of(p.envelopes, name);
        assert forall|k: int| 0 <= k < i implies !same_ignoring_case(
            #[trigger] q.envelopes[k].name,
            name,
        ) by {
            assert(q.envelopes[k].name == p.envelopes[k].name);
        }
        if i < p.envelopes.len() {
            assert(q.envelopes[i].name == p.envelopes[i].name);
        }
        lemma_position_is(q.envelopes, name, i);
    }
}

} // verus!
