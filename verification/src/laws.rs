//! What holds of the ledger whatever is done with it.

use crate::dollar::{fits, lemma_round_div_is_near, magnitude, round_div};
use crate::error::LedgerError;
use crate::invariants::{
    law_transfer_keeps_invariants, lemma_add_keeps_wf, lemma_assign_keeps_wf,
    lemma_paycheck_keeps_wf, lemma_remove_keeps_wf, lemma_same_names, lemma_split_keeps_wf,
};
use crate::model::{
    lemma_position_of, lemma_total_take, position_of, ref_of, slot_of, slots_of, split_marks,
    split_shares, sum_balances, total, weights_of, PortfolioView, SplitEntries,
};
use crate::sorting::{sorted_of, without_repeats};
use crate::transaction::{same_identity, TransactionView};
use crate::vope::history_holds;
use vstd::prelude::*;

verus! {

/// One change of a portfolio.
pub enum Operation {
    /// A transaction is assigned under a name.
    Assign { name: Seq<char>, transaction: TransactionView },
    /// A transaction is split among several names.
    Split { entries: SplitEntries, transaction: TransactionView, even: bool },
    /// A paycheck is cashed.
    Paycheck { cents: int },
    /// Money moves from one envelope to another.
    Transfer { from: Seq<char>, to: Seq<char>, cents: int },
    /// An envelope is added.
    Add { name: Seq<char>, budget: int },
    /// An envelope is removed.
    Remove { name: Seq<char> },
}

impl Operation {
    /// The amounts of the operation are amounts that money can hold.
    pub open spec fn valid(self) -> bool {
        match self {
            Operation::Assign { transaction, .. } => fits(transaction.cents),
            Operation::Split { transaction, .. } => fits(transaction.cents),
            Operation::Paycheck { cents } => fits(cents),
            Operation::Transfer { cents, .. } => fits(cents),
            Operation::Add { budget, .. } => fits(budget),
            Operation::Remove { .. } => true,
        }
    }

    /// What the operation makes of a portfolio.
    pub open spec fn outcome(self, p: PortfolioView) -> Result<PortfolioView, LedgerError> {
        match self {
            Operation::Assign { name, transaction } => p.assign_outcome(name, transaction),
            Operation::Split { entries, transaction, even } => match p.split_outcome(
                entries,
                transaction,
                even,
            ) {
                Ok((after, _)) => Ok(after),
                Err(e) => Err(e),
            },
            Operation::Paycheck { cents } => p.paycheck_outcome(cents),
            Operation::Transfer { from, to, cents } => p.transfer_outcome(from, to, cents),
            Operation::Add { name, budget } => p.add_outcome(name, budget),
            Operation::Remove { name } => p.remove_outcome(name),
        }
    }
}

/// What a sequence of operations makes of a portfolio where each of them
/// succeeds.
pub open spec fn run(p: PortfolioView, operations: Seq<Operation>) -> Option<PortfolioView>
    decreases operations.len(),
{
    if operations.len() == 0 {
        Some(p)
    } else {
        match run(p, operations.drop_last()) {
            Some(before) => match operations.last().outcome(before) {
                Ok(after) => Some(after),
                Err(_) => None,
            },
            None => None,
        }
    }
}

/// There is a portfolio, and its holdings are the sum of all its
/// balances.
pub open spec fn holdings_add_up(r: Option<PortfolioView>) -> bool {
    r matches Some(q) && q.holdings == q.total_balance()
}

/// An operation that succeeds on a well-formed portfolio leaves a
/// well-formed portfolio: its holdings are the sum of all balances, its
/// budgeted total is the sum of the targets, and no two envelopes share a
/// name.
pub proof fn law_operation_keeps_invariants(p: PortfolioView, operation: Operation)
    requires
        p.wf(),
        operation.valid(),
        operation.outcome(p) is Ok,
    ensures
        operation.outcome(p)->Ok_0.wf(),
        operation.outcome(p)->Ok_0.holdings == operation.outcome(p)->Ok_0.total_balance(),
{
    match operation {
        Operation::Assign { name, transaction } => {
            lemma_assign_keeps_wf(p, ref_of(name), transaction);
        },
        Operation::Split { entries, transaction, even } => {
            lemma_split_keeps_wf(p, entries, transaction, even);
        },
        Operation::Paycheck { cents } => {
            lemma_paycheck_keeps_wf(p, cents);
        },
        Operation::Transfer { from, to, cents } => {
            law_transfer_keeps_invariants(p, from, to, cents);
        },
        Operation::Add { name, budget } => {
            lemma_add_keeps_wf(p, name, budget);
        },
        Operation::Remove { name } => {
            lemma_remove_keeps_wf(p, name);
        },
    }
}

/// After every operation of a sequence of operations that succeed on a
/// well-formed portfolio, the holdings are the sum of all balances.
pub proof fn law_holdings_are_sum_of_balances(p: PortfolioView, operations: Seq<Operation>)
    requires
        p.wf(),
        forall|k: int| 0 <= k < operations.len() ==> (#[trigger] operations[k]).valid(),
        run(p, operations) is Some,
    ensures
        run(p, operations)->Some_0.wf(),
        run(p, operations)->Some_0.holdings == run(p, operations)->Some_0.total_balance(),
        forall|k: int|
            0 <= k <= operations.len() ==> holdings_add_up(#[trigger] run(p, operations.take(k))),
    decreases operations.len(),
{
    if operations.len() > 0 {
        let earlier = operations.drop_last();
        assert forall|k: int| 0 <= k < earlier.len() implies (#[trigger] earlier[k]).valid() by {
            assert(earlier[k] == operations[k]);
        }
        law_holdings_are_sum_of_balances(p, earlier);
        let before = run(p, earlier)->Some_0;
        assert(operations.last() == operations[operations.len() - 1]);
        law_operation_keeps_invariants(before, operations.last());
        assert forall|k: int| 0 <= k <= operations.len() implies holdings_add_up(
            #[trigger] run(p, operations.take(k)),
        ) by {
            if k == operations.len() {
                assert(operations.take(k) =~= operations);
            } else {
                assert(operations.take(k) =~= earlier.take(k));
            }
        }
    } else {
        assert forall|k: int| 0 <= k <= operations.len() implies holdings_add_up(
            #[trigger] run(p, operations.take(k)),
        ) by {
            assert(operations.take(k) =~= operations);
        }
    }
}

/// A transfer and the same transfer back leave the portfolio as it was:
/// where the first succeeds, so does the second, and both balances are
/// what they were.
pub proof fn law_transfer_back_restores(p: PortfolioView, a: Seq<char>, b: Seq<char>, cents: int)
    requires
        p.wf(),
        p.transfer_outcome(a, b, cents) is Ok,
    ensures
        p.transfer_outcome(a, b, cents)->Ok_0.transfer_outcome(b, a, cents) == Ok::<
            PortfolioView,
            LedgerError,
        >(p),
{
    let q = p.transfer_outcome(a, b, cents)->Ok_0;
    let i = position_of(p.envelopes, a);
    let j = position_of(p.envelopes, b);
    lemma_position_of(p.envelopes, a);
    lemma_position_of(p.envelopes, b);
    if i != j {
        lemma_same_names(p, q);
        let back = q.transfer_outcome(b, a, cents)->Ok_0;
        assert(fits(p.envelopes[i].balance) && fits(p.envelopes[j].balance));
        assert(back.envelopes =~= p.envelopes);
    }
}

/// A paycheck that is cashed goes to the envelopes to the cent: the
/// balances of the envelopes grow by the paycheck in all, the other
/// balances stay, and the holdings grow by the paycheck.
pub proof fn law_paycheck_is_conserved(p: PortfolioView, cents: int)
    requires
        p.wf(),
        p.paycheck_outcome(cents) is Ok,
    ensures
        ({
            let q = p.paycheck_outcome(cents)->Ok_0;
            &&& sum_balances(q.envelopes) == sum_balances(p.envelopes) + cents
            &&& q.unassigned.balance == p.unassigned.balance
            &&& q.ignored.balance == p.ignored.balance
            &&& q.holdings == p.holdings + cents
            &&& q.total_balance() == p.total_balance() + cents
        }),
{
    lemma_paycheck_keeps_wf(p, cents);
}

/// Whether a history holds a transaction depends on its day and its
/// description alone.
pub proof fn lemma_categorized_by_identity(p: PortfolioView, t: TransactionView, u: TransactionView)
    requires
        same_identity(t, u),
    ensures
        p.categorized(t) == p.categorized(u),
{
    lemma_history_by_identity(p.unassigned.history, t, u);
    lemma_history_by_identity(p.ignored.history, t, u);
    assert forall|i: int| 0 <= i < p.envelopes.len() implies history_holds(
        #[trigger] p.envelopes[i].history,
        t,
    ) == history_holds(p.envelopes[i].history, u) by {
        lemma_history_by_identity(p.envelopes[i].history, t, u);
    }
}

proof fn lemma_history_by_identity(
    history: Seq<TransactionView>,
    t: TransactionView,
    u: TransactionView,
)
    requires
        same_identity(t, u),
    ensures
        history_holds(history, t) == history_holds(history, u),
{
    if history_holds(history, t) {
        let k = choose|k: int| 0 <= k < history.len() && same_identity(#[trigger] history[k], t);
        assert(same_identity(history[k], u));
    }
    if history_holds(history, u) {
        let k = choose|k: int| 0 <= k < history.len() && same_identity(#[trigger] history[k], u);
        assert(same_identity(history[k], t));
    }
}

/// A transaction that some history holds is never offered again: what is
/// left of a list of candidates holds no transaction of the same day and
/// description, whatever else the list holds.
pub proof fn law_categorized_is_not_offered(
    p: PortfolioView,
    t: TransactionView,
    candidates: Seq<TransactionView>,
)
    requires
        p.categorized(t),
    ensures
        forall|k: int|
            0 <= k < p.uncategorized(candidates).len() ==> !same_identity(
                #[trigger] p.uncategorized(candidates)[k],
                t,
            ),
        forall|k: int|
            0 <= k < p.uncategorized(without_repeats(sorted_of(candidates))).len()
                ==> !same_identity(
                #[trigger] p.uncategorized(without_repeats(sorted_of(candidates)))[k],
                t,
            ),
{
    lemma_not_offered(p, t, candidates);
    lemma_not_offered(p, t, without_repeats(sorted_of(candidates)));
}

proof fn lemma_not_offered(p: PortfolioView, t: TransactionView, list: Seq<TransactionView>)
    requires
        p.categorized(t),
    ensures
        forall|k: int|
            0 <= k < p.uncategorized(list).len() ==> !same_identity(
                #[trigger] p.uncategorized(list)[k],
                t,
            ),
{
    let keep = |t: TransactionView| !p.categorized(t);
    let left = list.filter(keep);
    broadcast use vstd::seq_lib::group_filter_ensures;

    assert forall|k: int| 0 <= k < left.len() implies !same_identity(#[trigger] left[k], t) by {
        assert(keep(left[k]));
        if same_identity(left[k], t) {
            lemma_categorized_by_identity(p, left[k], t);
        }
    }
}

/// A transaction that was assigned is held by a history: it will not be
/// offered again.
pub proof fn law_assigned_is_categorized(p: PortfolioView, name: Seq<char>, t: TransactionView)
    requires
        p.wf(),
        p.assign_outcome(name, t) is Ok,
    ensures
        p.assign_outcome(name, t)->Ok_0.categorized(t),
{
    let q = p.assign_outcome(name, t)->Ok_0;
    if crate::model::is_salary(name) {
        let h = q.unassigned.history;
        assert(h[h.len() - 1] == t);
        assert(same_identity(h[h.len() - 1], t));
    } else if crate::model::is_ignore(name) {
        let h = q.ignored.history;
        assert(h[h.len() - 1] == t);
        assert(same_identity(h[h.len() - 1], t));
    } else {
        let i = position_of(p.envelopes, name);
        lemma_position_of(p.envelopes, name);
        let h = q.envelopes[i].history;
        assert(h[h.len() - 1] == t);
        assert(same_identity(h[h.len() - 1], t));
        assert(history_holds(q.envelopes[i].history, t));
    }
}

/// A transaction that was split among at least one name is held by a
/// history: it will not be offered again.
pub proof fn law_split_is_categorized(
    p: PortfolioView,
    entries: SplitEntries,
    t: TransactionView,
    even: bool,
)
    requires
        p.wf(),
        entries.len() > 0,
        p.split_outcome(entries, t, even) is Ok,
    ensures
        p.split_outcome(entries, t, even)->Ok_0.0.categorized(t),
{
    let q = p.split_outcome(entries, t, even)->Ok_0.0;
    let count = p.envelopes.len() as int;
    let slots = slots_of(p.envelopes, entries);
    let marks = split_marks(slots, count);
    let s = slot_of(p.envelopes, entries[0].0);
    assert(slots[0] == s);
    assert(slots.contains(s));
    assert(p.contains(entries[0].0));
    lemma_position_of(p.envelopes, entries[0].0);
    if s == count {
        assert(marks[count]);
        let h = q.ignored.history;
        assert(h[h.len() - 1] == t);
        assert(same_identity(h[h.len() - 1], t));
    } else {
        assert(0 <= s < count);
        assert(marks[s]);
        assert(marks.take(count)[s]);
        let h = q.envelopes[s].history;
        assert(h[h.len() - 1] == t);
        assert(same_identity(h[h.len() - 1], t));
        assert(history_holds(q.envelopes[s].history, t));
    }
}

/// The shares of the first `k` entries of a split by weight differ from
/// what falls to their weights by no more than half a cent each.
proof fn lemma_split_drift(entries: SplitEntries, amount: int, k: int)
    requires
        0 <= k <= entries.len(),
        total(weights_of(entries)) > 0,
    ensures
        ({
            let all = total(weights_of(entries));
            let shares = split_shares(entries, amount, false);
            -k * all <= 2 * (all * total(shares.take(k)) - amount * total(
                weights_of(entries).take(k),
            )) <= k * all
        }),
    decreases k,
{
    let all = total(weights_of(entries));
    let weights = weights_of(entries);
    let shares = split_shares(entries, amount, false);
    if k == 0 {
        assert(shares.take(0) =~= Seq::<int>::empty());
        assert(weights.take(0) =~= Seq::<int>::empty());
    } else {
        lemma_split_drift(entries, amount, k - 1);
        lemma_total_take(shares, k - 1);
        lemma_total_take(weights, k - 1);
        let w = weights[k - 1];
        let share = shares[k - 1];
        assert(share == round_div(amount * w, all));
        lemma_round_div_is_near(amount * w, all);
        let s0 = total(shares.take(k - 1));
        let w0 = total(weights.take(k - 1));
        assert(-k * all <= 2 * (all * (s0 + share) - amount * (w0 + w)) <= k * all)
            by (nonlinear_arith)
            requires
                -(k - 1) * all <= 2 * (all * s0 - amount * w0) <= (k - 1) * all,
                -all <= 2 * (share * all - amount * w) <= all,
                all > 0,
        ;
    }
}

/// The shares of a split by weight exceed the transaction, or fall short
/// of it, by no more than half a cent for each entry.
pub proof fn law_weighted_split_drift(entries: SplitEntries, amount: int)
    requires
        total(weights_of(entries)) > 0,
    ensures
        2 * magnitude(total(split_shares(entries, amount, false)) - amount) <= entries.len(),
{
    let all = total(weights_of(entries));
    let weights = weights_of(entries);
    let shares = split_shares(entries, amount, false);
    let n = entries.len() as int;
    lemma_split_drift(entries, amount, n);
    assert(shares.take(n) =~= shares);
    assert(weights.take(n) =~= weights);
    let paid = total(shares);
    assert(2 * magnitude(paid - amount) <= n) by (nonlinear_arith)
        requires
            -n * all <= 2 * (all * paid - amount * all) <= n * all,
            all > 0,
    {
        assert(all * paid - amount * all == all * (paid - amount));
        if 2 * (paid - amount) > n {
            assert(all * (2 * (paid - amount)) >= all * (n + 1));
        }
        if 2 * (paid - amount) < -n {
            assert(all * (2 * (paid - amount)) <= all * (-n - 1));
        }
    }
}

/// The shares of the first `k` entries of an even split differ from the
/// same part of the transaction by no more than half a cent each.
proof fn lemma_even_drift(entries: SplitEntries, amount: int, k: int)
    requires
        0 <= k <= entries.len(),
    ensures
        ({
            let n = entries.len() as int;
            let shares = split_shares(entries, amount, true);
            -k * n <= 2 * (n * total(shares.take(k)) - amount * k) <= k * n
        }),
    decreases k,
{
    let n = entries.len() as int;
    let shares = split_shares(entries, amount, true);
    if k == 0 {
        assert(shares.take(0) =~= Seq::<int>::empty());
    } else {
        lemma_even_drift(entries, amount, k - 1);
        lemma_total_take(shares, k - 1);
        let share = shares[k - 1];
        assert(share == round_div(amount, n));
        lemma_round_div_is_near(amount, n);
        let s0 = total(shares.take(k - 1));
        assert(-k * n <= 2 * (n * (s0 + share) - amount * k) <= k * n) by (nonlinear_arith)
            requires
                -(k - 1) * n <= 2 * (n * s0 - amount * (k - 1)) <= (k - 1) * n,
                -n <= 2 * (share * n - amount) <= n,
                n > 0,
        ;
    }
}

/// The shares of an even split exceed the transaction, or fall short of
/// it, by no more than half a cent for each entry.
pub proof fn law_even_split_drift(entries: SplitEntries, amount: int)
    requires
        entries.len() > 0,
    ensures
        2 * magnitude(total(split_shares(entries, amount, true)) - amount) <= entries.len(),
{
    let shares = split_shares(entries, amount, true);
    let n = entries.len() as int;
    lemma_even_drift(entries, amount, n);
    assert(shares.take(n) =~= shares);
    let paid = total(shares);
    assert(2 * magnitude(paid - amount) <= n) by (nonlinear_arith)
        requires
            -n * n <= 2 * (n * paid - amount * n) <= n * n,
            n > 0,
    {
        assert(n * paid - amount * n == n * (paid - amount));
        if 2 * (paid - amount) > n {
            assert(n * (2 * (paid - amount)) >= n * (n + 1));
        }
        if 2 * (paid - amount) < -n {
            assert(n * (2 * (paid - amount)) <= n * (-n - 1));
        }
    }
}

} // verus!
