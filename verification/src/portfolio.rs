//! The portfolio: all envelopes of one account and the operations that
//! move money between them.

use crate::dollar::{clamp, clamp_wide, fits, lemma_product_bound, round_div_wide, Dollar};
use crate::error::LedgerError;
use crate::invariants::{
    lemma_add_keeps_wf, lemma_assign_keeps_wf, lemma_paycheck_keeps_wf, lemma_remove_keeps_wf,
    lemma_split_keeps_wf, lemma_transfer_keeps_total,
};
use crate::model::{
    all_fit, balances_of, budgets_of, credit_each, default_name, ignore_name, is_ignore,
    is_reserved, is_salary, lemma_position_is, lemma_total_bounds, lemma_total_push,
    lemma_total_sum, lemma_total_take, names_distinct, paycheck_credits, paycheck_portions,
    position_of, record_each, ref_of, restored, salary_name, slot_of, slots_of, split_credits,
    split_marks, sum_balances, sum_budgets, summary_line, summary_lines, total, with_balance,
    with_balances, with_record, EnvelopeRefView, PortfolioView,
};
use crate::sorting::{
    distinct_lines, drop_repeats, law_cleaned_list_has_distinct_lines, sort_transactions,
    sorted_of, without_repeats,
};
use crate::split::{
    credit_sums, entries_of, ints_of, lemma_count_bounds, marks_of, shares_of, slot_ints, sum_of,
    total_weight,
};
use crate::text::{eq_ignoring_case, same_ignoring_case};
use crate::transaction::{Transaction, TransactionView};
use crate::vope::{history_holds, lemma_views_of_push, views_of, Vope, VopeView};
use vstd::prelude::*;
use vstd::string::StringExecFns;

verus! {

/// All envelopes of one account: the default envelope, those that the
/// user added, and the two reserved ones.
#[derive(Debug)]
pub struct Portfolio {
    envelopes: Vec<Vope>,
    unassigned: Vope,
    ignored: Vope,
    budgeted: Dollar,
    holdings: Dollar,
    paycheck: Dollar,
}

/// What a transaction is assigned to: an envelope by its name, the
/// income that is yet to be handed out, or what the budget leaves out.
#[derive(Debug)]
pub enum EnvelopeRef {
    User(String),
    UnassignedIncome,
    Ignored,
}

impl View for EnvelopeRef {
    type V = EnvelopeRefView;

    open spec fn view(&self) -> EnvelopeRefView {
        match self {
            EnvelopeRef::User(name) => EnvelopeRefView::User(name@),
            EnvelopeRef::UnassignedIncome => EnvelopeRefView::UnassignedIncome,
            EnvelopeRef::Ignored => EnvelopeRefView::Ignored,
        }
    }
}

impl EnvelopeRef {
    /// What a name stands for: the income under its reserved name, what
    /// the budget leaves out under its reserved name, and under any other
    /// name the envelope of that name.
    pub fn from_name(name: &str) -> (r: EnvelopeRef)
        ensures
            r@ == ref_of(name@),
    {
        if names_salary(name) {
            EnvelopeRef::UnassignedIncome
        } else if names_ignore(name) {
            EnvelopeRef::Ignored
        } else {
            EnvelopeRef::User(String::from_str(name))
        }
    }
}

/// What the contracts see of a list of envelopes.
pub open spec fn vope_views(list: Seq<Vope>) -> Seq<VopeView> {
    list.map_values(|v: Vope| v@)
}

/// Whether `name` is the name under which income is assigned.
pub fn names_salary(name: &str) -> (r: bool)
    ensures
        r == is_salary(name@),
{
    eq_ignoring_case(name, "Salary")
}

/// Whether `name` is the name under which transactions are assigned
/// that the budget leaves out.
pub fn names_ignore(name: &str) -> (r: bool)
    ensures
        r == is_ignore(name@),
{
    eq_ignoring_case(name, "Ignore")
}

/// The three given names differ from each other in more than letter
/// case.
pub proof fn lemma_given_names_differ()
    ensures
        !is_reserved(default_name()),
        !is_ignore(salary_name()),
        !is_salary(ignore_name()),
        is_salary(salary_name()),
        is_ignore(ignore_name()),
{
    reveal_strlit("Salary");
    reveal_strlit("Ignore");
    reveal_strlit("Default");
    assert(salary_name()[0] == 'S');
    assert(ignore_name()[0] == 'I');
    assert(crate::text::lower('S') != crate::text::lower('I'));
}

impl View for Portfolio {
    type V = PortfolioView;

    closed spec fn view(&self) -> PortfolioView {
        PortfolioView {
            envelopes: vope_views(self.envelopes@),
            unassigned: self.unassigned@,
            ignored: self.ignored@,
            budgeted: self.budgeted.cents as int,
            holdings: self.holdings.cents as int,
            paycheck: self.paycheck.cents as int,
        }
    }
}

impl Portfolio {
    /// What holds of every portfolio between two operations.
    pub open spec fn wf(&self) -> bool {
        self@.wf()
    }

    /// A new portfolio as the contracts see it.
    pub open spec fn new_view(default_target: int, paycheck: int) -> PortfolioView {
        PortfolioView {
            envelopes: seq![
                VopeView {
                    name: default_name(),
                    budget: default_target,
                    balance: 0,
                    history: Seq::empty(),
                },
            ],
            unassigned: VopeView {
                name: salary_name(),
                budget: 0,
                balance: 0,
                history: Seq::empty(),
            },
            ignored: VopeView { name: ignore_name(), budget: 0, balance: 0, history: Seq::empty() },
            budgeted: default_target,
            holdings: 0,
            paycheck,
        }
    }

    /// A portfolio with a default envelope of the given target, the two
    /// reserved envelopes, no money and no history.
    pub fn new(default_target: Dollar, paycheck: Dollar) -> (p: Portfolio)
        ensures
            p.wf(),
            p@ == Portfolio::new_view(default_target.cents as int, paycheck.cents as int),
    {
        let mut envelopes: Vec<Vope> = Vec::new();
        envelopes.push(Vope::new(String::from_str("Default"), default_target));
        let p = Portfolio {
            envelopes,
            unassigned: Vope::new(String::from_str("Salary"), Dollar::zero()),
            ignored: Vope::new(String::from_str("Ignore"), Dollar::zero()),
            budgeted: default_target,
            holdings: Dollar::zero(),
            paycheck,
        };
        proof {
            lemma_given_names_differ();
            let e = p@.envelopes;
            assert(e =~= Portfolio::new_view(
                default_target.cents as int,
                paycheck.cents as int,
            ).envelopes);
            assert(e.len() == 1);
            assert(e.drop_last().len() == 0);
            assert(balances_of(e) =~= seq![0int]);
            assert(budgets_of(e) =~= seq![default_target.cents as int]);
            assert(seq![0int].drop_last() =~= Seq::<int>::empty());
            assert(seq![default_target.cents as int].drop_last() =~= Seq::<int>::empty());
            assert(total(seq![0int]) == 0) by {
                reveal_with_fuel(total, 2);
            }
            assert(total(seq![default_target.cents as int]) == default_target.cents) by {
                reveal_with_fuel(total, 2);
            }
        }
        p
    }

    /// The portfolio that stored parts make: the envelopes, the default
    /// envelope first, the history of the income, history and balance of
    /// what the budget leaves out, and the size of a paycheck. The totals
    /// are counted from the envelopes, whatever was stored of them.
    pub fn from_parts(
        envelopes: Vec<Vope>,
        income: Vec<Transaction>,
        ignored: Vec<Transaction>,
        ignored_balance: Dollar,
        paycheck: Dollar,
    ) -> (r: Result<Portfolio, LedgerError>)
        ensures
            match restored(
                vope_views(envelopes@),
                views_of(income@),
                views_of(ignored@),
                ignored_balance.cents as int,
                paycheck.cents as int,
            ) {
                Ok(view) => r matches Ok(p) && p@ == view && p.wf(),
                Err(e) => r matches Err(err) && err == e,
            },
    {
        if envelopes.len() == 0 {
            return Err(LedgerError::UnknownEnvelope);
        }
        if !has_distinct_names(&envelopes) {
            return Err(LedgerError::DuplicateName);
        }
        let budgeted: i128 = sum_of_budgets(&envelopes);
        if budgeted < i64::MIN as i128 || budgeted > i64::MAX as i128 {
            return Err(LedgerError::AmountOutOfRange);
        }
        let balances: i128 = sum_of_balances(&envelopes);
        let holdings: i128 = match balances.checked_add(ignored_balance.cents as i128) {
            Some(x) => x,
            None => {
                return Err(LedgerError::AmountOutOfRange);
            },
        };
        if holdings < i64::MIN as i128 || holdings > i64::MAX as i128 {
            return Err(LedgerError::AmountOutOfRange);
        }
        let p = Portfolio {
            envelopes,
            unassigned: Vope {
                name: String::from_str("Salary"),
                budget: Dollar::zero(),
                actual_amount: Dollar::zero(),
                transactions: income,
            },
            ignored: Vope {
                name: String::from_str("Ignore"),
                budget: Dollar::zero(),
                actual_amount: ignored_balance,
                transactions: ignored,
            },
            budgeted: Dollar { cents: budgeted as i64 },
            holdings: Dollar { cents: holdings as i64 },
            paycheck,
        };
        Ok(p)
    }

    /// Whether the portfolio is well-formed. Every portfolio that `new` or
    /// `from_parts` made is, and stays so under every operation.
    pub fn is_well_formed(&self) -> (ok: bool)
        ensures
            ok == self.wf(),
    {
        if self.envelopes.len() == 0 || !has_distinct_names(&self.envelopes) {
            return false;
        }
        if self.unassigned.name != String::from_str("Salary") || self.unassigned.budget.cents != 0
            || self.unassigned.actual_amount.cents != 0 {
            return false;
        }
        if self.ignored.name != String::from_str("Ignore") || self.ignored.budget.cents != 0 {
            return false;
        }
        let budgeted: i128 = sum_of_budgets(&self.envelopes);
        let balances: i128 = sum_of_balances(&self.envelopes);
        let holdings: i128 = match balances.checked_add(self.ignored.actual_amount.cents as i128) {
            Some(x) => x,
            None => {
                return false;
            },
        };
        budgeted == self.budgeted.cents as i128 && holdings == self.holdings.cents as i128
    }

    /// The envelopes in the order in which they were added, the default
    /// envelope first.
    pub fn view_vopes(&self) -> (v: &Vec<Vope>)
        ensures
            vope_views(v@) == self@.envelopes,
    {
        &self.envelopes
    }

    /// The reserved envelope that records income.
    pub fn view_unassigned(&self) -> (v: &Vope)
        ensures
            v@ == self@.unassigned,
    {
        &self.unassigned
    }

    /// The reserved envelope for what the budget leaves out.
    pub fn view_ignored(&self) -> (v: &Vope)
        ensures
            v@ == self@.ignored,
    {
        &self.ignored
    }

    /// The total of all balances.
    pub fn view_holdings(&self) -> (d: Dollar)
        ensures
            d.cents == self@.holdings,
    {
        self.holdings
    }

    /// The total of the targets.
    pub fn view_budgeted(&self) -> (d: Dollar)
        ensures
            d.cents == self@.budgeted,
    {
        self.budgeted
    }

    /// The size of a paycheck.
    pub fn view_paycheck(&self) -> (d: Dollar)
        ensures
            d.cents == self@.paycheck,
    {
        self.paycheck
    }

    /// The position of the envelope with the given name, letter case
    /// aside.
    pub fn get_vope_pos(&self, name: &str) -> (r: Option<usize>)
        ensures
            match r {
                Some(i) => i < self@.envelopes.len() && i == position_of(self@.envelopes, name@),
                None => !self@.has_envelope(name@),
            },
    {
        let mut i: usize = 0;
        while i < self.envelopes.len()
            invariant
                i <= self.envelopes.len(),
                forall|k: int|
                    0 <= k < i ==> !same_ignoring_case(
                        #[trigger] vope_views(self.envelopes@)[k].name,
                        name@,
                    ),
            decreases self.envelopes.len() - i,
        {
            if eq_ignoring_case(self.envelopes[i].name.as_str(), name) {
                proof {
                    lemma_position_is(self@.envelopes, name@, i as int);
                }
                return Some(i);
            }
            i += 1;
        }
        proof {
            lemma_position_is(self@.envelopes, name@, i as int);
        }
        None
    }

    /// Whether a transaction can be assigned under the name as one of
    /// several: the name of an envelope, or the name for what the budget
    /// leaves out.
    pub fn contains(&self, name: &str) -> (r: bool)
        ensures
            r == self@.contains(name@),
    {
        names_ignore(name) || self.get_vope_pos(name).is_some()
    }

    /// Adds an envelope with the given name and target, no money and no
    /// history. The name may not be reserved nor, letter case aside, the
    /// name of an envelope that exists.
    pub fn add_vope(&mut self, name: &str, budget: Dollar) -> (r: Result<(), LedgerError>)
        requires
            old(self).wf(),
        ensures
            final(self).wf(),
            match old(self)@.add_outcome(name@, budget.cents as int) {
                Ok(after) => r is Ok && final(self)@ == after,
                Err(e) => r == Err::<(), LedgerError>(e) && final(self)@ == old(self)@,
            },
    {
        if names_salary(name) || names_ignore(name) || self.get_vope_pos(name).is_some() {
            return Err(LedgerError::DuplicateName);
        }
        let budgeted = match self.budgeted.checked_add(budget) {
            Some(b) => b,
            None => {
                return Err(LedgerError::AmountOutOfRange);
            },
        };
        let ghost before = self@;
        let vope = Vope::new(String::from_str(name), budget);
        self.envelopes.push(vope);
        self.budgeted = budgeted;
        proof {
            let after = before.add_outcome(name@, budget.cents as int)->Ok_0;
            assert(self@.envelopes =~= after.envelopes);
            assert(self@ == after);
            lemma_add_keeps_wf(before, name@, budget.cents as int);
        }
        Ok(())
    }

    /// Removes the envelope with the given name. Its balance goes to the
    /// default envelope. The default envelope and the reserved ones stay.
    pub fn remove_vope(&mut self, name: &str) -> (r: Result<(), LedgerError>)
        requires
            old(self).wf(),
        ensures
            final(self).wf(),
            match old(self)@.remove_outcome(name@) {
                Ok(after) => r is Ok && final(self)@ == after,
                Err(e) => r == Err::<(), LedgerError>(e) && final(self)@ == old(self)@,
            },
    {
        if names_salary(name) || names_ignore(name) {
            return Err(LedgerError::NotRemovable);
        }
        let i: usize = match self.get_vope_pos(name) {
            Some(i) => i,
            None => {
                return Err(LedgerError::UnknownEnvelope);
            },
        };
        if i == 0 {
            return Err(LedgerError::NotRemovable);
        }
        let balance = match self.envelopes[0].actual_amount.checked_add(
            self.envelopes[i].actual_amount,
        ) {
            Some(b) => b,
            None => {
                return Err(LedgerError::AmountOutOfRange);
            },
        };
        let budgeted = match self.budgeted.checked_sub(self.envelopes[i].budget) {
            Some(b) => b,
            None => {
                return Err(LedgerError::AmountOutOfRange);
            },
        };
        let ghost before = self@;
        self.envelopes[0].actual_amount = balance;
        let _ = self.envelopes.remove(i);
        self.budgeted = budgeted;
        proof {
            let after = before.remove_outcome(name@)->Ok_0;
            assert(self@.envelopes =~= after.envelopes);
            assert(self@ == after);
            lemma_remove_keeps_wf(before, name@);
        }
        Ok(())
    }

    /// Replaces the balance of each envelope.
    fn set_balances(&mut self, fresh: &Vec<i64>)
        requires
            fresh.len() == old(self)@.envelopes.len(),
        ensures
            final(self)@ == (PortfolioView {
                envelopes: with_balances(old(self)@.envelopes, ints_of(fresh@)),
                ..old(self)@
            }),
    {
        let ghost before = self@;
        let mut i: usize = 0;
        proof {
            assert(self@.envelopes =~= Seq::new(
                fresh.len() as nat,
                |k: int|
                    if k < 0 {
                        with_balance(before.envelopes[k], fresh@[k] as int)
                    } else {
                        before.envelopes[k]
                    },
            ));
        }
        while i < self.envelopes.len()
            invariant
                i <= self.envelopes.len(),
                self.envelopes.len() == fresh.len(),
                before.envelopes.len() == fresh.len(),
                self@ == (PortfolioView {
                    envelopes: Seq::new(
                        fresh.len() as nat,
                        |k: int|
                            if k < i {
                                with_balance(before.envelopes[k], fresh@[k] as int)
                            } else {
                                before.envelopes[k]
                            },
                    ),
                    ..before
                }),
            decreases self.envelopes.len() - i,
        {
            let ghost prior = self@;
            self.envelopes[i].actual_amount = Dollar { cents: fresh[i] };
            proof {
                let next = Seq::new(
                    fresh.len() as nat,
                    |k: int|
                        if k < i + 1 {
                            with_balance(before.envelopes[k], fresh@[k] as int)
                        } else {
                            before.envelopes[k]
                        },
                );
                assert(self@.envelopes =~= prior.envelopes.update(
                    i as int,
                    with_balance(prior.envelopes[i as int], fresh@[i as int] as int),
                ));
                assert(self@.envelopes =~= next);
            }
            i += 1;
        }
        proof {
            assert(self@.envelopes =~= with_balances(before.envelopes, ints_of(fresh@)));
        }
    }

    /// The balances after a paycheck, where an amount can hold each.
    fn paycheck_balances(&self, amount: Dollar) -> (r: Option<Vec<i64>>)
        requires
            self.wf(),
        ensures
            ({
                let after = balances_of(
                    credit_each(
                        self@.envelopes,
                        paycheck_credits(self@.envelopes, self@.budgeted, amount.cents as int),
                    ),
                );
                match r {
                    Some(fresh) => all_fit(after) && ints_of(fresh@) == after,
                    None => !all_fit(after),
                }
            }),
    {
        let n: usize = self.envelopes.len();
        let ghost envelopes = self@.envelopes;
        let ghost olds = balances_of(envelopes);
        let ghost portions = paycheck_portions(envelopes, self@.budgeted, amount.cents as int);
        let ghost credits = paycheck_credits(envelopes, self@.budgeted, amount.cents as int);
        let ghost after = balances_of(credit_each(envelopes, credits));
        let mut fresh: Vec<i64> = Vec::new();
        fresh.push(0);
        let mut sum_new: i128 = 0;
        let mut sum_old: i128 = 0;
        let mut i: usize = 1;
        proof {
            assert(ints_of(fresh@).subrange(1, 1) =~= Seq::<int>::empty());
            assert(olds.subrange(1, 1) =~= Seq::<int>::empty());
        }
        while i < n
            invariant
                1 <= i <= n,
                n == self.envelopes.len(),
                self.wf(),
                envelopes == self@.envelopes,
                olds == balances_of(envelopes),
                portions == paycheck_portions(envelopes, self@.budgeted, amount.cents as int),
                credits == paycheck_credits(envelopes, self@.budgeted, amount.cents as int),
                after == balances_of(credit_each(envelopes, credits)),
                fresh.len() == i,
                forall|k: int| 1 <= k < i ==> #[trigger] fresh@[k] as int == olds[k] + portions[k],
                sum_new == total(ints_of(fresh@).subrange(1, i as int)),
                sum_old == total(olds.subrange(1, i as int)),
            decreases n - i,
        {
            let budget: i64 = self.envelopes[i].budget.cents;
            let balance: i64 = self.envelopes[i].actual_amount.cents;
            proof {
                assert(envelopes[i as int].budget == budget);
                assert(olds[i as int] == balance);
                lemma_product_bound(amount.cents as int, budget as int);
            }
            let portion: i128 = if self.budgeted.cents == 0 {
                0
            } else {
                round_div_wide(
                    (amount.cents as i128) * (budget as i128),
                    self.budgeted.cents as i128,
                )
            };
            let next: i128 = balance as i128 + portion;
            proof {
                assert(portion == portions[i as int]);
                assert(credits[i as int] == portions[i as int]);
                assert(after[i as int] == olds[i as int] + credits[i as int]);
            }
            if next < i64::MIN as i128 || next > i64::MAX as i128 {
                return None;
            }
            proof {
                let news = ints_of(fresh@).subrange(1, i as int);
                let prior = olds.subrange(1, i as int);
                assert forall|k: int| 0 <= k < news.len() implies fits(#[trigger] news[k]) by {}
                assert forall|k: int| 0 <= k < prior.len() implies fits(#[trigger] prior[k]) by {
                    assert(prior[k] == envelopes[k + 1].balance);
                }
                lemma_total_bounds(news);
                lemma_total_bounds(prior);
                lemma_count_bounds(i - 1);
                lemma_total_push(news, next as int);
                lemma_total_push(prior, balance as int);
                assert(ints_of(fresh@.push(next as i64)).subrange(1, i + 1) =~= news.push(
                    next as int,
                ));
                assert(olds.subrange(1, i + 1) =~= prior.push(balance as int));
            }
            sum_new = sum_new + next;
            sum_old = sum_old + balance as i128;
            fresh.push(next as i64);
            i += 1;
        }
        proof {
            let news = ints_of(fresh@).subrange(1, n as int);
            let prior = olds.subrange(1, n as int);
            assert(portions.skip(1) =~= portions.subrange(1, n as int));
            assert forall|k: int| 0 <= k < news.len() implies #[trigger] news[k] == prior[k]
                + portions.skip(1)[k] by {
                assert(fresh@[k + 1] as int == olds[k + 1] + portions[k + 1]);
            }
            lemma_total_sum(news, prior, portions.skip(1));
            assert(credits[0] == amount.cents - total(portions.skip(1)));
            assert(after[0] == olds[0] + credits[0]);
            assert(olds[0] == self.envelopes@[0].actual_amount.cents);
        }
        let others: i128 = match sum_new.checked_sub(sum_old) {
            Some(x) => x,
            None => {
                return None;
            },
        };
        let first: i128 = match (self.envelopes[0].actual_amount.cents as i128
            + amount.cents as i128).checked_sub(others) {
            Some(x) => x,
            None => {
                return None;
            },
        };
        if first < i64::MIN as i128 || first > i64::MAX as i128 {
            return None;
        }
        let ghost filled = fresh@;
        fresh[0] = first as i64;
        proof {
            assert(fresh@ =~= filled.update(0, first as i64));
            assert forall|k: int| 0 <= k < after.len() implies fits(#[trigger] after[k])
                && ints_of(fresh@)[k] == after[k] by {
                if k > 0 {
                    assert(filled[k] as int == olds[k] + portions[k]);
                    assert(credits[k] == portions[k]);
                    assert(after[k] == olds[k] + credits[k]);
                    assert(fresh@[k] == filled[k]);
                }
            }
            assert(ints_of(fresh@) =~= after);
        }
        Some(fresh)
    }

    /// Cashes a paycheck: every envelope but the default gets the part of
    /// the amount that its target is of the budgeted total, rounded to the
    /// cent, and the default envelope gets all the rest. The amount has to
    /// exceed the size of a paycheck less the target of the default
    /// envelope.
    pub fn cash_paycheck(&mut self, amount: Dollar) -> (r: Result<(), LedgerError>)
        requires
            old(self).wf(),
        ensures
            final(self).wf(),
            match old(self)@.paycheck_outcome(amount.cents as int) {
                Ok(after) => r is Ok && final(self)@ == after,
                Err(e) => r == Err::<(), LedgerError>(e) && final(self)@ == old(self)@,
            },
    {
        if amount.cents as i128 <= self.paycheck.cents as i128
            - self.envelopes[0].budget.cents as i128 {
            return Err(LedgerError::InsufficientPaycheck);
        }
        let fresh = match self.paycheck_balances(amount) {
            Some(fresh) => fresh,
            None => {
                return Err(LedgerError::AmountOutOfRange);
            },
        };
        if self.holdings.checked_add(amount).is_none() {
            return Err(LedgerError::AmountOutOfRange);
        }
        let ghost before = self@;
        proof {
            assert(ints_of(fresh@).len() == fresh.len());
            assert(balances_of(
                credit_each(
                    before.envelopes,
                    paycheck_credits(before.envelopes, before.budgeted, amount.cents as int),
                ),
            ).len() == before.envelopes.len());
        }
        self.set_balances(&fresh);
        proof {
            lemma_paycheck_keeps_wf(before, amount.cents as int);
            let after = before.paycheck_outcome(amount.cents as int)->Ok_0;
            assert(self@.envelopes =~= after.envelopes);
        }
        let ok = self.calc_holdings();
        Ok(())
    }

    /// Assigns a transaction. Assigned to the income, its amount is cashed
    /// as a paycheck and the transaction recorded with the income;
    /// assigned to what the budget leaves out, it is recorded there and no
    /// balance changes; assigned to an envelope, its amount goes to that
    /// envelope, which records it.
    pub fn assign_to(&mut self, target: &EnvelopeRef, transaction: &Transaction) -> (r: Result<
        (),
        LedgerError,
    >)
        requires
            old(self).wf(),
        ensures
            final(self).wf(),
            match old(self)@.assign_to_outcome(target@, transaction@) {
                Ok(after) => r is Ok && final(self)@ == after,
                Err(e) => r == Err::<(), LedgerError>(e) && final(self)@ == old(self)@,
            },
    {
        let ghost before = self@;
        match target {
            EnvelopeRef::UnassignedIncome => {
                match self.cash_paycheck(transaction.charge) {
                    Ok(()) => {
                        self.unassigned.record(transaction.clone());
                        Ok(())
                    },
                    Err(e) => Err(e),
                }
            },
            EnvelopeRef::Ignored => {
                self.ignored.record(transaction.clone());
                let ok = self.calc_holdings();
                Ok(())
            },
            EnvelopeRef::User(name) => {
                let i: usize = match self.get_vope_pos(name.as_str()) {
                    Some(i) => i,
                    None => {
                        return Err(LedgerError::UnknownEnvelope);
                    },
                };
                let balance = match self.envelopes[i].actual_amount.checked_add(
                    transaction.charge,
                ) {
                    Some(b) => b,
                    None => {
                        return Err(LedgerError::AmountOutOfRange);
                    },
                };
                if self.holdings.checked_add(transaction.charge).is_none() {
                    return Err(LedgerError::AmountOutOfRange);
                }
                self.envelopes[i].actual_amount = balance;
                self.envelopes[i].record(transaction.clone());
                proof {
                    let after = before.assign_to_outcome(target@, transaction@)->Ok_0;
                    assert(self@.envelopes =~= after.envelopes);
                    lemma_assign_keeps_wf(before, target@, transaction@);
                }
                let ok = self.calc_holdings();
                Ok(())
            },
        }
    }

    /// Assigns a transaction under a name: the name for income, the name
    /// for what the budget leaves out, or the name of an envelope.
    pub fn assign(&mut self, name: &str, transaction: &Transaction) -> (r: Result<
        (),
        LedgerError,
    >)
        requires
            old(self).wf(),
        ensures
            final(self).wf(),
            match old(self)@.assign_outcome(name@, transaction@) {
                Ok(after) => r is Ok && final(self)@ == after,
                Err(e) => r == Err::<(), LedgerError>(e) && final(self)@ == old(self)@,
            },
    {
        let target = EnvelopeRef::from_name(name);
        self.assign_to(&target, transaction)
    }

    /// Where each name of a split leads, or `None` where one of them
    /// leads nowhere.
    fn split_slots(&self, names: &[(&str, u32)]) -> (r: Option<Vec<usize>>)
        requires
            self.wf(),
        ensures
            match r {
                Some(slots) => {
                    &&& slots.len() == names.len()
                    &&& slot_ints(slots@) == slots_of(self@.envelopes, entries_of(names@))
                    &&& forall|k: int|
                        0 <= k < names.len() ==> self@.contains(#[trigger] entries_of(names@)[k].0)
                    &&& forall|k: int|
                        0 <= k < slots.len() ==> #[trigger] slots@[k] <= self@.envelopes.len()
                },
                None => exists|k: int|
                    0 <= k < names.len() && !self@.contains(#[trigger] entries_of(names@)[k].0),
            },
    {
        let ghost entries = entries_of(names@);
        let count: usize = self.envelopes.len();
        let mut slots: Vec<usize> = Vec::new();
        let mut k: usize = 0;
        while k < names.len()
            invariant
                k <= names.len(),
                count == self@.envelopes.len(),
                entries == entries_of(names@),
                slots.len() == k,
                forall|j: int| 0 <= j < k ==> self@.contains(#[trigger] entries[j].0),
                forall|j: int|
                    0 <= j < k ==> #[trigger] slots@[j] as int == slot_of(
                        self@.envelopes,
                        entries[j].0,
                    ),
                forall|j: int| 0 <= j < k ==> #[trigger] slots@[j] <= count,
            decreases names.len() - k,
        {
            let name: &str = names[k].0;
            proof {
                assert(entries[k as int].0 == name@);
            }
            let slot: usize = if names_ignore(name) {
                count
            } else {
                match self.get_vope_pos(name) {
                    Some(i) => i,
                    None => {
                        proof {
                            assert(!self@.contains(entries[k as int].0));
                        }
                        return None;
                    },
                }
            };
            slots.push(slot);
            k += 1;
        }
        proof {
            assert(slot_ints(slots@) =~= slots_of(self@.envelopes, entries));
        }
        Some(slots)
    }

    /// Appends the transaction to the history of each marked envelope.
    fn record_marked(&mut self, marks: &Vec<bool>, transaction: &Transaction)
        requires
            marks.len() == old(self)@.envelopes.len(),
        ensures
            final(self)@ == (PortfolioView {
                envelopes: record_each(old(self)@.envelopes, marks@, transaction@),
                ..old(self)@
            }),
    {
        let ghost before = self@;
        let mut i: usize = 0;
        proof {
            assert(self@.envelopes =~= Seq::new(
                marks.len() as nat,
                |k: int|
                    if k < 0 && marks@[k] {
                        with_record(before.envelopes[k], transaction@)
                    } else {
                        before.envelopes[k]
                    },
            ));
        }
        while i < self.envelopes.len()
            invariant
                i <= self.envelopes.len(),
                self.envelopes.len() == marks.len(),
                before.envelopes.len() == marks.len(),
                self@ == (PortfolioView {
                    envelopes: Seq::new(
                        marks.len() as nat,
                        |k: int|
                            if k < i && marks@[k] {
                                with_record(before.envelopes[k], transaction@)
                            } else {
                                before.envelopes[k]
                            },
                    ),
                    ..before
                }),
            decreases self.envelopes.len() - i,
        {
            let ghost prior = self@;
            if marks[i] {
                self.envelopes[i].record(transaction.clone());
            }
            proof {
                let next = Seq::new(
                    marks.len() as nat,
                    |k: int|
                        if k < i + 1 && marks@[k] {
                            with_record(before.envelopes[k], transaction@)
                        } else {
                            before.envelopes[k]
                        },
                );
                if marks@[i as int] {
                    assert(self@.envelopes =~= prior.envelopes.update(
                        i as int,
                        with_record(prior.envelopes[i as int], transaction@),
                    ));
                }
                assert(self@.envelopes =~= next);
            }
            i += 1;
        }
        proof {
            assert(self@.envelopes =~= record_each(before.envelopes, marks@, transaction@));
        }
    }

    /// The balances of the envelopes with a credit added to each, where an
    /// amount can hold each.
    fn credited_balances(&self, credits: &Vec<i128>) -> (r: Option<Vec<i64>>)
        requires
            credits.len() == self@.envelopes.len(),
        ensures
            ({
                let after = Seq::new(
                    credits.len() as nat,
                    |i: int| self@.envelopes[i].balance + credits@[i],
                );
                match r {
                    Some(fresh) => all_fit(after) && ints_of(fresh@) == after,
                    None => !all_fit(after),
                }
            }),
    {
        let ghost after = Seq::new(
            credits.len() as nat,
            |i: int| self@.envelopes[i].balance + credits@[i],
        );
        let mut fresh: Vec<i64> = Vec::new();
        let mut i: usize = 0;
        while i < self.envelopes.len()
            invariant
                i <= self.envelopes.len(),
                credits.len() == self.envelopes.len(),
                after == Seq::new(
                    credits.len() as nat,
                    |i: int| self@.envelopes[i].balance + credits@[i],
                ),
                fresh.len() == i,
                forall|k: int| 0 <= k < i ==> #[trigger] fresh@[k] as int == after[k],
            decreases self.envelopes.len() - i,
        {
            proof {
                assert(self@.envelopes[i as int].balance
                    == self.envelopes@[i as int].actual_amount.cents);
            }
            let next: i128 = match (self.envelopes[i].actual_amount.cents as i128).checked_add(
                credits[i],
            ) {
                Some(x) => x,
                None => {
                    proof {
                        assert(!fits(after[i as int]));
                    }
                    return None;
                },
            };
            if next < i64::MIN as i128 || next > i64::MAX as i128 {
                proof {
                    assert(!fits(after[i as int]));
                }
                return None;
            }
            fresh.push(next as i64);
            i += 1;
        }
        proof {
            assert(ints_of(fresh@) =~= after);
            assert forall|k: int| 0 <= k < after.len() implies fits(#[trigger] after[k]) by {
                assert(fresh@[k] as int == after[k]);
            }
        }
        Some(fresh)
    }

    /// Splits a transaction among the named envelopes: evenly, or by the
    /// weights given with the names. Each entry adds its share, rounded to
    /// the cent, to where its name leads, and each of those envelopes
    /// records the transaction once. The shares are not made to add up to
    /// the transaction: the result is what they exceed it by.
    pub fn assign_transaction(
        &mut self,
        names: &[(&str, u32)],
        trans: &Transaction,
        even_weight: bool,
    ) -> (r: Result<Dollar, LedgerError>)
        requires
            old(self).wf(),
        ensures
            final(self).wf(),
            match old(self)@.split_outcome(entries_of(names@), trans@, even_weight) {
                Ok((after, residual)) => r matches Ok(d) && d.cents == clamp(residual)
                    && final(self)@ == after,
                Err(e) => r matches Err(err) && err == e && final(self)@ == old(self)@,
            },
    {
        let ghost before = self@;
        let ghost entries = entries_of(names@);
        let count: usize = self.envelopes.len();
        let slots = match self.split_slots(names) {
            Some(slots) => slots,
            None => {
                return Err(LedgerError::UnknownEnvelope);
            },
        };
        let weight: u128 = total_weight(names);
        if !even_weight && names.len() > 0 && weight == 0 {
            return Err(LedgerError::ZeroWeight);
        }
        let amount: i64 = trans.charge.cents;
        let shares = shares_of(names, amount, even_weight, weight);
        let (credits, beyond) = credit_sums(&slots, &shares, count);
        let (marks, beyond_mark) = marks_of(&slots, count);
        let ghost wanted_credits = split_credits(
            slot_ints(slots@),
            ints_of(shares@),
            count as int,
        );
        let ghost wanted_marks = split_marks(slot_ints(slots@), count as int);
        let ghost spec_envelopes = record_each(
            credit_each(before.envelopes, wanted_credits.take(count as int)),
            wanted_marks.take(count as int),
            trans@,
        );
        proof {
            assert(marks@ =~= wanted_marks.take(count as int));
            assert forall|i: int| 0 <= i < count implies #[trigger] credits@[i] as int
                == wanted_credits.take(count as int)[i] by {}
            assert(balances_of(spec_envelopes) =~= Seq::new(
                credits.len() as nat,
                |i: int| before.envelopes[i].balance + credits@[i],
            ));
        }
        let fresh = match self.credited_balances(&credits) {
            Some(fresh) => fresh,
            None => {
                return Err(LedgerError::AmountOutOfRange);
            },
        };
        let ignored_balance: i64 = match (self.ignored.actual_amount.cents as i128).checked_add(
            beyond,
        ) {
            Some(x) => if x < i64::MIN as i128 || x > i64::MAX as i128 {
                return Err(LedgerError::AmountOutOfRange);
            } else {
                x as i64
            },
            None => {
                return Err(LedgerError::AmountOutOfRange);
            },
        };
        let sum: i128 = sum_of(&fresh);
        proof {
            lemma_count_bounds(fresh.len() as int);
            assert(ints_of(fresh@) == balances_of(spec_envelopes));
        }
        let all: i128 = sum + ignored_balance as i128;
        if all < i64::MIN as i128 || all > i64::MAX as i128 {
            return Err(LedgerError::AmountOutOfRange);
        }
        self.set_balances(&fresh);
        self.record_marked(&marks, trans);
        self.ignored.actual_amount = Dollar { cents: ignored_balance };
        if beyond_mark {
            self.ignored.record(trans.clone());
        }
        proof {
            assert(self@.envelopes =~= spec_envelopes);
            lemma_split_keeps_wf(before, entries, trans@, even_weight);
        }
        let ok = self.calc_holdings();
        let paid: i128 = sum_of(&shares);
        proof {
            lemma_count_bounds(shares.len() as int);
        }
        let residual: i128 = match paid.checked_sub(amount as i128) {
            Some(x) => x,
            None => if paid >= 0 {
                i128::MAX
            } else {
                i128::MIN
            },
        };
        Ok(Dollar { cents: clamp_wide(residual) })
    }

    /// Whether the history of some envelope, the reserved ones included,
    /// holds a transaction that is the same line of a statement as this
    /// one.
    pub fn categorized(&self, transaction: &Transaction) -> (r: bool)
        ensures
            r == self@.categorized(transaction@),
    {
        if self.unassigned.holds(transaction) || self.ignored.holds(transaction) {
            return true;
        }
        let mut i: usize = 0;
        while i < self.envelopes.len()
            invariant
                i <= self.envelopes.len(),
                forall|k: int|
                    0 <= k < i ==> !history_holds(
                        #[trigger] self@.envelopes[k].history,
                        transaction@,
                    ),
            decreases self.envelopes.len() - i,
        {
            if self.envelopes[i].holds(transaction) {
                proof {
                    assert(history_holds(self@.envelopes[i as int].history, transaction@));
                }
                return true;
            }
            i += 1;
        }
        false
    }

    /// Of a list of transactions those that no history holds, in the
    /// order of the list.
    pub fn uncategorized(&self, list: &Vec<Transaction>) -> (kept: Vec<Transaction>)
        ensures
            views_of(kept@) == self@.uncategorized(views_of(list@)),
            forall|k: int| 0 <= k < kept.len() ==> !self@.categorized(#[trigger] kept@[k]@),
    {
        let ghost given = views_of(list@);
        let ghost keep = |t: TransactionView| !self@.categorized(t);
        let mut kept: Vec<Transaction> = Vec::new();
        let mut i: usize = 0;
        proof {
            reveal(Seq::filter);
            assert(given.take(0).len() == 0);
            assert(views_of(kept@) =~= given.take(0).filter(keep));
        }
        while i < list.len()
            invariant
                i <= list.len(),
                given == views_of(list@),
                keep == |t: TransactionView| !self@.categorized(t),
                views_of(kept@) == given.take(i as int).filter(keep),
                forall|k: int| 0 <= k < kept.len() ==> !self@.categorized(#[trigger] kept@[k]@),
            decreases list.len() - i,
        {
            proof {
                reveal(Seq::filter);
                assert(given.take(i + 1).drop_last() =~= given.take(i as int));
                assert(given.take(i + 1).last() == list@[i as int]@);
            }
            if !self.categorized(&list[i]) {
                let x = list[i].clone();
                proof {
                    lemma_views_of_push(kept@, x);
                }
                kept.push(x);
            }
            i += 1;
        }
        proof {
            assert(given.take(list.len() as int) =~= given);
        }
        kept
    }

    /// Makes of a list of transactions what is left to be assigned: the
    /// list is sorted, what repeats the transaction before it is dropped,
    /// and so is every transaction that a history holds already. What is
    /// left holds no line of a statement twice and none that a history
    /// holds.
    pub fn clean_transaction_list(&self, list: &mut Vec<Transaction>)
        ensures
            views_of(final(list)@) == self@.uncategorized(
                without_repeats(sorted_of(views_of(old(list)@))),
            ),
            forall|k: int|
                0 <= k < final(list).len() ==> !self@.categorized(#[trigger] final(list)@[k]@),
            distinct_lines(views_of(final(list)@)),
    {
        proof {
            law_cleaned_list_has_distinct_lines(
                views_of(list@),
                |t: TransactionView| !self@.categorized(t),
            );
        }
        sort_transactions(list);
        drop_repeats(list);
        let kept = self.uncategorized(list);
        *list = kept;
    }

    /// The history that goes by a name: that of the envelope of this name,
    /// letter case aside, or of the reserved envelope that the name stands
    /// for.
    pub fn get_vope_history(&self, name: &str) -> (r: Result<Vec<Transaction>, LedgerError>)
        ensures
            match self@.history_of(name@) {
                Some(history) => r matches Ok(list) && views_of(list@) == history,
                None => r matches Err(e) && e == LedgerError::UnknownEnvelope,
            },
    {
        if names_salary(name) {
            Ok(self.unassigned.clone().transactions)
        } else if names_ignore(name) {
            Ok(self.ignored.clone().transactions)
        } else {
            match self.get_vope_pos(name) {
                Some(i) => Ok(self.envelopes[i].clone().transactions),
                None => Err(LedgerError::UnknownEnvelope),
            }
        }
    }

    /// The summary of the portfolio: the two totals, and a line with name,
    /// balance and target for each envelope.
    pub fn to_string(&self) -> (s: String)
        ensures
            s@ == self@.summary(),
    {
        let mut s = String::new();
        s.append("Budgeted: ");
        s.append(self.budgeted.to_string().as_str());
        s.append("\nHoldings: ");
        s.append(self.holdings.to_string().as_str());
        s.append("\n");
        let ghost head = s@;
        let ghost envelopes = self@.envelopes;
        let mut i: usize = 0;
        proof {
            assert(envelopes.take(0) =~= Seq::<VopeView>::empty());
            assert(head + summary_lines(envelopes.take(0)) =~= head);
        }
        while i < self.envelopes.len()
            invariant
                i <= self.envelopes.len(),
                envelopes == self@.envelopes,
                s@ == head + summary_lines(envelopes.take(i as int)),
            decreases self.envelopes.len() - i,
        {
            let ghost prior = s@;
            let v = &self.envelopes[i];
            s.append("  ");
            s.append(v.name.as_str());
            s.append(" | ");
            s.append(v.actual_amount.to_string().as_str());
            s.append(" | ");
            s.append(v.budget.to_string().as_str());
            s.append("\n");
            proof {
                assert(envelopes[i as int] == v@);
                assert(envelopes.take(i + 1).drop_last() =~= envelopes.take(i as int));
                assert(envelopes.take(i + 1).last() == v@);
                assert(s@ =~= prior + summary_line(v@));
                assert(s@ =~= head + summary_lines(envelopes.take(i + 1)));
            }
            i += 1;
        }
        proof {
            assert(envelopes.take(self.envelopes.len() as int) =~= envelopes);
            assert(s@ =~= self@.summary());
        }
        s
    }

    /// Sets the size of a paycheck.
    pub fn set_paycheck(&mut self, paycheck: Dollar)
        requires
            old(self).wf(),
        ensures
            final(self).wf(),
            final(self)@ == (PortfolioView { paycheck: paycheck.cents as int, ..old(self)@ }),
    {
        self.paycheck = paycheck;
    }

    /// Counts the holdings anew as the sum of all balances. Where the sum
    /// is more than an amount can hold, nothing changes and the result is
    /// `false`.
    pub fn calc_holdings(&mut self) -> (ok: bool)
        ensures
            ok == fits(old(self)@.total_balance()),
            ok ==> final(self)@ == old(self)@.retotaled(),
            !ok ==> final(self)@ == old(self)@,
    {
        let sum: i128 = sum_of_balances(&self.envelopes);
        let with_unassigned: i128 = match sum.checked_add(
            self.unassigned.actual_amount.cents as i128,
        ) {
            Some(x) => x,
            None => {
                return false;
            },
        };
        let all: i128 = match with_unassigned.checked_add(
            self.ignored.actual_amount.cents as i128,
        ) {
            Some(x) => x,
            None => {
                return false;
            },
        };
        if all < i64::MIN as i128 || all > i64::MAX as i128 {
            false
        } else {
            self.holdings = Dollar { cents: all as i64 };
            true
        }
    }

    /// Moves `amount` from one envelope to another. Both names have to be
    /// names of envelopes, letter case aside.
    pub fn transfer_holdings(&mut self, from_name: &str, dest_name: &str, amount: Dollar) -> (r:
        Result<(), LedgerError>)
        requires
            old(self).wf(),
        ensures
            final(self).wf(),
            match old(self)@.transfer_outcome(from_name@, dest_name@, amount.cents as int) {
                Ok(after) => r is Ok && final(self)@ == after,
                Err(e) => r == Err::<(), LedgerError>(e) && final(self)@ == old(self)@,
            },
    {
        let i: usize = match self.get_vope_pos(from_name) {
            Some(i) => i,
            None => {
                return Err(LedgerError::UnknownEnvelope);
            },
        };
        let j: usize = match self.get_vope_pos(dest_name) {
            Some(j) => j,
            None => {
                return Err(LedgerError::UnknownEnvelope);
            },
        };
        if i == j {
            return Ok(());
        }
        let a = match self.envelopes[i].actual_amount.checked_sub(amount) {
            Some(a) => a,
            None => {
                return Err(LedgerError::AmountOutOfRange);
            },
        };
        let b = match self.envelopes[j].actual_amount.checked_add(amount) {
            Some(b) => b,
            None => {
                return Err(LedgerError::AmountOutOfRange);
            },
        };
        let ghost before = self@;
        self.envelopes[i].actual_amount = a;
        self.envelopes[j].actual_amount = b;
        proof {
            let after = before.transfer_outcome(from_name@, dest_name@, amount.cents as int)->Ok_0;
            assert(self@.envelopes =~= after.envelopes);
            assert(self@ == after);
            lemma_transfer_keeps_total(before, i as int, j as int, amount.cents as int);
            assert(budgets_of(after.envelopes) =~= budgets_of(before.envelopes));
            assert forall|k: int|
                0 <= k < after.envelopes.len() implies #[trigger] after.envelopes[k].name
                == before.envelopes[k].name by {}
            assert(after.names_ok());
        }
        let ok = self.calc_holdings();
        proof {
            assert(ok);
        }
        Ok(())
    }
}

/// Whether no two envelopes have the same name, letter case aside, and
/// none has a reserved name.
fn has_distinct_names(envelopes: &Vec<Vope>) -> (r: bool)
    ensures
        r == names_distinct(vope_views(envelopes@)),
{
    let ghost views = vope_views(envelopes@);
    let mut j: usize = 0;
    while j < envelopes.len()
        invariant
            j <= envelopes.len(),
            views == vope_views(envelopes@),
            forall|a: int, b: int|
                0 <= a < b < j ==> !same_ignoring_case(
                    #[trigger] views[a].name,
                    #[trigger] views[b].name,
                ),
            forall|a: int| 0 <= a < j ==> !is_reserved(#[trigger] views[a].name),
        decreases envelopes.len() - j,
    {
        let name: &str = envelopes[j].name.as_str();
        proof {
            assert(views[j as int].name == name@);
        }
        if names_salary(name) || names_ignore(name) {
            return false;
        }
        let mut i: usize = 0;
        while i < j
            invariant
                i <= j,
                j < envelopes.len(),
                views == vope_views(envelopes@),
                name@ == views[j as int].name,
                forall|a: int|
                    0 <= a < i ==> !same_ignoring_case(
                        #[trigger] views[a].name,
                        views[j as int].name,
                    ),
            decreases j - i,
        {
            if eq_ignoring_case(envelopes[i].name.as_str(), name) {
                proof {
                    assert(same_ignoring_case(views[i as int].name, views[j as int].name));
                }
                return false;
            }
            i += 1;
        }
        j += 1;
    }
    true
}

/// The sum of the targets of a list of envelopes.
fn sum_of_budgets(envelopes: &Vec<Vope>) -> (sum: i128)
    ensures
        sum == sum_budgets(vope_views(envelopes@)),
{
    let ghost amounts = budgets_of(vope_views(envelopes@));
    let mut sum: i128 = 0;
    let mut i: usize = 0;
    proof {
        assert(amounts.take(0) =~= Seq::<int>::empty());
    }
    while i < envelopes.len()
        invariant
            i <= envelopes.len(),
            amounts == budgets_of(vope_views(envelopes@)),
            sum == total(amounts.take(i as int)),
        decreases envelopes.len() - i,
    {
        proof {
            lemma_total_take(amounts, i as int);
            let prefix = amounts.take(i as int);
            assert forall|k: int| 0 <= k < prefix.len() implies fits(#[trigger] prefix[k]) by {}
            lemma_total_bounds(prefix);
            lemma_count_bounds(i as int);
        }
        sum = sum + envelopes[i].budget.cents as i128;
        i += 1;
    }
    proof {
        assert(amounts.take(envelopes.len() as int) =~= amounts);
    }
    sum
}

/// The sum of the balances of a list of envelopes.
fn sum_of_balances(envelopes: &Vec<Vope>) -> (sum: i128)
    ensures
        sum == sum_balances(vope_views(envelopes@)),
{
    let ghost amounts = balances_of(vope_views(envelopes@));
    let mut sum: i128 = 0;
    let mut i: usize = 0;
    proof {
        assert(amounts.take(0) =~= Seq::<int>::empty());
    }
    while i < envelopes.len()
        invariant
            i <= envelopes.len(),
            amounts == balances_of(vope_views(envelopes@)),
            sum == total(amounts.take(i as int)),
        decreases envelopes.len() - i,
    {
        proof {
            lemma_total_take(amounts, i as int);
            let prefix = amounts.take(i as int);
            assert forall|k: int| 0 <= k < prefix.len() implies fits(#[trigger] prefix[k]) by {}
            lemma_total_bounds(prefix);
            lemma_count_bounds(i as int);
        }
        sum = sum + envelopes[i].actual_amount.cents as i128;
        i += 1;
    }
    proof {
        assert(amounts.take(envelopes.len() as int) =~= amounts);
    }
    sum
}

} // verus!
