//! The account: a portfolio with the name of its owner and a date.

use crate::dollar::Dollar;
use crate::error::LedgerError;
use crate::model::PortfolioView;
use crate::portfolio::Portfolio;
use crate::transaction::Transaction;
use crate::vope::views_of;
use vstd::prelude::*;
use vstd::string::StringExecFns;

verus! {

/// An account as the contracts see it.
pub struct AccountView {
    pub name: Seq<char>,
    pub date: Seq<char>,
    pub port: PortfolioView,
}

/// All that is kept of one user: the portfolio, the user's name and the
/// date of the last use.
#[derive(Debug)]
pub struct Account {
    port: Portfolio,
    name: String,
    date: String,
}

impl View for Account {
    type V = AccountView;

    closed spec fn view(&self) -> AccountView {
        AccountView { name: self.name@, date: self.date@, port: self.port@ }
    }
}

impl Account {
    /// What holds of every account between two operations: its portfolio
    /// is well-formed.
    pub open spec fn wf(&self) -> bool {
        self@.port.wf()
    }

    /// The account of a user that is not yet known, with a new portfolio.
    pub fn new(default_target: Dollar, paycheck: Dollar) -> (a: Account)
        ensures
            a.wf(),
            a@.name == "Unknown"@,
            a@.date == "Today"@,
            a@.port == Portfolio::new_view(default_target.cents as int, paycheck.cents as int),
    {
        Account {
            port: Portfolio::new(default_target, paycheck),
            name: String::from_str("Unknown"),
            date: String::from_str("Today"),
        }
    }

    /// An account made of its parts.
    pub fn from_parts(name: String, date: String, port: Portfolio) -> (a: Account)
        ensures
            a@ == (AccountView { name: name@, date: date@, port: port@ }),
    {
        Account { port, name, date }
    }

    /// Whether the account is well-formed. Every account that `new` made,
    /// or `from_parts` of a portfolio that is well-formed, is so, and
    /// stays so under every operation.
    pub fn is_well_formed(&self) -> (ok: bool)
        ensures
            ok == self.wf(),
    {
        self.port.is_well_formed()
    }

    pub fn get_name(&self) -> (name: &str)
        ensures
            name@ == self@.name,
    {
        self.name.as_str()
    }

    pub fn get_date(&self) -> (date: &str)
        ensures
            date@ == self@.date,
    {
        self.date.as_str()
    }

    pub fn get_portfolio(&self) -> (port: &Portfolio)
        ensures
            port@ == self@.port,
    {
        &self.port
    }

    /// The portfolio, to be changed in place. The account is left with
    /// whatever the portfolio is when the borrow ends.
    pub fn get_portfolio_mut(&mut self) -> (port: &mut Portfolio)
        ensures
            port@ == old(self)@.port,
            final(self)@ == (AccountView { port: final(port)@, ..old(self)@ }),
    {
        &mut self.port
    }

    /// Of a list of transactions those that no history of the portfolio
    /// holds, in the order of the list.
    pub fn get_uncatorgorized(&self, candidates: &Vec<Transaction>) -> (kept: Vec<Transaction>)
        ensures
            views_of(kept@) == self@.port.uncategorized(views_of(candidates@)),
            forall|k: int| 0 <= k < kept.len() ==> !self@.port.categorized(#[trigger] kept@[k]@),
    {
        self.port.uncategorized(candidates)
    }

    /// Assigns a transaction under a name: the name of an envelope, the
    /// name for income, or the name for what the budget leaves out.
    pub fn update_vope(&mut self, name: &str, transaction: &Transaction) -> (r: Result<
        (),
        LedgerError,
    >)
        requires
            old(self).wf(),
        ensures
            final(self).wf(),
            match old(self)@.port.assign_outcome(name@, transaction@) {
                Ok(after) => r is Ok && final(self)@ == (AccountView { port: after, ..old(self)@ }),
                Err(e) => r == Err::<(), LedgerError>(e) && final(self)@ == old(self)@,
            },
    {
        self.port.assign(name, transaction)
    }

    /// The history that goes by a name.
    pub fn get_vope_history(&self, name: &str) -> (r: Result<Vec<Transaction>, LedgerError>)
        ensures
            match self@.port.history_of(name@) {
                Some(history) => r matches Ok(list) && views_of(list@) == history,
                None => r matches Err(e) && e == LedgerError::UnknownEnvelope,
            },
    {
        self.port.get_vope_history(name)
    }

    /// Adds an envelope with the given name and target.
    pub fn add_vope(&mut self, name: &str, budget: Dollar) -> (r: Result<(), LedgerError>)
        requires
            old(self).wf(),
        ensures
            final(self).wf(),
            match old(self)@.port.add_outcome(name@, budget.cents as int) {
                Ok(after) => r is Ok && final(self)@ == (AccountView { port: after, ..old(self)@ }),
                Err(e) => r == Err::<(), LedgerError>(e) && final(self)@ == old(self)@,
            },
    {
        self.port.add_vope(name, budget)
    }

    /// Removes the envelope with the given name. Its balance goes to the
    /// default envelope.
    pub fn rm_vope(&mut self, name: &str) -> (r: Result<(), LedgerError>)
        requires
            old(self).wf(),
        ensures
            final(self).wf(),
            match old(self)@.port.remove_outcome(name@) {
                Ok(after) => r is Ok && final(self)@ == (AccountView { port: after, ..old(self)@ }),
                Err(e) => r == Err::<(), LedgerError>(e) && final(self)@ == old(self)@,
            },
    {
        self.port.remove_vope(name)
    }

    /// Moves `amount` from one envelope to another.
    pub fn transfer(&mut self, from: &str, to: &str, amount: Dollar) -> (r: Result<
        (),
        LedgerError,
    >)
        requires
            old(self).wf(),
        ensures
            final(self).wf(),
            match old(self)@.port.transfer_outcome(from@, to@, amount.cents as int) {
                Ok(after) => r is Ok && final(self)@ == (AccountView { port: after, ..old(self)@ }),
                Err(e) => r == Err::<(), LedgerError>(e) && final(self)@ == old(self)@,
            },
    {
        self.port.transfer_holdings(from, to, amount)
    }
}

} // verus!
