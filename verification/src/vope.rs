//! Envelopes: named parts of the budget.

use crate::dollar::{clamp, Dollar};
use crate::transaction::{same_identity, Transaction, TransactionView};
use vstd::prelude::*;

verus! {

/// An envelope as the contracts see it.
pub struct VopeView {
    pub name: Seq<char>,
    /// The target in cents.
    pub budget: int,
    /// The balance in cents.
    pub balance: int,
    pub history: Seq<TransactionView>,
}

/// An envelope: a named part of the budget with a target, a balance and
/// the transactions that were assigned to it, oldest first.
#[derive(Debug)]
pub struct Vope {
    pub name: String,
    pub budget: Dollar,
    pub actual_amount: Dollar,
    pub transactions: Vec<Transaction>,
}

/// What the contracts see of a list of transactions.
pub open spec fn views_of(list: Seq<Transaction>) -> Seq<TransactionView> {
    list.map_values(|t: Transaction| t@)
}

/// Whether a history holds a transaction that is the same line of a
/// statement as `t`.
pub open spec fn history_holds(history: Seq<TransactionView>, t: TransactionView) -> bool {
    exists|k: int| 0 <= k < history.len() && same_identity(#[trigger] history[k], t)
}

impl View for Vope {
    type V = VopeView;

    open spec fn view(&self) -> VopeView {
        VopeView {
            name: self.name@,
            budget: self.budget.cents as int,
            balance: self.actual_amount.cents as int,
            history: views_of(self.transactions@),
        }
    }
}

/// Appending to a list appends to what the contracts see of it.
pub proof fn lemma_views_of_push(list: Seq<Transaction>, t: Transaction)
    ensures
        views_of(list.push(t)) == views_of(list).push(t@),
{
    assert(views_of(list.push(t)) =~= views_of(list).push(t@));
}

impl Clone for Vope {
    fn clone(&self) -> (r: Vope)
        ensures
            r@ == self@,
    {
        let mut transactions: Vec<Transaction> = Vec::new();
        let mut i: usize = 0;
        while i < self.transactions.len()
            invariant
                i <= self.transactions.len(),
                transactions@ == self.transactions@.subrange(0, i as int),
            decreases self.transactions.len() - i,
        {
            transactions.push(self.transactions[i].clone());
            proof {
                assert(self.transactions@.subrange(0, i as int).push(self.transactions@[i as int])
                    =~= self.transactions@.subrange(0, i + 1));
            }
            i += 1;
        }
        proof {
            assert(self.transactions@.subrange(0, self.transactions.len() as int)
                =~= self.transactions@);
        }
        Vope {
            name: self.name.clone(),
            budget: self.budget,
            actual_amount: self.actual_amount,
            transactions,
        }
    }
}

impl Vope {
    /// An envelope with a name and a target, no money and no history.
    pub fn new(name: String, budget: Dollar) -> (v: Vope)
        ensures
            v@ == (VopeView {
                name: name@,
                budget: budget.cents as int,
                balance: 0,
                history: Seq::empty(),
            }),
    {
        let v = Vope { name, budget, actual_amount: Dollar::zero(), transactions: Vec::new() };
        proof {
            assert(views_of(v.transactions@) =~= Seq::<TransactionView>::empty());
        }
        v
    }

    /// Adds `amount` to the balance. A balance beyond what an amount can
    /// hold stops at the nearest amount that it can hold.
    pub fn credit(&mut self, amount: Dollar)
        ensures
            final(self)@ == (VopeView {
                balance: clamp(old(self)@.balance + amount.cents),
                ..old(self)@
            }),
    {
        self.actual_amount = self.actual_amount + amount;
    }

    /// Takes `amount` from the balance, which may fall below zero. A
    /// balance beyond what an amount can hold stops at the nearest amount
    /// that it can hold.
    pub fn debit(&mut self, amount: Dollar)
        ensures
            final(self)@ == (VopeView {
                balance: clamp(old(self)@.balance - amount.cents),
                ..old(self)@
            }),
    {
        self.actual_amount = self.actual_amount - amount;
    }

    /// Appends a transaction to the history.
    pub fn record(&mut self, transaction: Transaction)
        ensures
            final(self)@ == (VopeView {
                history: old(self)@.history.push(transaction@),
                ..old(self)@
            }),
    {
        proof {
            lemma_views_of_push(self.transactions@, transaction);
        }
        self.transactions.push(transaction);
    }

    /// Whether the history holds a transaction that is the same line of a
    /// statement as `transaction`.
    pub fn holds(&self, transaction: &Transaction) -> (r: bool)
        ensures
            r == history_holds(self@.history, transaction@),
    {
        let mut i: usize = 0;
        while i < self.transactions.len()
            invariant
                i <= self.transactions.len(),
                forall|k: int|
                    0 <= k < i ==> !same_identity(#[trigger] self@.history[k], transaction@),
            decreases self.transactions.len() - i,
        {
            if self.transactions[i].same_as(transaction) {
                proof {
                    assert(same_identity(self@.history[i as int], transaction@));
                }
                return true;
            }
            i += 1;
        }
        false
    }
}

} // verus!
