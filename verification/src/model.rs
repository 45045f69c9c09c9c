//! The portfolio as the contracts see it: what a well-formed portfolio
//! is, and what each operation makes of one.

use crate::dollar::{display_text, fits, round_div};
use crate::transaction::TransactionView;
use crate::error::LedgerError;
use crate::text::same_ignoring_case;
use crate::vope::{history_holds, VopeView};
use vstd::prelude::*;

verus! {

/// The name under which income is assigned that is yet to be handed out.
pub open spec fn salary_name() -> Seq<char> {
    "Salary"@
}

/// The name under which transactions are assigned that the budget leaves
/// out.
pub open spec fn ignore_name() -> Seq<char> {
    "Ignore"@
}

/// The name of the default envelope of a new portfolio.
pub open spec fn default_name() -> Seq<char> {
    "Default"@
}

/// Whether a name, letter case aside, is the name for income.
pub open spec fn is_salary(name: Seq<char>) -> bool {
    same_ignoring_case(name, salary_name())
}

/// Whether a name, letter case aside, is the name for what the budget
/// leaves out.
pub open spec fn is_ignore(name: Seq<char>) -> bool {
    same_ignoring_case(name, ignore_name())
}

/// Whether a name is one of the two reserved names.
pub open spec fn is_reserved(name: Seq<char>) -> bool {
    is_salary(name) || is_ignore(name)
}

/// What a transaction is assigned to, as the contracts see it.
pub enum EnvelopeRefView {
    /// The envelope of this name, letter case aside.
    User(Seq<char>),
    /// The income that is yet to be handed out.
    UnassignedIncome,
    /// What the budget leaves out.
    Ignored,
}

/// What a name stands for when a transaction is assigned under it.
pub open spec fn ref_of(name: Seq<char>) -> EnvelopeRefView {
    if is_salary(name) {
        EnvelopeRefView::UnassignedIncome
    } else if is_ignore(name) {
        EnvelopeRefView::Ignored
    } else {
        EnvelopeRefView::User(name)
    }
}

/// The position of the first envelope with the given name, letter case
/// aside, or the number of envelopes where none has it.
pub open spec fn position_of(envelopes: Seq<VopeView>, name: Seq<char>) -> int
    decreases envelopes.len(),
{
    if envelopes.len() == 0 || same_ignoring_case(envelopes[0].name, name) {
        0
    } else {
        1 + position_of(envelopes.drop_first(), name)
    }
}

/// The sum of a list of amounts.
pub open spec fn total(amounts: Seq<int>) -> int
    decreases amounts.len(),
{
    if amounts.len() == 0 {
        0
    } else {
        total(amounts.drop_last()) + amounts.last()
    }
}

/// The balances of a list of envelopes.
pub open spec fn balances_of(envelopes: Seq<VopeView>) -> Seq<int> {
    envelopes.map_values(|v: VopeView| v.balance)
}

/// The targets of a list of envelopes.
pub open spec fn budgets_of(envelopes: Seq<VopeView>) -> Seq<int> {
    envelopes.map_values(|v: VopeView| v.budget)
}

/// The sum of the balances.
pub open spec fn sum_balances(envelopes: Seq<VopeView>) -> int {
    total(balances_of(envelopes))
}

/// The sum of the targets.
pub open spec fn sum_budgets(envelopes: Seq<VopeView>) -> int {
    total(budgets_of(envelopes))
}

/// An envelope with another balance.
pub open spec fn with_balance(v: VopeView, balance: int) -> VopeView {
    VopeView { balance, ..v }
}

/// An envelope with one more transaction in its history.
pub open spec fn with_record(v: VopeView, t: TransactionView) -> VopeView {
    VopeView { history: v.history.push(t), ..v }
}

/// The envelopes with the balances replaced by the given ones.
pub open spec fn with_balances(envelopes: Seq<VopeView>, balances: Seq<int>) -> Seq<VopeView> {
    Seq::new(envelopes.len(), |i: int| with_balance(envelopes[i], balances[i]))
}

/// The envelopes with a credit added to the balance of each.
pub open spec fn credit_each(envelopes: Seq<VopeView>, credits: Seq<int>) -> Seq<VopeView> {
    Seq::new(
        envelopes.len(),
        |i: int| with_balance(envelopes[i], envelopes[i].balance + credits[i]),
    )
}

/// The envelopes with the transaction appended to the history of each
/// that is marked.
pub open spec fn record_each(envelopes: Seq<VopeView>, marks: Seq<bool>, t: TransactionView) -> Seq<
    VopeView,
> {
    Seq::new(
        envelopes.len(),
        |i: int|
            if marks[i] {
                with_record(envelopes[i], t)
            } else {
                envelopes[i]
            },
    )
}

/// Whether each amount is one that an amount of money can hold.
pub open spec fn all_fit(amounts: Seq<int>) -> bool {
    forall|i: int| 0 <= i < amounts.len() ==> fits(#[trigger] amounts[i])
}

/// The part of a paycheck that falls to an envelope by its target's share
/// of the budgeted total, rounded to the cent. Nothing where nothing is
/// budgeted.
pub open spec fn paycheck_portion(amount: int, budget: int, budgeted: int) -> int {
    round_div(amount * budget, budgeted)
}

/// The part of a paycheck that falls to each envelope by its target.
pub open spec fn paycheck_portions(envelopes: Seq<VopeView>, budgeted: int, amount: int) -> Seq<
    int,
> {
    Seq::new(envelopes.len(), |i: int| paycheck_portion(amount, envelopes[i].budget, budgeted))
}

/// What a paycheck adds to each envelope: to every envelope but the
/// default its part by target, and to the default envelope all the rest.
pub open spec fn paycheck_credits(envelopes: Seq<VopeView>, budgeted: int, amount: int) -> Seq<
    int,
> {
    let portions = paycheck_portions(envelopes, budgeted, amount);
    portions.update(0, amount - total(portions.skip(1)))
}

/// Where a name leads when a transaction is split: to the envelope of
/// that name, by its position, or, for the name of what the budget leaves
/// out, to the position behind the last envelope.
pub open spec fn slot_of(envelopes: Seq<VopeView>, name: Seq<char>) -> int {
    if is_ignore(name) {
        envelopes.len() as int
    } else {
        position_of(envelopes, name)
    }
}

/// The names and weights among which a transaction is split.
pub type SplitEntries = Seq<(Seq<char>, int)>;

/// Where each entry of a split leads.
pub open spec fn slots_of(envelopes: Seq<VopeView>, entries: SplitEntries) -> Seq<int> {
    Seq::new(entries.len(), |k: int| slot_of(envelopes, entries[k].0))
}

/// The weights of the entries of a split.
pub open spec fn weights_of(entries: SplitEntries) -> Seq<int> {
    Seq::new(entries.len(), |k: int| entries[k].1)
}

/// The share of each entry of a split, rounded to the cent: the same part
/// of the amount for each where the split is even, else the part that the
/// entry's weight is of all weights.
pub open spec fn split_shares(entries: SplitEntries, amount: int, even: bool) -> Seq<int> {
    Seq::new(
        entries.len(),
        |k: int|
            if even {
                round_div(amount, entries.len() as int)
            } else {
                round_div(amount * entries[k].1, total(weights_of(entries)))
            },
    )
}

/// The sum of the shares of the first `k` entries that lead to `slot`.
pub open spec fn share_sum(slots: Seq<int>, shares: Seq<int>, slot: int, k: int) -> int
    decreases k,
{
    if k <= 0 {
        0
    } else {
        share_sum(slots, shares, slot, k - 1) + if slots[k - 1] == slot {
            shares[k - 1]
        } else {
            0
        }
    }
}

/// What a split adds to each envelope and, at the last position, to the
/// reserved envelope for what the budget leaves out: the sum of the
/// shares of the entries that lead there.
pub open spec fn split_credits(slots: Seq<int>, shares: Seq<int>, count: int) -> Seq<int> {
    Seq::new((count + 1) as nat, |s: int| share_sum(slots, shares, s, slots.len() as int))
}

/// Which envelopes a split leads to, the reserved one at the last
/// position.
pub open spec fn split_marks(slots: Seq<int>, count: int) -> Seq<bool> {
    Seq::new((count + 1) as nat, |s: int| slots.contains(s))
}

/// No two envelopes have the same name, letter case aside, and none has
/// a reserved name.
pub open spec fn names_distinct(envelopes: Seq<VopeView>) -> bool {
    &&& forall|i: int, j: int|
        0 <= i < j < envelopes.len() ==> !same_ignoring_case(
            #[trigger] envelopes[i].name,
            #[trigger] envelopes[j].name,
        )
    &&& forall|i: int| 0 <= i < envelopes.len() ==> !is_reserved(#[trigger] envelopes[i].name)
}

/// The portfolio that stored parts make: the envelopes, the default
/// envelope first, the history of the income, history and balance of what
/// the budget leaves out, and the size of a paycheck. The totals are
/// counted from the envelopes.
pub open spec fn restored(
    envelopes: Seq<VopeView>,
    income: Seq<TransactionView>,
    ignored: Seq<TransactionView>,
    ignored_balance: int,
    paycheck: int,
) -> Result<PortfolioView, LedgerError> {
    if envelopes.len() == 0 {
        Err(LedgerError::UnknownEnvelope)
    } else if !names_distinct(envelopes) {
        Err(LedgerError::DuplicateName)
    } else if !fits(sum_budgets(envelopes)) || !fits(sum_balances(envelopes) + ignored_balance) {
        Err(LedgerError::AmountOutOfRange)
    } else {
        Ok(
            PortfolioView {
                envelopes,
                unassigned: VopeView {
                    name: salary_name(),
                    budget: 0,
                    balance: 0,
                    history: income,
                },
                ignored: VopeView {
                    name: ignore_name(),
                    budget: 0,
                    balance: ignored_balance,
                    history: ignored,
                },
                budgeted: sum_budgets(envelopes),
                holdings: sum_balances(envelopes) + ignored_balance,
                paycheck,
            },
        )
    }
}

/// One line of the summary of a portfolio: name, balance and target of
/// an envelope.
pub open spec fn summary_line(v: VopeView) -> Seq<char> {
    "  "@ + v.name + " | "@ + display_text(v.balance) + " | "@ + display_text(v.budget) + "\n"@
}

/// The lines of the summary of a portfolio, one for each envelope.
pub open spec fn summary_lines(envelopes: Seq<VopeView>) -> Seq<char>
    decreases envelopes.len(),
{
    if envelopes.len() == 0 {
        Seq::empty()
    } else {
        summary_lines(envelopes.drop_last()) + summary_line(envelopes.last())
    }
}

/// A portfolio as the contracts see it.
pub struct PortfolioView {
    /// The envelopes in the order in which they were added. The first is
    /// the default envelope.
    pub envelopes: Seq<VopeView>,
    /// The reserved envelope that records income.
    pub unassigned: VopeView,
    /// The reserved envelope for transactions that the budget leaves out.
    pub ignored: VopeView,
    /// The total of the targets, in cents.
    pub budgeted: int,
    /// The total of the balances, in cents.
    pub holdings: int,
    /// The size of a paycheck, in cents.
    pub paycheck: int,
}

impl PortfolioView {
    /// There is a default envelope, no two envelopes have the same name,
    /// letter case aside, none has a reserved name, and the reserved
    /// envelopes are as they were made.
    pub open spec fn names_ok(self) -> bool {
        &&& self.envelopes.len() >= 1
        &&& names_distinct(self.envelopes)
        &&& self.unassigned.name == salary_name()
        &&& self.unassigned.budget == 0
        &&& self.unassigned.balance == 0
        &&& self.ignored.name == ignore_name()
        &&& self.ignored.budget == 0
    }

    /// The sum of the balances of all envelopes, the reserved ones
    /// included.
    pub open spec fn total_balance(self) -> int {
        sum_balances(self.envelopes) + self.unassigned.balance + self.ignored.balance
    }

    /// The holdings are the sum of all balances, and the budgeted total is
    /// the sum of the targets of the envelopes that are not reserved.
    pub open spec fn totals_ok(self) -> bool {
        &&& self.holdings == self.total_balance()
        &&& self.budgeted == sum_budgets(self.envelopes)
    }

    /// Every amount is one that an amount of money can hold.
    pub open spec fn amounts_fit(self) -> bool {
        &&& fits(self.budgeted)
        &&& fits(self.holdings)
        &&& fits(self.paycheck)
        &&& fits(self.ignored.balance)
        &&& forall|i: int|
            0 <= i < self.envelopes.len() ==> fits(#[trigger] self.envelopes[i].balance) && fits(
                self.envelopes[i].budget,
            )
    }

    /// What holds of every portfolio between two operations.
    pub open spec fn wf(self) -> bool {
        self.names_ok() && self.totals_ok() && self.amounts_fit()
    }

    /// The portfolio with its holdings counted anew.
    pub open spec fn retotaled(self) -> PortfolioView {
        PortfolioView { holdings: self.total_balance(), ..self }
    }

    /// What a transfer of `cents` between two envelopes makes of the
    /// portfolio. Both names have to be names of envelopes; reserved names
    /// are not. A transfer from an envelope to itself changes nothing.
    pub open spec fn transfer_outcome(self, from: Seq<char>, to: Seq<char>, cents: int) -> Result<
        PortfolioView,
        LedgerError,
    > {
        let i = position_of(self.envelopes, from);
        let j = position_of(self.envelopes, to);
        if i >= self.envelopes.len() || j >= self.envelopes.len() {
            Err(LedgerError::UnknownEnvelope)
        } else if i == j {
            Ok(self)
        } else {
            let a = self.envelopes[i].balance - cents;
            let b = self.envelopes[j].balance + cents;
            if !fits(a) || !fits(b) {
                Err(LedgerError::AmountOutOfRange)
            } else {
                Ok(
                    PortfolioView {
                        envelopes: self.envelopes.update(
                            i,
                            with_balance(self.envelopes[i], a),
                        ).update(j, with_balance(self.envelopes[j], b)),
                        ..self
                    },
                )
            }
        }
    }

    /// What adding an envelope makes of the portfolio.
    pub open spec fn add_outcome(self, name: Seq<char>, budget: int) -> Result<
        PortfolioView,
        LedgerError,
    > {
        if is_reserved(name) || self.has_envelope(name) {
            Err(LedgerError::DuplicateName)
        } else if !fits(self.budgeted + budget) {
            Err(LedgerError::AmountOutOfRange)
        } else {
            Ok(
                PortfolioView {
                    envelopes: self.envelopes.push(
                        VopeView { name, budget, balance: 0, history: Seq::empty() },
                    ),
                    budgeted: self.budgeted + budget,
                    ..self
                },
            )
        }
    }

    /// What removing an envelope makes of the portfolio: its balance goes
    /// to the default envelope, its target leaves the budgeted total, and
    /// the envelope leaves the list with its history.
    pub open spec fn remove_outcome(self, name: Seq<char>) -> Result<PortfolioView, LedgerError> {
        let i = position_of(self.envelopes, name);
        if is_reserved(name) {
            Err(LedgerError::NotRemovable)
        } else if i >= self.envelopes.len() {
            Err(LedgerError::UnknownEnvelope)
        } else if i == 0 {
            Err(LedgerError::NotRemovable)
        } else {
            let balance = self.envelopes[0].balance + self.envelopes[i].balance;
            let budgeted = self.budgeted - self.envelopes[i].budget;
            if !fits(balance) || !fits(budgeted) {
                Err(LedgerError::AmountOutOfRange)
            } else {
                Ok(
                    PortfolioView {
                        envelopes: self.envelopes.update(
                            0,
                            with_balance(self.envelopes[0], balance),
                        ).remove(i),
                        budgeted,
                        ..self
                    },
                )
            }
        }
    }

    /// What cashing a paycheck makes of the portfolio. The amount has to
    /// exceed the size of a paycheck less the target of the default
    /// envelope.
    pub open spec fn paycheck_outcome(self, amount: int) -> Result<PortfolioView, LedgerError> {
        if amount <= self.paycheck - self.envelopes[0].budget {
            Err(LedgerError::InsufficientPaycheck)
        } else {
            let envelopes = credit_each(
                self.envelopes,
                paycheck_credits(self.envelopes, self.budgeted, amount),
            );
            if !all_fit(balances_of(envelopes)) || !fits(self.holdings + amount) {
                Err(LedgerError::AmountOutOfRange)
            } else {
                Ok(PortfolioView { envelopes, holdings: self.holdings + amount, ..self })
            }
        }
    }

    /// What assigning a transaction makes of the portfolio. Assigned to
    /// the income, its amount is cashed as a paycheck and the transaction
    /// recorded with the income; assigned to what the budget leaves out,
    /// it is recorded there and no balance changes; assigned to an
    /// envelope, its amount goes to that envelope, which records it.
    pub open spec fn assign_to_outcome(self, target: EnvelopeRefView, t: TransactionView) -> Result<
        PortfolioView,
        LedgerError,
    > {
        match target {
            EnvelopeRefView::UnassignedIncome => match self.paycheck_outcome(t.cents) {
                Ok(paid) => Ok(
                    PortfolioView { unassigned: with_record(paid.unassigned, t), ..paid },
                ),
                Err(e) => Err(e),
            },
            EnvelopeRefView::Ignored => Ok(
                PortfolioView { ignored: with_record(self.ignored, t), ..self },
            ),
            EnvelopeRefView::User(name) => {
                let i = position_of(self.envelopes, name);
                if i >= self.envelopes.len() {
                    Err(LedgerError::UnknownEnvelope)
                } else {
                    let balance = self.envelopes[i].balance + t.cents;
                    if !fits(balance) || !fits(self.holdings + t.cents) {
                        Err(LedgerError::AmountOutOfRange)
                    } else {
                        Ok(
                            PortfolioView {
                                envelopes: self.envelopes.update(
                                    i,
                                    with_record(with_balance(self.envelopes[i], balance), t),
                                ),
                                holdings: self.holdings + t.cents,
                                ..self
                            },
                        )
                    }
                }
            },
        }
    }

    /// What assigning a transaction under a name makes of the portfolio:
    /// the name for income, the name for what the budget leaves out, or
    /// the name of an envelope.
    pub open spec fn assign_outcome(self, name: Seq<char>, t: TransactionView) -> Result<
        PortfolioView,
        LedgerError,
    > {
        self.assign_to_outcome(ref_of(name), t)
    }

    /// What splitting a transaction among the named envelopes makes of the
    /// portfolio, and the amount by which the shares together exceed the
    /// transaction. Each name has to be the name of an envelope or the
    /// name for what the budget leaves out. Every entry adds its share to
    /// where its name leads, and each of those envelopes records the
    /// transaction once. Without entries nothing changes.
    pub open spec fn split_outcome(
        self,
        entries: SplitEntries,
        t: TransactionView,
        even: bool,
    ) -> Result<(PortfolioView, int), LedgerError> {
        let count = self.envelopes.len() as int;
        let slots = slots_of(self.envelopes, entries);
        let shares = split_shares(entries, t.cents, even);
        let credits = split_credits(slots, shares, count);
        let marks = split_marks(slots, count);
        let envelopes = record_each(
            credit_each(self.envelopes, credits.take(count)),
            marks.take(count),
            t,
        );
        let credited = with_balance(self.ignored, self.ignored.balance + credits[count]);
        let ignored = if marks[count] {
            with_record(credited, t)
        } else {
            credited
        };
        let after = (PortfolioView { envelopes, ignored, ..self }).retotaled();
        if exists|k: int| 0 <= k < entries.len() && !self.contains(#[trigger] entries[k].0) {
            Err(LedgerError::UnknownEnvelope)
        } else if !even && entries.len() > 0 && total(weights_of(entries)) == 0 {
            Err(LedgerError::ZeroWeight)
        } else if !all_fit(balances_of(envelopes)) || !fits(ignored.balance) || !fits(
            after.holdings,
        ) {
            Err(LedgerError::AmountOutOfRange)
        } else {
            Ok((after, total(shares) - t.cents))
        }
    }

    /// Whether the history of some envelope, the reserved ones included,
    /// holds a transaction that is the same line of a statement as `t`.
    pub open spec fn categorized(self, t: TransactionView) -> bool {
        ||| history_holds(self.unassigned.history, t)
        ||| history_holds(self.ignored.history, t)
        ||| exists|i: int|
            0 <= i < self.envelopes.len() && history_holds(#[trigger] self.envelopes[i].history, t)
    }

    /// Of a list of transactions those that no history holds.
    pub open spec fn uncategorized(self, list: Seq<TransactionView>) -> Seq<TransactionView> {
        list.filter(|t: TransactionView| !self.categorized(t))
    }

    /// The history that goes by a name: that of the envelope of this name,
    /// or of the reserved envelope that the name stands for.
    pub open spec fn history_of(self, name: Seq<char>) -> Option<Seq<TransactionView>> {
        if is_salary(name) {
            Some(self.unassigned.history)
        } else if is_ignore(name) {
            Some(self.ignored.history)
        } else if self.has_envelope(name) {
            Some(self.envelopes[position_of(self.envelopes, name)].history)
        } else {
            None
        }
    }

    /// The summary of the portfolio: the two totals, and a line for each
    /// envelope.
    pub open spec fn summary(self) -> Seq<char> {
        "Budgeted: "@ + display_text(self.budgeted) + "\nHoldings: "@ + display_text(self.holdings)
            + "\n"@ + summary_lines(self.envelopes)
    }

    /// Whether an envelope has the name, letter case aside.
    pub open spec fn has_envelope(self, name: Seq<char>) -> bool {
        position_of(self.envelopes, name) < self.envelopes.len()
    }

    /// Whether a transaction can be assigned under the name as one of
    /// several: the name of an envelope, or the name for what the budget
    /// leaves out.
    pub open spec fn contains(self, name: Seq<char>) -> bool {
        is_ignore(name) || self.has_envelope(name)
    }
}

/// `position_of` is the first position with the name, or the number of
/// envelopes.
pub proof fn lemma_position_of(envelopes: Seq<VopeView>, name: Seq<char>)
    ensures
        0 <= position_of(envelopes, name) <= envelopes.len(),
        position_of(envelopes, name) < envelopes.len() ==> same_ignoring_case(
            envelopes[position_of(envelopes, name)].name,
            name,
        ),
        forall|k: int|
            0 <= k < position_of(envelopes, name) ==> !same_ignoring_case(
                #[trigger] envelopes[k].name,
                name,
            ),
    decreases envelopes.len(),
{
    if envelopes.len() == 0 || same_ignoring_case(envelopes[0].name, name) {
    } else {
        let rest = envelopes.drop_first();
        lemma_position_of(rest, name);
        let p = position_of(envelopes, name);
        assert forall|k: int| 0 <= k < p implies !same_ignoring_case(
            #[trigger] envelopes[k].name,
            name,
        ) by {
            if k > 0 {
                assert(envelopes[k] == rest[k - 1]);
            }
        }
        if p < envelopes.len() {
            assert(envelopes[p] == rest[p - 1]);
        }
    }
}

/// A position before which no envelope has the name, and at which one has
/// it or the envelopes end, is `position_of`.
pub proof fn lemma_position_is(envelopes: Seq<VopeView>, name: Seq<char>, i: int)
    requires
        0 <= i <= envelopes.len(),
        forall|k: int| 0 <= k < i ==> !same_ignoring_case(#[trigger] envelopes[k].name, name),
        i == envelopes.len() || same_ignoring_case(envelopes[i].name, name),
    ensures
        position_of(envelopes, name) == i,
{
    lemma_position_of(envelopes, name);
}

/// Appending an amount adds it to the total.
pub proof fn lemma_total_push(amounts: Seq<int>, x: int)
    ensures
        total(amounts.push(x)) == total(amounts) + x,
{
    assert(amounts.push(x).drop_last() =~= amounts);
}

/// Replacing an amount changes the total by the difference.
pub proof fn lemma_total_update(amounts: Seq<int>, i: int, x: int)
    requires
        0 <= i < amounts.len(),
    ensures
        total(amounts.update(i, x)) == total(amounts) - amounts[i] + x,
    decreases amounts.len(),
{
    let updated = amounts.update(i, x);
    if i == amounts.len() - 1 {
        assert(updated.drop_last() =~= amounts.drop_last());
    } else {
        lemma_total_update(amounts.drop_last(), i, x);
        assert(updated.drop_last() =~= amounts.drop_last().update(i, x));
    }
}

/// Taking an amount out takes it from the total.
pub proof fn lemma_total_remove(amounts: Seq<int>, i: int)
    requires
        0 <= i < amounts.len(),
    ensures
        total(amounts.remove(i)) == total(amounts) - amounts[i],
    decreases amounts.len(),
{
    let removed = amounts.remove(i);
    if i == amounts.len() - 1 {
        assert(removed =~= amounts.drop_last());
    } else {
        lemma_total_remove(amounts.drop_last(), i);
        assert(removed.drop_last() =~= amounts.drop_last().remove(i));
        assert(removed.last() == amounts.last());
    }
}

/// The total of amounts of 64 bits lies within their number times the
/// bounds of 64 bits.
pub proof fn lemma_total_bounds(amounts: Seq<int>)
    requires
        forall|i: int| 0 <= i < amounts.len() ==> fits(#[trigger] amounts[i]),
    ensures
        amounts.len() * i64::MIN <= total(amounts) <= amounts.len() * i64::MAX,
    decreases amounts.len(),
{
    if amounts.len() > 0 {
        let rest = amounts.drop_last();
        assert forall|i: int| 0 <= i < rest.len() implies fits(#[trigger] rest[i]) by {
            assert(rest[i] == amounts[i]);
        }
        lemma_total_bounds(rest);
        assert(fits(amounts[amounts.len() - 1]));
        assert(amounts.len() * i64::MIN == rest.len() * i64::MIN + i64::MIN) by (nonlinear_arith)
            requires
                amounts.len() == rest.len() + 1,
        ;
        assert(amounts.len() * i64::MAX == rest.len() * i64::MAX + i64::MAX) by (nonlinear_arith)
            requires
                amounts.len() == rest.len() + 1,
        ;
    }
}

/// The total of a prefix, one amount longer.
pub proof fn lemma_total_take(amounts: Seq<int>, i: int)
    requires
        0 <= i < amounts.len(),
    ensures
        total(amounts.take(i + 1)) == total(amounts.take(i)) + amounts[i],
{
    assert(amounts.take(i + 1).drop_last() =~= amounts.take(i));
}

/// Where each amount of one list is the sum of the amounts of two others
/// at its position, its total is the sum of their totals.
pub proof fn lemma_total_sum(a: Seq<int>, b: Seq<int>, c: Seq<int>)
    requires
        a.len() == b.len(),
        a.len() == c.len(),
        forall|i: int| 0 <= i < a.len() ==> #[trigger] a[i] == b[i] + c[i],
    ensures
        total(a) == total(b) + total(c),
    decreases a.len(),
{
    if a.len() > 0 {
        let a1 = a.drop_last();
        let b1 = b.drop_last();
        let c1 = c.drop_last();
        assert forall|i: int| 0 <= i < a1.len() implies #[trigger] a1[i] == b1[i] + c1[i] by {
            assert(a[i] == b[i] + c[i]);
        }
        lemma_total_sum(a1, b1, c1);
        assert(a[a.len() - 1] == b[a.len() - 1] + c[a.len() - 1]);
    }
}

/// The total of a list is its first amount and the total of the rest.
pub proof fn lemma_total_first(a: Seq<int>)
    requires
        a.len() > 0,
    ensures
        total(a) == a[0] + total(a.skip(1)),
    decreases a.len(),
{
    if a.len() == 1 {
        assert(a.skip(1) =~= Seq::<int>::empty());
        assert(a.drop_last() =~= Seq::<int>::empty());
    } else {
        lemma_total_first(a.drop_last());
        assert(a.drop_last().skip(1) =~= a.skip(1).drop_last());
        assert(a.skip(1).last() == a.last());
    }
}

/// The credits of a paycheck add up to the paycheck.
pub proof fn lemma_paycheck_credits_total(envelopes: Seq<VopeView>, budgeted: int, amount: int)
    requires
        envelopes.len() > 0,
    ensures
        total(paycheck_credits(envelopes, budgeted, amount)) == amount,
{
    let portions = paycheck_portions(envelopes, budgeted, amount);
    let credits = paycheck_credits(envelopes, budgeted, amount);
    lemma_total_first(credits);
    assert(credits.skip(1) =~= portions.skip(1));
}

/// Crediting each envelope adds the total of the credits to the sum of
/// the balances, and leaves names, targets and histories as they are.
pub proof fn lemma_credit_each(envelopes: Seq<VopeView>, credits: Seq<int>)
    requires
        envelopes.len() == credits.len(),
    ensures
        sum_balances(credit_each(envelopes, credits)) == sum_balances(envelopes) + total(credits),
        budgets_of(credit_each(envelopes, credits)) == budgets_of(envelopes),
{
    let after = credit_each(envelopes, credits);
    lemma_total_sum(balances_of(after), balances_of(envelopes), credits);
    assert(budgets_of(after) =~= budgets_of(envelopes));
}

} // verus!
