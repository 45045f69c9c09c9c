use money_man::date::Date;
use money_man::dollar::Dollar;
use money_man::error::LedgerError;
use money_man::portfolio::{EnvelopeRef, Portfolio};
use money_man::transaction::Transaction;
use money_man::vope::Vope;

fn usd(cents: i64) -> Dollar {
    Dollar::from_cents(cents)
}

fn tx(day: u32, desc: &str, cents: i64) -> Transaction {
    Transaction::new(Date::from_ymd(2024, 3, day).unwrap(), desc.to_string(), usd(cents))
}

fn balances(p: &Portfolio) -> Vec<i64> {
    p.view_vopes().iter().map(|v| v.actual_amount.cents()).collect()
}

fn names(p: &Portfolio) -> Vec<String> {
    p.view_vopes().iter().map(|v| v.name.clone()).collect()
}

fn sum_of_all(p: &Portfolio) -> i64 {
    balances(p).iter().sum::<i64>()
        + p.view_ignored().actual_amount.cents()
        + p.view_unassigned().actual_amount.cents()
}

fn budget_of_all(p: &Portfolio) -> i64 {
    p.view_vopes().iter().map(|v| v.budget.cents()).sum::<i64>()
}

fn household() -> Portfolio {
    let mut p = Portfolio::new(usd(10000), usd(100000));
    p.add_vope("Groceries", usd(20000)).unwrap();
    p
}

#[test]
fn new_portfolio_has_a_default_envelope() {
    let p = Portfolio::new(usd(10000), usd(5));
    assert_eq!(names(&p), vec!["Default"]);
    assert_eq!(balances(&p), vec![0]);
    assert_eq!(p.view_vopes()[0].budget, usd(10000));
    assert_eq!(p.view_budgeted(), usd(10000));
    assert_eq!(p.view_holdings(), usd(0));
    assert_eq!(p.view_paycheck(), usd(5));
    assert_eq!(p.view_ignored().name, "Ignore");
    assert_eq!(p.view_unassigned().name, "Salary");
    assert!(p.view_ignored().transactions.is_empty());
    assert!(p.view_unassigned().transactions.is_empty());
}

#[test]
fn scenario_paycheck_of_a_thousand() {
    let mut p = household();
    assert_eq!(p.add_vope("Rent", usd(70000)), Ok(()));
    assert_eq!(p.view_budgeted(), usd(100000));
    assert_eq!(p.cash_paycheck(usd(100000)), Ok(()));
    assert_eq!(names(&p), vec!["Default", "Groceries", "Rent"]);
    assert_eq!(balances(&p), vec![10000, 20000, 70000]);
    assert_eq!(p.view_holdings(), usd(100000));
}

#[test]
fn scenario_even_split_of_ten_dollars() {
    let mut p = household();
    p.add_vope("Rent", usd(70000)).unwrap();
    let t = tx(15, "Market", 1000);
    let residual = p.assign_transaction(&[("Groceries", 1), ("Rent", 1)], &t, true);
    assert_eq!(residual, Ok(usd(0)));
    assert_eq!(balances(&p), vec![0, 500, 500]);
    assert_eq!(p.view_holdings(), usd(1000));
    assert_eq!(p.view_vopes()[1].transactions.len(), 1);
    assert_eq!(p.view_vopes()[2].transactions.len(), 1);
    assert!(p.view_vopes()[0].transactions.is_empty());
}

#[test]
fn scenario_remove_groceries() {
    let mut p = household();
    p.add_vope("Rent", usd(70000)).unwrap();
    p.assign("Groceries", &tx(15, "Refund", 3712)).unwrap();
    assert_eq!(balances(&p), vec![0, 3712, 0]);
    assert_eq!(p.remove_vope("Groceries"), Ok(()));
    assert_eq!(names(&p), vec!["Default", "Rent"]);
    assert_eq!(balances(&p), vec![3712, 0]);
    assert_eq!(p.view_budgeted(), usd(80000));
    assert_eq!(p.view_holdings(), usd(3712));
}

#[test]
fn add_envelope_starts_empty() {
    let mut p = household();
    assert_eq!(names(&p), vec!["Default", "Groceries"]);
    assert_eq!(p.view_vopes()[1].budget, usd(20000));
    assert_eq!(p.view_vopes()[1].actual_amount, usd(0));
    assert!(p.view_vopes()[1].transactions.is_empty());
    assert_eq!(p.view_budgeted(), usd(30000));
    assert_eq!(p.add_vope("", usd(1)), Ok(()));
    assert_eq!(p.view_budgeted(), usd(30001));
}

#[test]
fn add_envelope_rejects_a_name_that_exists() {
    let mut p = household();
    assert_eq!(p.add_vope("Groceries", usd(1)), Err(LedgerError::DuplicateName));
    assert_eq!(p.add_vope("gROCERIES", usd(1)), Err(LedgerError::DuplicateName));
    assert_eq!(p.add_vope("default", usd(1)), Err(LedgerError::DuplicateName));
    assert_eq!(names(&p), vec!["Default", "Groceries"]);
    assert_eq!(p.view_budgeted(), usd(30000));
}

#[test]
fn add_envelope_rejects_a_reserved_name() {
    let mut p = household();
    assert_eq!(p.add_vope("Salary", usd(1)), Err(LedgerError::DuplicateName));
    assert_eq!(p.add_vope("ignore", usd(1)), Err(LedgerError::DuplicateName));
    assert_eq!(p.add_vope("IGNORE", usd(1)), Err(LedgerError::DuplicateName));
    assert_eq!(p.add_vope("Ignored", usd(1)), Ok(()));
    assert_eq!(names(&p).len(), 3);
}

#[test]
fn add_envelope_rejects_a_total_that_does_not_fit() {
    let mut p = Portfolio::new(usd(i64::MAX), usd(0));
    assert_eq!(p.add_vope("One", usd(1)), Err(LedgerError::AmountOutOfRange));
    assert_eq!(names(&p), vec!["Default"]);
    assert_eq!(p.add_vope("Less", usd(-1)), Ok(()));
    assert_eq!(p.view_budgeted(), usd(i64::MAX - 1));
}

#[test]
fn remove_envelope_that_is_unknown() {
    let mut p = household();
    assert_eq!(p.remove_vope("Rent"), Err(LedgerError::UnknownEnvelope));
    assert_eq!(names(&p), vec!["Default", "Groceries"]);
}

#[test]
fn remove_envelope_that_is_not_removable() {
    let mut p = household();
    assert_eq!(p.remove_vope("Default"), Err(LedgerError::NotRemovable));
    assert_eq!(p.remove_vope("DEFAULT"), Err(LedgerError::NotRemovable));
    assert_eq!(p.remove_vope("Salary"), Err(LedgerError::NotRemovable));
    assert_eq!(p.remove_vope("Ignore"), Err(LedgerError::NotRemovable));
    assert_eq!(names(&p), vec!["Default", "Groceries"]);
}

#[test]
fn remove_envelope_ignores_case_and_keeps_the_order() {
    let mut p = household();
    p.add_vope("Rent", usd(70000)).unwrap();
    p.add_vope("Fun", usd(500)).unwrap();
    assert_eq!(p.remove_vope("rent"), Ok(()));
    assert_eq!(names(&p), vec!["Default", "Groceries", "Fun"]);
    assert_eq!(p.view_budgeted(), usd(30500));
}

#[test]
fn remove_envelope_whose_balance_does_not_fit_the_default() {
    let v = |name: &str, balance: i64| {
        let mut v = Vope::new(name.to_string(), usd(0));
        v.credit(usd(balance));
        v
    };
    let parts = vec![v("Default", i64::MAX - 1), v("Groceries", 5), v("Rent", -10)];
    let mut p = Portfolio::from_parts(parts, vec![], vec![], usd(0), usd(0)).unwrap();
    assert_eq!(p.view_holdings(), usd(i64::MAX - 6));
    assert_eq!(p.remove_vope("Groceries"), Err(LedgerError::AmountOutOfRange));
    assert_eq!(names(&p), vec!["Default", "Groceries", "Rent"]);
    assert_eq!(balances(&p), vec![i64::MAX - 1, 5, -10]);
    assert_eq!(p.remove_vope("Rent"), Ok(()));
    assert_eq!(balances(&p), vec![i64::MAX - 11, 5]);
    assert_eq!(p.remove_vope("Groceries"), Ok(()));
    assert_eq!(balances(&p), vec![i64::MAX - 6]);
}

#[test]
fn remove_envelope_whose_target_leaves_a_total_that_does_not_fit() {
    let v = |name: &str, budget: i64| Vope::new(name.to_string(), usd(budget));
    let parts = vec![v("Default", i64::MAX - 10), v("Less", -10), v("More", 20)];
    let mut p = Portfolio::from_parts(parts, vec![], vec![], usd(0), usd(0)).unwrap();
    assert_eq!(p.view_budgeted(), usd(i64::MAX));
    assert_eq!(p.remove_vope("Less"), Err(LedgerError::AmountOutOfRange));
    assert_eq!(names(&p).len(), 3);
    assert_eq!(p.remove_vope("More"), Ok(()));
    assert_eq!(p.view_budgeted(), usd(i64::MAX - 20));
}

#[test]
fn transfer_moves_money() {
    let mut p = household();
    p.assign("Default", &tx(1, "a", 5000)).unwrap();
    assert_eq!(p.transfer_holdings("default", "GROCERIES", usd(1250)), Ok(()));
    assert_eq!(balances(&p), vec![3750, 1250]);
    assert_eq!(p.view_holdings(), usd(5000));
}

#[test]
fn transfer_may_leave_a_balance_below_zero() {
    let mut p = household();
    assert_eq!(p.transfer_holdings("Groceries", "Default", usd(700)), Ok(()));
    assert_eq!(balances(&p), vec![700, -700]);
    assert_eq!(p.view_holdings(), usd(0));
}

#[test]
fn transfer_and_back_restores_both_balances() {
    let mut p = household();
    p.assign("Default", &tx(1, "a", 5000)).unwrap();
    p.assign("Groceries", &tx(2, "b", 77)).unwrap();
    let before = balances(&p);
    for amount in [0, 1, 1250, 999999, -3] {
        p.transfer_holdings("Default", "Groceries", usd(amount)).unwrap();
        p.transfer_holdings("Groceries", "Default", usd(amount)).unwrap();
        assert_eq!(balances(&p), before);
        assert_eq!(p.view_holdings(), usd(5077));
    }
}

#[test]
fn transfer_to_the_same_envelope_changes_nothing() {
    let mut p = household();
    p.assign("Groceries", &tx(2, "b", 77)).unwrap();
    assert_eq!(p.transfer_holdings("Groceries", "groceries", usd(50)), Ok(()));
    assert_eq!(balances(&p), vec![0, 77]);
    assert_eq!(p.transfer_holdings("Groceries", "groceries", usd(i64::MIN)), Ok(()));
    assert_eq!(balances(&p), vec![0, 77]);
}

#[test]
fn transfer_with_an_unknown_end_changes_nothing() {
    let mut p = household();
    p.assign("Groceries", &tx(2, "b", 77)).unwrap();
    assert_eq!(p.transfer_holdings("Groceries", "Rent", usd(50)), Err(LedgerError::UnknownEnvelope));
    assert_eq!(p.transfer_holdings("Rent", "Groceries", usd(50)), Err(LedgerError::UnknownEnvelope));
    assert_eq!(p.transfer_holdings("Groceries", "Ignore", usd(50)), Err(LedgerError::UnknownEnvelope));
    assert_eq!(p.transfer_holdings("Salary", "Groceries", usd(50)), Err(LedgerError::UnknownEnvelope));
    assert_eq!(balances(&p), vec![0, 77]);
}

#[test]
fn transfer_that_does_not_fit_changes_nothing() {
    let mut p = household();
    p.assign("Groceries", &tx(2, "b", -10)).unwrap();
    assert_eq!(
        p.transfer_holdings("Groceries", "Default", usd(i64::MAX)),
        Err(LedgerError::AmountOutOfRange)
    );
    assert_eq!(balances(&p), vec![0, -10]);
    p.assign("Default", &tx(3, "c", 10)).unwrap();
    assert_eq!(
        p.transfer_holdings("Groceries", "Default", usd(i64::MAX)),
        Err(LedgerError::AmountOutOfRange)
    );
    assert_eq!(balances(&p), vec![10, -10]);
}

#[test]
fn assign_to_an_envelope() {
    let mut p = household();
    let t = tx(15, "Market", -1234);
    assert_eq!(p.assign("groceries", &t), Ok(()));
    assert_eq!(balances(&p), vec![0, -1234]);
    assert_eq!(p.view_holdings(), usd(-1234));
    assert_eq!(p.view_vopes()[1].transactions.len(), 1);
    assert!(p.view_vopes()[1].transactions[0] == t);
    assert_eq!(p.view_vopes()[1].transactions[0].charge, usd(-1234));
    assert!(p.categorized(&t));
}

#[test]
fn assign_to_an_unknown_envelope() {
    let mut p = household();
    let t = tx(15, "Market", -1234);
    assert_eq!(p.assign("Rent", &t), Err(LedgerError::UnknownEnvelope));
    assert_eq!(balances(&p), vec![0, 0]);
    assert!(!p.categorized(&t));
}

#[test]
fn assign_to_what_the_budget_leaves_out() {
    let mut p = household();
    let t = tx(15, "Gift", 99999);
    assert_eq!(p.assign("Ignore", &t), Ok(()));
    assert_eq!(balances(&p), vec![0, 0]);
    assert_eq!(p.view_holdings(), usd(0));
    assert_eq!(p.view_ignored().actual_amount, usd(0));
    assert_eq!(p.view_ignored().transactions.len(), 1);
    assert!(p.categorized(&t));
}

#[test]
fn assign_income_cashes_a_paycheck() {
    let mut p = household();
    p.add_vope("Rent", usd(70000)).unwrap();
    let t = tx(1, "Employer", 100000);
    assert_eq!(p.assign("salary", &t), Ok(()));
    assert_eq!(balances(&p), vec![10000, 20000, 70000]);
    assert_eq!(p.view_holdings(), usd(100000));
    assert_eq!(p.view_unassigned().transactions.len(), 1);
    assert_eq!(p.view_unassigned().actual_amount, usd(0));
    assert!(p.categorized(&t));
}

#[test]
fn assign_income_that_is_too_small() {
    let mut p = household();
    let t = tx(1, "Employer", 90000);
    assert_eq!(p.assign("Salary", &t), Err(LedgerError::InsufficientPaycheck));
    assert_eq!(balances(&p), vec![0, 0]);
    assert!(p.view_unassigned().transactions.is_empty());
    assert!(!p.categorized(&t));
}

#[test]
fn assign_that_does_not_fit_changes_nothing() {
    let mut p = household();
    p.assign("Groceries", &tx(1, "a", i64::MAX)).unwrap();
    let t = tx(2, "b", 1);
    assert_eq!(p.assign("Groceries", &t), Err(LedgerError::AmountOutOfRange));
    assert_eq!(p.assign("Default", &t), Err(LedgerError::AmountOutOfRange));
    assert_eq!(balances(&p), vec![0, i64::MAX]);
    assert_eq!(p.view_vopes()[1].transactions.len(), 1);
    assert!(!p.categorized(&t));
}

#[test]
fn paycheck_has_to_exceed_the_threshold() {
    let mut p = household();
    assert_eq!(p.cash_paycheck(usd(90000)), Err(LedgerError::InsufficientPaycheck));
    assert_eq!(p.cash_paycheck(usd(0)), Err(LedgerError::InsufficientPaycheck));
    assert_eq!(p.cash_paycheck(usd(-5)), Err(LedgerError::InsufficientPaycheck));
    assert_eq!(balances(&p), vec![0, 0]);
    assert_eq!(p.cash_paycheck(usd(90001)), Ok(()));
    assert_eq!(p.view_holdings(), usd(90001));
}

#[test]
fn paycheck_remainder_goes_to_the_default_envelope() {
    let mut p = Portfolio::new(usd(10000), usd(0));
    p.add_vope("A", usd(10000)).unwrap();
    p.add_vope("B", usd(10000)).unwrap();
    assert_eq!(p.cash_paycheck(usd(10000)), Ok(()));
    assert_eq!(balances(&p), vec![3334, 3333, 3333]);
    assert_eq!(p.cash_paycheck(usd(2)), Ok(()));
    assert_eq!(balances(&p), vec![3334, 3334, 3334]);
    assert_eq!(p.cash_paycheck(usd(1)), Ok(()));
    assert_eq!(balances(&p), vec![3335, 3334, 3334]);
    assert_eq!(p.view_holdings(), usd(10003));
}

#[test]
fn paycheck_is_handed_out_to_the_cent() {
    let mut p = Portfolio::new(usd(1), usd(0));
    for (i, budget) in [3, 7, 11, 13, 17, 19, 23].iter().enumerate() {
        p.add_vope(&format!("E{}", i), usd(*budget)).unwrap();
    }
    for amount in [1, 2, 3, 10, 99, 100, 101, 12345, 999999, 1000003] {
        let before = sum_of_all(&p);
        assert_eq!(p.cash_paycheck(usd(amount)), Ok(()));
        assert_eq!(sum_of_all(&p) - before, amount);
        assert_eq!(p.view_holdings(), usd(sum_of_all(&p)));
    }
}

#[test]
fn paycheck_with_nothing_budgeted_goes_to_the_default_envelope() {
    let mut p = Portfolio::new(usd(0), usd(0));
    p.add_vope("A", usd(0)).unwrap();
    assert_eq!(p.cash_paycheck(usd(500)), Ok(()));
    assert_eq!(balances(&p), vec![500, 0]);
}

#[test]
fn paycheck_that_does_not_fit_changes_nothing() {
    let mut p = household();
    p.assign("Groceries", &tx(1, "a", i64::MAX - 10)).unwrap();
    assert_eq!(p.cash_paycheck(usd(100000)), Err(LedgerError::AmountOutOfRange));
    assert_eq!(balances(&p), vec![0, i64::MAX - 10]);
    assert_eq!(p.view_holdings(), usd(i64::MAX - 10));
}

#[test]
fn split_evenly_with_a_remainder() {
    let mut p = household();
    p.add_vope("Rent", usd(70000)).unwrap();
    let t = tx(15, "Market", 1000);
    let residual = p.assign_transaction(&[("Default", 0), ("Groceries", 0), ("Rent", 0)], &t, true);
    assert_eq!(residual, Ok(usd(-1)));
    assert_eq!(balances(&p), vec![333, 333, 333]);
    assert_eq!(p.view_holdings(), usd(999));
}

#[test]
fn split_evenly_rounds_a_half_away_from_zero() {
    let mut p = household();
    let t = tx(15, "Market", -5);
    let residual = p.assign_transaction(&[("Default", 9), ("Groceries", 1)], &t, true);
    assert_eq!(residual, Ok(usd(-1)));
    assert_eq!(balances(&p), vec![-3, -3]);
    assert_eq!(p.view_holdings(), usd(-6));
}

#[test]
fn split_by_weight() {
    let mut p = household();
    p.add_vope("Rent", usd(70000)).unwrap();
    let t = tx(15, "Market", 1000);
    let residual = p.assign_transaction(&[("Groceries", 1), ("Rent", 2)], &t, false);
    assert_eq!(residual, Ok(usd(0)));
    assert_eq!(balances(&p), vec![0, 333, 667]);
    let t = tx(16, "Kiosk", 2);
    let residual = p.assign_transaction(&[("Default", 5), ("Groceries", 5), ("Rent", 5)], &t, false);
    assert_eq!(residual, Ok(usd(1)));
    assert_eq!(balances(&p), vec![1, 334, 668]);
    assert_eq!(p.view_holdings(), usd(1003));
}

#[test]
fn split_by_weight_with_a_weight_of_zero() {
    let mut p = household();
    let t = tx(15, "Market", 1000);
    let residual = p.assign_transaction(&[("Groceries", 0), ("Default", 4)], &t, false);
    assert_eq!(residual, Ok(usd(0)));
    assert_eq!(balances(&p), vec![1000, 0]);
    assert_eq!(p.view_vopes()[1].transactions.len(), 1);
}

#[test]
fn split_by_weights_that_add_up_to_zero() {
    let mut p = household();
    let t = tx(15, "Market", 1000);
    let r = p.assign_transaction(&[("Groceries", 0), ("Default", 0)], &t, false);
    assert_eq!(r, Err(LedgerError::ZeroWeight));
    assert_eq!(balances(&p), vec![0, 0]);
    assert!(!p.categorized(&t));
    assert_eq!(p.assign_transaction(&[("Groceries", 0), ("Default", 0)], &t, true), Ok(usd(0)));
    assert_eq!(balances(&p), vec![500, 500]);
}

#[test]
fn split_with_an_unknown_name_changes_nothing() {
    let mut p = household();
    let t = tx(15, "Market", 1000);
    let r = p.assign_transaction(&[("Groceries", 1), ("Rent", 1)], &t, true);
    assert_eq!(r, Err(LedgerError::UnknownEnvelope));
    let r = p.assign_transaction(&[("Groceries", 1), ("Salary", 1)], &t, false);
    assert_eq!(r, Err(LedgerError::UnknownEnvelope));
    assert_eq!(balances(&p), vec![0, 0]);
    assert!(p.view_vopes()[1].transactions.is_empty());
    assert!(!p.categorized(&t));
}

#[test]
fn split_with_what_the_budget_leaves_out() {
    let mut p = household();
    let t = tx(15, "Market", 1000);
    let r = p.assign_transaction(&[("Groceries", 1), ("ignore", 3)], &t, false);
    assert_eq!(r, Ok(usd(0)));
    assert_eq!(balances(&p), vec![0, 250]);
    assert_eq!(p.view_ignored().actual_amount, usd(750));
    assert_eq!(p.view_ignored().transactions.len(), 1);
    assert_eq!(p.view_holdings(), usd(1000));
    assert_eq!(p.view_holdings(), usd(sum_of_all(&p)));
}

#[test]
fn split_with_a_name_twice_adds_both_shares_and_records_once() {
    let mut p = household();
    let t = tx(15, "Market", 900);
    let r = p.assign_transaction(&[("Groceries", 1), ("Default", 1), ("GROCERIES", 1)], &t, true);
    assert_eq!(r, Ok(usd(0)));
    assert_eq!(balances(&p), vec![300, 600]);
    assert_eq!(p.view_vopes()[1].transactions.len(), 1);
    assert_eq!(p.view_vopes()[0].transactions.len(), 1);
}

#[test]
fn split_among_no_names_changes_nothing() {
    let mut p = household();
    let t = tx(15, "Market", 900);
    assert_eq!(p.assign_transaction(&[], &t, true), Ok(usd(-900)));
    assert_eq!(p.assign_transaction(&[], &t, false), Ok(usd(-900)));
    assert_eq!(balances(&p), vec![0, 0]);
    assert!(!p.categorized(&t));
}

#[test]
fn split_that_does_not_fit_changes_nothing() {
    let mut p = household();
    p.assign("Groceries", &tx(1, "a", i64::MAX)).unwrap();
    let t = tx(15, "Market", 2);
    let r = p.assign_transaction(&[("Groceries", 1), ("Default", 1)], &t, true);
    assert_eq!(r, Err(LedgerError::AmountOutOfRange));
    let r = p.assign_transaction(&[("Ignore", 1), ("Default", 1)], &t, true);
    assert_eq!(r, Err(LedgerError::AmountOutOfRange));
    assert_eq!(balances(&p), vec![0, i64::MAX]);
    assert!(!p.categorized(&t));
}

#[test]
fn holdings_are_the_sum_of_all_balances_after_every_step() {
    let mut p = Portfolio::new(usd(10000), usd(50000));
    let check = |p: &Portfolio| {
        assert_eq!(p.view_holdings(), usd(sum_of_all(p)));
        assert_eq!(p.view_budgeted(), usd(budget_of_all(p)));
    };
    check(&p);
    p.add_vope("Groceries", usd(20000)).unwrap();
    check(&p);
    p.add_vope("Rent", usd(70000)).unwrap();
    check(&p);
    p.assign("Salary", &tx(1, "Employer", 123457)).unwrap();
    check(&p);
    p.assign("Rent", &tx(2, "Landlord", -70000)).unwrap();
    check(&p);
    p.assign("Ignore", &tx(3, "Gift", 5000)).unwrap();
    check(&p);
    p.assign_transaction(&[("Groceries", 2), ("Ignore", 1), ("Rent", 4)], &tx(4, "Mall", -10001), false)
        .unwrap();
    check(&p);
    p.assign_transaction(&[("Groceries", 2), ("Default", 1), ("Rent", 4)], &tx(5, "Mall", -10001), true)
        .unwrap();
    check(&p);
    p.transfer_holdings("Default", "Rent", usd(333)).unwrap();
    check(&p);
    p.cash_paycheck(usd(40001)).unwrap();
    check(&p);
    p.remove_vope("Groceries").unwrap();
    check(&p);
    p.remove_vope("Rent").unwrap();
    check(&p);
    assert_eq!(names(&p), vec!["Default"]);
    assert!(p.calc_holdings());
    check(&p);
}

#[test]
fn what_was_assigned_is_not_offered_again() {
    let mut p = household();
    let a = tx(1, "a", 100);
    let b = tx(2, "b", 200);
    let c = tx(3, "c", 300);
    let d = tx(4, "d", 400);
    let e = tx(5, "e", 500);
    p.assign("Groceries", &a).unwrap();
    p.assign("Ignore", &b).unwrap();
    p.assign("Salary", &Transaction::new(c.date, c.desc.clone(), usd(100000))).unwrap();
    p.assign_transaction(&[("Default", 1), ("Groceries", 1)], &d, true).unwrap();
    let mut list = vec![e.clone(), d.clone(), c.clone(), b.clone(), a.clone()];
    p.clean_transaction_list(&mut list);
    assert_eq!(list.len(), 1);
    assert!(list[0] == e);
    let nudged = tx(1, "a", 101);
    assert!(p.categorized(&nudged));
    assert!(p.uncategorized(&vec![nudged, a]).is_empty());
    p.clean_transaction_list(&mut list);
    assert_eq!(list.len(), 1);
}

#[test]
fn cleaning_a_list_sorts_it_and_drops_repeats() {
    let p = household();
    let mut list = vec![tx(5, "e", 500), tx(1, "a", 100), tx(5, "e", 400), tx(3, "c", 1), tx(1, "a", 100)];
    p.clean_transaction_list(&mut list);
    let got: Vec<(u32, i64)> = list.iter().map(|t| (t.date.day(), t.charge.cents())).collect();
    assert_eq!(got, vec![(1, 100), (3, 1), (5, 400)]);
}

#[test]
fn uncategorized_keeps_the_order_of_the_list() {
    let mut p = household();
    p.assign("Groceries", &tx(3, "c", 1)).unwrap();
    let list = vec![tx(5, "e", 500), tx(3, "c", 9), tx(1, "a", 100), tx(5, "e", 400)];
    let kept = p.uncategorized(&list);
    let got: Vec<(u32, i64)> = kept.iter().map(|t| (t.date.day(), t.charge.cents())).collect();
    assert_eq!(got, vec![(5, 500), (1, 100), (5, 400)]);
}

#[test]
fn history_by_name() {
    let mut p = household();
    p.assign("Groceries", &tx(3, "c", 1)).unwrap();
    p.assign("Groceries", &tx(1, "a", 2)).unwrap();
    p.assign("Ignore", &tx(2, "b", 3)).unwrap();
    p.assign("Salary", &tx(4, "d", 100000)).unwrap();
    let h = p.get_vope_history("groceries").unwrap();
    assert_eq!(h.iter().map(|t| t.charge.cents()).collect::<Vec<_>>(), vec![1, 2]);
    assert_eq!(p.get_vope_history("Ignore").unwrap().len(), 1);
    assert_eq!(p.get_vope_history("Salary").unwrap().len(), 1);
    assert!(p.get_vope_history("Default").unwrap().is_empty());
    assert_eq!(p.get_vope_history("Rent").err(), Some(LedgerError::UnknownEnvelope));
}

#[test]
fn position_and_presence_of_a_name() {
    let p = household();
    assert_eq!(p.get_vope_pos("default"), Some(0));
    assert_eq!(p.get_vope_pos("GROCERIES"), Some(1));
    assert_eq!(p.get_vope_pos("Rent"), None);
    assert_eq!(p.get_vope_pos("Ignore"), None);
    assert!(p.contains("groceries"));
    assert!(p.contains("ignore"));
    assert!(!p.contains("Salary"));
    assert!(!p.contains("Rent"));
    assert!(!p.contains("Groceries "));
}

#[test]
fn restored_portfolio_counts_its_totals_anew() {
    let mut a = Vope::new("Main".to_string(), usd(100));
    a.credit(usd(40));
    let mut b = Vope::new("Fun".to_string(), usd(25));
    b.debit(usd(15));
    b.record(tx(1, "a", -15));
    let p = Portfolio::from_parts(vec![a, b], vec![tx(2, "pay", 40)], vec![tx(3, "x", 7)], usd(7), usd(90))
        .unwrap();
    assert_eq!(names(&p), vec!["Main", "Fun"]);
    assert_eq!(balances(&p), vec![40, -15]);
    assert_eq!(p.view_budgeted(), usd(125));
    assert_eq!(p.view_holdings(), usd(32));
    assert_eq!(p.view_paycheck(), usd(90));
    assert_eq!(p.view_ignored().actual_amount, usd(7));
    assert!(p.categorized(&tx(1, "a", 0)));
    assert!(p.categorized(&tx(2, "pay", 0)));
    assert!(p.categorized(&tx(3, "x", 0)));
    assert!(!p.categorized(&tx(4, "x", 0)));
    let mut p = p;
    assert_eq!(p.remove_vope("Main"), Err(LedgerError::NotRemovable));
    assert_eq!(p.remove_vope("Fun"), Ok(()));
    assert_eq!(balances(&p), vec![25]);
}

#[test]
fn restored_portfolio_needs_envelopes_with_names_of_their_own() {
    let v = |name: &str| Vope::new(name.to_string(), usd(1));
    let r = Portfolio::from_parts(vec![], vec![], vec![], usd(0), usd(0));
    assert_eq!(r.err(), Some(LedgerError::UnknownEnvelope));
    let r = Portfolio::from_parts(vec![v("a"), v("b"), v("A")], vec![], vec![], usd(0), usd(0));
    assert_eq!(r.err(), Some(LedgerError::DuplicateName));
    let r = Portfolio::from_parts(vec![v("a"), v("salary")], vec![], vec![], usd(0), usd(0));
    assert_eq!(r.err(), Some(LedgerError::DuplicateName));
    let r = Portfolio::from_parts(vec![v("Ignore")], vec![], vec![], usd(0), usd(0));
    assert_eq!(r.err(), Some(LedgerError::DuplicateName));
    assert!(Portfolio::from_parts(vec![v("a"), v("b")], vec![], vec![], usd(0), usd(0)).is_ok());
}

#[test]
fn restored_portfolio_needs_totals_that_fit() {
    let big = |name: &str| {
        let mut v = Vope::new(name.to_string(), usd(0));
        v.credit(usd(i64::MAX));
        v
    };
    let r = Portfolio::from_parts(vec![big("a"), big("b")], vec![], vec![], usd(0), usd(0));
    assert_eq!(r.err(), Some(LedgerError::AmountOutOfRange));
    let r = Portfolio::from_parts(vec![big("a")], vec![], vec![], usd(1), usd(0));
    assert_eq!(r.err(), Some(LedgerError::AmountOutOfRange));
    let r = Portfolio::from_parts(vec![big("a")], vec![], vec![], usd(-1), usd(0));
    assert_eq!(r.unwrap().view_holdings(), usd(i64::MAX - 1));
    let rich = |name: &str| Vope::new(name.to_string(), usd(i64::MAX));
    let r = Portfolio::from_parts(vec![rich("a"), rich("b")], vec![], vec![], usd(0), usd(0));
    assert_eq!(r.err(), Some(LedgerError::AmountOutOfRange));
}

#[test]
fn envelope_credit_debit_and_record() {
    let mut v = Vope::new("Fun".to_string(), usd(2500));
    assert_eq!((v.name.as_str(), v.budget, v.actual_amount), ("Fun", usd(2500), usd(0)));
    assert!(v.transactions.is_empty());
    v.credit(usd(100));
    v.debit(usd(250));
    assert_eq!(v.actual_amount, usd(-150));
    v.credit(usd(i64::MAX));
    v.credit(usd(i64::MAX));
    assert_eq!(v.actual_amount, usd(i64::MAX));
    v.debit(usd(i64::MAX));
    v.debit(usd(i64::MAX));
    v.debit(usd(i64::MAX));
    assert_eq!(v.actual_amount, usd(i64::MIN));
    let t = tx(1, "a", 5);
    assert!(!v.holds(&t));
    v.record(t.clone());
    v.record(tx(2, "b", 6));
    assert!(v.holds(&t));
    assert!(v.holds(&tx(1, "a", 99)));
    assert!(!v.holds(&tx(1, "b", 5)));
    assert_eq!(v.transactions.len(), 2);
    let w = v.clone();
    assert_eq!((w.name, w.budget, w.actual_amount, w.transactions.len()), (v.name, v.budget, v.actual_amount, 2));
}

#[test]
fn name_stands_for_an_envelope_or_a_reserved_one() {
    assert!(matches!(EnvelopeRef::from_name("Salary"), EnvelopeRef::UnassignedIncome));
    assert!(matches!(EnvelopeRef::from_name("sALARY"), EnvelopeRef::UnassignedIncome));
    assert!(matches!(EnvelopeRef::from_name("ignore"), EnvelopeRef::Ignored));
    assert!(matches!(EnvelopeRef::from_name("Ignored"), EnvelopeRef::User(n) if n == "Ignored"));
    assert!(matches!(EnvelopeRef::from_name("Rent"), EnvelopeRef::User(n) if n == "Rent"));
    assert!(matches!(EnvelopeRef::from_name(""), EnvelopeRef::User(n) if n.is_empty()));
}

#[test]
fn assign_to_a_reference() {
    let mut p = household();
    let t = tx(15, "Market", -1234);
    assert_eq!(p.assign_to(&EnvelopeRef::User("GROCERIES".to_string()), &t), Ok(()));
    assert_eq!(balances(&p), vec![0, -1234]);
    assert_eq!(p.assign_to(&EnvelopeRef::Ignored, &tx(16, "Gift", 5)), Ok(()));
    assert_eq!(p.view_ignored().transactions.len(), 1);
    assert_eq!(
        p.assign_to(&EnvelopeRef::UnassignedIncome, &tx(17, "Employer", 90000)),
        Err(LedgerError::InsufficientPaycheck)
    );
    assert_eq!(p.assign_to(&EnvelopeRef::UnassignedIncome, &tx(17, "Employer", 120000)), Ok(()));
    assert_eq!(balances(&p), vec![40000, 80000 - 1234]);
    assert_eq!(p.view_holdings(), usd(120000 - 1234));
}

#[test]
fn assign_to_an_envelope_named_like_a_reserved_one_finds_none() {
    let mut p = household();
    let t = tx(15, "Market", 100);
    assert_eq!(
        p.assign_to(&EnvelopeRef::User("Salary".to_string()), &t),
        Err(LedgerError::UnknownEnvelope)
    );
    assert_eq!(
        p.assign_to(&EnvelopeRef::User("Ignore".to_string()), &t),
        Err(LedgerError::UnknownEnvelope)
    );
    assert_eq!(balances(&p), vec![0, 0]);
    assert!(!p.categorized(&t));
}

#[test]
fn paycheck_size_can_be_set() {
    let mut p = household();
    assert_eq!(p.cash_paycheck(usd(50000)), Err(LedgerError::InsufficientPaycheck));
    p.set_paycheck(usd(60000));
    assert_eq!(p.view_paycheck(), usd(60000));
    assert_eq!(p.cash_paycheck(usd(50000)), Err(LedgerError::InsufficientPaycheck));
    assert_eq!(p.cash_paycheck(usd(50001)), Ok(()));
    assert_eq!(names(&p), vec!["Default", "Groceries"]);
    assert_eq!(p.view_budgeted(), usd(30000));
}

#[test]
fn summary_of_a_portfolio() {
    let mut p = household();
    p.assign("Groceries", &tx(1, "a", -1234)).unwrap();
    assert_eq!(
        p.to_string(),
        "Budgeted: $300.00\nHoldings: $-12.34\n  Default | $0.00 | $100.00\n  Groceries | $-12.34 | $200.00\n"
    );
    let q = Portfolio::new(usd(0), usd(0));
    assert_eq!(q.to_string(), "Budgeted: $0.00\nHoldings: $0.00\n  Default | $0.00 | $0.00\n");
}

#[test]
fn portfolio_is_well_formed_after_every_step() {
    let mut p = Portfolio::new(usd(10000), usd(0));
    assert!(p.is_well_formed());
    p.add_vope("Groceries", usd(20000)).unwrap();
    assert!(p.is_well_formed());
    p.assign("Salary", &tx(1, "Employer", 77777)).unwrap();
    assert!(p.is_well_formed());
    p.assign_transaction(&[("Groceries", 2), ("Ignore", 1)], &tx(4, "Mall", -10001), false).unwrap();
    assert!(p.is_well_formed());
    p.transfer_holdings("Default", "Groceries", usd(5)).unwrap();
    assert!(p.is_well_formed());
    p.remove_vope("Groceries").unwrap();
    assert!(p.is_well_formed());
    p.set_paycheck(usd(5));
    assert!(p.is_well_formed());
    let v = Vope::new("Main".to_string(), usd(100));
    let q = Portfolio::from_parts(vec![v], vec![], vec![tx(3, "x", 7)], usd(7), usd(90)).unwrap();
    assert!(q.is_well_formed());
}
