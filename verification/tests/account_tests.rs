use money_man::account::Account;
use money_man::date::Date;
use money_man::dollar::Dollar;
use money_man::error::LedgerError;
use money_man::portfolio::Portfolio;
use money_man::transaction::Transaction;

fn cents(c: i64) -> Dollar {
    Dollar::from_cents(c)
}

fn line(day: u32, desc: &str, c: i64) -> Transaction {
    Transaction::new(Date::from_ymd(2024, 5, day).unwrap(), desc.to_string(), cents(c))
}

#[test]
fn new_account_is_of_an_unknown_user() {
    let a = Account::new(cents(10000), cents(0));
    assert_eq!(a.get_name(), "Unknown");
    assert_eq!(a.get_date(), "Today");
    assert_eq!(a.get_portfolio().view_vopes().len(), 1);
    assert_eq!(a.get_portfolio().view_budgeted(), cents(10000));
}

#[test]
fn account_of_parts() {
    let p = Portfolio::new(cents(1), cents(2));
    let a = Account::from_parts("Ada".to_string(), "2024-05-01".to_string(), p);
    assert_eq!(a.get_name(), "Ada");
    assert_eq!(a.get_date(), "2024-05-01");
    assert_eq!(a.get_portfolio().view_paycheck(), cents(2));
}

#[test]
fn account_adds_removes_and_transfers() {
    let mut a = Account::new(cents(10000), cents(0));
    assert_eq!(a.add_vope("Groceries", cents(20000)), Ok(()));
    assert_eq!(a.add_vope("groceries", cents(20000)), Err(LedgerError::DuplicateName));
    assert_eq!(a.transfer("Default", "Groceries", cents(5)), Ok(()));
    assert_eq!(a.transfer("Default", "Rent", cents(5)), Err(LedgerError::UnknownEnvelope));
    assert_eq!(a.get_portfolio().view_vopes()[1].actual_amount, cents(5));
    assert_eq!(a.rm_vope("Rent"), Err(LedgerError::UnknownEnvelope));
    assert_eq!(a.rm_vope("Default"), Err(LedgerError::NotRemovable));
    assert_eq!(a.rm_vope("Groceries"), Ok(()));
    assert_eq!(a.get_portfolio().view_vopes().len(), 1);
    assert_eq!(a.get_portfolio().view_vopes()[0].actual_amount, cents(0));
    assert_eq!(a.get_portfolio().view_budgeted(), cents(10000));
}

#[test]
fn account_assigns_under_a_name() {
    let mut a = Account::new(cents(10000), cents(50000));
    a.add_vope("Groceries", cents(30000)).unwrap();
    assert_eq!(a.update_vope("Groceries", &line(1, "Market", -250)), Ok(()));
    assert_eq!(a.update_vope("Ignore", &line(2, "Gift", 9)), Ok(()));
    assert_eq!(a.update_vope("Salary", &line(3, "Employer", 40000)), Err(LedgerError::InsufficientPaycheck));
    assert_eq!(a.update_vope("Salary", &line(3, "Employer", 40001)), Ok(()));
    assert_eq!(a.update_vope("Rent", &line(4, "Landlord", 1)), Err(LedgerError::UnknownEnvelope));
    let p = a.get_portfolio();
    assert_eq!(p.view_vopes()[0].actual_amount, cents(10000));
    assert_eq!(p.view_vopes()[1].actual_amount, cents(30001 - 250));
    assert_eq!(p.view_holdings(), cents(40001 - 250));
    assert_eq!(a.get_vope_history("groceries").unwrap().len(), 1);
    assert_eq!(a.get_vope_history("salary").unwrap().len(), 1);
    assert_eq!(a.get_vope_history("Rent").err(), Some(LedgerError::UnknownEnvelope));
}

#[test]
fn account_offers_what_is_not_yet_assigned() {
    let mut a = Account::new(cents(10000), cents(0));
    a.update_vope("Default", &line(1, "Market", -250)).unwrap();
    let list = vec![line(2, "Gift", 9), line(1, "Market", -250), line(1, "Market", 7), line(2, "Gift", 9)];
    let left = a.get_uncatorgorized(&list);
    assert_eq!(left.len(), 2);
    assert!(left[0] == list[0] && left[1] == list[3]);
}

#[test]
fn account_portfolio_can_be_changed_in_place() {
    let mut a = Account::new(cents(10000), cents(0));
    a.get_portfolio_mut().add_vope("Rent", cents(70000)).unwrap();
    let r = a.get_portfolio_mut().assign_transaction(&[("Rent", 3), ("Default", 1)], &line(1, "x", 100), false);
    assert_eq!(r, Ok(cents(0)));
    assert_eq!(a.get_portfolio().view_vopes()[1].actual_amount, cents(75));
    assert_eq!(a.get_portfolio().view_holdings(), cents(100));
}

#[test]
fn account_is_well_formed() {
    let mut a = Account::new(cents(10000), cents(0));
    assert!(a.is_well_formed());
    a.add_vope("Rent", cents(70000)).unwrap();
    a.update_vope("Rent", &line(1, "x", 100)).unwrap();
    assert!(a.is_well_formed());
}
