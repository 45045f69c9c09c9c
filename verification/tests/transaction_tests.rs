use money_man::date::Date;
use money_man::dollar::Dollar;
use money_man::error::LedgerError;
use money_man::sorting::{drop_repeats, sort_transactions};
use money_man::transaction::{parse_transactions, text_comes_before, Transaction};
use regex::Regex;
use std::cmp::Ordering;
use std::collections::HashSet;

fn tx(y: i32, m: u32, d: u32, desc: &str, cents: i64) -> Transaction {
    Transaction::new(Date::from_ymd(y, m, d).unwrap(), desc.to_string(), Dollar::from_cents(cents))
}

fn triple(t: &Transaction) -> (i32, u32, u32, String, i64) {
    (t.date.year(), t.date.month(), t.date.day(), t.desc.clone(), t.charge.cents())
}

#[test]
fn transaction_new_keeps_its_parts() {
    let t = tx(2024, 3, 15, "Coffee Shop", -450);
    assert_eq!(triple(&t), (2024, 3, 15, "Coffee Shop".to_string(), -450));
}

#[test]
fn transaction_token_of_coffee_shop() {
    assert_eq!(tx(2024, 3, 15, "Coffee Shop", -450).to_token(), "2024-03-15 | Coffee Shop | $-4.50");
    assert_eq!(tx(2024, 12, 1, "Pay", 123456).to_token(), "2024-12-01 | Pay | $1234.56");
}

#[test]
fn transaction_round_trip_coffee_shop() {
    let t = Transaction::from_token("2024-03-15 | Coffee Shop | $-4.50").unwrap();
    assert_eq!(triple(&t), (2024, 3, 15, "Coffee Shop".to_string(), -450));
    assert_eq!(t.to_token(), "2024-03-15 | Coffee Shop | $-4.50");
    let back = Transaction::from_token(&t.to_token()).unwrap();
    assert_eq!(triple(&back), triple(&t));
}

#[test]
fn transaction_round_trip_of_many() {
    for t in [
        tx(2024, 3, 15, "Coffee Shop", -450),
        tx(1, 1, 1, "a", 0),
        tx(0, 2, 29, " spaces  inside ", 1),
        tx(9999, 12, 31, "$$$ - 4.50 $", i64::MAX),
        tx(2020, 2, 29, "naïve café ☕", i64::MIN),
        tx(1999, 10, 5, "2024-03-15", -1),
    ] {
        let back = Transaction::from_token(&t.to_token()).unwrap();
        assert_eq!(triple(&back), triple(&t));
    }
}

#[test]
fn transaction_token_amount_with_more_or_fewer_decimals() {
    let t = Transaction::from_token("2024-03-15 | x | $1.0").unwrap();
    assert_eq!(t.charge.cents(), 100);
    let t = Transaction::from_token("2024-03-15 | x | $1.005").unwrap();
    assert_eq!(t.charge.cents(), 101);
    let t = Transaction::from_token("2024-03-15 | x | $-0.004").unwrap();
    assert_eq!(t.charge.cents(), 0);
}

#[test]
fn transaction_token_description_may_hold_spaces_at_its_ends() {
    let t = Transaction::from_token("2024-03-15 |  a  | $1.00").unwrap();
    assert_eq!(t.desc, " a ");
}

#[test]
fn transaction_token_malformed() {
    for token in [
        "",
        "2024-03-15",
        "2024-03-15 | Coffee Shop",
        "2024-03-15 | Coffee Shop | 4.50",
        "2024-03-15 | Coffee Shop | $4",
        "2024-03-15 | Coffee Shop | $4.",
        "2024-03-15 | Coffee Shop | $.50",
        "2024-03-15 | Coffee Shop | $+4.50",
        "2024-03-15 | Coffee Shop | $4.50 ",
        "2024-03-15 | Coffee Shop | $4.50\n",
        "2024-03-15 | Coffee Shop | $4.5.0",
        "2024-03-15 | Coffee Shop | $ 4.50",
        "2024-03-15 | Coffee Shop |$4.50",
        "2024-03-15 | Coffee Shop| $4.50",
        "2024-03-15| Coffee Shop | $4.50",
        "2024-03-15 |Coffee Shop | $4.50",
        "2024-03-15 |  | $4.50",
        "2024-03-15 | | $4.50",
        "2024-03-15 | a|b | $4.50",
        "2024-03-15 | a | b | $4.50",
        "2024-3-15 | Coffee Shop | $4.50",
        "24-03-15 | Coffee Shop | $4.50",
        "2024/03/15 | Coffee Shop | $4.50",
        " 2024-03-15 | Coffee Shop | $4.50",
        "2024-03-1a | Coffee Shop | $4.50",
        "2024-03-15 | Coffee Shop | $--4.50",
    ] {
        assert_eq!(
            Transaction::from_token(token).err(),
            Some(LedgerError::MalformedTransactionToken),
            "{:?}",
            token
        );
    }
}

#[test]
fn transaction_token_with_a_day_that_does_not_exist() {
    for token in [
        "2024-02-30 | x | $1.00",
        "2023-02-29 | x | $1.00",
        "2024-13-01 | x | $1.00",
        "2024-00-10 | x | $1.00",
        "2024-01-00 | x | $1.00",
        "2024-04-31 | x | $1.00",
    ] {
        assert_eq!(Transaction::from_token(token).err(), Some(LedgerError::ParseFailure), "{}", token);
    }
}

#[test]
fn transaction_token_with_an_amount_that_does_not_fit() {
    assert_eq!(
        Transaction::from_token("2024-03-15 | x | $92233720368547758.08").err(),
        Some(LedgerError::ParseFailure)
    );
    assert_eq!(
        Transaction::from_token("2024-03-15 | x | $92233720368547758.07").unwrap().charge.cents(),
        i64::MAX
    );
}

#[test]
fn transaction_token_form_agrees_with_the_pattern() {
    let pattern = Regex::new(r"^(\d{4}-\d{2}-\d{2}) \| ([^\|]+) \| \$(-?[0-9]+\.[0-9]+)$").unwrap();
    for token in [
        "2024-03-15 | Coffee Shop | $-4.50",
        "2024-03-15 | Coffee Shop | $4.50",
        "2024-03-15 | Coffee Shop | $4",
        "2024-03-15 | Coffee Shop | $4.",
        "2024-03-15 | Coffee Shop | $.5",
        "2024-03-15 | Coffee Shop | $4.50\n",
        "2024-03-15 | Coffee\nShop | $4.50",
        "2024-03-15 |  | $4.50",
        "2024-03-15 |   | $4.50",
        "2024-03-15 |  |  | $4.50",
        "2024-03-15 | a | $4.50 | $4.50",
        "2024-03-15 | a | | $4.50",
        "2024-03-15 | a  | $4.50",
        "2024-03-15 | $1.00 | $4.50",
        "2024-03-15 | a | $-4.50",
        "2024-03-15 | a | $--4.50",
        "2024-03-15 | a | $-",
        "2024-03-15 | a | $",
        "2024-03-15 | a | ",
        "2024-03-15 | a |",
        "2024-03-15 | a",
        "2024-03-15 | ",
        "2024-03-15 |",
        "2024-03-15",
        "2024-99-99 | a | $0.0",
        "0000-00-00 | a | $0.0",
        "2024-03-15  | a | $1.00",
        "x2024-03-15 | a | $1.00",
        "2024-03-15 | a | $1.00x",
        "2024-03-15 | é | $1.00",
        "",
    ] {
        let ours = Transaction::from_token(token).err() != Some(LedgerError::MalformedTransactionToken);
        assert_eq!(ours, pattern.is_match(token), "{:?}", token);
    }
}

#[test]
fn transaction_token_description_as_the_pattern_takes_it() {
    let pattern = Regex::new(r"^(\d{4}-\d{2}-\d{2}) \| ([^\|]+) \| \$(-?[0-9]+\.[0-9]+)$").unwrap();
    for token in ["2024-03-15 |  a  b   | $-4.50", "2024-03-15 | a | $0.5", "2024-03-15 |    | $1.25"] {
        let found = pattern.captures(token).unwrap();
        let t = Transaction::from_token(token).unwrap();
        assert_eq!(t.desc, &found[2]);
        assert_eq!(t.date.to_string(), &found[1]);
    }
}

#[test]
fn transaction_same_where_day_and_description_are_the_same() {
    let a = tx(2024, 3, 15, "Coffee Shop", -450);
    let b = tx(2024, 3, 15, "Coffee Shop", -999);
    let c = tx(2024, 3, 16, "Coffee Shop", -450);
    let d = tx(2024, 3, 15, "Coffee shop", -450);
    assert!(a == b);
    assert!(a.same_as(&b));
    assert!(a != c && !a.same_as(&c));
    assert!(a != d && !a.same_as(&d));
}

#[test]
fn transaction_order_by_day_then_description_then_amount() {
    let a = tx(2024, 3, 14, "z", 5);
    let b = tx(2024, 3, 15, "a", 5);
    let c = tx(2024, 3, 15, "b", -5);
    let d = tx(2024, 3, 15, "b", 5);
    assert!(a.comes_before(&b) && b.comes_before(&c) && c.comes_before(&d));
    assert!(!b.comes_before(&a) && !c.comes_before(&b) && !d.comes_before(&c));
    assert!(!d.comes_before(&d));
    assert!(a < b && b < c && c < d);
}

#[test]
fn text_order_is_by_character() {
    let v = |s: &str| s.chars().collect::<Vec<char>>();
    assert!(text_comes_before(&v(""), &v("a")));
    assert!(!text_comes_before(&v("a"), &v("")));
    assert!(!text_comes_before(&v(""), &v("")));
    assert!(text_comes_before(&v("a"), &v("ab")));
    assert!(text_comes_before(&v("ab"), &v("b")));
    assert!(text_comes_before(&v("B"), &v("a")));
    assert!(!text_comes_before(&v("abc"), &v("abc")));
    assert!(text_comes_before(&v("z"), &v("é")));
    for (a, b) in [("a", "b"), ("é", "z"), ("", "x"), ("ab", "a"), ("same", "same"), ("Z", "a")] {
        assert_eq!(text_comes_before(&v(a), &v(b)), a < b);
    }
}

#[test]
fn transaction_clone_is_the_same_in_all_parts() {
    let a = tx(2024, 3, 15, "Coffee Shop", -450);
    assert_eq!(triple(&a.clone()), triple(&a));
}

#[test]
fn statement_row_is_read() {
    let t = Transaction::from_record("03/15/2024", "Coffee Shop", "$-4.50").unwrap();
    assert_eq!(triple(&t), (2024, 3, 15, "Coffee Shop".to_string(), -450));
    let t = Transaction::from_record("3/5/2024", "x", "1,000").unwrap();
    assert_eq!(triple(&t), (2024, 3, 5, "x".to_string(), 100000));
}

#[test]
fn statement_row_with_an_amount_that_is_none_counts_as_zero() {
    let t = Transaction::from_record("03/15/2024", "Coffee Shop", "n/a").unwrap();
    assert_eq!(t.charge.cents(), 0);
}

#[test]
fn statement_row_with_a_date_that_is_none_fails() {
    assert_eq!(Transaction::from_record("2024-03-15", "x", "1").err(), Some(LedgerError::ParseFailure));
    assert_eq!(Transaction::from_record("02/30/2024", "x", "1").err(), Some(LedgerError::ParseFailure));
    assert_eq!(Transaction::from_record("", "x", "1").err(), Some(LedgerError::ParseFailure));
}

#[test]
fn statement_row_of_a_date_that_was_read() {
    let d = Date::from_ymd(2024, 3, 15);
    let t = Transaction::with_date(d, "x", "$2").unwrap();
    assert_eq!(triple(&t), (2024, 3, 15, "x".to_string(), 200));
    assert_eq!(Transaction::with_date(None, "x", "$2").err(), Some(LedgerError::ParseFailure));
}

#[test]
fn statement_rows_are_read_in_order() {
    let rows = vec![
        ("03/15/2024".to_string(), "Coffee Shop".to_string(), "-4.50".to_string()),
        ("03/16/2024".to_string(), "Pay".to_string(), "$1,000.00".to_string()),
    ];
    let list = parse_transactions(&rows).unwrap();
    assert_eq!(list.len(), 2);
    assert_eq!(triple(&list[0]), (2024, 3, 15, "Coffee Shop".to_string(), -450));
    assert_eq!(triple(&list[1]), (2024, 3, 16, "Pay".to_string(), 100000));
    assert_eq!(parse_transactions(&vec![]).unwrap().len(), 0);
}

#[test]
fn statement_rows_fail_on_one_bad_date() {
    let rows = vec![
        ("03/15/2024".to_string(), "Coffee Shop".to_string(), "-4.50".to_string()),
        ("yesterday".to_string(), "Pay".to_string(), "$1,000.00".to_string()),
    ];
    assert_eq!(parse_transactions(&rows).err(), Some(LedgerError::ParseFailure));
}

#[test]
fn sorting_puts_transactions_in_order() {
    let mut list = vec![
        tx(2024, 3, 15, "b", 5),
        tx(2024, 3, 14, "z", 5),
        tx(2024, 3, 15, "b", -5),
        tx(2024, 3, 15, "a", 5),
        tx(2023, 1, 1, "q", 0),
    ];
    let mut expected = list.clone();
    expected.sort();
    sort_transactions(&mut list);
    let got: Vec<_> = list.iter().map(triple).collect();
    let want: Vec<_> = expected.iter().map(triple).collect();
    assert_eq!(got, want);
    assert_eq!(got[0].3, "q");
    assert_eq!((got[3].3.as_str(), got[3].4), ("b", -5));
    assert_eq!((got[4].3.as_str(), got[4].4), ("b", 5));
}

#[test]
fn dropping_repeats_keeps_the_first_of_each_run() {
    let mut list = vec![
        tx(2024, 3, 15, "a", 1),
        tx(2024, 3, 15, "a", 2),
        tx(2024, 3, 15, "b", 3),
        tx(2024, 3, 15, "a", 4),
        tx(2024, 3, 15, "a", 5),
    ];
    drop_repeats(&mut list);
    let got: Vec<i64> = list.iter().map(|t| t.charge.cents()).collect();
    assert_eq!(got, vec![1, 3, 4]);
    let mut none: Vec<Transaction> = vec![];
    drop_repeats(&mut none);
    sort_transactions(&mut none);
    assert!(none.is_empty());
}

#[test]
fn transaction_identity_leaves_the_amount_out() {
    let a = tx(2024, 3, 15, "Coffee Shop", -450);
    let b = tx(2024, 3, 15, "Coffee Shop", -999);
    let c = tx(2024, 3, 16, "Coffee Shop", -450);
    let d = tx(2024, 3, 15, "Coffee", -450);
    assert_eq!(a.identity(), (Date::from_ymd(2024, 3, 15).unwrap(), "Coffee Shop".to_string()));
    assert_eq!(a.identity(), b.identity());
    assert_ne!(a.identity(), c.identity());
    assert_ne!(a.identity(), d.identity());
    let mut seen = HashSet::new();
    assert!(seen.insert(a.identity()));
    assert!(!seen.insert(b.identity()));
    assert!(seen.insert(c.identity()));
    assert!(seen.insert(d.identity()));
    assert_eq!(seen.len(), 3);
}

#[test]
fn transaction_comparison_follows_the_order() {
    let a = tx(2024, 3, 15, "b", -5);
    let b = tx(2024, 3, 15, "b", 5);
    let c = tx(2024, 3, 16, "a", 0);
    assert_eq!(a.partial_cmp(&b), Some(Ordering::Less));
    assert_eq!(b.partial_cmp(&a), Some(Ordering::Greater));
    assert_eq!(a.partial_cmp(&a), Some(Ordering::Equal));
    assert_eq!(b.partial_cmp(&c), Some(Ordering::Less));
    assert_eq!(a.cmp(&b), Ordering::Less);
    assert_eq!(c.cmp(&a), Ordering::Greater);
    assert!(a <= b && b >= a && !(a > b));
}
